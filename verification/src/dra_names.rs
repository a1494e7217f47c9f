//! Which device names the DRA table lists for each pod.
use vstd::prelude::*;

use crate::aggregate::{opt_text, NodeRow, PodEntry, PodEntryView};
use crate::aggregate_dra::{
    aggregate_dra_spec, claim_node_index, claims_fold, consumer_step, consumers_fold,
    counts_fold, dra_capacity, dra_index, dra_nodes_spec, dra_rows, pod_index, pool_infos_spec,
    result_step, results_fold, ClaimNodeView, DraNodeView, PoolView,
};
use crate::cluster::{ClaimInfo, ConsumerInfo, DeviceResultInfo, NodeInfo, SliceInfo};
use crate::dra_counts::{keys_unique, nodes_unique, pods_unique};
use crate::dra_devices::result_node;
use crate::dra_pods::{
    claims_on, counted_result, lemma_capacity_pods, lemma_claims_fold_pods,
    lemma_consumers_fold_pods, lemma_counts_fold_pods, lemma_distinct_index,
    lemma_dra_nodes_no_pods, lemma_results_fold_facts, results_on,
};
use crate::dra_properties::{
    dra_distinct, dra_row_of, lemma_dra_capacity, lemma_dra_nodes, lemma_dra_rows,
    lemma_results_fold,
};
use crate::search::{lemma_first_index, lemma_first_index_facts};
use crate::sorting::{lemma_sort_same_elements, sort_seq};

verus! {

/// The device names of the entry for the pod `name` of namespace `ns`, or none.
pub open spec fn entry_devices(pods: Seq<PodEntryView>, ns: Seq<char>, name: Seq<char>) -> Seq<Seq<char>> {
    let j = pod_index(pods, ns, name);
    if j >= 0 {
        pods[j].devices
    } else {
        Seq::empty()
    }
}

proof fn lemma_index_push(pods: Seq<PodEntryView>, e: PodEntryView, ns: Seq<char>, name: Seq<char>)
    requires
        pod_index(pods, e.namespace, e.name) < 0,
    ensures
        pod_index(pods.push(e), ns, name) == if pod_index(pods, ns, name) >= 0 {
            pod_index(pods, ns, name)
        } else if e.namespace == ns && e.name == name {
            pods.len() as int
        } else {
            -1
        },
        pod_index(pods, ns, name) >= 0 ==> !(e.namespace == ns && e.name == name),
{
    let q = pods.push(e);
    let p = |x: PodEntryView| x.namespace == ns && x.name == name;
    lemma_first_index_facts(pods, p);
    lemma_first_index_facts(pods, |x: PodEntryView| x.namespace == e.namespace && x.name == e.name);
    let j = pod_index(pods, ns, name);
    if j >= 0 {
        assert forall|k: int| 0 <= k < j implies !p(#[trigger] q[k]) by {
            assert(q[k] == pods[k]);
        }
        assert(q[j] == pods[j]);
        lemma_first_index(q, p, j);
        if e.namespace == ns && e.name == name {
            assert(pods[j].namespace == e.namespace && pods[j].name == e.name);
        }
    } else {
        assert forall|k: int| 0 <= k < pods.len() implies !p(#[trigger] q[k]) by {
            assert(q[k] == pods[k]);
        }
        if e.namespace == ns && e.name == name {
            lemma_first_index(q, p, pods.len() as int);
        } else {
            lemma_first_index(q, p, q.len() as int);
        }
    }
}

proof fn lemma_index_update(pods: Seq<PodEntryView>, j: int, e: PodEntryView, ns: Seq<char>, name: Seq<char>)
    requires
        0 <= j < pods.len(),
        e.namespace == pods[j].namespace,
        e.name == pods[j].name,
        keys_unique(pods),
    ensures
        pod_index(pods.update(j, e), ns, name) == pod_index(pods, ns, name),
        pod_index(pods, ns, name) == j <==> (e.namespace == ns && e.name == name),
{
    let q = pods.update(j, e);
    let p = |x: PodEntryView| x.namespace == ns && x.name == name;
    assert forall|t: int| 0 <= t < pods.len() implies p(#[trigger] q[t]) == p(pods[t]) by {
        assert(q[t].namespace == pods[t].namespace && q[t].name == pods[t].name);
    }
    lemma_first_index_facts(pods, p);
    let k = pod_index(pods, ns, name);
    if k >= 0 {
        assert forall|t: int| 0 <= t < k implies !p(#[trigger] q[t]) by {
            assert(p(q[t]) == p(pods[t]));
        }
        assert(p(q[k]) == p(pods[k]));
        lemma_first_index(q, p, k);
        if k != j && e.namespace == ns && e.name == name {
            assert(pods[j].namespace == pods[k].namespace && pods[j].name == pods[k].name);
        }
    } else {
        assert forall|t: int| 0 <= t < q.len() implies !p(#[trigger] q[t]) by {
            assert(p(q[t]) == p(pods[t]));
        }
        lemma_first_index(q, p, q.len() as int);
        assert(!p(pods[j]));
    }
}

/// The device names that one step of a claim's consumers adds to a pod on a node.
pub open spec fn consumer_adds_devices(c: ConsumerInfo, cn: ClaimNodeView, ns: Seq<char>, ns2: Seq<char>, name: Seq<char>) -> Seq<Seq<char>> {
    if c.resource@ == "pods"@ && ns2 == ns && name == c.name@ {
        cn.devices
    } else {
        Seq::empty()
    }
}

proof fn lemma_consumer_step_devices(acc: Seq<DraNodeView>, cn: ClaimNodeView, ns: Seq<char>, c: ConsumerInfo)
    requires
        pods_unique(acc),
    ensures
        consumer_step(acc, cn, ns, c) matches Ok(b) ==> forall|i: int, ns2: Seq<char>, nm: Seq<char>| 0 <= i < acc.len() ==> #[trigger] entry_devices(b[i].pods, ns2, nm) == entry_devices(acc[i].pods, ns2, nm) + if i == dra_index(acc, cn.node) {
            consumer_adds_devices(c, cn, ns, ns2, nm)
        } else {
            Seq::empty()
        },
{
    if let Ok(b) = consumer_step(acc, cn, ns, c) {
        let i0 = dra_index(acc, cn.node);
        if c.resource@ != "pods"@ || i0 < 0 {
            assert(b == acc);
            assert forall|i: int, ns2: Seq<char>, nm: Seq<char>| 0 <= i < acc.len() implies #[trigger] entry_devices(b[i].pods, ns2, nm) == entry_devices(acc[i].pods, ns2, nm) + if i == i0 {
                consumer_adds_devices(c, cn, ns, ns2, nm)
            } else {
                Seq::empty()
            } by {
                assert(entry_devices(acc[i].pods, ns2, nm) + Seq::<Seq<char>>::empty() =~= entry_devices(acc[i].pods, ns2, nm));
            }
        } else {
            lemma_first_index_facts(acc, |n: DraNodeView| n.name == cn.node);
            let pods = acc[i0].pods;
            let j = pod_index(pods, ns, c.name@);
            lemma_first_index_facts(pods, |p: PodEntryView| p.namespace == ns && p.name == c.name@);
            assert(keys_unique(pods));
            assert forall|i: int, ns2: Seq<char>, nm: Seq<char>| 0 <= i < acc.len() implies #[trigger] entry_devices(b[i].pods, ns2, nm) == entry_devices(acc[i].pods, ns2, nm) + if i == i0 {
                consumer_adds_devices(c, cn, ns, ns2, nm)
            } else {
                Seq::empty()
            } by {
                let old_d = entry_devices(acc[i].pods, ns2, nm);
                lemma_first_index_facts(acc[i].pods, |x: PodEntryView| x.namespace == ns2 && x.name == nm);
                if i != i0 {
                    assert(b[i] == acc[i]);
                    assert(old_d + Seq::<Seq<char>>::empty() =~= old_d);
                } else if j < 0 {
                    let e = b[i0].pods.last();
                    assert(b[i0].pods == pods.push(e));
                    lemma_index_push(pods, e, ns2, nm);
                    if ns2 == ns && nm == c.name@ {
                        assert(pods.push(e)[pods.len() as int] == e);
                        assert(Seq::<Seq<char>>::empty() + cn.devices =~= cn.devices);
                    } else {
                        let k = pod_index(pods, ns2, nm);
                        if k >= 0 {
                            assert(pods.push(e)[k] == pods[k]);
                        }
                        assert(old_d + Seq::<Seq<char>>::empty() =~= old_d);
                    }
                } else {
                    let e = b[i0].pods[j];
                    assert(b[i0].pods == pods.update(j, e));
                    lemma_index_update(pods, j, e, ns2, nm);
                    let k = pod_index(pods, ns2, nm);
                    if k >= 0 && k != j {
                        assert(pods.update(j, e)[k] == pods[k]);
                    }
                    if !(ns2 == ns && nm == c.name@) {
                        assert(old_d + Seq::<Seq<char>>::empty() =~= old_d);
                    }
                }
            }
        }
    }
}

/// The device names `ds`, once for each consumer of `cs` that is the pod `name`.
pub open spec fn reserve_concat(cs: Seq<ConsumerInfo>, name: Seq<char>, ds: Seq<Seq<char>>) -> Seq<Seq<char>>
    decreases cs.len(),
{
    if cs.len() == 0 {
        Seq::empty()
    } else {
        reserve_concat(cs.drop_last(), name, ds) + if cs.last().resource@ == "pods"@ && cs.last().name@ == name {
            ds
        } else {
            Seq::empty()
        }
    }
}

proof fn lemma_reserve_concat_empty(cs: Seq<ConsumerInfo>, name: Seq<char>)
    ensures
        reserve_concat(cs, name, Seq::empty()) == Seq::<Seq<char>>::empty(),
    decreases cs.len(),
{
    if cs.len() > 0 {
        lemma_reserve_concat_empty(cs.drop_last(), name);
        assert(Seq::<Seq<char>>::empty() + Seq::<Seq<char>>::empty() =~= Seq::<Seq<char>>::empty());
    }
}

proof fn lemma_consumers_fold_devices(acc: Seq<DraNodeView>, cn: ClaimNodeView, ns: Seq<char>, cs: Seq<ConsumerInfo>)
    requires
        pods_unique(acc),
    ensures
        consumers_fold(acc, cn, ns, cs) matches Ok(b) ==> forall|i: int, ns2: Seq<char>, nm: Seq<char>| 0 <= i < acc.len() ==> #[trigger] entry_devices(b[i].pods, ns2, nm) == entry_devices(acc[i].pods, ns2, nm) + if i == dra_index(acc, cn.node) && ns2 == ns {
            reserve_concat(cs, nm, cn.devices)
        } else {
            Seq::empty()
        },
    decreases cs.len(),
{
    if cs.len() == 0 {
        if let Ok(b) = consumers_fold(acc, cn, ns, cs) {
            assert forall|i: int, ns2: Seq<char>, nm: Seq<char>| 0 <= i < acc.len() implies #[trigger] entry_devices(b[i].pods, ns2, nm) == entry_devices(acc[i].pods, ns2, nm) + if i == dra_index(acc, cn.node) && ns2 == ns {
                reserve_concat(cs, nm, cn.devices)
            } else {
                Seq::empty()
            } by {
                assert(entry_devices(acc[i].pods, ns2, nm) + Seq::<Seq<char>>::empty() =~= entry_devices(acc[i].pods, ns2, nm));
            }
        }
    } else {
        let d = cs.drop_last();
        let c = cs.last();
        lemma_consumers_fold_devices(acc, cn, ns, d);
        lemma_consumers_fold_pods(acc, cn, ns, d);
        crate::dra_counts::lemma_consumers_fold_unique(acc, cn, ns, d);
        if let Ok(b) = consumers_fold(acc, cn, ns, cs) {
            let a = consumers_fold(acc, cn, ns, d)->Ok_0;
            lemma_consumer_step_devices(a, cn, ns, c);
            crate::dra_pods::lemma_same_devices_index(acc, a, cn.node);
            assert forall|i: int, ns2: Seq<char>, nm: Seq<char>| 0 <= i < acc.len() implies #[trigger] entry_devices(b[i].pods, ns2, nm) == entry_devices(acc[i].pods, ns2, nm) + if i == dra_index(acc, cn.node) && ns2 == ns {
                reserve_concat(cs, nm, cn.devices)
            } else {
                Seq::empty()
            } by {
                let x = entry_devices(acc[i].pods, ns2, nm);
                let y = if i == dra_index(acc, cn.node) && ns2 == ns { reserve_concat(d, nm, cn.devices) } else { Seq::<Seq<char>>::empty() };
                let z = if i == dra_index(a, cn.node) { consumer_adds_devices(c, cn, ns, ns2, nm) } else { Seq::<Seq<char>>::empty() };
                assert(entry_devices(a[i].pods, ns2, nm) == x + y);
                assert(entry_devices(b[i].pods, ns2, nm) == entry_devices(a[i].pods, ns2, nm) + z);
                assert((x + y) + z =~= x + (y + z));
                if i == dra_index(acc, cn.node) && ns2 == ns {
                    assert(y + z =~= reserve_concat(cs, nm, cn.devices));
                } else {
                    assert(y + z =~= Seq::<Seq<char>>::empty());
                }
            }
        }
    }
}

/// The device names of `counts` for the node `name`, or none.
pub open spec fn devices_for(counts: Seq<ClaimNodeView>, name: Seq<char>) -> Seq<Seq<char>> {
    let t = claim_node_index(counts, name);
    if t >= 0 {
        counts[t].devices
    } else {
        Seq::empty()
    }
}

proof fn lemma_devices_for_push(d: Seq<ClaimNodeView>, cn: ClaimNodeView, name: Seq<char>)
    requires
        nodes_unique(d.push(cn)),
    ensures
        devices_for(d.push(cn), name) == if cn.node == name {
            cn.devices
        } else {
            devices_for(d, name)
        },
        cn.node == name ==> devices_for(d, name) == Seq::<Seq<char>>::empty(),
{
    let q = d.push(cn);
    let p = |c: ClaimNodeView| c.node == name;
    lemma_first_index_facts(d, p);
    let t = claim_node_index(d, name);
    if t >= 0 {
        assert forall|k: int| 0 <= k < t implies !p(#[trigger] q[k]) by {
            assert(q[k] == d[k]);
        }
        assert(q[t] == d[t]);
        lemma_first_index(q, p, t);
        if cn.node == name {
            assert(q[t].node == q[d.len() as int].node);
        }
    } else {
        assert forall|k: int| 0 <= k < d.len() implies !p(#[trigger] q[k]) by {
            assert(q[k] == d[k]);
        }
        if cn.node == name {
            lemma_first_index(q, p, d.len() as int);
        } else {
            lemma_first_index(q, p, q.len() as int);
        }
    }
}

proof fn lemma_devices_for_update(counts: Seq<ClaimNodeView>, ci: int, v: ClaimNodeView, name: Seq<char>)
    requires
        0 <= ci < counts.len(),
        v.node == counts[ci].node,
        nodes_unique(counts),
    ensures
        devices_for(counts.update(ci, v), name) == if counts[ci].node == name {
            v.devices
        } else {
            devices_for(counts, name)
        },
{
    let q = counts.update(ci, v);
    let p = |c: ClaimNodeView| c.node == name;
    assert forall|t: int| 0 <= t < counts.len() implies p(#[trigger] q[t]) == p(counts[t]) by {
        assert(q[t].node == counts[t].node);
    }
    lemma_first_index_facts(counts, p);
    let k = claim_node_index(counts, name);
    if k >= 0 {
        assert forall|t: int| 0 <= t < k implies !p(#[trigger] q[t]) by {
            assert(p(q[t]) == p(counts[t]));
        }
        assert(p(q[k]) == p(counts[k]));
        lemma_first_index(q, p, k);
        if k != ci {
            assert(q[k] == counts[k]);
            if counts[ci].node == name {
                assert(counts[ci].node == counts[k].node);
            }
        }
    } else {
        assert forall|t: int| 0 <= t < q.len() implies !p(#[trigger] q[t]) by {
            assert(p(q[t]) == p(counts[t]));
        }
        lemma_first_index(q, p, q.len() as int);
        assert(!p(counts[ci]));
    }
}

proof fn lemma_counts_fold_devices(acc: Seq<DraNodeView>, counts: Seq<ClaimNodeView>, ns: Seq<char>, cs: Seq<ConsumerInfo>)
    requires
        dra_distinct(acc),
        pods_unique(acc),
        nodes_unique(counts),
    ensures
        counts_fold(acc, counts, ns, cs) matches Ok(b) ==> forall|i: int, ns2: Seq<char>, nm: Seq<char>| 0 <= i < acc.len() ==> #[trigger] entry_devices(b[i].pods, ns2, nm) == entry_devices(acc[i].pods, ns2, nm) + if ns2 == ns {
            reserve_concat(cs, nm, devices_for(counts, acc[i].name))
        } else {
            Seq::empty()
        },
    decreases counts.len(),
{
    if counts.len() == 0 {
        if let Ok(b) = counts_fold(acc, counts, ns, cs) {
            assert forall|i: int, ns2: Seq<char>, nm: Seq<char>| 0 <= i < acc.len() implies #[trigger] entry_devices(b[i].pods, ns2, nm) == entry_devices(acc[i].pods, ns2, nm) + if ns2 == ns {
                reserve_concat(cs, nm, devices_for(counts, acc[i].name))
            } else {
                Seq::empty()
            } by {
                lemma_first_index_facts(counts, |c: ClaimNodeView| c.node == acc[i].name);
                lemma_reserve_concat_empty(cs, nm);
                assert(entry_devices(acc[i].pods, ns2, nm) + Seq::<Seq<char>>::empty() =~= entry_devices(acc[i].pods, ns2, nm));
            }
        }
    } else {
        let d = counts.drop_last();
        let cn = counts.last();
        assert(counts == d.push(cn));
        assert(nodes_unique(d)) by {
            assert forall|t: int, u: int| 0 <= t < u < d.len() implies (#[trigger] d[t]).node != (#[trigger] d[u]).node by {
                assert(d[t] == counts[t] && d[u] == counts[u]);
            }
        }
        lemma_counts_fold_devices(acc, d, ns, cs);
        lemma_counts_fold_pods(acc, d, ns, cs);
        crate::dra_counts::lemma_counts_fold_counts(acc, d, ns, cs);
        if let Ok(b) = counts_fold(acc, counts, ns, cs) {
            let a = counts_fold(acc, d, ns, cs)->Ok_0;
            assert(dra_distinct(a)) by {
                assert forall|x: int, y: int| 0 <= x < y < a.len() implies #[trigger] a[x].name != #[trigger] a[y].name by {
                    assert(a[x].name == acc[x].name && a[y].name == acc[y].name);
                }
            }
            lemma_consumers_fold_devices(a, cn, ns, cs);
            assert forall|i: int, ns2: Seq<char>, nm: Seq<char>| 0 <= i < acc.len() implies #[trigger] entry_devices(b[i].pods, ns2, nm) == entry_devices(acc[i].pods, ns2, nm) + if ns2 == ns {
                reserve_concat(cs, nm, devices_for(counts, acc[i].name))
            } else {
                Seq::empty()
            } by {
                let name = acc[i].name;
                assert(a[i].name == name);
                lemma_distinct_index(a, i, cn.node);
                lemma_devices_for_push(d, cn, name);
                lemma_reserve_concat_empty(cs, nm);
                let x = entry_devices(acc[i].pods, ns2, nm);
                let y = if ns2 == ns { reserve_concat(cs, nm, devices_for(d, name)) } else { Seq::<Seq<char>>::empty() };
                let z = if i == dra_index(a, cn.node) && ns2 == ns { reserve_concat(cs, nm, cn.devices) } else { Seq::<Seq<char>>::empty() };
                assert(entry_devices(a[i].pods, ns2, nm) == x + y);
                assert(entry_devices(b[i].pods, ns2, nm) == entry_devices(a[i].pods, ns2, nm) + z);
                assert((x + y) + z =~= x + (y + z));
                if ns2 == ns {
                    if cn.node == name {
                        assert(y + z =~= reserve_concat(cs, nm, cn.devices));
                    } else {
                        assert(y + z =~= y);
                    }
                } else {
                    assert(y + z =~= Seq::<Seq<char>>::empty());
                }
            }
        }
    }
}

/// The device names of the counted results of `rs` on the node `node`, in order.
pub open spec fn results_devices(rs: Seq<DeviceResultInfo>, pools: Seq<PoolView>, driver: Seq<char>, node: Seq<char>) -> Seq<Seq<char>>
    decreases rs.len(),
{
    if rs.len() == 0 {
        Seq::empty()
    } else {
        results_devices(rs.drop_last(), pools, driver, node) + if counted_result(rs.last(), pools, driver) && result_node(rs.last(), pools) == node {
            seq![rs.last().device@]
        } else {
            Seq::empty()
        }
    }
}

proof fn lemma_results_fold_devices(acc: Seq<DraNodeView>, rs: Seq<DeviceResultInfo>, pools: Seq<PoolView>, driver: Seq<char>)
    ensures
        results_fold(acc, rs, pools, driver) matches Ok(st) ==> forall|name: Seq<char>| #[trigger] devices_for(st.1, name) == results_devices(rs, pools, driver, name),
    decreases rs.len(),
{
    crate::dra_counts::lemma_results_fold_counts(acc, rs, pools, driver);
    if rs.len() == 0 {
        if let Ok(st) = results_fold(acc, rs, pools, driver) {
            assert forall|name: Seq<char>| #[trigger] devices_for(st.1, name) == results_devices(rs, pools, driver, name) by {
                lemma_first_index_facts(st.1, |c: ClaimNodeView| c.node == name);
            }
        }
    } else {
        let d = rs.drop_last();
        let r = rs.last();
        lemma_results_fold_devices(acc, d, pools, driver);
        crate::dra_counts::lemma_results_fold_counts(acc, d, pools, driver);
        if let Ok(st) = results_fold(acc, rs, pools, driver) {
            let s0 = results_fold(acc, d, pools, driver)->Ok_0;
            assert(st == result_step(s0, r, pools, driver)->Ok_0);
            let counts = s0.1;
            if !counted_result(r, pools, driver) {
                assert(st == s0);
                assert forall|name: Seq<char>| #[trigger] devices_for(st.1, name) == results_devices(rs, pools, driver, name) by {
                    assert(results_devices(d, pools, driver, name) + Seq::<Seq<char>>::empty() =~= results_devices(d, pools, driver, name));
                }
            } else {
                let node = result_node(r, pools);
                let ci = claim_node_index(counts, node);
                lemma_first_index_facts(counts, |c: ClaimNodeView| c.node == node);
                if ci < 0 {
                    let v = st.1.last();
                    assert(st.1 == counts.push(v));
                    assert forall|name: Seq<char>| #[trigger] devices_for(st.1, name) == results_devices(rs, pools, driver, name) by {
                        lemma_devices_for_push(counts, v, name);
                        assert(devices_for(counts, name) == results_devices(d, pools, driver, name));
                        if node == name {
                            assert(Seq::<Seq<char>>::empty() + seq![r.device@] =~= seq![r.device@]);
                        } else {
                            assert(results_devices(d, pools, driver, name) + Seq::<Seq<char>>::empty() =~= results_devices(d, pools, driver, name));
                        }
                    }
                } else {
                    let v = st.1[ci];
                    assert(st.1 == counts.update(ci, v));
                    assert forall|name: Seq<char>| #[trigger] devices_for(st.1, name) == results_devices(rs, pools, driver, name) by {
                        lemma_devices_for_update(counts, ci, v, name);
                        assert(devices_for(counts, name) == results_devices(d, pools, driver, name));
                        if node == name {
                            assert(claim_node_index(counts, name) == ci);
                            assert(v.devices =~= counts[ci].devices.push(r.device@));
                            assert(counts[ci].devices.push(r.device@) =~= counts[ci].devices + seq![r.device@]);
                        } else {
                            assert(results_devices(d, pools, driver, name) + Seq::<Seq<char>>::empty() =~= results_devices(d, pools, driver, name));
                        }
                    }
                }
            }
        }
    }
}

/// The device names that the claims give the pod `name` of namespace `ns` on the node
/// `node`: for each claim of that namespace, in order, the names of its counted results on
/// the node, once for each time the claim is reserved for the pod.
pub open spec fn pod_devices(
    claims: Seq<ClaimInfo>,
    pools: Seq<PoolView>,
    driver: Seq<char>,
    node: Seq<char>,
    ns: Seq<char>,
    name: Seq<char>,
) -> Seq<Seq<char>>
    decreases claims.len(),
{
    if claims.len() == 0 {
        Seq::empty()
    } else {
        let c = claims.last();
        pod_devices(claims.drop_last(), pools, driver, node, ns, name) + if opt_text(c.namespace) == ns {
            reserve_concat(c.reserved_for@, name, results_devices(c.results@, pools, driver, node))
        } else {
            Seq::empty()
        }
    }
}

proof fn lemma_results_devices_on(rs: Seq<DeviceResultInfo>, pools: Seq<PoolView>, driver: Seq<char>, node: Seq<char>)
    ensures
        results_devices(rs, pools, driver, node).len() != 0 ==> results_on(rs, pools, driver, node),
    decreases rs.len(),
{
    if rs.len() > 0 {
        let d = rs.drop_last();
        lemma_results_devices_on(d, pools, driver, node);
        if results_on(d, pools, driver, node) {
            let x = choose|x: int| 0 <= x < d.len() && counted_result(#[trigger] d[x], pools, driver) && pools[crate::aggregate_dra::pool_index(pools, d[x].pool@)].node_name == node;
            assert(rs[x] == d[x]);
        }
        assert(rs[rs.len() - 1] == rs.last());
    }
}

proof fn lemma_pod_devices_empty(claims: Seq<ClaimInfo>, pools: Seq<PoolView>, driver: Seq<char>, node: Seq<char>, ns: Seq<char>, name: Seq<char>)
    requires
        !claims_on(claims, pools, driver, node),
    ensures
        pod_devices(claims, pools, driver, node, ns, name) == Seq::<Seq<char>>::empty(),
    decreases claims.len(),
{
    if claims.len() > 0 {
        let d = claims.drop_last();
        let c = claims.last();
        assert(!claims_on(d, pools, driver, node)) by {
            if claims_on(d, pools, driver, node) {
                let m = choose|m: int| 0 <= m < d.len() && results_on((#[trigger] d[m]).results@, pools, driver, node);
                assert(claims[m] == d[m]);
            }
        }
        lemma_pod_devices_empty(d, pools, driver, node, ns, name);
        lemma_results_devices_on(c.results@, pools, driver, node);
        assert(claims[claims.len() - 1] == c);
        assert(results_devices(c.results@, pools, driver, node) =~= Seq::<Seq<char>>::empty());
        lemma_reserve_concat_empty(c.reserved_for@, name);
        assert(Seq::<Seq<char>>::empty() + Seq::<Seq<char>>::empty() =~= Seq::<Seq<char>>::empty());
    }
}

proof fn lemma_claims_fold_names(acc: Seq<DraNodeView>, claims: Seq<ClaimInfo>, pools: Seq<PoolView>, driver: Seq<char>)
    requires
        dra_distinct(acc),
        pods_unique(acc),
    ensures
        claims_fold(acc, claims, pools, driver) matches Ok(b) ==> forall|i: int, ns: Seq<char>, nm: Seq<char>| 0 <= i < b.len() ==> #[trigger] entry_devices(b[i].pods, ns, nm) == (if i < acc.len() {
            entry_devices(acc[i].pods, ns, nm)
        } else {
            Seq::empty()
        }) + pod_devices(claims, pools, driver, b[i].name, ns, nm),
    decreases claims.len(),
{
    lemma_claims_fold_pods(acc, claims, pools, driver);
    if claims.len() == 0 {
        if let Ok(b) = claims_fold(acc, claims, pools, driver) {
            assert forall|i: int, ns: Seq<char>, nm: Seq<char>| 0 <= i < b.len() implies #[trigger] entry_devices(b[i].pods, ns, nm) == (if i < acc.len() {
                entry_devices(acc[i].pods, ns, nm)
            } else {
                Seq::empty()
            }) + pod_devices(claims, pools, driver, b[i].name, ns, nm) by {
                assert(entry_devices(acc[i].pods, ns, nm) + Seq::<Seq<char>>::empty() =~= entry_devices(acc[i].pods, ns, nm));
            }
        }
    } else {
        let d = claims.drop_last();
        let c = claims.last();
        lemma_claims_fold_names(acc, d, pools, driver);
        lemma_claims_fold_pods(acc, d, pools, driver);
        crate::dra_counts::lemma_claims_fold_counts(acc, d, pools, driver);
        if let Ok(b) = claims_fold(acc, claims, pools, driver) {
            let a = claims_fold(acc, d, pools, driver)->Ok_0;
            assert(claims[claims.len() - 1] == c);
            lemma_results_fold(a, c.results@, pools, driver);
            lemma_results_fold_facts(a, c.results@, pools, driver);
            crate::dra_counts::lemma_results_fold_counts(a, c.results@, pools, driver);
            lemma_results_fold_devices(a, c.results@, pools, driver);
            let st = results_fold(a, c.results@, pools, driver)->Ok_0;
            let ns_c = opt_text(c.namespace);
            let res = c.reserved_for@;
            assert(pods_unique(st.0)) by {
                assert forall|i: int| 0 <= i < st.0.len() implies keys_unique(#[trigger] st.0[i].pods) by {
                    if i < a.len() {
                        assert(st.0[i].pods == a[i].pods);
                    } else {
                        assert(st.0[i].pods.len() == 0);
                    }
                }
            }
            lemma_counts_fold_devices(st.0, st.1, ns_c, res);
            lemma_counts_fold_pods(st.0, st.1, ns_c, res);
            assert(counts_fold(st.0, st.1, ns_c, res) == Ok::<Seq<DraNodeView>, crate::error::AggregateErrorView>(b));
            assert(b.len() == st.0.len());
            assert forall|i: int, ns: Seq<char>, nm: Seq<char>| 0 <= i < b.len() implies #[trigger] entry_devices(b[i].pods, ns, nm) == (if i < acc.len() {
                entry_devices(acc[i].pods, ns, nm)
            } else {
                Seq::empty()
            }) + pod_devices(claims, pools, driver, b[i].name, ns, nm) by {
                let name = st.0[i].name;
                assert(b[i].name == st.0[i].name);
                let w = if ns == ns_c { reserve_concat(res, nm, devices_for(st.1, name)) } else { Seq::<Seq<char>>::empty() };
                assert(entry_devices(b[i].pods, ns, nm) == entry_devices(st.0[i].pods, ns, nm) + w);
                assert(devices_for(st.1, name) == results_devices(c.results@, pools, driver, name));
                let base = if i < acc.len() { entry_devices(acc[i].pods, ns, nm) } else { Seq::<Seq<char>>::empty() };
                let prev = pod_devices(d, pools, driver, name, ns, nm);
                assert(pod_devices(claims, pools, driver, name, ns, nm) == prev + w);
                if i < a.len() {
                    assert(st.0[i].pods == a[i].pods);
                    assert(a[i].name == name);
                    assert(entry_devices(a[i].pods, ns, nm) == base + prev);
                    assert((base + prev) + w =~= base + (prev + w));
                } else {
                    assert(st.0[i].pods.len() == 0);
                    lemma_first_index_facts(st.0[i].pods, |p: PodEntryView| p.namespace == ns && p.name == nm);
                    assert(!claims_on(d, pools, driver, name)) by {
                        if claims_on(d, pools, driver, name) {
                            lemma_first_index_facts(a, |n: DraNodeView| n.name == name);
                            let k = dra_index(a, name);
                            assert(st.0[k].name == a[k].name);
                            assert(false);
                        }
                    }
                    lemma_pod_devices_empty(d, pools, driver, name, ns, nm);
                    assert(Seq::<Seq<char>>::empty() + w =~= w);
                    assert(Seq::<Seq<char>>::empty() + (Seq::<Seq<char>>::empty() + w) =~= w);
                }
            }
        }
    }
}

proof fn lemma_devices_of_unique(pods: Seq<PodEntryView>, y: int)
    requires
        keys_unique(pods),
        0 <= y < pods.len(),
    ensures
        entry_devices(pods, pods[y].namespace, pods[y].name) == pods[y].devices,
{
    let p = |x: PodEntryView| x.namespace == pods[y].namespace && x.name == pods[y].name;
    assert forall|k: int| 0 <= k < y implies !p(#[trigger] pods[k]) by {}
    lemma_first_index(pods, p, y);
}

/// The device names listed for each pod in a row of the DRA table (shown in place of the
/// count when devices are shown) are, claim by claim in order, the names of the claim's
/// counted devices on that row's node, once for each time the claim is reserved for the
/// pod, for the claims of the pod's namespace.
pub proof fn law_dra_pod_devices(
    nodes: Seq<NodeInfo>,
    slices: Seq<SliceInfo>,
    claims: Seq<ClaimInfo>,
    driver: Seq<char>,
    include_empty: bool,
)
    ensures
        aggregate_dra_spec(nodes, slices, claims, driver, include_empty) matches Ok(rows) ==> forall|j: int, x: int|
            0 <= j < rows.len() && 0 <= x < rows[j].pods.len() ==> (#[trigger] rows[j].pods[x]).devices == pod_devices(claims, pool_infos_spec(slices, driver)->Ok_0, driver, rows[j].node_name, rows[j].pods[x].namespace, rows[j].pods[x].name),
{
    lemma_dra_nodes(nodes);
    lemma_dra_nodes_no_pods(nodes);
    if let Ok(rows) = aggregate_dra_spec(nodes, slices, claims, driver, include_empty) {
        let acc0 = dra_nodes_spec(nodes)->Ok_0;
        let pools = pool_infos_spec(slices, driver)->Ok_0;
        lemma_dra_capacity(acc0, pools);
        lemma_capacity_pods(acc0, pools);
        let acc1 = dra_capacity(acc0, pools)->Ok_0;
        assert(dra_distinct(acc1));
        assert forall|i: int| 0 <= i < acc1.len() implies (#[trigger] acc1[i]).pods.len() == 0 by {
            if i < acc0.len() {
                assert(acc1[i].pods == acc0[i].pods);
            }
        }
        assert(pods_unique(acc1)) by {
            assert forall|i: int| 0 <= i < acc1.len() implies keys_unique(#[trigger] acc1[i].pods) by {
                assert(acc1[i].pods.len() == 0);
            }
        }
        lemma_claims_fold_names(acc1, claims, pools, driver);
        crate::dra_counts::lemma_claims_fold_counts(acc1, claims, pools, driver);
        let acc2 = claims_fold(acc1, claims, pools, driver)->Ok_0;
        lemma_dra_rows(acc2, include_empty);
        let unsorted = dra_rows(acc2, include_empty)->Ok_0;
        lemma_sort_same_elements::<NodeRow>(unsorted);
        assert forall|j: int, x: int| 0 <= j < rows.len() && 0 <= x < rows[j].pods.len() implies (#[trigger] rows[j].pods[x]).devices == pod_devices(claims, pools, driver, rows[j].node_name, rows[j].pods[x].namespace, rows[j].pods[x].name) by {
            assert(rows.contains(rows[j]));
            let u = choose|u: int| 0 <= u < unsorted.len() && unsorted[u] == rows[j];
            assert(dra_row_of(acc2, unsorted[u]));
            let i = choose|i: int| 0 <= i < acc2.len() && #[trigger] acc2[i].name == unsorted[u].node_name && acc2[i].capacity == unsorted[u].capacity && unsorted[u].pods == sort_seq::<PodEntry>(acc2[i].pods) && unsorted[u].allocated == acc2[i].allocated.len();
            let p = acc2[i].pods;
            assert(keys_unique(p));
            lemma_sort_same_elements::<PodEntry>(p);
            let e = rows[j].pods[x];
            assert(sort_seq::<PodEntry>(p).contains(e));
            assert(p.contains(e));
            let y = choose|y: int| 0 <= y < p.len() && p[y] == e;
            lemma_devices_of_unique(p, y);
            assert(entry_devices(p, e.namespace, e.name) == (if i < acc1.len() {
                entry_devices(acc1[i].pods, e.namespace, e.name)
            } else {
                Seq::empty()
            }) + pod_devices(claims, pools, driver, acc2[i].name, e.namespace, e.name));
            if i < acc1.len() {
                lemma_first_index_facts(acc1[i].pods, |q: PodEntryView| q.namespace == e.namespace && q.name == e.name);
            }
            assert(Seq::<Seq<char>>::empty() + pod_devices(claims, pools, driver, acc2[i].name, e.namespace, e.name) =~= pod_devices(claims, pools, driver, acc2[i].name, e.namespace, e.name));
        }
    }
}

} // verus!
