//! How many devices the DRA table shows for each pod.
use vstd::prelude::*;

use crate::aggregate::{opt_text, NodeRow, PodEntry, PodEntryView};
use crate::aggregate_dra::{
    aggregate_dra_spec, claim_node_index, claims_fold, consumer_step, consumers_fold,
    counts_fold, dra_capacity, dra_index, dra_nodes_spec, dra_rows, pod_index, pool_infos_spec,
    result_step, results_fold, ClaimNodeView, DraNodeView, PoolView,
};
use crate::cluster::{ClaimInfo, ConsumerInfo, DeviceResultInfo, NodeInfo, SliceInfo};
use crate::dra_devices::result_node;
use crate::dra_pods::{
    claims_on, counted_result, lemma_capacity_pods, lemma_claims_fold_pods,
    lemma_consumers_fold_pods, lemma_counts_fold_pods, lemma_distinct_index,
    lemma_dra_nodes_no_pods, lemma_results_fold_facts, results_on,
};
use crate::dra_properties::{
    dra_distinct, dra_row_of, lemma_dra_capacity, lemma_dra_nodes, lemma_dra_rows,
    lemma_results_fold,
};
use crate::search::{lemma_first_index, lemma_first_index_facts};
use crate::sorting::{
    insert_sorted, lemma_insert_sorted_is_insert, lemma_sort_same_elements, sort_seq,
};

verus! {

/// No two entries of `pods` are for the same pod.
pub open spec fn keys_unique(pods: Seq<PodEntryView>) -> bool {
    forall|x: int, y: int|
        0 <= x < y < pods.len() ==> !((#[trigger] pods[x]).namespace == (#[trigger] pods[y]).namespace && pods[x].name == pods[y].name)
}

/// The count of the entry for the pod `name` of namespace `ns`, or 0 when there is none.
pub open spec fn entry_count(pods: Seq<PodEntryView>, ns: Seq<char>, name: Seq<char>) -> int {
    let j = pod_index(pods, ns, name);
    if j >= 0 {
        pods[j].count as int
    } else {
        0
    }
}

/// Every node's pods have one entry each.
pub open spec fn pods_unique(acc: Seq<DraNodeView>) -> bool {
    forall|i: int| 0 <= i < acc.len() ==> keys_unique(#[trigger] acc[i].pods)
}

proof fn lemma_entry_push(pods: Seq<PodEntryView>, e: PodEntryView, ns: Seq<char>, name: Seq<char>)
    requires
        pod_index(pods, e.namespace, e.name) < 0,
    ensures
        entry_count(pods.push(e), ns, name) == entry_count(pods, ns, name) + if e.namespace == ns && e.name == name {
            e.count as int
        } else {
            0
        },
{
    let q = pods.push(e);
    let p = |x: PodEntryView| x.namespace == ns && x.name == name;
    lemma_first_index_facts(pods, p);
    lemma_first_index_facts(pods, |x: PodEntryView| x.namespace == e.namespace && x.name == e.name);
    let j = pod_index(pods, ns, name);
    if j >= 0 {
        assert forall|k: int| 0 <= k < j implies !p(#[trigger] q[k]) by {
            assert(q[k] == pods[k]);
        }
        assert(q[j] == pods[j]);
        lemma_first_index(q, p, j);
        if e.namespace == ns && e.name == name {
            assert(pods[j].namespace == e.namespace && pods[j].name == e.name);
        }
    } else {
        assert forall|k: int| 0 <= k < pods.len() implies !p(#[trigger] q[k]) by {
            assert(q[k] == pods[k]);
        }
        if e.namespace == ns && e.name == name {
            lemma_first_index(q, p, pods.len() as int);
        } else {
            lemma_first_index(q, p, q.len() as int);
        }
    }
}

proof fn lemma_entry_update(pods: Seq<PodEntryView>, j: int, e: PodEntryView, ns: Seq<char>, name: Seq<char>)
    requires
        0 <= j < pods.len(),
        e.namespace == pods[j].namespace,
        e.name == pods[j].name,
        keys_unique(pods),
    ensures
        keys_unique(pods.update(j, e)),
        entry_count(pods.update(j, e), ns, name) == entry_count(pods, ns, name) + if e.namespace == ns && e.name == name {
            e.count - pods[j].count
        } else {
            0
        },
{
    let q = pods.update(j, e);
    let p = |x: PodEntryView| x.namespace == ns && x.name == name;
    assert forall|x: int, y: int| 0 <= x < y < q.len() implies !((#[trigger] q[x]).namespace == (#[trigger] q[y]).namespace && q[x].name == q[y].name) by {
        assert(q[x].namespace == pods[x].namespace && q[x].name == pods[x].name);
        assert(q[y].namespace == pods[y].namespace && q[y].name == pods[y].name);
    }
    lemma_first_index_facts(pods, p);
    let k = pod_index(pods, ns, name);
    assert forall|t: int| 0 <= t < pods.len() implies p(#[trigger] q[t]) == p(pods[t]) by {
        assert(q[t].namespace == pods[t].namespace && q[t].name == pods[t].name);
    }
    if k >= 0 {
        assert forall|t: int| 0 <= t < k implies !p(#[trigger] q[t]) by {
            assert(p(q[t]) == p(pods[t]));
        }
        assert(p(q[k]) == p(pods[k]));
        lemma_first_index(q, p, k);
        if k != j {
            assert(q[k] == pods[k]);
            if e.namespace == ns && e.name == name {
                assert(pods[j].namespace == pods[k].namespace && pods[j].name == pods[k].name);
            }
        }
    } else {
        assert forall|t: int| 0 <= t < q.len() implies !p(#[trigger] q[t]) by {
            assert(p(q[t]) == p(pods[t]));
        }
        lemma_first_index(q, p, q.len() as int);
        assert(!p(pods[j]));
    }
}

proof fn lemma_keys_unique_push(pods: Seq<PodEntryView>, e: PodEntryView)
    requires
        keys_unique(pods),
        pod_index(pods, e.namespace, e.name) < 0,
    ensures
        keys_unique(pods.push(e)),
{
    lemma_first_index_facts(pods, |x: PodEntryView| x.namespace == e.namespace && x.name == e.name);
    let q = pods.push(e);
    assert forall|x: int, y: int| 0 <= x < y < q.len() implies !((#[trigger] q[x]).namespace == (#[trigger] q[y]).namespace && q[x].name == q[y].name) by {
        assert(q[x] == pods[x]);
        if y < pods.len() {
            assert(q[y] == pods[y]);
        }
    }
}

/// The count that one step of a claim's consumers adds to a pod on a node.
pub open spec fn consumer_adds(c: ConsumerInfo, cn: ClaimNodeView, ns: Seq<char>, ns2: Seq<char>, name: Seq<char>) -> int {
    if c.resource@ == "pods"@ && ns2 == ns && name == c.name@ {
        cn.count as int
    } else {
        0
    }
}

proof fn lemma_consumer_step_counts(acc: Seq<DraNodeView>, cn: ClaimNodeView, ns: Seq<char>, c: ConsumerInfo)
    requires
        pods_unique(acc),
    ensures
        consumer_step(acc, cn, ns, c) matches Ok(b) ==> {
            &&& pods_unique(b)
            &&& forall|i: int, ns2: Seq<char>, nm: Seq<char>| 0 <= i < acc.len() ==> #[trigger] entry_count(b[i].pods, ns2, nm) == entry_count(acc[i].pods, ns2, nm) + if i == dra_index(acc, cn.node) {
                consumer_adds(c, cn, ns, ns2, nm)
            } else {
                0
            }
        },
{
    if let Ok(b) = consumer_step(acc, cn, ns, c) {
        let i0 = dra_index(acc, cn.node);
        if c.resource@ != "pods"@ || i0 < 0 {
            assert(b == acc);
        } else {
            lemma_first_index_facts(acc, |n: DraNodeView| n.name == cn.node);
            let pods = acc[i0].pods;
            let j = pod_index(pods, ns, c.name@);
            lemma_first_index_facts(pods, |p: PodEntryView| p.namespace == ns && p.name == c.name@);
            assert(keys_unique(pods));
            if j < 0 {
                let e = b[i0].pods.last();
                assert(b[i0].pods == pods.push(e));
                lemma_keys_unique_push(pods, e);
            } else {
                lemma_entry_update(pods, j, b[i0].pods[j], ns, c.name@);
                assert(b[i0].pods == pods.update(j, b[i0].pods[j]));
            }
            assert forall|i: int| 0 <= i < b.len() implies keys_unique(#[trigger] b[i].pods) by {
                if i != i0 {
                    assert(b[i] == acc[i]);
                }
            }
            assert forall|i: int, ns2: Seq<char>, nm: Seq<char>| 0 <= i < acc.len() implies #[trigger] entry_count(b[i].pods, ns2, nm) == entry_count(acc[i].pods, ns2, nm) + if i == i0 {
                consumer_adds(c, cn, ns, ns2, nm)
            } else {
                0
            } by {
                if i != i0 {
                    assert(b[i] == acc[i]);
                } else if j < 0 {
                    lemma_entry_push(pods, b[i0].pods.last(), ns2, nm);
                } else {
                    lemma_entry_update(pods, j, b[i0].pods[j], ns2, nm);
                }
            }
        }
    }
}

/// `k` once for each consumer of `cs` that is the pod `name`.
pub open spec fn reserve_sum(cs: Seq<ConsumerInfo>, name: Seq<char>, k: int) -> int
    decreases cs.len(),
{
    if cs.len() == 0 {
        0
    } else {
        reserve_sum(cs.drop_last(), name, k) + if cs.last().resource@ == "pods"@ && cs.last().name@ == name {
            k
        } else {
            0
        }
    }
}

proof fn lemma_reserve_sum_zero(cs: Seq<ConsumerInfo>, name: Seq<char>)
    ensures
        reserve_sum(cs, name, 0) == 0,
    decreases cs.len(),
{
    if cs.len() > 0 {
        lemma_reserve_sum_zero(cs.drop_last(), name);
    }
}

proof fn lemma_consumers_fold_counts(acc: Seq<DraNodeView>, cn: ClaimNodeView, ns: Seq<char>, cs: Seq<ConsumerInfo>)
    requires
        pods_unique(acc),
    ensures
        consumers_fold(acc, cn, ns, cs) matches Ok(b) ==> {
            &&& pods_unique(b)
            &&& forall|i: int, ns2: Seq<char>, nm: Seq<char>| 0 <= i < acc.len() ==> #[trigger] entry_count(b[i].pods, ns2, nm) == entry_count(acc[i].pods, ns2, nm) + if i == dra_index(acc, cn.node) && ns2 == ns {
                reserve_sum(cs, nm, cn.count as int)
            } else {
                0
            }
        },
    decreases cs.len(),
{
    if cs.len() > 0 {
        let d = cs.drop_last();
        let c = cs.last();
        lemma_consumers_fold_counts(acc, cn, ns, d);
        lemma_consumers_fold_pods(acc, cn, ns, d);
        if let Ok(b) = consumers_fold(acc, cn, ns, cs) {
            let a = consumers_fold(acc, cn, ns, d)->Ok_0;
            lemma_consumer_step_counts(a, cn, ns, c);
            crate::dra_pods::lemma_same_devices_index(acc, a, cn.node);
            assert forall|i: int, ns2: Seq<char>, nm: Seq<char>| 0 <= i < acc.len() implies #[trigger] entry_count(b[i].pods, ns2, nm) == entry_count(acc[i].pods, ns2, nm) + if i == dra_index(acc, cn.node) && ns2 == ns {
                reserve_sum(cs, nm, cn.count as int)
            } else {
                0
            } by {
                assert(entry_count(b[i].pods, ns2, nm) == entry_count(a[i].pods, ns2, nm) + if i == dra_index(a, cn.node) {
                    consumer_adds(c, cn, ns, ns2, nm)
                } else {
                    0
                });
                assert(entry_count(a[i].pods, ns2, nm) == entry_count(acc[i].pods, ns2, nm) + if i == dra_index(acc, cn.node) && ns2 == ns {
                    reserve_sum(d, nm, cn.count as int)
                } else {
                    0
                });
            }
        }
    }
}

/// A claim's consumers keep one entry per pod.
pub(crate) proof fn lemma_consumers_fold_unique(acc: Seq<DraNodeView>, cn: ClaimNodeView, ns: Seq<char>, cs: Seq<ConsumerInfo>)
    requires
        pods_unique(acc),
    ensures
        consumers_fold(acc, cn, ns, cs) matches Ok(b) ==> pods_unique(b),
{
    lemma_consumers_fold_counts(acc, cn, ns, cs);
}

/// No two per-node counts of `counts` are for the same node.
pub open spec fn nodes_unique(counts: Seq<ClaimNodeView>) -> bool {
    forall|t: int, u: int| 0 <= t < u < counts.len() ==> (#[trigger] counts[t]).node != (#[trigger] counts[u]).node
}

/// The count of `counts` for the node `name`, or 0 when there is none.
pub open spec fn count_for(counts: Seq<ClaimNodeView>, name: Seq<char>) -> int {
    let t = claim_node_index(counts, name);
    if t >= 0 {
        counts[t].count as int
    } else {
        0
    }
}

proof fn lemma_count_for_push(d: Seq<ClaimNodeView>, cn: ClaimNodeView, name: Seq<char>)
    requires
        nodes_unique(d.push(cn)),
    ensures
        count_for(d.push(cn), name) == if cn.node == name {
            cn.count as int
        } else {
            count_for(d, name)
        },
        cn.node == name ==> count_for(d, name) == 0,
{
    let q = d.push(cn);
    let p = |c: ClaimNodeView| c.node == name;
    lemma_first_index_facts(d, p);
    let t = claim_node_index(d, name);
    if t >= 0 {
        assert forall|k: int| 0 <= k < t implies !p(#[trigger] q[k]) by {
            assert(q[k] == d[k]);
        }
        assert(q[t] == d[t]);
        lemma_first_index(q, p, t);
        if cn.node == name {
            assert(q[t].node == q[d.len() as int].node);
        }
    } else {
        assert forall|k: int| 0 <= k < d.len() implies !p(#[trigger] q[k]) by {
            assert(q[k] == d[k]);
        }
        if cn.node == name {
            lemma_first_index(q, p, d.len() as int);
        } else {
            lemma_first_index(q, p, q.len() as int);
        }
    }
}

/// How a claim's per-node counts change the count of each pod on each node.
pub(crate) proof fn lemma_counts_fold_counts(acc: Seq<DraNodeView>, counts: Seq<ClaimNodeView>, ns: Seq<char>, cs: Seq<ConsumerInfo>)
    requires
        dra_distinct(acc),
        pods_unique(acc),
        nodes_unique(counts),
    ensures
        counts_fold(acc, counts, ns, cs) matches Ok(b) ==> {
            &&& pods_unique(b)
            &&& forall|i: int, ns2: Seq<char>, nm: Seq<char>| 0 <= i < acc.len() ==> #[trigger] entry_count(b[i].pods, ns2, nm) == entry_count(acc[i].pods, ns2, nm) + if ns2 == ns {
                reserve_sum(cs, nm, count_for(counts, acc[i].name))
            } else {
                0
            }
        },
    decreases counts.len(),
{
    if counts.len() == 0 {
        if let Ok(b) = counts_fold(acc, counts, ns, cs) {
            assert forall|i: int, ns2: Seq<char>, nm: Seq<char>| 0 <= i < acc.len() implies #[trigger] entry_count(b[i].pods, ns2, nm) == entry_count(acc[i].pods, ns2, nm) + if ns2 == ns {
                reserve_sum(cs, nm, count_for(counts, acc[i].name))
            } else {
                0
            } by {
                lemma_reserve_sum_zero(cs, nm);
            }
        }
    } else {
        let d = counts.drop_last();
        let cn = counts.last();
        assert(counts == d.push(cn));
        assert(nodes_unique(d)) by {
            assert forall|t: int, u: int| 0 <= t < u < d.len() implies (#[trigger] d[t]).node != (#[trigger] d[u]).node by {
                assert(d[t] == counts[t] && d[u] == counts[u]);
            }
        }
        lemma_counts_fold_counts(acc, d, ns, cs);
        lemma_counts_fold_pods(acc, d, ns, cs);
        if let Ok(b) = counts_fold(acc, counts, ns, cs) {
            let a = counts_fold(acc, d, ns, cs)->Ok_0;
            assert(dra_distinct(a)) by {
                assert forall|x: int, y: int| 0 <= x < y < a.len() implies #[trigger] a[x].name != #[trigger] a[y].name by {
                    assert(a[x].name == acc[x].name && a[y].name == acc[y].name);
                }
            }
            lemma_consumers_fold_counts(a, cn, ns, cs);
            assert forall|i: int, ns2: Seq<char>, nm: Seq<char>| 0 <= i < acc.len() implies #[trigger] entry_count(b[i].pods, ns2, nm) == entry_count(acc[i].pods, ns2, nm) + if ns2 == ns {
                reserve_sum(cs, nm, count_for(counts, acc[i].name))
            } else {
                0
            } by {
                assert(a[i].name == acc[i].name);
                lemma_distinct_index(a, i, cn.node);
                lemma_count_for_push(d, cn, acc[i].name);
                lemma_reserve_sum_zero(cs, nm);
                assert(entry_count(b[i].pods, ns2, nm) == entry_count(a[i].pods, ns2, nm) + if i == dra_index(a, cn.node) && ns2 == ns {
                    reserve_sum(cs, nm, cn.count as int)
                } else {
                    0
                });
                assert(entry_count(a[i].pods, ns2, nm) == entry_count(acc[i].pods, ns2, nm) + if ns2 == ns {
                    reserve_sum(cs, nm, count_for(d, acc[i].name))
                } else {
                    0
                });
            }
        }
    }
}

/// The number of counted results of `rs` on the node `node`.
pub open spec fn results_count(rs: Seq<DeviceResultInfo>, pools: Seq<PoolView>, driver: Seq<char>, node: Seq<char>) -> int
    decreases rs.len(),
{
    if rs.len() == 0 {
        0
    } else {
        results_count(rs.drop_last(), pools, driver, node) + if counted_result(rs.last(), pools, driver) && result_node(rs.last(), pools) == node {
            1int
        } else {
            0
        }
    }
}

proof fn lemma_count_for_update(counts: Seq<ClaimNodeView>, ci: int, v: ClaimNodeView, name: Seq<char>)
    requires
        0 <= ci < counts.len(),
        v.node == counts[ci].node,
        nodes_unique(counts),
    ensures
        nodes_unique(counts.update(ci, v)),
        count_for(counts.update(ci, v), name) == if counts[ci].node == name {
            v.count as int
        } else {
            count_for(counts, name)
        },
{
    let q = counts.update(ci, v);
    let p = |c: ClaimNodeView| c.node == name;
    assert forall|t: int, u: int| 0 <= t < u < q.len() implies (#[trigger] q[t]).node != (#[trigger] q[u]).node by {
        assert(q[t].node == counts[t].node && q[u].node == counts[u].node);
    }
    assert forall|t: int| 0 <= t < counts.len() implies p(#[trigger] q[t]) == p(counts[t]) by {
        assert(q[t].node == counts[t].node);
    }
    lemma_first_index_facts(counts, p);
    let k = claim_node_index(counts, name);
    if k >= 0 {
        assert forall|t: int| 0 <= t < k implies !p(#[trigger] q[t]) by {
            assert(p(q[t]) == p(counts[t]));
        }
        assert(p(q[k]) == p(counts[k]));
        lemma_first_index(q, p, k);
        if k != ci {
            assert(q[k] == counts[k]);
            if counts[ci].node == name {
                assert(counts[ci].node == counts[k].node);
            }
        }
    } else {
        assert forall|t: int| 0 <= t < q.len() implies !p(#[trigger] q[t]) by {
            assert(p(q[t]) == p(counts[t]));
        }
        lemma_first_index(q, p, q.len() as int);
        assert(!p(counts[ci]));
    }
}

/// What one claim's results count on each node.
pub(crate) proof fn lemma_results_fold_counts(acc: Seq<DraNodeView>, rs: Seq<DeviceResultInfo>, pools: Seq<PoolView>, driver: Seq<char>)
    ensures
        results_fold(acc, rs, pools, driver) matches Ok(st) ==> {
            &&& nodes_unique(st.1)
            &&& forall|name: Seq<char>| #[trigger] count_for(st.1, name) == results_count(rs, pools, driver, name)
        },
    decreases rs.len(),
{
    if rs.len() == 0 {
        if let Ok(st) = results_fold(acc, rs, pools, driver) {
            assert forall|name: Seq<char>| #[trigger] count_for(st.1, name) == results_count(rs, pools, driver, name) by {
                lemma_first_index_facts(st.1, |c: ClaimNodeView| c.node == name);
            }
        }
    } else {
        let d = rs.drop_last();
        let r = rs.last();
        lemma_results_fold_counts(acc, d, pools, driver);
        if let Ok(st) = results_fold(acc, rs, pools, driver) {
            let s0 = results_fold(acc, d, pools, driver)->Ok_0;
            assert(st == result_step(s0, r, pools, driver)->Ok_0);
            let counts = s0.1;
            if !counted_result(r, pools, driver) {
                assert(st == s0);
            } else {
                let node = result_node(r, pools);
                let ci = claim_node_index(counts, node);
                lemma_first_index_facts(counts, |c: ClaimNodeView| c.node == node);
                if ci < 0 {
                    let v = st.1.last();
                    assert(st.1 == counts.push(v));
                    assert(v.node == node && v.count == 1);
                    assert(nodes_unique(st.1)) by {
                        assert forall|t: int, u: int| 0 <= t < u < st.1.len() implies (#[trigger] st.1[t]).node != (#[trigger] st.1[u]).node by {
                            assert(st.1[t] == counts[t]);
                            if u < counts.len() {
                                assert(st.1[u] == counts[u]);
                            }
                        }
                    }
                    assert forall|name: Seq<char>| #[trigger] count_for(st.1, name) == results_count(rs, pools, driver, name) by {
                        lemma_count_for_push(counts, v, name);
                        assert(count_for(counts, name) == results_count(d, pools, driver, name));
                    }
                } else {
                    let v = st.1[ci];
                    assert(st.1 == counts.update(ci, v));
                    assert forall|name: Seq<char>| #[trigger] count_for(st.1, name) == results_count(rs, pools, driver, name) by {
                        lemma_count_for_update(counts, ci, v, name);
                        assert(count_for(counts, name) == results_count(d, pools, driver, name));
                        if node == name {
                            assert(claim_node_index(counts, name) == ci);
                        }
                    }
                    lemma_count_for_update(counts, ci, v, node);
                }
            }
        }
    }
}

/// The devices that the claims give the pod `name` of namespace `ns` on the node `node`:
/// for each claim of that namespace, its counted results on the node, once for each time
/// the claim is reserved for the pod.
pub open spec fn pod_count(
    claims: Seq<ClaimInfo>,
    pools: Seq<PoolView>,
    driver: Seq<char>,
    node: Seq<char>,
    ns: Seq<char>,
    name: Seq<char>,
) -> int
    decreases claims.len(),
{
    if claims.len() == 0 {
        0
    } else {
        let c = claims.last();
        pod_count(claims.drop_last(), pools, driver, node, ns, name) + if opt_text(c.namespace) == ns {
            reserve_sum(c.reserved_for@, name, results_count(c.results@, pools, driver, node))
        } else {
            0
        }
    }
}

/// A nonzero count of results on a node means some counted result is there.
pub(crate) proof fn lemma_results_count_on(rs: Seq<DeviceResultInfo>, pools: Seq<PoolView>, driver: Seq<char>, node: Seq<char>)
    ensures
        results_count(rs, pools, driver, node) >= 0,
        results_count(rs, pools, driver, node) != 0 ==> results_on(rs, pools, driver, node),
    decreases rs.len(),
{
    if rs.len() > 0 {
        let d = rs.drop_last();
        lemma_results_count_on(d, pools, driver, node);
        if results_on(d, pools, driver, node) {
            let x = choose|x: int| 0 <= x < d.len() && counted_result(#[trigger] d[x], pools, driver) && pools[crate::aggregate_dra::pool_index(pools, d[x].pool@)].node_name == node;
            assert(rs[x] == d[x]);
        }
        assert(rs[rs.len() - 1] == rs.last());
    }
}

proof fn lemma_pod_count_zero(claims: Seq<ClaimInfo>, pools: Seq<PoolView>, driver: Seq<char>, node: Seq<char>, ns: Seq<char>, name: Seq<char>)
    requires
        !claims_on(claims, pools, driver, node),
    ensures
        pod_count(claims, pools, driver, node, ns, name) == 0,
    decreases claims.len(),
{
    if claims.len() > 0 {
        let d = claims.drop_last();
        let c = claims.last();
        assert(!claims_on(d, pools, driver, node)) by {
            if claims_on(d, pools, driver, node) {
                let m = choose|m: int| 0 <= m < d.len() && results_on((#[trigger] d[m]).results@, pools, driver, node);
                assert(claims[m] == d[m]);
            }
        }
        lemma_pod_count_zero(d, pools, driver, node, ns, name);
        lemma_results_count_on(c.results@, pools, driver, node);
        assert(claims[claims.len() - 1] == c);
        assert(results_count(c.results@, pools, driver, node) == 0);
        lemma_reserve_sum_zero(c.reserved_for@, name);
    }
}

/// How the claims change the count of each pod on each node.
pub(crate) proof fn lemma_claims_fold_counts(acc: Seq<DraNodeView>, claims: Seq<ClaimInfo>, pools: Seq<PoolView>, driver: Seq<char>)
    requires
        dra_distinct(acc),
        pods_unique(acc),
    ensures
        claims_fold(acc, claims, pools, driver) matches Ok(b) ==> {
            &&& pods_unique(b)
            &&& forall|i: int, ns: Seq<char>, nm: Seq<char>| 0 <= i < b.len() ==> #[trigger] entry_count(b[i].pods, ns, nm) == (if i < acc.len() {
                entry_count(acc[i].pods, ns, nm)
            } else {
                0
            }) + pod_count(claims, pools, driver, b[i].name, ns, nm)
        },
    decreases claims.len(),
{
    lemma_claims_fold_pods(acc, claims, pools, driver);
    if claims.len() > 0 {
        let d = claims.drop_last();
        let c = claims.last();
        lemma_claims_fold_counts(acc, d, pools, driver);
        lemma_claims_fold_pods(acc, d, pools, driver);
        if let Ok(b) = claims_fold(acc, claims, pools, driver) {
            let a = claims_fold(acc, d, pools, driver)->Ok_0;
            assert(claims[claims.len() - 1] == c);
            lemma_results_fold(a, c.results@, pools, driver);
            lemma_results_fold_facts(a, c.results@, pools, driver);
            lemma_results_fold_counts(a, c.results@, pools, driver);
            let st = results_fold(a, c.results@, pools, driver)->Ok_0;
            let ns_c = opt_text(c.namespace);
            let res = c.reserved_for@;
            assert(pods_unique(st.0)) by {
                assert forall|i: int| 0 <= i < st.0.len() implies keys_unique(#[trigger] st.0[i].pods) by {
                    if i < a.len() {
                        assert(st.0[i].pods == a[i].pods);
                    } else {
                        assert(st.0[i].pods.len() == 0);
                    }
                }
            }
            lemma_counts_fold_counts(st.0, st.1, ns_c, res);
            lemma_counts_fold_pods(st.0, st.1, ns_c, res);
            assert(counts_fold(st.0, st.1, ns_c, res) == Ok::<Seq<DraNodeView>, crate::error::AggregateErrorView>(b));
            assert(b.len() == st.0.len());
            assert forall|i: int, ns: Seq<char>, nm: Seq<char>| 0 <= i < b.len() implies #[trigger] entry_count(b[i].pods, ns, nm) == (if i < acc.len() {
                entry_count(acc[i].pods, ns, nm)
            } else {
                0
            }) + pod_count(claims, pools, driver, b[i].name, ns, nm) by {
                let name = st.0[i].name;
                assert(b[i].name == st.0[i].name);
                assert(entry_count(b[i].pods, ns, nm) == entry_count(st.0[i].pods, ns, nm) + if ns == ns_c {
                    reserve_sum(res, nm, count_for(st.1, name))
                } else {
                    0
                });
                assert(count_for(st.1, name) == results_count(c.results@, pools, driver, name));
                if i < a.len() {
                    assert(st.0[i].pods == a[i].pods);
                    assert(a[i].name == name);
                } else {
                    assert(st.0[i].pods.len() == 0);
                    lemma_first_index_facts(st.0[i].pods, |p: PodEntryView| p.namespace == ns && p.name == nm);
                    assert(!claims_on(d, pools, driver, name)) by {
                        if claims_on(d, pools, driver, name) {
                            lemma_first_index_facts(a, |n: DraNodeView| n.name == name);
                            let k = dra_index(a, name);
                            assert(st.0[k].name == a[k].name);
                            assert(false);
                        }
                    }
                    lemma_pod_count_zero(d, pools, driver, name, ns, nm);
                }
            }
        }
    }
}

/// Sorting keeps one entry per pod.
pub(crate) proof fn lemma_sort_keys_unique(pods: Seq<PodEntryView>)
    requires
        keys_unique(pods),
    ensures
        keys_unique(sort_seq::<PodEntry>(pods)),
    decreases pods.len(),
{
    if pods.len() > 0 {
        let d = pods.drop_last();
        let e = pods.last();
        assert(keys_unique(d)) by {
            assert forall|x: int, y: int| 0 <= x < y < d.len() implies !((#[trigger] d[x]).namespace == (#[trigger] d[y]).namespace && d[x].name == d[y].name) by {
                assert(d[x] == pods[x] && d[y] == pods[y]);
            }
        }
        lemma_sort_keys_unique(d);
        let s = sort_seq::<PodEntry>(d);
        lemma_sort_same_elements::<PodEntry>(d);
        let j = lemma_insert_sorted_is_insert::<PodEntry>(s, e);
        let q = s.insert(j, e);
        assert(sort_seq::<PodEntry>(pods) == insert_sorted::<PodEntry>(s, e));
        assert forall|k: int| 0 <= k < s.len() implies !((#[trigger] s[k]).namespace == e.namespace && s[k].name == e.name) by {
            assert(s.contains(s[k]));
            assert(d.contains(s[k]));
            let y = choose|y: int| 0 <= y < d.len() && d[y] == s[k];
            assert(pods[y] == d[y]);
            assert(pods[pods.len() - 1] == e);
        }
        assert forall|x: int, y: int| 0 <= x < y < q.len() implies !((#[trigger] q[x]).namespace == (#[trigger] q[y]).namespace && q[x].name == q[y].name) by {
            if x < j {
                assert(q[x] == s[x]);
            } else if x > j {
                assert(q[x] == s[x - 1]);
            }
            if y < j {
                assert(q[y] == s[y]);
            } else if y > j {
                assert(q[y] == s[y - 1]);
            }
        }
    }
}

/// With one entry per pod, a pod's entry is the one found for it.
pub(crate) proof fn lemma_entry_of_unique(pods: Seq<PodEntryView>, y: int)
    requires
        keys_unique(pods),
        0 <= y < pods.len(),
    ensures
        entry_count(pods, pods[y].namespace, pods[y].name) == pods[y].count,
{
    let p = |x: PodEntryView| x.namespace == pods[y].namespace && x.name == pods[y].name;
    assert forall|k: int| 0 <= k < y implies !p(#[trigger] pods[k]) by {}
    lemma_first_index(pods, p, y);
}

/// Each pod appears once in a row of the DRA table, with the number of devices that the
/// claims give it on that row's node: for each claim of its namespace, the claim's counted
/// devices there (no admin access, of the driver, from a known pool), once for each time
/// the claim is reserved for the pod.
pub proof fn law_dra_pod_counts(
    nodes: Seq<NodeInfo>,
    slices: Seq<SliceInfo>,
    claims: Seq<ClaimInfo>,
    driver: Seq<char>,
    include_empty: bool,
)
    ensures
        aggregate_dra_spec(nodes, slices, claims, driver, include_empty) matches Ok(rows) ==> forall|j: int|
            0 <= j < rows.len() ==> {
                &&& keys_unique(#[trigger] rows[j].pods)
                &&& forall|x: int| 0 <= x < rows[j].pods.len() ==> (#[trigger] rows[j].pods[x]).count == pod_count(claims, pool_infos_spec(slices, driver)->Ok_0, driver, rows[j].node_name, rows[j].pods[x].namespace, rows[j].pods[x].name)
            },
{
    lemma_dra_nodes(nodes);
    lemma_dra_nodes_no_pods(nodes);
    if let Ok(rows) = aggregate_dra_spec(nodes, slices, claims, driver, include_empty) {
        let acc0 = dra_nodes_spec(nodes)->Ok_0;
        let pools = pool_infos_spec(slices, driver)->Ok_0;
        lemma_dra_capacity(acc0, pools);
        lemma_capacity_pods(acc0, pools);
        let acc1 = dra_capacity(acc0, pools)->Ok_0;
        assert(dra_distinct(acc1));
        assert forall|i: int| 0 <= i < acc1.len() implies (#[trigger] acc1[i]).pods.len() == 0 by {
            if i < acc0.len() {
                assert(acc1[i].pods == acc0[i].pods);
            }
        }
        assert(pods_unique(acc1)) by {
            assert forall|i: int| 0 <= i < acc1.len() implies keys_unique(#[trigger] acc1[i].pods) by {
                assert(acc1[i].pods.len() == 0);
            }
        }
        lemma_claims_fold_counts(acc1, claims, pools, driver);
        let acc2 = claims_fold(acc1, claims, pools, driver)->Ok_0;
        lemma_dra_rows(acc2, include_empty);
        let unsorted = dra_rows(acc2, include_empty)->Ok_0;
        lemma_sort_same_elements::<NodeRow>(unsorted);
        assert forall|j: int| 0 <= j < rows.len() implies {
            &&& keys_unique(#[trigger] rows[j].pods)
            &&& forall|x: int| 0 <= x < rows[j].pods.len() ==> (#[trigger] rows[j].pods[x]).count == pod_count(claims, pools, driver, rows[j].node_name, rows[j].pods[x].namespace, rows[j].pods[x].name)
        } by {
            assert(rows.contains(rows[j]));
            let u = choose|u: int| 0 <= u < unsorted.len() && unsorted[u] == rows[j];
            assert(dra_row_of(acc2, unsorted[u]));
            let i = choose|i: int| 0 <= i < acc2.len() && #[trigger] acc2[i].name == unsorted[u].node_name && acc2[i].capacity == unsorted[u].capacity && unsorted[u].pods == sort_seq::<PodEntry>(acc2[i].pods) && unsorted[u].allocated == acc2[i].allocated.len();
            let p = acc2[i].pods;
            assert(keys_unique(p));
            lemma_sort_keys_unique(p);
            lemma_sort_same_elements::<PodEntry>(p);
            assert forall|x: int| 0 <= x < rows[j].pods.len() implies (#[trigger] rows[j].pods[x]).count == pod_count(claims, pools, driver, rows[j].node_name, rows[j].pods[x].namespace, rows[j].pods[x].name) by {
                let e = rows[j].pods[x];
                assert(sort_seq::<PodEntry>(p).contains(e));
                assert(p.contains(e));
                let y = choose|y: int| 0 <= y < p.len() && p[y] == e;
                lemma_entry_of_unique(p, y);
                assert(entry_count(p, e.namespace, e.name) == (if i < acc1.len() {
                    entry_count(acc1[i].pods, e.namespace, e.name)
                } else {
                    0
                }) + pod_count(claims, pools, driver, acc2[i].name, e.namespace, e.name));
                if i < acc1.len() {
                    lemma_first_index_facts(acc1[i].pods, |q: PodEntryView| q.namespace == e.namespace && q.name == e.name);
                }
            }
        }
    }
}

} // verus!
