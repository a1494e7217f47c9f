//! Which pods the DRA table shows on each node.
use vstd::prelude::*;

use crate::aggregate::{opt_text, NodeRow, PodEntry, PodEntryView};
use crate::aggregate_dra::{
    aggregate_dra_spec, claim_node_index, claims_fold, consumer_step, consumers_fold,
    counts_fold, dra_capacity, dra_ensure, dra_index, dra_nodes_spec, dra_rows, pool_index,
    pool_infos_spec, result_step, results_fold, ClaimNodeView, DraNodeView, PoolView,
};
use crate::cluster::{ClaimInfo, ConsumerInfo, DeviceResultInfo, NodeInfo, SliceInfo};
use crate::dra_properties::{
    dra_distinct, dra_grows, dra_row_of, lemma_claims_fold, lemma_dra_capacity, lemma_dra_nodes,
    lemma_dra_rows, lemma_ensure_facts, lemma_results_fold,
};
use crate::search::{lemma_first_index_facts, lemma_first_index_found};
use crate::sorting::{lemma_sort_same_elements, sort_seq};

verus! {

/// Whether `pods` holds an entry for the pod `name` of namespace `ns`.
pub open spec fn has_pod(pods: Seq<PodEntryView>, ns: Seq<char>, name: Seq<char>) -> bool {
    exists|x: int| 0 <= x < pods.len() && (#[trigger] pods[x]).namespace == ns && pods[x].name == name
}

/// Whether `cs` names the pod `name` among its consumers.
pub open spec fn consumer_for(cs: Seq<ConsumerInfo>, name: Seq<char>) -> bool {
    exists|x: int| 0 <= x < cs.len() && (#[trigger] cs[x]).resource@ == "pods"@ && cs[x].name@ == name
}

proof fn lemma_has_pod_push(pods: Seq<PodEntryView>, e: PodEntryView, ns: Seq<char>, name: Seq<char>)
    ensures
        has_pod(pods.push(e), ns, name) <==> has_pod(pods, ns, name) || (e.namespace == ns && e.name == name),
{
    let q = pods.push(e);
    if has_pod(q, ns, name) {
        let x = choose|x: int| 0 <= x < q.len() && (#[trigger] q[x]).namespace == ns && q[x].name == name;
        if x < pods.len() {
            assert(pods[x] == q[x]);
        }
    }
    if has_pod(pods, ns, name) {
        let x = choose|x: int| 0 <= x < pods.len() && (#[trigger] pods[x]).namespace == ns && pods[x].name == name;
        assert(q[x] == pods[x]);
    }
    if e.namespace == ns && e.name == name {
        assert(q[pods.len() as int] == e);
    }
}

proof fn lemma_has_pod_update(pods: Seq<PodEntryView>, j: int, e: PodEntryView, ns: Seq<char>, name: Seq<char>)
    requires
        0 <= j < pods.len(),
        e.namespace == pods[j].namespace,
        e.name == pods[j].name,
    ensures
        has_pod(pods.update(j, e), ns, name) == has_pod(pods, ns, name),
{
    let q = pods.update(j, e);
    if has_pod(q, ns, name) {
        let x = choose|x: int| 0 <= x < q.len() && (#[trigger] q[x]).namespace == ns && q[x].name == name;
        if x != j {
            assert(pods[x] == q[x]);
        } else {
            assert(pods[j].namespace == ns && pods[j].name == name);
        }
    }
    if has_pod(pods, ns, name) {
        let x = choose|x: int| 0 <= x < pods.len() && (#[trigger] pods[x]).namespace == ns && pods[x].name == name;
        if x != j {
            assert(q[x] == pods[x]);
        } else {
            assert(q[j] == e);
        }
    }
}

/// `b` has the nodes of `a` in place, with their names, capacities and allocated devices,
/// and no others.
pub open spec fn same_devices(a: Seq<DraNodeView>, b: Seq<DraNodeView>) -> bool {
    &&& a.len() == b.len()
    &&& forall|i: int|
        0 <= i < a.len() ==> #[trigger] b[i].name == a[i].name && b[i].allocated == a[i].allocated
            && b[i].capacity == a[i].capacity
}

proof fn lemma_consumer_step_pods(acc: Seq<DraNodeView>, cn: ClaimNodeView, ns: Seq<char>, c: ConsumerInfo)
    ensures
        consumer_step(acc, cn, ns, c) matches Ok(b) ==> {
            &&& same_devices(acc, b)
            &&& forall|i: int, ns2: Seq<char>, nm: Seq<char>| 0 <= i < acc.len() ==> (#[trigger] has_pod(b[i].pods, ns2, nm) <==> has_pod(acc[i].pods, ns2, nm) || (i == dra_index(acc, cn.node) && c.resource@ == "pods"@ && ns2 == ns && nm == c.name@))
        },
{
    if let Ok(b) = consumer_step(acc, cn, ns, c) {
        let i0 = dra_index(acc, cn.node);
        if c.resource@ != "pods"@ || i0 < 0 {
            assert(b == acc);
        } else {
            lemma_first_index_facts(acc, |n: DraNodeView| n.name == cn.node);
            let pods = acc[i0].pods;
            let j = crate::aggregate_dra::pod_index(pods, ns, c.name@);
            lemma_first_index_facts(pods, |p: PodEntryView| p.namespace == ns && p.name == c.name@);
            assert forall|i: int, ns2: Seq<char>, nm: Seq<char>| 0 <= i < acc.len() implies (#[trigger] has_pod(b[i].pods, ns2, nm) <==> has_pod(acc[i].pods, ns2, nm) || (i == i0 && c.resource@ == "pods"@ && ns2 == ns && nm == c.name@)) by {
                if i != i0 {
                    assert(b[i] == acc[i]);
                } else if j < 0 {
                    lemma_has_pod_push(pods, b[i].pods.last(), ns2, nm);
                    assert(b[i].pods == pods.push(b[i].pods.last()));
                } else {
                    lemma_has_pod_update(pods, j, b[i].pods[j], ns2, nm);
                    assert(b[i].pods == pods.update(j, b[i].pods[j]));
                    assert(pods[j].namespace == ns && pods[j].name == c.name@);
                    if ns2 == ns && nm == c.name@ {
                        assert(has_pod(pods, ns2, nm));
                    }
                }
            }
            assert forall|i: int| 0 <= i < acc.len() implies #[trigger] b[i].name == acc[i].name && b[i].allocated == acc[i].allocated
                && b[i].capacity == acc[i].capacity by {
                if i != i0 {
                    assert(b[i] == acc[i]);
                }
            }
        }
    }
}

/// Nodes kept by name and in place are found at the same positions.
pub(crate) proof fn lemma_same_devices_index(a: Seq<DraNodeView>, b: Seq<DraNodeView>, name: Seq<char>)
    requires
        same_devices(a, b),
    ensures
        dra_index(a, name) == dra_index(b, name),
{
    lemma_first_index_facts(a, |n: DraNodeView| n.name == name);
    lemma_first_index_facts(b, |n: DraNodeView| n.name == name);
    let ra = dra_index(a, name);
    let rb = dra_index(b, name);
    if ra >= 0 {
        assert(b[ra].name == a[ra].name);
    }
    if rb >= 0 {
        assert(b[rb].name == a[rb].name);
    }
}

/// Which pods a claim's consumers add to the node of one per-node count.
pub(crate) proof fn lemma_consumers_fold_pods(acc: Seq<DraNodeView>, cn: ClaimNodeView, ns: Seq<char>, cs: Seq<ConsumerInfo>)
    ensures
        consumers_fold(acc, cn, ns, cs) matches Ok(b) ==> {
            &&& same_devices(acc, b)
            &&& forall|i: int, ns2: Seq<char>, nm: Seq<char>| 0 <= i < acc.len() ==> (#[trigger] has_pod(b[i].pods, ns2, nm) <==> has_pod(acc[i].pods, ns2, nm) || (i == dra_index(acc, cn.node) && ns2 == ns && consumer_for(cs, nm)))
        },
    decreases cs.len(),
{
    if cs.len() > 0 {
        let d = cs.drop_last();
        let c = cs.last();
        lemma_consumers_fold_pods(acc, cn, ns, d);
        if let Ok(b) = consumers_fold(acc, cn, ns, cs) {
            let a = consumers_fold(acc, cn, ns, d)->Ok_0;
            lemma_consumer_step_pods(a, cn, ns, c);
            lemma_same_devices_index(acc, a, cn.node);
            assert forall|i: int, ns2: Seq<char>, nm: Seq<char>| 0 <= i < acc.len() implies (#[trigger] has_pod(b[i].pods, ns2, nm) <==> has_pod(acc[i].pods, ns2, nm) || (i == dra_index(acc, cn.node) && ns2 == ns && consumer_for(cs, nm))) by {
                assert(has_pod(b[i].pods, ns2, nm) <==> has_pod(a[i].pods, ns2, nm) || (i == dra_index(a, cn.node) && c.resource@ == "pods"@ && ns2 == ns && nm == c.name@));
                assert(has_pod(a[i].pods, ns2, nm) <==> has_pod(acc[i].pods, ns2, nm) || (i == dra_index(acc, cn.node) && ns2 == ns && consumer_for(d, nm)));
                if consumer_for(d, nm) {
                    let x = choose|x: int| 0 <= x < d.len() && (#[trigger] d[x]).resource@ == "pods"@ && d[x].name@ == nm;
                    assert(cs[x] == d[x]);
                }
                if c.resource@ == "pods"@ && nm == c.name@ {
                    assert(cs[cs.len() - 1] == c);
                }
                if consumer_for(cs, nm) {
                    let x = choose|x: int| 0 <= x < cs.len() && (#[trigger] cs[x]).resource@ == "pods"@ && cs[x].name@ == nm;
                    if x < d.len() {
                        assert(d[x] == cs[x]);
                    }
                }
            }
            assert forall|i: int| 0 <= i < acc.len() implies #[trigger] b[i].name == acc[i].name && b[i].allocated == acc[i].allocated
                && b[i].capacity == acc[i].capacity by {
                assert(b[i].name == a[i].name && b[i].allocated == a[i].allocated && b[i].capacity == a[i].capacity);
            }
        }
    }
}

/// With distinct names, a node is found exactly where its name is.
pub(crate) proof fn lemma_distinct_index(acc: Seq<DraNodeView>, i: int, name: Seq<char>)
    requires
        dra_distinct(acc),
        0 <= i < acc.len(),
    ensures
        dra_index(acc, name) == i <==> acc[i].name == name,
{
    lemma_first_index_facts(acc, |n: DraNodeView| n.name == name);
    let r = dra_index(acc, name);
    if acc[i].name == name && r != i {
        assert((|n: DraNodeView| n.name == name)(acc[i]));
        if r >= 0 {
            assert(acc[r].name == name);
        }
    }
}

/// Whether some per-node count of `counts` is for the node `name`.
pub open spec fn counted_on(counts: Seq<ClaimNodeView>, name: Seq<char>) -> bool {
    exists|t: int| 0 <= t < counts.len() && (#[trigger] counts[t]).node == name
}

/// Which pods a claim's per-node counts add to the nodes.
pub(crate) proof fn lemma_counts_fold_pods(acc: Seq<DraNodeView>, counts: Seq<ClaimNodeView>, ns: Seq<char>, cs: Seq<ConsumerInfo>)
    requires
        dra_distinct(acc),
    ensures
        counts_fold(acc, counts, ns, cs) matches Ok(b) ==> {
            &&& same_devices(acc, b)
            &&& forall|i: int, ns2: Seq<char>, nm: Seq<char>| 0 <= i < acc.len() ==> (#[trigger] has_pod(b[i].pods, ns2, nm) <==> has_pod(acc[i].pods, ns2, nm) || (ns2 == ns && consumer_for(cs, nm) && counted_on(counts, acc[i].name)))
        },
    decreases counts.len(),
{
    if counts.len() > 0 {
        let d = counts.drop_last();
        let cn = counts.last();
        lemma_counts_fold_pods(acc, d, ns, cs);
        if let Ok(b) = counts_fold(acc, counts, ns, cs) {
            let a = counts_fold(acc, d, ns, cs)->Ok_0;
            lemma_consumers_fold_pods(a, cn, ns, cs);
            assert forall|i: int, ns2: Seq<char>, nm: Seq<char>| 0 <= i < acc.len() implies (#[trigger] has_pod(b[i].pods, ns2, nm) <==> has_pod(acc[i].pods, ns2, nm) || (ns2 == ns && consumer_for(cs, nm) && counted_on(counts, acc[i].name))) by {
                assert(a[i].name == acc[i].name);
                assert(dra_distinct(a)) by {
                    assert forall|x: int, y: int| 0 <= x < y < a.len() implies #[trigger] a[x].name != #[trigger] a[y].name by {
                        assert(a[x].name == acc[x].name && a[y].name == acc[y].name);
                    }
                }
                lemma_distinct_index(a, i, cn.node);
                assert(has_pod(b[i].pods, ns2, nm) <==> has_pod(a[i].pods, ns2, nm) || (i == dra_index(a, cn.node) && ns2 == ns && consumer_for(cs, nm)));
                assert(has_pod(a[i].pods, ns2, nm) <==> has_pod(acc[i].pods, ns2, nm) || (ns2 == ns && consumer_for(cs, nm) && counted_on(d, acc[i].name)));
                if counted_on(d, acc[i].name) {
                    let t = choose|t: int| 0 <= t < d.len() && (#[trigger] d[t]).node == acc[i].name;
                    assert(counts[t] == d[t]);
                }
                if cn.node == acc[i].name {
                    assert(counts[counts.len() - 1] == cn);
                }
                if counted_on(counts, acc[i].name) {
                    let t = choose|t: int| 0 <= t < counts.len() && (#[trigger] counts[t]).node == acc[i].name;
                    if t < d.len() {
                        assert(d[t] == counts[t]);
                    }
                }
            }
            assert forall|i: int| 0 <= i < acc.len() implies #[trigger] b[i].name == acc[i].name && b[i].allocated == acc[i].allocated
                && b[i].capacity == acc[i].capacity by {
                assert(b[i].name == a[i].name && b[i].allocated == a[i].allocated && b[i].capacity == a[i].capacity);
            }
        }
    }
}

/// Whether a device result is counted: no admin access, of `driver`, from a known pool.
pub open spec fn counted_result(r: DeviceResultInfo, pools: Seq<PoolView>, driver: Seq<char>) -> bool {
    &&& r.admin_access != Some(true)
    &&& r.driver@ == driver
    &&& pool_index(pools, r.pool@) >= 0
}

/// Whether some counted result of `rs` is on a pool of the node `name`.
pub open spec fn results_on(rs: Seq<DeviceResultInfo>, pools: Seq<PoolView>, driver: Seq<char>, name: Seq<char>) -> bool {
    exists|x: int|
        0 <= x < rs.len() && counted_result(#[trigger] rs[x], pools, driver)
            && pools[pool_index(pools, rs[x].pool@)].node_name == name
}

/// `b` keeps the pods of the nodes of `a`, and the nodes it adds have none.
pub open spec fn pods_kept(a: Seq<DraNodeView>, b: Seq<DraNodeView>) -> bool {
    &&& a.len() <= b.len()
    &&& forall|i: int| 0 <= i < a.len() ==> #[trigger] b[i].pods == a[i].pods
    &&& forall|i: int| a.len() <= i < b.len() ==> (#[trigger] b[i]).pods.len() == 0
}

/// What one claim's results leave: the pods kept, a node for each node they count on,
/// and a per-node count exactly for the nodes they count on.
pub open spec fn results_facts(
    acc: Seq<DraNodeView>,
    st: (Seq<DraNodeView>, Seq<ClaimNodeView>),
    rs: Seq<DeviceResultInfo>,
    pools: Seq<PoolView>,
    driver: Seq<char>,
) -> bool {
    &&& pods_kept(acc, st.0)
    &&& forall|i: int| 0 <= i < acc.len() ==> #[trigger] st.0[i].name == acc[i].name && st.0[i].capacity == acc[i].capacity
    &&& forall|i: int| acc.len() <= i < st.0.len() ==> (#[trigger] st.0[i]).capacity == 0
    &&& forall|name: Seq<char>| #[trigger] results_on(rs, pools, driver, name) ==> dra_index(st.0, name) >= 0
    &&& forall|name: Seq<char>| #[trigger] counted_on(st.1, name) <==> results_on(rs, pools, driver, name)
}

proof fn lemma_index_kept(a: Seq<DraNodeView>, b: Seq<DraNodeView>, name: Seq<char>)
    requires
        a.len() <= b.len(),
        forall|i: int| 0 <= i < a.len() ==> #[trigger] b[i].name == a[i].name,
        dra_index(a, name) >= 0,
    ensures
        dra_index(b, name) >= 0,
{
    lemma_first_index_facts(a, |n: DraNodeView| n.name == name);
    let k = dra_index(a, name);
    assert(b[k].name == name);
    lemma_first_index_found(b, |n: DraNodeView| n.name == name, k);
}

/// What one claim's results leave: see `results_facts`.
pub(crate) proof fn lemma_results_fold_facts(
    acc: Seq<DraNodeView>,
    rs: Seq<DeviceResultInfo>,
    pools: Seq<PoolView>,
    driver: Seq<char>,
)
    ensures
        results_fold(acc, rs, pools, driver) matches Ok(st) ==> results_facts(acc, st, rs, pools, driver),
    decreases rs.len(),
{
    if rs.len() == 0 {
        if let Ok(st) = results_fold(acc, rs, pools, driver) {
            assert forall|name: Seq<char>| #[trigger] counted_on(st.1, name) <==> results_on(rs, pools, driver, name) by {}
        }
    } else {
        let d = rs.drop_last();
        let r = rs.last();
        lemma_results_fold_facts(acc, d, pools, driver);
        if let Ok(st) = results_fold(acc, rs, pools, driver) {
            let s0 = results_fold(acc, d, pools, driver)->Ok_0;
            assert(st == result_step(s0, r, pools, driver)->Ok_0);
            assert(rs[rs.len() - 1] == r);
            assert forall|x: int| 0 <= x < d.len() implies #[trigger] rs[x] == d[x] by {}
            if !counted_result(r, pools, driver) {
                assert(st == s0);
                assert forall|name: Seq<char>| #[trigger] results_on(rs, pools, driver, name) implies results_on(d, pools, driver, name) by {
                    let x = choose|x: int| 0 <= x < rs.len() && counted_result(#[trigger] rs[x], pools, driver) && pools[pool_index(pools, rs[x].pool@)].node_name == name;
                    assert(x < d.len());
                    assert(d[x] == rs[x]);
                }
                assert forall|name: Seq<char>| #[trigger] results_on(d, pools, driver, name) implies results_on(rs, pools, driver, name) by {
                    let x = choose|x: int| 0 <= x < d.len() && counted_result(#[trigger] d[x], pools, driver) && pools[pool_index(pools, d[x].pool@)].node_name == name;
                    assert(rs[x] == d[x]);
                }
            } else {
                let pi = pool_index(pools, r.pool@);
                let node = pools[pi].node_name;
                lemma_ensure_facts(s0.0, node);
                let b = dra_ensure(s0.0, node);
                let i = dra_index(b, node);
                assert(forall|k: int| 0 <= k < b.len() ==> (#[trigger] st.0[k]).name == b[k].name && st.0[k].pods == b[k].pods) by {
                    assert forall|k: int| 0 <= k < b.len() implies (#[trigger] st.0[k]).name == b[k].name && st.0[k].pods == b[k].pods by {
                        if k != i {
                            assert(st.0[k] == b[k]);
                        }
                    }
                }
                assert(st.0.len() == b.len());
                assert(pods_kept(acc, st.0)) by {
                    assert forall|k: int| 0 <= k < acc.len() implies #[trigger] st.0[k].pods == acc[k].pods by {
                        assert(b[k] == s0.0[k]);
                    }
                    assert forall|k: int| acc.len() <= k < st.0.len() implies (#[trigger] st.0[k]).pods.len() == 0 by {
                        if k < s0.0.len() {
                            assert(b[k] == s0.0[k]);
                        }
                    }
                }
                assert forall|k: int| 0 <= k < acc.len() implies #[trigger] st.0[k].name == acc[k].name && st.0[k].capacity == acc[k].capacity by {
                    assert(b[k] == s0.0[k]);
                    assert(st.0[k].capacity == b[k].capacity) by {
                        if k != i {
                            assert(st.0[k] == b[k]);
                        }
                    }
                }
                assert forall|k: int| acc.len() <= k < st.0.len() implies (#[trigger] st.0[k]).capacity == 0 by {
                    if k < s0.0.len() {
                        assert(b[k] == s0.0[k]);
                    }
                    assert(st.0[k].capacity == b[k].capacity) by {
                        if k != i {
                            assert(st.0[k] == b[k]);
                        }
                    }
                }
                assert(results_on(rs, pools, driver, node)) by {
                    assert(counted_result(rs[rs.len() - 1], pools, driver));
                }
                assert forall|name: Seq<char>| #[trigger] results_on(rs, pools, driver, name) <==> results_on(d, pools, driver, name) || name == node by {
                    if results_on(rs, pools, driver, name) {
                        let x = choose|x: int| 0 <= x < rs.len() && counted_result(#[trigger] rs[x], pools, driver) && pools[pool_index(pools, rs[x].pool@)].node_name == name;
                        if x < d.len() {
                            assert(d[x] == rs[x]);
                        }
                    }
                    if results_on(d, pools, driver, name) {
                        let x = choose|x: int| 0 <= x < d.len() && counted_result(#[trigger] d[x], pools, driver) && pools[pool_index(pools, d[x].pool@)].node_name == name;
                        assert(rs[x] == d[x]);
                    }
                }
                assert forall|name: Seq<char>| #[trigger] results_on(rs, pools, driver, name) implies dra_index(st.0, name) >= 0 by {
                    if name == node {
                        lemma_first_index_found(st.0, |n: DraNodeView| n.name == name, i);
                    } else {
                        assert(results_on(d, pools, driver, name));
                        lemma_index_kept(s0.0, st.0, name);
                    }
                }
                let counts = s0.1;
                let ci = claim_node_index(counts, node);
                lemma_first_index_facts(counts, |c: ClaimNodeView| c.node == node);
                assert forall|name: Seq<char>| #[trigger] counted_on(st.1, name) <==> counted_on(counts, name) || name == node by {
                    if ci < 0 {
                        assert(st.1 == counts.push(st.1.last()));
                        if counted_on(st.1, name) {
                            let t = choose|t: int| 0 <= t < st.1.len() && (#[trigger] st.1[t]).node == name;
                            if t < counts.len() {
                                assert(counts[t] == st.1[t]);
                            }
                        }
                        if counted_on(counts, name) {
                            let t = choose|t: int| 0 <= t < counts.len() && (#[trigger] counts[t]).node == name;
                            assert(st.1[t] == counts[t]);
                        }
                        if name == node {
                            assert(st.1[counts.len() as int].node == node);
                        }
                    } else {
                        assert(st.1.len() == counts.len());
                        if counted_on(st.1, name) {
                            let t = choose|t: int| 0 <= t < st.1.len() && (#[trigger] st.1[t]).node == name;
                            if t != ci {
                                assert(counts[t] == st.1[t]);
                            }
                        }
                        if counted_on(counts, name) {
                            let t = choose|t: int| 0 <= t < counts.len() && (#[trigger] counts[t]).node == name;
                            if t != ci {
                                assert(st.1[t] == counts[t]);
                            } else {
                                assert(st.1[t].node == counts[t].node);
                            }
                        }
                        if name == node {
                            assert(st.1[ci].node == node);
                        }
                    }
                }
            }
        }
    }
}

/// Whether some claim of `claims` counts a device on the node `node` and is reserved for
/// the pod `name` of its namespace `ns`.
pub open spec fn claim_pod_on(
    claims: Seq<ClaimInfo>,
    pools: Seq<PoolView>,
    driver: Seq<char>,
    node: Seq<char>,
    ns: Seq<char>,
    name: Seq<char>,
) -> bool {
    exists|m: int|
        0 <= m < claims.len() && opt_text((#[trigger] claims[m]).namespace) == ns
            && consumer_for(claims[m].reserved_for@, name)
            && results_on(claims[m].results@, pools, driver, node)
}

/// Whether some claim of `claims` counts a device on the node `node`.
pub open spec fn claims_on(claims: Seq<ClaimInfo>, pools: Seq<PoolView>, driver: Seq<char>, node: Seq<char>) -> bool {
    exists|m: int| 0 <= m < claims.len() && results_on((#[trigger] claims[m]).results@, pools, driver, node)
}

proof fn lemma_no_pods(pods: Seq<PodEntryView>, ns: Seq<char>, name: Seq<char>)
    requires
        pods.len() == 0,
    ensures
        !has_pod(pods, ns, name),
{
}

/// Which pods the claims add to each node.
pub(crate) proof fn lemma_claims_fold_pods(
    acc: Seq<DraNodeView>,
    claims: Seq<ClaimInfo>,
    pools: Seq<PoolView>,
    driver: Seq<char>,
)
    requires
        dra_distinct(acc),
    ensures
        claims_fold(acc, claims, pools, driver) matches Ok(b) ==> {
            &&& dra_grows(acc, b, pools)
            &&& dra_distinct(b)
            &&& forall|name: Seq<char>| #[trigger] claims_on(claims, pools, driver, name) ==> dra_index(b, name) >= 0
            &&& forall|i: int, ns: Seq<char>, nm: Seq<char>| 0 <= i < b.len() ==> (#[trigger] has_pod(b[i].pods, ns, nm) <==> (i < acc.len() && has_pod(acc[i].pods, ns, nm)) || claim_pod_on(claims, pools, driver, b[i].name, ns, nm))
        },
    decreases claims.len(),
{
    lemma_claims_fold(acc, claims, pools, driver);
    if claims.len() == 0 {
    } else {
        let d = claims.drop_last();
        let c = claims.last();
        lemma_claims_fold_pods(acc, d, pools, driver);
        if let Ok(b) = claims_fold(acc, claims, pools, driver) {
            let a = claims_fold(acc, d, pools, driver)->Ok_0;
            assert(claims[claims.len() - 1] == c);
            assert forall|m: int| 0 <= m < d.len() implies #[trigger] claims[m] == d[m] by {}
            lemma_results_fold(a, c.results@, pools, driver);
            lemma_results_fold_facts(a, c.results@, pools, driver);
            let st = results_fold(a, c.results@, pools, driver)->Ok_0;
            let ns_c = opt_text(c.namespace);
            let res = c.reserved_for@;
            lemma_counts_fold_pods(st.0, st.1, ns_c, res);
            assert(b == counts_fold(st.0, st.1, ns_c, res)->Ok_0);
            assert(b.len() == st.0.len());
            assert forall|name: Seq<char>| #[trigger] claims_on(claims, pools, driver, name) implies dra_index(b, name) >= 0 by {
                let m = choose|m: int| 0 <= m < claims.len() && results_on((#[trigger] claims[m]).results@, pools, driver, name);
                if m < d.len() {
                    assert(claims_on(d, pools, driver, name)) by {
                        assert(d[m] == claims[m]);
                    }
                    lemma_index_kept(a, st.0, name);
                } else {
                    assert(results_on(c.results@, pools, driver, name));
                }
                lemma_index_kept(st.0, b, name);
            }
            assert forall|i: int, ns: Seq<char>, nm: Seq<char>| 0 <= i < b.len() implies (#[trigger] has_pod(b[i].pods, ns, nm) <==> (i < acc.len() && has_pod(acc[i].pods, ns, nm)) || claim_pod_on(claims, pools, driver, b[i].name, ns, nm)) by {
                let name = b[i].name;
                assert(name == st.0[i].name);
                assert(has_pod(b[i].pods, ns, nm) <==> has_pod(st.0[i].pods, ns, nm) || (ns == ns_c && consumer_for(res, nm) && counted_on(st.1, name)));
                assert(counted_on(st.1, name) <==> results_on(c.results@, pools, driver, name));
                // the pods of claim `c`
                assert(claim_pod_on(claims, pools, driver, name, ns, nm) <==> claim_pod_on(d, pools, driver, name, ns, nm) || (ns == ns_c && consumer_for(res, nm) && results_on(c.results@, pools, driver, name))) by {
                    if claim_pod_on(claims, pools, driver, name, ns, nm) {
                        let m = choose|m: int| 0 <= m < claims.len() && opt_text((#[trigger] claims[m]).namespace) == ns && consumer_for(claims[m].reserved_for@, nm) && results_on(claims[m].results@, pools, driver, name);
                        if m < d.len() {
                            assert(d[m] == claims[m]);
                        }
                    }
                    if claim_pod_on(d, pools, driver, name, ns, nm) {
                        let m = choose|m: int| 0 <= m < d.len() && opt_text((#[trigger] d[m]).namespace) == ns && consumer_for(d[m].reserved_for@, nm) && results_on(d[m].results@, pools, driver, name);
                        assert(claims[m] == d[m]);
                    }
                }
                if i < a.len() {
                    assert(st.0[i].pods == a[i].pods);
                    assert(a[i].name == name);
                } else {
                    lemma_no_pods(st.0[i].pods, ns, nm);
                    if claim_pod_on(d, pools, driver, name, ns, nm) {
                        let m = choose|m: int| 0 <= m < d.len() && opt_text((#[trigger] d[m]).namespace) == ns && consumer_for(d[m].reserved_for@, nm) && results_on(d[m].results@, pools, driver, name);
                        assert(claims_on(d, pools, driver, name));
                        lemma_first_index_facts(a, |n: DraNodeView| n.name == name);
                        let k = dra_index(a, name);
                        assert(a[k].name == name);
                        assert(st.0[k].name == a[k].name);
                        assert(b[k].name == st.0[k].name);
                        assert(false);
                    }
                }
            }
        }
    }
}

/// The listed nodes start with no pods.
pub(crate) proof fn lemma_dra_nodes_no_pods(nodes: Seq<NodeInfo>)
    ensures
        dra_nodes_spec(nodes) matches Ok(acc) ==> forall|i: int| 0 <= i < acc.len() ==> (#[trigger] acc[i]).pods.len() == 0,
    decreases nodes.len(),
{
    if nodes.len() > 0 {
        lemma_dra_nodes_no_pods(nodes.drop_last());
        if let Ok(acc) = dra_nodes_spec(nodes) {
            let a0 = dra_nodes_spec(nodes.drop_last())->Ok_0;
            lemma_ensure_facts(a0, nodes.last().name->0@);
            assert forall|i: int| 0 <= i < acc.len() implies (#[trigger] acc[i]).pods.len() == 0 by {
                if i < a0.len() {
                    assert(acc[i] == a0[i]);
                }
            }
        }
    }
}

/// Adding pool capacity keeps the pods of the nodes.
pub(crate) proof fn lemma_capacity_pods(acc: Seq<DraNodeView>, pools: Seq<PoolView>)
    ensures
        dra_capacity(acc, pools) matches Ok(b) ==> pods_kept(acc, b),
    decreases pools.len(),
{
    if pools.len() > 0 {
        lemma_capacity_pods(acc, pools.drop_last());
        if let Ok(b) = dra_capacity(acc, pools) {
            let a = dra_capacity(acc, pools.drop_last())->Ok_0;
            let p = pools.last();
            lemma_ensure_facts(a, p.node_name);
            let e = dra_ensure(a, p.node_name);
            let i = dra_index(e, p.node_name);
            assert forall|k: int| 0 <= k < acc.len() implies #[trigger] b[k].pods == acc[k].pods by {
                assert(e[k] == a[k]);
                if k != i {
                    assert(b[k] == e[k]);
                }
            }
            assert forall|k: int| acc.len() <= k < b.len() implies (#[trigger] b[k]).pods.len() == 0 by {
                if k < a.len() {
                    assert(e[k] == a[k]);
                }
                if k != i {
                    assert(b[k] == e[k]);
                }
            }
        }
    }
}

proof fn lemma_has_pod_sorted(pods: Seq<PodEntryView>, ns: Seq<char>, name: Seq<char>)
    ensures
        has_pod(sort_seq::<PodEntry>(pods), ns, name) == has_pod(pods, ns, name),
{
    let q = sort_seq::<PodEntry>(pods);
    lemma_sort_same_elements::<PodEntry>(pods);
    if has_pod(q, ns, name) {
        let x = choose|x: int| 0 <= x < q.len() && (#[trigger] q[x]).namespace == ns && q[x].name == name;
        assert(q.contains(q[x]));
        assert(pods.contains(q[x]));
        let y = choose|y: int| 0 <= y < pods.len() && pods[y] == q[x];
        assert(pods[y].namespace == ns);
    }
    if has_pod(pods, ns, name) {
        let x = choose|x: int| 0 <= x < pods.len() && (#[trigger] pods[x]).namespace == ns && pods[x].name == name;
        assert(pods.contains(pods[x]));
        assert(q.contains(pods[x]));
        let y = choose|y: int| 0 <= y < q.len() && q[y] == pods[x];
        assert(q[y].namespace == ns);
    }
}

/// The pods shown in each row of the DRA table are exactly the pods that some claim is
/// reserved for (in the claim's namespace) while it holds a counted device (no admin
/// access, of the driver, from a known pool) on that row's node.
pub proof fn law_dra_pods(
    nodes: Seq<NodeInfo>,
    slices: Seq<SliceInfo>,
    claims: Seq<ClaimInfo>,
    driver: Seq<char>,
    include_empty: bool,
)
    ensures
        aggregate_dra_spec(nodes, slices, claims, driver, include_empty) matches Ok(rows) ==> forall|j: int, ns: Seq<char>, nm: Seq<char>|
            0 <= j < rows.len() ==> (#[trigger] has_pod(rows[j].pods, ns, nm) <==> claim_pod_on(claims, pool_infos_spec(slices, driver)->Ok_0, driver, rows[j].node_name, ns, nm)),
{
    lemma_dra_nodes(nodes);
    lemma_dra_nodes_no_pods(nodes);
    if let Ok(rows) = aggregate_dra_spec(nodes, slices, claims, driver, include_empty) {
        let acc0 = dra_nodes_spec(nodes)->Ok_0;
        let pools = pool_infos_spec(slices, driver)->Ok_0;
        lemma_dra_capacity(acc0, pools);
        lemma_capacity_pods(acc0, pools);
        let acc1 = dra_capacity(acc0, pools)->Ok_0;
        assert(dra_distinct(acc1));
        lemma_claims_fold_pods(acc1, claims, pools, driver);
        let acc2 = claims_fold(acc1, claims, pools, driver)->Ok_0;
        lemma_dra_rows(acc2, include_empty);
        let unsorted = dra_rows(acc2, include_empty)->Ok_0;
        lemma_sort_same_elements::<NodeRow>(unsorted);
        assert forall|j: int, ns: Seq<char>, nm: Seq<char>| 0 <= j < rows.len() implies (#[trigger] has_pod(rows[j].pods, ns, nm) <==> claim_pod_on(claims, pools, driver, rows[j].node_name, ns, nm)) by {
            assert(rows.contains(rows[j]));
            let u = choose|u: int| 0 <= u < unsorted.len() && unsorted[u] == rows[j];
            assert(dra_row_of(acc2, unsorted[u]));
            let i = choose|i: int| 0 <= i < acc2.len() && #[trigger] acc2[i].name == unsorted[u].node_name && acc2[i].capacity == unsorted[u].capacity && unsorted[u].pods == sort_seq::<PodEntry>(acc2[i].pods) && unsorted[u].allocated == acc2[i].allocated.len();
            lemma_has_pod_sorted(acc2[i].pods, ns, nm);
            if i < acc1.len() {
                if i < acc0.len() {
                    assert(acc1[i].pods == acc0[i].pods);
                }
                lemma_no_pods(acc1[i].pods, ns, nm);
            }
        }
    }
}

} // verus!
