//! Which devices the DRA table counts as allocated on each node.
use vstd::prelude::*;

use crate::aggregate::{opt_text, NodeRow};
use crate::aggregate_dra::{
    aggregate_dra_spec, claims_fold, counts_fold, dra_capacity, dra_ensure, dra_index,
    dra_nodes_spec, dra_rows, pool_index, pool_infos_spec, result_step, results_fold,
    ClaimNodeView, DraNodeView, PoolView,
};
use crate::cluster::{ClaimInfo, DeviceResultInfo, NodeInfo, SliceInfo};
use crate::dra_pods::{
    claims_on, counted_result, lemma_claims_fold_pods, lemma_counts_fold_pods,
    lemma_results_fold_facts, results_on,
};
use crate::dra_properties::{
    dra_distinct, dra_row_of, lemma_dra_capacity, lemma_dra_nodes, lemma_dra_rows,
    lemma_ensure_facts,
};
use crate::search::lemma_first_index_facts;
use crate::sorting::lemma_sort_same_elements;

verus! {

/// The device a result names: its pool and device name.
pub open spec fn device_of(r: DeviceResultInfo) -> (Seq<char>, Seq<char>) {
    (r.pool@, r.device@)
}

/// The node of the pool a result's device is in.
pub open spec fn result_node(r: DeviceResultInfo, pools: Seq<PoolView>) -> Seq<char> {
    pools[pool_index(pools, r.pool@)].node_name
}

/// Whether some counted result of `rs` names the device `dev` on the node `node`.
pub open spec fn device_in(
    rs: Seq<DeviceResultInfo>,
    pools: Seq<PoolView>,
    driver: Seq<char>,
    node: Seq<char>,
    dev: (Seq<char>, Seq<char>),
) -> bool {
    exists|x: int|
        0 <= x < rs.len() && counted_result(#[trigger] rs[x], pools, driver) && result_node(rs[x], pools) == node
            && device_of(rs[x]) == dev
}

/// Every node's allocated devices are listed once each.
pub open spec fn allocated_distinct(acc: Seq<DraNodeView>) -> bool {
    forall|i: int| 0 <= i < acc.len() ==> (#[trigger] acc[i]).allocated.no_duplicates()
}

proof fn lemma_result_step_devices(
    st: (Seq<DraNodeView>, Seq<ClaimNodeView>),
    r: DeviceResultInfo,
    pools: Seq<PoolView>,
    driver: Seq<char>,
)
    requires
        dra_distinct(st.0),
        allocated_distinct(st.0),
    ensures
        result_step(st, r, pools, driver) matches Ok(st2) ==> {
            &&& allocated_distinct(st2.0)
            &&& forall|i: int, dev: (Seq<char>, Seq<char>)| 0 <= i < st2.0.len() ==> (#[trigger] st2.0[i].allocated.contains(dev) <==> (i < st.0.len() && st.0[i].allocated.contains(dev)) || (counted_result(r, pools, driver) && result_node(r, pools) == st2.0[i].name && dev == device_of(r)))
        },
{
    if let Ok(st2) = result_step(st, r, pools, driver) {
        lemma_result_step_names(st, r, pools, driver);
        if !counted_result(r, pools, driver) {
            assert(st2 == st);
        } else {
            let node = result_node(r, pools);
            lemma_ensure_facts(st.0, node);
            let b = dra_ensure(st.0, node);
            let i0 = dra_index(b, node);
            let pair = device_of(r);
            assert(st2.0.len() == b.len());
            assert forall|i: int| 0 <= i < st2.0.len() implies (#[trigger] st2.0[i]).allocated.no_duplicates() by {
                if i != i0 || b[i0].allocated.contains(pair) {
                    assert(st2.0[i] == b[i]);
                    if i < st.0.len() {
                        assert(b[i] == st.0[i]);
                    }
                } else {
                    if i0 < st.0.len() {
                        assert(b[i0] == st.0[i0]);
                    }
                    let q = b[i0].allocated;
                    assert(st2.0[i].allocated == q.push(pair));
                    assert forall|x: int, y: int| 0 <= x < q.len() + 1 && 0 <= y < q.len() + 1 && x != y implies q.push(pair)[x] != q.push(pair)[y] by {
                        if x == q.len() {
                            assert(q.push(pair)[y] == q[y]);
                        } else if y == q.len() {
                            assert(q.push(pair)[x] == q[x]);
                        } else {
                            assert(q.push(pair)[x] == q[x] && q.push(pair)[y] == q[y]);
                        }
                    }
                }
            }
            assert forall|i: int, dev: (Seq<char>, Seq<char>)| 0 <= i < st2.0.len() implies (#[trigger] st2.0[i].allocated.contains(dev) <==> (i < st.0.len() && st.0[i].allocated.contains(dev)) || (counted_result(r, pools, driver) && result_node(r, pools) == st2.0[i].name && dev == device_of(r))) by {
                assert(st2.0[i].name == b[i].name);
                if i < st.0.len() {
                    assert(b[i] == st.0[i]);
                }
                if i != i0 {
                    assert(st2.0[i] == b[i]);
                    assert(b[i].name != node) by {
                        if b[i].name == node {
                            assert(b[i0].name == node);
                        }
                    }
                    if i >= st.0.len() {
                        assert(b[i].allocated.len() == 0);
                    }
                } else {
                    let q = b[i0].allocated;
                    if i0 >= st.0.len() {
                        assert(q.len() == 0);
                    }
                    if !q.contains(pair) {
                        assert(st2.0[i].allocated == q.push(pair));
                        if q.push(pair).contains(dev) {
                            let x = choose|x: int| 0 <= x < q.len() + 1 && q.push(pair)[x] == dev;
                            if x < q.len() {
                                assert(q[x] == dev);
                            }
                        }
                        if q.contains(dev) {
                            let x = choose|x: int| 0 <= x < q.len() && q[x] == dev;
                            assert(q.push(pair)[x] == dev);
                        }
                        assert(q.push(pair)[q.len() as int] == pair);
                    } else {
                        assert(st2.0[i] == b[i]);
                    }
                }
            }
        }
    }
}

proof fn lemma_result_step_names(
    st: (Seq<DraNodeView>, Seq<ClaimNodeView>),
    r: DeviceResultInfo,
    pools: Seq<PoolView>,
    driver: Seq<char>,
)
    requires
        dra_distinct(st.0),
    ensures
        result_step(st, r, pools, driver) matches Ok(st2) ==> {
            &&& dra_distinct(st2.0)
            &&& st.0.len() <= st2.0.len()
            &&& forall|i: int| 0 <= i < st.0.len() ==> #[trigger] st2.0[i].name == st.0[i].name
        },
{
    if let Ok(st2) = result_step(st, r, pools, driver) {
        if counted_result(r, pools, driver) {
            let node = result_node(r, pools);
            lemma_ensure_facts(st.0, node);
            let b = dra_ensure(st.0, node);
            let i0 = dra_index(b, node);
            assert forall|x: int, y: int| 0 <= x < y < st2.0.len() implies #[trigger] st2.0[x].name != #[trigger] st2.0[y].name by {
                assert(st2.0[x].name == b[x].name && st2.0[y].name == b[y].name) by {
                    if x != i0 {
                        assert(st2.0[x] == b[x]);
                    }
                    if y != i0 {
                        assert(st2.0[y] == b[y]);
                    }
                }
            }
            assert forall|i: int| 0 <= i < st.0.len() implies #[trigger] st2.0[i].name == st.0[i].name by {
                assert(b[i] == st.0[i]);
                if i != i0 {
                    assert(st2.0[i] == b[i]);
                }
            }
        }
    }
}

/// How one claim's results change the devices allocated on each node.
pub(crate) proof fn lemma_results_fold_devices(
    acc: Seq<DraNodeView>,
    rs: Seq<DeviceResultInfo>,
    pools: Seq<PoolView>,
    driver: Seq<char>,
)
    requires
        dra_distinct(acc),
        allocated_distinct(acc),
    ensures
        results_fold(acc, rs, pools, driver) matches Ok(st) ==> {
            &&& dra_distinct(st.0)
            &&& allocated_distinct(st.0)
            &&& forall|i: int, dev: (Seq<char>, Seq<char>)| 0 <= i < st.0.len() ==> (#[trigger] st.0[i].allocated.contains(dev) <==> (i < acc.len() && acc[i].allocated.contains(dev)) || device_in(rs, pools, driver, st.0[i].name, dev))
        },
    decreases rs.len(),
{
    if rs.len() > 0 {
        let d = rs.drop_last();
        let r = rs.last();
        lemma_results_fold_devices(acc, d, pools, driver);
        lemma_results_fold_facts(acc, d, pools, driver);
        if let Ok(st) = results_fold(acc, rs, pools, driver) {
            let s0 = results_fold(acc, d, pools, driver)->Ok_0;
            assert(st == result_step(s0, r, pools, driver)->Ok_0);
            lemma_result_step_names(s0, r, pools, driver);
            lemma_result_step_devices(s0, r, pools, driver);
            assert(rs[rs.len() - 1] == r);
            assert forall|x: int| 0 <= x < d.len() implies #[trigger] rs[x] == d[x] by {}
            assert forall|i: int, dev: (Seq<char>, Seq<char>)| 0 <= i < st.0.len() implies (#[trigger] st.0[i].allocated.contains(dev) <==> (i < acc.len() && acc[i].allocated.contains(dev)) || device_in(rs, pools, driver, st.0[i].name, dev)) by {
                let name = st.0[i].name;
                assert(device_in(rs, pools, driver, name, dev) <==> device_in(d, pools, driver, name, dev) || (counted_result(r, pools, driver) && result_node(r, pools) == name && dev == device_of(r))) by {
                    if device_in(rs, pools, driver, name, dev) {
                        let x = choose|x: int| 0 <= x < rs.len() && counted_result(#[trigger] rs[x], pools, driver) && result_node(rs[x], pools) == name && device_of(rs[x]) == dev;
                        if x < d.len() {
                            assert(d[x] == rs[x]);
                        }
                    }
                    if device_in(d, pools, driver, name, dev) {
                        let x = choose|x: int| 0 <= x < d.len() && counted_result(#[trigger] d[x], pools, driver) && result_node(d[x], pools) == name && device_of(d[x]) == dev;
                        assert(rs[x] == d[x]);
                    }
                }
                if i < s0.0.len() {
                    assert(s0.0[i].name == name);
                } else if device_in(d, pools, driver, name, dev) {
                    let x = choose|x: int| 0 <= x < d.len() && counted_result(#[trigger] d[x], pools, driver) && result_node(d[x], pools) == name && device_of(d[x]) == dev;
                    assert(results_on(d, pools, driver, name));
                    lemma_first_index_facts(s0.0, |n: DraNodeView| n.name == name);
                    let k = dra_index(s0.0, name);
                    assert(st.0[k].name == s0.0[k].name);
                    assert(false);
                }
            }
        }
    }
}

/// Whether some claim of `claims` holds the device `dev` as a counted result on the node
/// `node`.
pub open spec fn claim_device_on(
    claims: Seq<ClaimInfo>,
    pools: Seq<PoolView>,
    driver: Seq<char>,
    node: Seq<char>,
    dev: (Seq<char>, Seq<char>),
) -> bool {
    exists|m: int| 0 <= m < claims.len() && device_in((#[trigger] claims[m]).results@, pools, driver, node, dev)
}

/// How the claims change the devices allocated on each node.
pub(crate) proof fn lemma_claims_fold_devices(
    acc: Seq<DraNodeView>,
    claims: Seq<ClaimInfo>,
    pools: Seq<PoolView>,
    driver: Seq<char>,
)
    requires
        dra_distinct(acc),
        allocated_distinct(acc),
    ensures
        claims_fold(acc, claims, pools, driver) matches Ok(b) ==> {
            &&& allocated_distinct(b)
            &&& forall|i: int, dev: (Seq<char>, Seq<char>)| 0 <= i < b.len() ==> (#[trigger] b[i].allocated.contains(dev) <==> (i < acc.len() && acc[i].allocated.contains(dev)) || claim_device_on(claims, pools, driver, b[i].name, dev))
        },
    decreases claims.len(),
{
    lemma_claims_fold_pods(acc, claims, pools, driver);
    if claims.len() > 0 {
        let d = claims.drop_last();
        let c = claims.last();
        lemma_claims_fold_devices(acc, d, pools, driver);
        lemma_claims_fold_pods(acc, d, pools, driver);
        if let Ok(b) = claims_fold(acc, claims, pools, driver) {
            let a = claims_fold(acc, d, pools, driver)->Ok_0;
            assert(claims[claims.len() - 1] == c);
            assert forall|m: int| 0 <= m < d.len() implies #[trigger] claims[m] == d[m] by {}
            lemma_results_fold_devices(a, c.results@, pools, driver);
            lemma_results_fold_facts(a, c.results@, pools, driver);
            let st = results_fold(a, c.results@, pools, driver)->Ok_0;
            lemma_counts_fold_pods(st.0, st.1, opt_text(c.namespace), c.reserved_for@);
            assert(counts_fold(st.0, st.1, opt_text(c.namespace), c.reserved_for@) == Ok::<Seq<DraNodeView>, crate::error::AggregateErrorView>(b));
            assert(b.len() == st.0.len());
            assert forall|i: int| 0 <= i < b.len() implies (#[trigger] b[i]).allocated.no_duplicates() by {
                assert(b[i].name == st.0[i].name);
                assert(b[i].allocated == st.0[i].allocated);
            }
            assert forall|i: int, dev: (Seq<char>, Seq<char>)| 0 <= i < b.len() implies (#[trigger] b[i].allocated.contains(dev) <==> (i < acc.len() && acc[i].allocated.contains(dev)) || claim_device_on(claims, pools, driver, b[i].name, dev)) by {
                let name = b[i].name;
                assert(b[i].name == st.0[i].name);
                assert(b[i].allocated == st.0[i].allocated && st.0[i].name == name);
                assert(claim_device_on(claims, pools, driver, name, dev) <==> claim_device_on(d, pools, driver, name, dev) || device_in(c.results@, pools, driver, name, dev)) by {
                    if claim_device_on(claims, pools, driver, name, dev) {
                        let m = choose|m: int| 0 <= m < claims.len() && device_in((#[trigger] claims[m]).results@, pools, driver, name, dev);
                        if m < d.len() {
                            assert(d[m] == claims[m]);
                        }
                    }
                    if claim_device_on(d, pools, driver, name, dev) {
                        let m = choose|m: int| 0 <= m < d.len() && device_in((#[trigger] d[m]).results@, pools, driver, name, dev);
                        assert(claims[m] == d[m]);
                    }
                }
                if i < a.len() {
                    assert(st.0[i].name == a[i].name);
                } else if claim_device_on(d, pools, driver, name, dev) {
                    let m = choose|m: int| 0 <= m < d.len() && device_in((#[trigger] d[m]).results@, pools, driver, name, dev);
                    let x = choose|x: int| 0 <= x < d[m].results@.len() && counted_result(#[trigger] d[m].results@[x], pools, driver) && result_node(d[m].results@[x], pools) == name && device_of(d[m].results@[x]) == dev;
                    assert(results_on(d[m].results@, pools, driver, name));
                    assert(claims_on(d, pools, driver, name));
                    lemma_first_index_facts(a, |n: DraNodeView| n.name == name);
                    let k = dra_index(a, name);
                    assert(st.0[k].name == a[k].name);
                    assert(b[k].name == st.0[k].name);
                    assert(false);
                }
            }
        }
    }
}

proof fn lemma_dra_nodes_no_devices(nodes: Seq<NodeInfo>)
    ensures
        dra_nodes_spec(nodes) matches Ok(acc) ==> forall|i: int| 0 <= i < acc.len() ==> (#[trigger] acc[i]).allocated.len() == 0,
    decreases nodes.len(),
{
    if nodes.len() > 0 {
        lemma_dra_nodes_no_devices(nodes.drop_last());
        if let Ok(acc) = dra_nodes_spec(nodes) {
            let a0 = dra_nodes_spec(nodes.drop_last())->Ok_0;
            lemma_ensure_facts(a0, nodes.last().name->0@);
            assert forall|i: int| 0 <= i < acc.len() implies (#[trigger] acc[i]).allocated.len() == 0 by {
                if i < a0.len() {
                    assert(acc[i] == a0[i]);
                }
            }
        }
    }
}

proof fn lemma_capacity_devices(acc: Seq<DraNodeView>, pools: Seq<PoolView>)
    requires
        forall|i: int| 0 <= i < acc.len() ==> (#[trigger] acc[i]).allocated.len() == 0,
    ensures
        dra_capacity(acc, pools) matches Ok(b) ==> forall|i: int| 0 <= i < b.len() ==> (#[trigger] b[i]).allocated.len() == 0,
    decreases pools.len(),
{
    if pools.len() > 0 {
        lemma_capacity_devices(acc, pools.drop_last());
        if let Ok(b) = dra_capacity(acc, pools) {
            let a = dra_capacity(acc, pools.drop_last())->Ok_0;
            let p = pools.last();
            lemma_ensure_facts(a, p.node_name);
            let e = dra_ensure(a, p.node_name);
            let i0 = dra_index(e, p.node_name);
            assert forall|k: int| 0 <= k < b.len() implies (#[trigger] b[k]).allocated.len() == 0 by {
                if k < a.len() {
                    assert(e[k] == a[k]);
                }
                if k != i0 {
                    assert(b[k] == e[k]);
                }
            }
        }
    }
}

/// The devices that the claims hold, as counted results, on the node `node`.
pub open spec fn devices_on(
    claims: Seq<ClaimInfo>,
    pools: Seq<PoolView>,
    driver: Seq<char>,
    node: Seq<char>,
) -> Set<(Seq<char>, Seq<char>)> {
    Set::new(|dev: (Seq<char>, Seq<char>)| claim_device_on(claims, pools, driver, node, dev))
}

/// The allocation shown in each row of the DRA table is the number of distinct devices
/// (pool, device) that the claims hold on that row's node: a device held by several
/// claims, or named twice, counts once.
pub proof fn law_dra_allocated(
    nodes: Seq<NodeInfo>,
    slices: Seq<SliceInfo>,
    claims: Seq<ClaimInfo>,
    driver: Seq<char>,
    include_empty: bool,
)
    ensures
        aggregate_dra_spec(nodes, slices, claims, driver, include_empty) matches Ok(rows) ==> forall|j: int|
            0 <= j < rows.len() ==> {
                let devs = devices_on(claims, pool_infos_spec(slices, driver)->Ok_0, driver, (#[trigger] rows[j]).node_name);
                devs.finite() && rows[j].allocated == devs.len()
            },
{
    lemma_dra_nodes(nodes);
    lemma_dra_nodes_no_devices(nodes);
    if let Ok(rows) = aggregate_dra_spec(nodes, slices, claims, driver, include_empty) {
        let acc0 = dra_nodes_spec(nodes)->Ok_0;
        let pools = pool_infos_spec(slices, driver)->Ok_0;
        lemma_dra_capacity(acc0, pools);
        lemma_capacity_devices(acc0, pools);
        let acc1 = dra_capacity(acc0, pools)->Ok_0;
        assert(dra_distinct(acc1));
        assert(allocated_distinct(acc1)) by {
            assert forall|i: int| 0 <= i < acc1.len() implies (#[trigger] acc1[i]).allocated.no_duplicates() by {
                assert(acc1[i].allocated.len() == 0);
            }
        }
        lemma_claims_fold_devices(acc1, claims, pools, driver);
        let acc2 = claims_fold(acc1, claims, pools, driver)->Ok_0;
        lemma_dra_rows(acc2, include_empty);
        let unsorted = dra_rows(acc2, include_empty)->Ok_0;
        lemma_sort_same_elements::<NodeRow>(unsorted);
        assert forall|j: int| 0 <= j < rows.len() implies {
            let devs = devices_on(claims, pools, driver, (#[trigger] rows[j]).node_name);
            devs.finite() && rows[j].allocated == devs.len()
        } by {
            assert(rows.contains(rows[j]));
            let u = choose|u: int| 0 <= u < unsorted.len() && unsorted[u] == rows[j];
            assert(dra_row_of(acc2, unsorted[u]));
            let i = choose|i: int| 0 <= i < acc2.len() && #[trigger] acc2[i].name == unsorted[u].node_name && acc2[i].capacity == unsorted[u].capacity && unsorted[u].pods == crate::sorting::sort_seq::<crate::aggregate::PodEntry>(acc2[i].pods) && unsorted[u].allocated == acc2[i].allocated.len();
            let q = acc2[i].allocated;
            let devs = devices_on(claims, pools, driver, rows[j].node_name);
            assert(q.to_set() =~= devs) by {
                assert forall|dev: (Seq<char>, Seq<char>)| q.to_set().contains(dev) <==> devs.contains(dev) by {
                    assert(q.contains(dev) <==> (i < acc1.len() && acc1[i].allocated.contains(dev)) || claim_device_on(claims, pools, driver, acc2[i].name, dev));
                    if i < acc1.len() {
                        assert(acc1[i].allocated.len() == 0);
                    }
                }
            }
            q.unique_seq_to_set();
            vstd::seq_lib::seq_to_set_is_finite(q);
        }
    }
}

} // verus!
