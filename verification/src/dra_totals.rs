//! The capacity the DRA table shows for each node.
use vstd::prelude::*;

use crate::aggregate::{opt_text, NodeRow, PodEntry};
use crate::aggregate_dra::{
    aggregate_dra_spec, claims_fold, counts_fold, dra_capacity, dra_ensure, dra_index,
    dra_nodes_spec, dra_rows, pool_infos_spec, results_fold, DraNodeView, PoolView,
};
use crate::cluster::{ClaimInfo, NodeInfo, SliceInfo};
use crate::dra_pods::{lemma_claims_fold_pods, lemma_counts_fold_pods, lemma_results_fold_facts};
use crate::dra_properties::{
    dra_distinct, dra_row_of, lemma_dra_capacity, lemma_dra_nodes, lemma_dra_rows,
    lemma_ensure_facts, lemma_results_fold,
};
use crate::search::{lemma_first_index_facts, lemma_first_index_found};
use crate::sorting::{lemma_sort_same_elements, sort_seq};

verus! {

/// The sum of the capacities of the pools of `pools` that are on the node `name`.
pub open spec fn pool_cap_sum(pools: Seq<PoolView>, name: Seq<char>) -> int
    decreases pools.len(),
{
    if pools.len() == 0 {
        0
    } else {
        pool_cap_sum(pools.drop_last(), name) + if pools.last().node_name == name {
            pools.last().capacity as int
        } else {
            0
        }
    }
}

proof fn lemma_cap_sum_absent(pools: Seq<PoolView>, name: Seq<char>)
    requires
        forall|k: int| 0 <= k < pools.len() ==> (#[trigger] pools[k]).node_name != name,
    ensures
        pool_cap_sum(pools, name) == 0,
    decreases pools.len(),
{
    if pools.len() > 0 {
        let d = pools.drop_last();
        assert forall|k: int| 0 <= k < d.len() implies (#[trigger] d[k]).node_name != name by {
            assert(d[k] == pools[k]);
        }
        lemma_cap_sum_absent(d, name);
        assert(pools[pools.len() - 1] == pools.last());
    }
}

proof fn lemma_index_at(b: Seq<DraNodeView>, k: int, name: Seq<char>)
    requires
        0 <= k < b.len(),
        b[k].name == name,
    ensures
        dra_index(b, name) >= 0,
{
    lemma_first_index_found(b, |n: DraNodeView| n.name == name, k);
}

proof fn lemma_capacity_sums(acc: Seq<DraNodeView>, pools: Seq<PoolView>)
    requires
        dra_distinct(acc),
    ensures
        dra_capacity(acc, pools) matches Ok(b) ==> {
            &&& forall|i: int| 0 <= i < b.len() ==> (#[trigger] b[i]).capacity == (if i < acc.len() {
                acc[i].capacity as int
            } else {
                0
            }) + pool_cap_sum(pools, b[i].name)
            &&& forall|k: int| 0 <= k < pools.len() ==> dra_index(b, (#[trigger] pools[k]).node_name) >= 0
        },
    decreases pools.len(),
{
    if pools.len() > 0 {
        let d = pools.drop_last();
        let p = pools.last();
        lemma_capacity_sums(acc, d);
        lemma_dra_capacity(acc, d);
        if let Ok(b) = dra_capacity(acc, pools) {
            let a = dra_capacity(acc, d)->Ok_0;
            assert(pools[pools.len() - 1] == p);
            assert forall|k: int| 0 <= k < d.len() implies #[trigger] pools[k] == d[k] by {}
            lemma_ensure_facts(a, p.node_name);
            let e = dra_ensure(a, p.node_name);
            let i0 = dra_index(e, p.node_name);
            assert(b.len() == e.len());
            assert forall|i: int| 0 <= i < b.len() && i != i0 implies #[trigger] b[i] == e[i] by {}
            assert(b[i0].name == p.node_name);
            assert forall|i: int| 0 <= i < b.len() implies (#[trigger] b[i]).capacity == (if i < acc.len() {
                acc[i].capacity as int
            } else {
                0
            }) + pool_cap_sum(pools, b[i].name) by {
                let name = b[i].name;
                if i == i0 {
                    if i0 < a.len() {
                        assert(e[i0] == a[i0]);
                    } else {
                        assert forall|k: int| 0 <= k < d.len() implies (#[trigger] d[k]).node_name != name by {
                            if d[k].node_name == name {
                                lemma_first_index_facts(a, |n: DraNodeView| n.name == name);
                                assert(dra_index(a, d[k].node_name) >= 0);
                                let x = dra_index(a, name);
                                assert(e[x] == a[x]);
                            }
                        }
                        lemma_cap_sum_absent(d, name);
                    }
                } else {
                    assert(e[i].name != e[i0].name);
                    assert(i < a.len());
                    assert(e[i] == a[i]);
                }
            }
            assert forall|k: int| 0 <= k < pools.len() implies dra_index(b, (#[trigger] pools[k]).node_name) >= 0 by {
                let name = pools[k].node_name;
                if k < d.len() {
                    assert(dra_index(a, d[k].node_name) >= 0);
                    lemma_first_index_facts(a, |n: DraNodeView| n.name == name);
                    let x = dra_index(a, name);
                    assert(e[x] == a[x]);
                    assert(b[x].name == name);
                    lemma_index_at(b, x, name);
                } else {
                    lemma_index_at(b, i0, name);
                }
            }
        }
    }
}

proof fn lemma_claims_fold_caps(acc: Seq<DraNodeView>, claims: Seq<ClaimInfo>, pools: Seq<PoolView>, driver: Seq<char>)
    requires
        dra_distinct(acc),
    ensures
        claims_fold(acc, claims, pools, driver) matches Ok(b) ==> {
            &&& forall|i: int| 0 <= i < acc.len() ==> (#[trigger] b[i]).capacity == acc[i].capacity
            &&& forall|i: int| acc.len() <= i < b.len() ==> (#[trigger] b[i]).capacity == 0
        },
    decreases claims.len(),
{
    lemma_claims_fold_pods(acc, claims, pools, driver);
    if claims.len() > 0 {
        let d = claims.drop_last();
        let c = claims.last();
        lemma_claims_fold_caps(acc, d, pools, driver);
        lemma_claims_fold_pods(acc, d, pools, driver);
        if let Ok(b) = claims_fold(acc, claims, pools, driver) {
            let a = claims_fold(acc, d, pools, driver)->Ok_0;
            lemma_results_fold(a, c.results@, pools, driver);
            lemma_results_fold_facts(a, c.results@, pools, driver);
            let st = results_fold(a, c.results@, pools, driver)->Ok_0;
            lemma_counts_fold_pods(st.0, st.1, opt_text(c.namespace), c.reserved_for@);
            assert(counts_fold(st.0, st.1, opt_text(c.namespace), c.reserved_for@) == Ok::<Seq<DraNodeView>, crate::error::AggregateErrorView>(b));
            assert(b.len() == st.0.len());
            assert forall|i: int| 0 <= i < b.len() implies (#[trigger] b[i]).capacity == st.0[i].capacity by {
                assert(b[i].name == st.0[i].name);
            }
            assert forall|i: int| 0 <= i < acc.len() implies (#[trigger] b[i]).capacity == acc[i].capacity by {
                assert(b[i].capacity == st.0[i].capacity);
                assert(st.0[i].name == a[i].name && st.0[i].capacity == a[i].capacity);
            }
            assert forall|i: int| acc.len() <= i < b.len() implies (#[trigger] b[i]).capacity == 0 by {
                assert(b[i].capacity == st.0[i].capacity);
                if i < a.len() {
                    assert(st.0[i].name == a[i].name && st.0[i].capacity == a[i].capacity);
                }
            }
        }
    }
}

proof fn lemma_dra_nodes_zero_caps(nodes: Seq<NodeInfo>)
    ensures
        dra_nodes_spec(nodes) matches Ok(acc) ==> forall|i: int| 0 <= i < acc.len() ==> (#[trigger] acc[i]).capacity == 0,
    decreases nodes.len(),
{
    if nodes.len() > 0 {
        lemma_dra_nodes_zero_caps(nodes.drop_last());
        if let Ok(acc) = dra_nodes_spec(nodes) {
            let a0 = dra_nodes_spec(nodes.drop_last())->Ok_0;
            lemma_ensure_facts(a0, nodes.last().name->0@);
            assert forall|i: int| 0 <= i < acc.len() implies (#[trigger] acc[i]).capacity == 0 by {
                if i < a0.len() {
                    assert(acc[i] == a0[i]);
                }
            }
        }
    }
}

/// The capacity shown in each row of the DRA table is the sum of the capacities of the
/// driver's pools (their devices at the newest generation) that are on that row's node.
pub proof fn law_dra_capacity(
    nodes: Seq<NodeInfo>,
    slices: Seq<SliceInfo>,
    claims: Seq<ClaimInfo>,
    driver: Seq<char>,
    include_empty: bool,
)
    ensures
        aggregate_dra_spec(nodes, slices, claims, driver, include_empty) matches Ok(rows) ==> forall|j: int|
            0 <= j < rows.len() ==> (#[trigger] rows[j]).capacity == pool_cap_sum(pool_infos_spec(slices, driver)->Ok_0, rows[j].node_name),
{
    lemma_dra_nodes(nodes);
    lemma_dra_nodes_zero_caps(nodes);
    if let Ok(rows) = aggregate_dra_spec(nodes, slices, claims, driver, include_empty) {
        let acc0 = dra_nodes_spec(nodes)->Ok_0;
        let pools = pool_infos_spec(slices, driver)->Ok_0;
        lemma_dra_capacity(acc0, pools);
        lemma_capacity_sums(acc0, pools);
        let acc1 = dra_capacity(acc0, pools)->Ok_0;
        assert(dra_distinct(acc1));
        lemma_claims_fold_caps(acc1, claims, pools, driver);
        lemma_claims_fold_pods(acc1, claims, pools, driver);
        let acc2 = claims_fold(acc1, claims, pools, driver)->Ok_0;
        lemma_dra_rows(acc2, include_empty);
        let unsorted = dra_rows(acc2, include_empty)->Ok_0;
        lemma_sort_same_elements::<NodeRow>(unsorted);
        assert forall|j: int| 0 <= j < rows.len() implies (#[trigger] rows[j]).capacity == pool_cap_sum(pools, rows[j].node_name) by {
            assert(rows.contains(rows[j]));
            let u = choose|u: int| 0 <= u < unsorted.len() && unsorted[u] == rows[j];
            assert(dra_row_of(acc2, unsorted[u]));
            let i = choose|i: int| 0 <= i < acc2.len() && #[trigger] acc2[i].name == unsorted[u].node_name && acc2[i].capacity == unsorted[u].capacity && unsorted[u].pods == sort_seq::<PodEntry>(acc2[i].pods) && unsorted[u].allocated == acc2[i].allocated.len();
            let name = acc2[i].name;
            if i < acc1.len() {
                assert(acc2[i].name == acc1[i].name);
                if i < acc0.len() {
                    assert(acc0[i].capacity == 0);
                }
            } else {
                assert forall|k: int| 0 <= k < pools.len() implies (#[trigger] pools[k]).node_name != name by {
                    if pools[k].node_name == name {
                        assert(dra_index(acc1, pools[k].node_name) >= 0);
                        lemma_first_index_facts(acc1, |n: DraNodeView| n.name == name);
                        let x = dra_index(acc1, name);
                        assert(acc2[x].name == acc1[x].name);
                    }
                }
                lemma_cap_sum_absent(pools, name);
            }
        }
    }
}

} // verus!
