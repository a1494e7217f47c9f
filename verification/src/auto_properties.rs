//! What holds of the automatic mode's table, built from the nodes as the mode splits them.
use vstd::prelude::*;

use crate::aggregate::{aggregate_spec, NodeRow, NodeRowView};
use crate::aggregate_dra::{
    aggregate_dra_spec, is_pool_node, partition_spec, pool_infos_spec, ALL_NODES_LABEL,
    MULTI_NODE_LABEL,
};
use crate::cluster::{ClaimInfo, NodeInfo, NodeInfoView, PodInfo, SliceInfo};
use crate::dra_properties::{
    at_node, law_dra_include_empty, law_dra_table, law_partition, on_pool, pool_on,
};
use crate::error::AggregateErrorView;
use crate::pipeline::auto_rows_spec;
use crate::properties::{
    law_device_plugin_table, law_include_empty, lemma_listed_witness, listed, with_capacity,
};
use crate::search::{first_index, lemma_first_index_facts};
use crate::sorting::{
    keys_distinct, lemma_sort_filter, lemma_sort_same_elements, lemma_sort_strict, sort_seq, views, SortKey,
};
use crate::text::{lemma_seq_lt_total, seq_lt};

verus! {

/// Whether no node of `nodes` is named like a place label (all nodes, several nodes).
pub open spec fn no_label_names(nodes: Seq<NodeInfo>) -> bool {
    forall|k: int| #![trigger nodes[k]]
        0 <= k < nodes.len() && nodes[k].name is Some ==> nodes[k].name->0@ != ALL_NODES_LABEL@ && nodes[k].name->0@ != MULTI_NODE_LABEL@
}

proof fn lemma_row_in_sorted(s: Seq<NodeRowView>, i: int, rows: Seq<NodeRowView>)
    requires
        0 <= i < s.len(),
        rows == sort_seq::<NodeRow>(s),
    ensures
        exists|j: int| 0 <= j < rows.len() && (#[trigger] rows[j]).node_name == s[i].node_name,
{
    lemma_sort_same_elements::<NodeRow>(s);
    assert(s.contains(s[i]));
    assert(rows.contains(s[i]));
    let j = choose|j: int| 0 <= j < rows.len() && rows[j] == s[i];
    assert(rows[j].node_name == s[i].node_name);
}

/// In the automatic mode, with the nodes split by the partition and no node named like a
/// place label, the merged table lists each node once, in strictly increasing order of
/// name; with `include_empty` every listed node has a row.
pub proof fn law_auto_table(
    nodes: Seq<NodeInfo>,
    pods: Seq<PodInfo>,
    slices: Seq<SliceInfo>,
    claims: Seq<ClaimInfo>,
    driver: Seq<char>,
    include_empty: bool,
    dra: Seq<NodeInfo>,
    dp: Seq<NodeInfo>,
)
    requires
        partition_spec(nodes, slices, driver) == Ok::<(Seq<NodeInfoView>, Seq<NodeInfoView>), AggregateErrorView>((views(dra), views(dp))),
        no_label_names(nodes),
    ensures
        auto_rows_spec(dra, dp, pods, slices, claims, driver, include_empty) matches Ok(rows) ==> {
            &&& forall|i: int, j: int| 0 <= i < j < rows.len() ==> seq_lt(#[trigger] rows[i].node_name, #[trigger] rows[j].node_name)
            &&& include_empty ==> forall|k: int| 0 <= k < nodes.len() && (#[trigger] nodes[k]).name is Some ==> exists|j: int| 0 <= j < rows.len() && (#[trigger] rows[j]).node_name == nodes[k].name->0@
        },
{
    if let Ok(rows) = auto_rows_spec(dra, dp, pods, slices, claims, driver, include_empty) {
        let pools = pool_infos_spec(slices, driver)->Ok_0;
        law_partition(nodes, slices, driver);
        let vn = views(nodes);
        assert(views(dra) == vn.filter(on_pool(pools)));
        assert(views(dp) == vn.filter(|n: NodeInfoView| !on_pool(pools)(n)));
        let a = aggregate_dra_spec(dra, slices, claims, driver, include_empty)->Ok_0;
        let b = aggregate_spec(dp, pods, include_empty)->Ok_0;
        law_dra_table(dra, slices, claims, driver, include_empty);
        law_device_plugin_table(dp, pods, include_empty);
        // the DRA nodes are on pools, the device-plugin nodes are not and are named like nodes
        assert forall|k: int| 0 <= k < dra.len() implies (#[trigger] dra[k]).name is Some && is_pool_node(pools, dra[k].name->0@) by {
            vn.lemma_filter_pred(on_pool(pools), k);
            assert(views(dra)[k] == dra[k]@);
        }
        assert forall|k: int| 0 <= k < dp.len() implies !is_pool_node(pools, (#[trigger] dp[k]).name->0@) && dp[k].name is Some && dp[k].name->0@ != ALL_NODES_LABEL@ && dp[k].name->0@ != MULTI_NODE_LABEL@ by {
            let p = |n: NodeInfoView| !on_pool(pools)(n);
            vn.lemma_filter_pred(p, k);
            assert(views(dp)[k] == dp[k]@);
            assert(vn.filter(p).contains(dp[k]@));
            vn.lemma_filter_contains_rev(p, dp[k]@);
            let m = choose|m: int| 0 <= m < vn.len() && vn[m] == dp[k]@;
            assert(vn[m] == nodes[m]@);
            assert(nodes[m].name is Some) by {
                if nodes[m].name is None {
                    assert(exists|i: int| 0 <= i < nodes.len() && (#[trigger] nodes[i]).name is None);
                }
            }
            assert(nodes[m].name->0@ == dp[k].name->0@);
        }
        // no name is in both tables
        assert forall|x: int, y: int| 0 <= x < a.len() && 0 <= y < b.len() implies #[trigger] a[x].node_name != #[trigger] b[y].node_name by {
            let name = b[y].node_name;
            let k = lemma_listed_witness(dp, name);
            assert(!is_pool_node(pools, name));
            if a[x].node_name == name {
                if listed(dra, name) {
                    let k2 = lemma_listed_witness(dra, name);
                    assert(is_pool_node(pools, dra[k2].name->0@));
                } else {
                    assert(pool_on(pools, name));
                    lemma_first_index_facts(pools, at_node(name));
                    let i = first_index(pools, at_node(name));
                    assert(at_node(name)(pools[i]));
                    assert(pools[i].node_name == name);
                }
            }
        }
        let s = a + b;
        assert(keys_distinct::<NodeRow>(s)) by {
            assert forall|x: int, y: int| 0 <= x < y < s.len() implies !(NodeRow::key_le(#[trigger] s[x], #[trigger] s[y]) && NodeRow::key_le(s[y], s[x])) by {
                lemma_seq_lt_total(s[x].node_name, s[y].node_name);
                if y < a.len() {
                    assert(s[x] == a[x] && s[y] == a[y]);
                } else if x >= a.len() {
                    assert(s[x] == b[x - a.len()] && s[y] == b[y - a.len()]);
                } else {
                    assert(s[x] == a[x] && s[y] == b[y - a.len()]);
                }
            }
        }
        assert(rows == sort_seq::<NodeRow>(s));
        lemma_sort_strict::<NodeRow>(s);
        assert forall|i: int, j: int| 0 <= i < j < rows.len() implies seq_lt(#[trigger] rows[i].node_name, #[trigger] rows[j].node_name) by {
            lemma_seq_lt_total(rows[i].node_name, rows[j].node_name);
        }
        if include_empty {
            lemma_sort_same_elements::<NodeRow>(s);
            assert forall|k: int| 0 <= k < nodes.len() && (#[trigger] nodes[k]).name is Some implies exists|j: int| 0 <= j < rows.len() && (#[trigger] rows[j]).node_name == nodes[k].name->0@ by {
                let name = nodes[k].name->0@;
                assert(vn[k] == nodes[k]@);
                if on_pool(pools)(vn[k]) {
                    vn.lemma_filter_contains(on_pool(pools), k);
                    let k2 = choose|k2: int| 0 <= k2 < views(dra).len() && views(dra)[k2] == vn[k];
                    assert(views(dra)[k2] == dra[k2]@);
                    assert(dra[k2].name->0@ == name);
                    let j2 = choose|j2: int| 0 <= j2 < a.len() && (#[trigger] a[j2]).node_name == dra[k2].name->0@;
                    assert(s[j2] == a[j2]);
                    lemma_row_in_sorted(s, j2, rows);
                } else {
                    let p = |n: NodeInfoView| !on_pool(pools)(n);
                    vn.lemma_filter_contains(p, k);
                    let k2 = choose|k2: int| 0 <= k2 < views(dp).len() && views(dp)[k2] == vn[k];
                    assert(views(dp)[k2] == dp[k2]@);
                    assert(dp[k2].name->0@ == name);
                    let j2 = choose|j2: int| 0 <= j2 < b.len() && (#[trigger] b[j2]).node_name == dp[k2].name->0@;
                    assert(s[a.len() + j2] == b[j2]);
                    lemma_row_in_sorted(s, a.len() + j2, rows);
                }
            }
        }
    }
}

/// In the automatic mode, without `include_empty` every row has capacity; and when the
/// table with `include_empty` can be built, the table without it is that table with the
/// rows without capacity dropped, in the same order.
pub proof fn law_auto_include_empty(
    dra: Seq<NodeInfo>,
    dp: Seq<NodeInfo>,
    pods: Seq<PodInfo>,
    slices: Seq<SliceInfo>,
    claims: Seq<ClaimInfo>,
    driver: Seq<char>,
)
    ensures
        auto_rows_spec(dra, dp, pods, slices, claims, driver, false) matches Ok(rows) ==> forall|j: int|
            0 <= j < rows.len() ==> (#[trigger] rows[j]).capacity > 0,
        auto_rows_spec(dra, dp, pods, slices, claims, driver, true) matches Ok(t) ==> auto_rows_spec(dra, dp, pods, slices, claims, driver, false) == Ok::<Seq<NodeRowView>, AggregateErrorView>(t.filter(with_capacity())),
{
    law_dra_include_empty(dra, slices, claims, driver);
    law_include_empty(dp, pods);
    law_dra_table(dra, slices, claims, driver, false);
    law_device_plugin_table(dp, pods, false);
    if let Ok(rows) = auto_rows_spec(dra, dp, pods, slices, claims, driver, false) {
        let a = aggregate_dra_spec(dra, slices, claims, driver, false)->Ok_0;
        let b = aggregate_spec(dp, pods, false)->Ok_0;
        let s = a + b;
        lemma_sort_same_elements::<NodeRow>(s);
        assert forall|j: int| 0 <= j < rows.len() implies (#[trigger] rows[j]).capacity > 0 by {
            assert(rows.contains(rows[j]));
            let k = choose|k: int| 0 <= k < s.len() && s[k] == rows[j];
            if k < a.len() {
                assert(s[k] == a[k]);
            } else {
                assert(s[k] == b[k - a.len()]);
            }
        }
    }
    if let Ok(t) = auto_rows_spec(dra, dp, pods, slices, claims, driver, true) {
        let a = aggregate_dra_spec(dra, slices, claims, driver, true)->Ok_0;
        let b = aggregate_spec(dp, pods, true)->Ok_0;
        Seq::filter_distributes_over_add(a, b, with_capacity());
        lemma_sort_filter::<NodeRow>(a + b, with_capacity());
    }
}

} // verus!
