//! What holds of every table the aggregations build.
use vstd::prelude::*;

use crate::aggregate::{
    aggregate_spec, checked_total, dp_add_pod, dp_entry, dp_index, dp_nodes_spec, dp_pods_spec,
    dp_put_node, dp_row, dp_rows, phase_holds, pod_rngd, DpNodeView, NodeRow, NodeRowView,
    PodEntry, PodEntryView,
};
use crate::cluster::{NodeInfo, PodInfo};
use crate::error::AggregateErrorView;
use crate::search::{first_index, lemma_first_index_facts, lemma_first_index_found};
use crate::sorting::{
    is_sorted, keys_distinct, lemma_sort_filter, lemma_sort_same_elements, lemma_sort_sorted,
    lemma_sort_strict, sort_seq, SortKey,
};
use crate::text::{lemma_seq_lt_total, seq_lt};

verus! {

/// No two nodes of `acc` share a name.
pub open spec fn dp_names_distinct(acc: Seq<DpNodeView>) -> bool {
    forall|i: int, j: int| 0 <= i < j < acc.len() ==> #[trigger] acc[i].name != #[trigger] acc[j].name
}

/// `b` holds the nodes of `a`, with the same names and capacities, in the same places.
pub open spec fn dp_same_nodes(a: Seq<DpNodeView>, b: Seq<DpNodeView>) -> bool {
    &&& a.len() == b.len()
    &&& forall|i: int| 0 <= i < a.len() ==> #[trigger] b[i].name == a[i].name && b[i].capacity == a[i].capacity
}

/// Whether a node is named `name`.
pub open spec fn named(name: Seq<char>) -> spec_fn(NodeInfo) -> bool {
    |n: NodeInfo| n.name is Some && n.name->0@ == name
}

/// Whether some node of `nodes` is named `name`.
pub open spec fn listed(nodes: Seq<NodeInfo>, name: Seq<char>) -> bool {
    first_index(nodes, named(name)) >= 0
}

/// A named node of the list is listed.
pub(crate) proof fn lemma_listed(nodes: Seq<NodeInfo>, k: int)
    requires
        0 <= k < nodes.len(),
        nodes[k].name is Some,
    ensures
        listed(nodes, nodes[k].name->0@),
{
    let name = nodes[k].name->0@;
    assert(named(name)(nodes[k]));
    lemma_first_index_found(nodes, named(name), k);
}

/// A listed name is the name of some node of the list.
pub(crate) proof fn lemma_listed_witness(nodes: Seq<NodeInfo>, name: Seq<char>) -> (k: int)
    requires
        listed(nodes, name),
    ensures
        0 <= k < nodes.len(),
        nodes[k].name is Some && nodes[k].name->0@ == name,
{
    lemma_first_index_facts(nodes, named(name));
    let k = first_index(nodes, named(name));
    assert(named(name)(nodes[k]));
    k
}

proof fn lemma_dp_found(acc: Seq<DpNodeView>, j: int)
    requires
        0 <= j < acc.len(),
    ensures
        dp_index(acc, acc[j].name) >= 0,
{
    let name = acc[j].name;
    lemma_first_index_found(acc, |n: DpNodeView| n.name == name, j);
}

proof fn lemma_dp_witness(acc: Seq<DpNodeView>, name: Seq<char>) -> (i: int)
    requires
        dp_index(acc, name) >= 0,
    ensures
        0 <= i < acc.len(),
        acc[i].name == name,
{
    lemma_first_index_facts(acc, |n: DpNodeView| n.name == name);
    dp_index(acc, name)
}

proof fn lemma_dp_put_node(acc: Seq<DpNodeView>, name: Seq<char>, cap: i64)
    requires
        dp_names_distinct(acc),
    ensures
        dp_names_distinct(dp_put_node(acc, name, cap)),
        dp_index(dp_put_node(acc, name, cap), name) >= 0,
        forall|i: int| 0 <= i < acc.len() ==> dp_index(dp_put_node(acc, name, cap), #[trigger] acc[i].name) >= 0,
        forall|j: int| 0 <= j < dp_put_node(acc, name, cap).len() ==> (#[trigger] dp_put_node(acc, name, cap)[j]).name == name || dp_index(acc, dp_put_node(acc, name, cap)[j].name) >= 0,
{
    lemma_first_index_facts(acc, |n: DpNodeView| n.name == name);
    let r = dp_put_node(acc, name, cap);
    let k = dp_index(acc, name);
    if k < 0 {
        lemma_dp_found(r, acc.len() as int);
        assert forall|i: int| 0 <= i < acc.len() implies dp_index(r, #[trigger] acc[i].name) >= 0 by {
            assert(r[i] == acc[i]);
            lemma_dp_found(r, i);
        }
        assert forall|j: int| 0 <= j < r.len() implies (#[trigger] r[j]).name == name || dp_index(acc, r[j].name) >= 0 by {
            if j < acc.len() {
                assert(r[j] == acc[j]);
                lemma_dp_found(acc, j);
            }
        }
    } else {
        lemma_dp_found(r, k);
        assert forall|i: int| 0 <= i < acc.len() implies dp_index(r, #[trigger] acc[i].name) >= 0 by {
            assert(r[i].name == acc[i].name);
            lemma_dp_found(r, i);
        }
        assert forall|j: int| 0 <= j < r.len() implies (#[trigger] r[j]).name == name || dp_index(acc, r[j].name) >= 0 by {
            assert(r[j].name == acc[j].name);
            lemma_dp_found(acc, j);
        }
    }
}

/// The `furiosa.ai/rngd` capacity of the last node of `nodes` named `name` (a later node of
/// a name overrides an earlier one).
pub open spec fn last_capacity(nodes: Seq<NodeInfo>, name: Seq<char>) -> Result<i64, AggregateErrorView>
    decreases nodes.len(),
{
    if nodes.len() == 0 {
        Ok(0)
    } else if nodes.last().name matches Some(n) && n@ == name {
        crate::aggregate::rngd_in(nodes.last().capacity@)
    } else {
        last_capacity(nodes.drop_last(), name)
    }
}

/// What the node list of the device-plugin aggregation holds: each listed name once.
pub open spec fn dp_nodes_facts(nodes: Seq<NodeInfo>, acc: Seq<DpNodeView>) -> bool {
    &&& dp_names_distinct(acc)
    &&& forall|k: int| 0 <= k < nodes.len() ==> (#[trigger] nodes[k]).name is Some && dp_index(acc, nodes[k].name->0@) >= 0
    &&& forall|i: int| 0 <= i < acc.len() ==> listed(nodes, #[trigger] acc[i].name)
    &&& forall|i: int| 0 <= i < acc.len() ==> (#[trigger] acc[i]).pods.len() == 0
    &&& forall|i: int| 0 <= i < acc.len() ==> last_capacity(nodes, (#[trigger] acc[i]).name) == Ok::<i64, AggregateErrorView>(acc[i].capacity)
}

proof fn lemma_dp_nodes(nodes: Seq<NodeInfo>)
    ensures
        dp_nodes_spec(nodes) matches Ok(acc) ==> dp_nodes_facts(nodes, acc),
    decreases nodes.len(),
{
    if nodes.len() > 0 {
        let d = nodes.drop_last();
        let n = nodes.last();
        lemma_dp_nodes(d);
        match dp_nodes_spec(d) {
            Err(_) => {},
            Ok(a0) => match n.name {
                None => {},
                Some(nm) => match crate::aggregate::rngd_in(n.capacity@) {
                    Err(_) => {},
                    Ok(cap) => {
                        let acc = dp_put_node(a0, nm@, cap);
                        assert(dp_nodes_spec(nodes) == Ok::<Seq<DpNodeView>, AggregateErrorView>(acc));
                        lemma_dp_put_node(a0, nm@, cap);
                        assert forall|k: int| 0 <= k < nodes.len() implies (#[trigger] nodes[k]).name is Some && dp_index(acc, nodes[k].name->0@) >= 0 by {
                            if k < d.len() {
                                assert(d[k] == nodes[k]);
                                let i0 = lemma_dp_witness(a0, d[k].name->0@);
                                assert(dp_index(acc, a0[i0].name) >= 0);
                            } else {
                                assert(nodes[k] == n);
                            }
                        }
                        assert forall|i: int| 0 <= i < acc.len() implies last_capacity(nodes, (#[trigger] acc[i]).name) == Ok::<i64, AggregateErrorView>(acc[i].capacity) by {
                            let k0 = dp_index(a0, nm@);
                            lemma_first_index_facts(a0, |n: DpNodeView| n.name == nm@);
                            if acc[i].name != nm@ {
                                if k0 >= 0 {
                                    assert(acc[i] == a0[i]);
                                } else {
                                    assert(i < a0.len());
                                    assert(acc[i] == a0[i]);
                                }
                                assert(last_capacity(nodes, acc[i].name) == last_capacity(d, acc[i].name));
                            } else if k0 >= 0 {
                                if i != k0 {
                                    assert(acc[i] == a0[i]);
                                    assert(a0[i].name == a0[k0].name);
                                }
                            } else if i < a0.len() {
                                assert(acc[i] == a0[i]);
                                assert(!((|n: DpNodeView| n.name == nm@)(a0[i])));
                            }
                        }
                        assert forall|i: int| 0 <= i < acc.len() implies (#[trigger] acc[i]).pods.len() == 0 by {
                            let k0 = dp_index(a0, nm@);
                            if k0 >= 0 {
                                lemma_first_index_facts(a0, |n: DpNodeView| n.name == nm@);
                                if i != k0 {
                                    assert(acc[i] == a0[i]);
                                }
                            } else if i < a0.len() {
                                assert(acc[i] == a0[i]);
                            }
                        }
                        assert forall|i: int| 0 <= i < acc.len() implies listed(nodes, #[trigger] acc[i].name) by {
                            if acc[i].name == nm@ {
                                lemma_listed(nodes, nodes.len() - 1);
                            } else {
                                let i0 = lemma_dp_witness(a0, acc[i].name);
                                assert(listed(d, a0[i0].name));
                                let k = lemma_listed_witness(d, a0[i0].name);
                                assert(nodes[k] == d[k]);
                                lemma_listed(nodes, k);
                            }
                        }
                    },
                },
            },
        }
    }
}

proof fn lemma_dp_add_pod(a: Seq<DpNodeView>, p: PodInfo)
    ensures
        dp_add_pod(a, p) matches Ok(b) ==> dp_same_nodes(a, b),
{
    if let Ok(b) = dp_add_pod(a, p) {
        if b != a {
            let i = dp_index(a, p.spec->0.node_name->0@);
            lemma_first_index_facts(a, |n: DpNodeView| n.name == p.spec->0.node_name->0@);
            assert forall|j: int| 0 <= j < a.len() implies #[trigger] b[j].name == a[j].name && b[j].capacity == a[j].capacity by {
                if j != i {
                    assert(b[j] == a[j]);
                }
            }
        }
    }
}

proof fn lemma_dp_pods(acc: Seq<DpNodeView>, pods: Seq<PodInfo>)
    ensures
        dp_pods_spec(acc, pods) matches Ok(b) ==> dp_same_nodes(acc, b),
    decreases pods.len(),
{
    if pods.len() > 0 {
        lemma_dp_pods(acc, pods.drop_last());
        if let Ok(b) = dp_pods_spec(acc, pods) {
            let a = dp_pods_spec(acc, pods.drop_last())->Ok_0;
            lemma_dp_add_pod(a, pods.last());
        }
    }
}

/// The name of a row is the name of a node, with that node's capacity.
pub open spec fn row_of(acc: Seq<DpNodeView>, r: NodeRowView) -> bool {
    exists|i: int|
        0 <= i < acc.len() && #[trigger] acc[i].name == r.node_name && acc[i].capacity == r.capacity
            && r.pods == sort_seq::<PodEntry>(acc[i].pods)
}

/// What every row of a table shows of its own data: pods sorted by namespace and name,
/// and a source exactly when it has capacity or allocation.
pub open spec fn row_well_formed(r: NodeRowView) -> bool {
    &&& is_sorted::<PodEntry>(r.pods)
    &&& (r.source is Some <==> (r.capacity > 0 || r.allocated > 0))
}

/// The sum of the counts of `pods`.
pub open spec fn pods_sum(pods: Seq<PodEntryView>) -> int
    decreases pods.len(),
{
    if pods.len() == 0 {
        0
    } else {
        pods_sum(pods.drop_last()) + pods.last().count
    }
}

proof fn lemma_checked_total(pods: Seq<PodEntryView>)
    ensures
        checked_total(pods) matches Some(t) ==> t == pods_sum(pods),
    decreases pods.len(),
{
    if pods.len() > 0 {
        lemma_checked_total(pods.drop_last());
    }
}

#[verifier::spinoff_prover]
#[verifier::rlimit(40)]
proof fn lemma_dp_rows(acc: Seq<DpNodeView>, include_empty: bool)
    ensures
        dp_rows(acc, include_empty) matches Ok(rows) ==> {
            &&& forall|j: int| 0 <= j < rows.len() ==> row_of(acc, #[trigger] rows[j])
            &&& forall|j: int| 0 <= j < rows.len() ==> row_well_formed(#[trigger] rows[j])
            &&& forall|j: int| 0 <= j < rows.len() ==> (#[trigger] rows[j]).allocated == pods_sum(rows[j].pods)
            &&& forall|j: int| 0 <= j < rows.len() ==> (include_empty || (#[trigger] rows[j]).capacity > 0)
            &&& dp_names_distinct(acc) ==> keys_distinct::<NodeRow>(rows)
            &&& include_empty ==> forall|i: int| 0 <= i < acc.len() ==> exists|j: int| 0 <= j < rows.len() && (#[trigger] rows[j]).node_name == #[trigger] acc[i].name
        },
    decreases acc.len(),
{
    if acc.len() > 0 {
        let d = acc.drop_last();
        lemma_dp_rows(d, include_empty);
        if let Ok(rows) = dp_rows(acc, include_empty) {
            let r0 = dp_rows(d, include_empty)->Ok_0;
            let n = acc.last();
            assert forall|j: int| 0 <= j < r0.len() implies row_of(acc, #[trigger] r0[j]) by {
                let i = choose|i: int| 0 <= i < d.len() && #[trigger] d[i].name == r0[j].node_name && d[i].capacity == r0[j].capacity && r0[j].pods == sort_seq::<PodEntry>(d[i].pods);
                assert(acc[i] == d[i]);
            }
            if include_empty || n.capacity > 0 {
                let r = dp_row(n)->Some_0;
                assert(rows == r0.push(r));
                lemma_sort_sorted::<PodEntry>(n.pods);
                lemma_checked_total(sort_seq::<PodEntry>(n.pods));
                assert forall|j: int| 0 <= j < rows.len() implies (#[trigger] rows[j]).allocated == pods_sum(rows[j].pods) by {
                    if j < r0.len() {
                        assert(rows[j] == r0[j]);
                    }
                }
                assert(row_of(acc, r)) by {
                    assert(acc[acc.len() - 1] == n);
                }
                assert forall|j: int| 0 <= j < rows.len() implies row_of(acc, #[trigger] rows[j]) by {
                    if j < r0.len() {
                        assert(rows[j] == r0[j]);
                    }
                }
                if dp_names_distinct(acc) {
                    assert(dp_names_distinct(d));
                    assert forall|a: int, b: int| 0 <= a < b < rows.len() implies !(NodeRow::key_le(#[trigger] rows[a], #[trigger] rows[b]) && NodeRow::key_le(rows[b], rows[a])) by {
                        lemma_seq_lt_total(rows[a].node_name, rows[b].node_name);
                        if b == r0.len() {
                            assert(rows[a] == r0[a]);
                            let i = choose|i: int| 0 <= i < d.len() && #[trigger] d[i].name == r0[a].node_name && d[i].capacity == r0[a].capacity && r0[a].pods == sort_seq::<PodEntry>(d[i].pods);
                            assert(acc[i] == d[i]);
                            assert(acc[acc.len() - 1] == n);
                        } else {
                            assert(rows[a] == r0[a] && rows[b] == r0[b]);
                        }
                    }
                }
                if include_empty {
                    assert forall|i: int| 0 <= i < acc.len() implies exists|j: int| 0 <= j < rows.len() && (#[trigger] rows[j]).node_name == #[trigger] acc[i].name by {
                        if i < d.len() {
                            assert(d[i] == acc[i]);
                            let j = choose|j: int| 0 <= j < r0.len() && (#[trigger] r0[j]).node_name == #[trigger] d[i].name;
                            assert(rows[j] == r0[j]);
                        } else {
                            assert(rows[r0.len() as int] == r);
                        }
                    }
                }
            } else {
                assert(rows == r0);
            }
        }
    }
}

/// The device-plugin table lists each node once, in strictly increasing order of name;
/// each row belongs to a listed node and shows the capacity of the last node of that
/// name; without `include_empty` every row has capacity, and with it every listed node
/// has a row; in every row the pods are sorted by namespace and name, the allocation is
/// the sum of the counts shown for them, and the source is shown exactly when the node
/// has capacity or allocation.
pub proof fn law_device_plugin_table(nodes: Seq<NodeInfo>, pods: Seq<PodInfo>, include_empty: bool)
    ensures
        aggregate_spec(nodes, pods, include_empty) matches Ok(rows) ==> {
            &&& forall|i: int, j: int| 0 <= i < j < rows.len() ==> seq_lt(#[trigger] rows[i].node_name, #[trigger] rows[j].node_name)
            &&& forall|j: int| 0 <= j < rows.len() ==> listed(nodes, #[trigger] rows[j].node_name)
            &&& forall|j: int| 0 <= j < rows.len() ==> row_well_formed(#[trigger] rows[j])
            &&& forall|j: int| 0 <= j < rows.len() ==> (#[trigger] rows[j]).allocated == pods_sum(rows[j].pods)
            &&& forall|j: int| 0 <= j < rows.len() ==> last_capacity(nodes, (#[trigger] rows[j]).node_name) == Ok::<i64, AggregateErrorView>(rows[j].capacity)
            &&& !include_empty ==> forall|j: int| 0 <= j < rows.len() ==> (#[trigger] rows[j]).capacity > 0
            &&& include_empty ==> forall|k: int| 0 <= k < nodes.len() && (#[trigger] nodes[k]).name is Some ==> exists|j: int| 0 <= j < rows.len() && (#[trigger] rows[j]).node_name == nodes[k].name->0@
        },
{
    lemma_dp_nodes(nodes);
    if let Ok(rows) = aggregate_spec(nodes, pods, include_empty) {
        let acc = dp_nodes_spec(nodes)->Ok_0;
        lemma_dp_pods(acc, pods);
        let acc2 = dp_pods_spec(acc, pods)->Ok_0;
        lemma_dp_rows(acc2, include_empty);
        let unsorted = dp_rows(acc2, include_empty)->Ok_0;
        assert(dp_names_distinct(acc2)) by {
            assert forall|i: int, j: int| 0 <= i < j < acc2.len() implies #[trigger] acc2[i].name != #[trigger] acc2[j].name by {
                assert(acc2[i].name == acc[i].name && acc2[j].name == acc[j].name);
            }
        }
        lemma_sort_strict::<NodeRow>(unsorted);
        lemma_sort_same_elements::<NodeRow>(unsorted);
        assert(rows == sort_seq::<NodeRow>(unsorted));
        assert forall|i: int, j: int| 0 <= i < j < rows.len() implies seq_lt(#[trigger] rows[i].node_name, #[trigger] rows[j].node_name) by {
            lemma_seq_lt_total(rows[i].node_name, rows[j].node_name);
        }
        assert forall|j: int| #![trigger rows[j]] 0 <= j < rows.len() implies {
            &&& listed(nodes, rows[j].node_name)
            &&& row_well_formed(rows[j])
            &&& rows[j].allocated == pods_sum(rows[j].pods)
            &&& last_capacity(nodes, rows[j].node_name) == Ok::<i64, AggregateErrorView>(rows[j].capacity)
            &&& (include_empty || rows[j].capacity > 0)
        } by {
            assert(rows.contains(rows[j]));
            let u = choose|u: int| 0 <= u < unsorted.len() && unsorted[u] == rows[j];
            assert(row_of(acc2, unsorted[u]));
            let i = choose|i: int| 0 <= i < acc2.len() && #[trigger] acc2[i].name == unsorted[u].node_name && acc2[i].capacity == unsorted[u].capacity && unsorted[u].pods == sort_seq::<PodEntry>(acc2[i].pods);
            assert(acc[i].name == acc2[i].name);
            assert(listed(nodes, acc[i].name));
        }
        if include_empty {
            assert forall|k: int| 0 <= k < nodes.len() && (#[trigger] nodes[k]).name is Some implies exists|j: int| 0 <= j < rows.len() && (#[trigger] rows[j]).node_name == nodes[k].name->0@ by {
                let i = lemma_dp_witness(acc, nodes[k].name->0@);
                assert(acc2[i].name == acc[i].name);
                let u = choose|u: int| 0 <= u < unsorted.len() && (#[trigger] unsorted[u]).node_name == acc2[i].name;
                assert(unsorted.contains(unsorted[u]));
                assert(rows.contains(unsorted[u]));
                let j = choose|j: int| 0 <= j < rows.len() && rows[j] == unsorted[u];
                assert(rows[j].node_name == nodes[k].name->0@);
            }
        }
    }
}

/// The node a pod is scheduled on, if any.
pub open spec fn pod_node(p: PodInfo) -> Option<Seq<char>> {
    match p.spec {
        Some(spec) => match spec.node_name {
            Some(n) => Some(n@),
            None => None,
        },
        None => None,
    }
}

/// Whether a pod holds devices of the node `name`: it is scheduled there, `Pending` or
/// `Running`, and asks for a nonzero number of devices.
pub open spec fn pod_on_node(p: PodInfo, name: Seq<char>) -> bool {
    &&& pod_node(p) == Some(name)
    &&& phase_holds(p.phase)
    &&& pod_rngd(p) is Ok
    &&& pod_rngd(p)->Ok_0 != 0
}

/// The entry a pod makes in its node's row.
pub open spec fn pod_entry(p: PodInfo) -> PodEntryView {
    dp_entry(p, pod_rngd(p)->Ok_0)
}

/// Whether `e` is the entry of some pod of `pods` that holds devices of the node `name`.
pub open spec fn pod_in(pods: Seq<PodInfo>, name: Seq<char>, e: PodEntryView) -> bool {
    exists|k: int| 0 <= k < pods.len() && pod_on_node(#[trigger] pods[k], name) && e == pod_entry(pods[k])
}

proof fn lemma_dp_add_pod_members(a: Seq<DpNodeView>, p: PodInfo)
    requires
        dp_names_distinct(a),
    ensures
        dp_add_pod(a, p) matches Ok(b) ==> forall|i: int, e: PodEntryView| 0 <= i < a.len() ==> (#[trigger] b[i].pods.contains(e) <==> a[i].pods.contains(e) || (pod_on_node(p, a[i].name) && e == pod_entry(p))),
{
    if let Ok(b) = dp_add_pod(a, p) {
        if pod_node(p) is Some && phase_holds(p.phase) && pod_rngd(p) is Ok && pod_rngd(p)->Ok_0 != 0 {
            let node = pod_node(p)->0;
            let k = dp_index(a, node);
            lemma_first_index_facts(a, |n: DpNodeView| n.name == node);
            if k < 0 {
                assert(b == a);
                assert forall|i: int, e: PodEntryView| 0 <= i < a.len() implies (#[trigger] b[i].pods.contains(e) <==> a[i].pods.contains(e) || (pod_on_node(p, a[i].name) && e == pod_entry(p))) by {
                    assert(!((|n: DpNodeView| n.name == node)(a[i])));
                }
            } else {
                assert forall|i: int, e: PodEntryView| 0 <= i < a.len() implies (#[trigger] b[i].pods.contains(e) <==> a[i].pods.contains(e) || (pod_on_node(p, a[i].name) && e == pod_entry(p))) by {
                    if i == k {
                        assert(b[i].pods == a[i].pods.push(pod_entry(p)));
                        if b[i].pods.contains(e) {
                            let x = choose|x: int| 0 <= x < b[i].pods.len() && b[i].pods[x] == e;
                            if x < a[i].pods.len() {
                                assert(a[i].pods[x] == e);
                            }
                        }
                        if a[i].pods.contains(e) {
                            let x = choose|x: int| 0 <= x < a[i].pods.len() && a[i].pods[x] == e;
                            assert(b[i].pods[x] == e);
                        }
                        if e == pod_entry(p) {
                            assert(b[i].pods[a[i].pods.len() as int] == e);
                        }
                    } else {
                        assert(b[i] == a[i]);
                        assert(a[i].name != a[k].name);
                    }
                }
            }
        } else {
            assert(b == a);
        }
    }
}

proof fn lemma_dp_pods_members(acc: Seq<DpNodeView>, pods: Seq<PodInfo>)
    requires
        dp_names_distinct(acc),
    ensures
        dp_pods_spec(acc, pods) matches Ok(b) ==> forall|i: int, e: PodEntryView| 0 <= i < acc.len() ==> (#[trigger] b[i].pods.contains(e) <==> acc[i].pods.contains(e) || pod_in(pods, acc[i].name, e)),
    decreases pods.len(),
{
    if pods.len() > 0 {
        let d = pods.drop_last();
        let p = pods.last();
        lemma_dp_pods_members(acc, d);
        lemma_dp_pods(acc, d);
        if let Ok(b) = dp_pods_spec(acc, pods) {
            let a = dp_pods_spec(acc, d)->Ok_0;
            assert(dp_names_distinct(a)) by {
                assert forall|x: int, y: int| 0 <= x < y < a.len() implies #[trigger] a[x].name != #[trigger] a[y].name by {
                    assert(a[x].name == acc[x].name && a[y].name == acc[y].name);
                }
            }
            lemma_dp_add_pod_members(a, p);
            assert forall|i: int, e: PodEntryView| 0 <= i < acc.len() implies (#[trigger] b[i].pods.contains(e) <==> acc[i].pods.contains(e) || pod_in(pods, acc[i].name, e)) by {
                assert(a[i].name == acc[i].name);
                assert(b[i].pods.contains(e) <==> a[i].pods.contains(e) || (pod_on_node(p, a[i].name) && e == pod_entry(p)));
                assert(a[i].pods.contains(e) <==> acc[i].pods.contains(e) || pod_in(d, acc[i].name, e));
                if pod_in(d, acc[i].name, e) {
                    let k = choose|k: int| 0 <= k < d.len() && pod_on_node(#[trigger] d[k], acc[i].name) && e == pod_entry(d[k]);
                    assert(pods[k] == d[k]);
                }
                if pod_on_node(p, a[i].name) && e == pod_entry(p) {
                    assert(pods[pods.len() - 1] == p);
                }
                if pod_in(pods, acc[i].name, e) {
                    let k = choose|k: int| 0 <= k < pods.len() && pod_on_node(#[trigger] pods[k], acc[i].name) && e == pod_entry(pods[k]);
                    if k < d.len() {
                        assert(d[k] == pods[k]);
                    }
                }
            }
        }
    }
}

/// The pods shown in each row of the device-plugin table are exactly the pods that hold
/// devices of that node (scheduled there, `Pending` or `Running`, asking for a nonzero
/// number), each with its namespace, name and count.
pub proof fn law_device_plugin_pods(nodes: Seq<NodeInfo>, pods: Seq<PodInfo>, include_empty: bool)
    ensures
        aggregate_spec(nodes, pods, include_empty) matches Ok(rows) ==> forall|j: int, e: PodEntryView|
            0 <= j < rows.len() ==> (#[trigger] rows[j].pods.contains(e) <==> pod_in(pods, rows[j].node_name, e)),
{
    lemma_dp_nodes(nodes);
    if let Ok(rows) = aggregate_spec(nodes, pods, include_empty) {
        let acc = dp_nodes_spec(nodes)->Ok_0;
        lemma_dp_pods(acc, pods);
        lemma_dp_pods_members(acc, pods);
        let acc2 = dp_pods_spec(acc, pods)->Ok_0;
        lemma_dp_rows(acc2, include_empty);
        let unsorted = dp_rows(acc2, include_empty)->Ok_0;
        lemma_sort_same_elements::<NodeRow>(unsorted);
        assert forall|j: int, e: PodEntryView| 0 <= j < rows.len() implies (#[trigger] rows[j].pods.contains(e) <==> pod_in(pods, rows[j].node_name, e)) by {
            assert(rows.contains(rows[j]));
            let u = choose|u: int| 0 <= u < unsorted.len() && unsorted[u] == rows[j];
            assert(row_of(acc2, unsorted[u]));
            let i = choose|i: int| 0 <= i < acc2.len() && #[trigger] acc2[i].name == unsorted[u].node_name && acc2[i].capacity == unsorted[u].capacity && unsorted[u].pods == sort_seq::<PodEntry>(acc2[i].pods);
            lemma_sort_same_elements::<PodEntry>(acc2[i].pods);
            assert(acc[i].name == acc2[i].name);
            assert(acc[i].pods.len() == 0);
            assert(acc2[i].pods.contains(e) <==> acc[i].pods.contains(e) || pod_in(pods, acc[i].name, e));
        }
    }
}

/// Whether a row shows a node with capacity.
pub open spec fn with_capacity() -> spec_fn(NodeRowView) -> bool {
    |r: NodeRowView| r.capacity > 0
}

proof fn lemma_dp_rows_include_empty(acc: Seq<DpNodeView>)
    ensures
        dp_rows(acc, true) matches Ok(t) ==> dp_rows(acc, false) == Ok::<Seq<NodeRowView>, AggregateErrorView>(t.filter(with_capacity())),
        dp_rows(acc, true) matches Err(e) ==> e == AggregateErrorView::NodeSumOverflow,
        dp_rows(acc, false) is Err ==> dp_rows(acc, true) == dp_rows(acc, false),
    decreases acc.len(),
{
    reveal_with_fuel(Seq::filter, 1);
    if acc.len() == 0 {
        assert(Seq::<NodeRowView>::empty().filter(with_capacity()) =~= Seq::<NodeRowView>::empty());
    } else {
        let d = acc.drop_last();
        let n = acc.last();
        lemma_dp_rows_include_empty(d);
        if let Ok(t) = dp_rows(acc, true) {
            let t0 = dp_rows(d, true)->Ok_0;
            let r = dp_row(n)->Some_0;
            assert(t == t0.push(r));
            assert(t.drop_last() =~= t0);
            assert(r.capacity == n.capacity);
        }
    }
}

/// With `include_empty` the device-plugin table is the plain table plus the rows of the
/// nodes without capacity, in node order: dropping those rows gives the plain table. The
/// tables fail alike, except that the larger one can also fail when the pods of a node
/// without capacity sum past `i64`. A row without capacity and without pods holding
/// devices there shows no pods, no allocation and no source (`0 / 0`, `-`).
pub proof fn law_include_empty(nodes: Seq<NodeInfo>, pods: Seq<PodInfo>)
    ensures
        aggregate_spec(nodes, pods, true) matches Ok(t) ==> aggregate_spec(nodes, pods, false) == Ok::<Seq<NodeRowView>, AggregateErrorView>(t.filter(with_capacity())),
        aggregate_spec(nodes, pods, false) is Err ==> aggregate_spec(nodes, pods, true) == aggregate_spec(nodes, pods, false),
        aggregate_spec(nodes, pods, true) matches Err(e) ==> aggregate_spec(nodes, pods, false) == Err::<Seq<NodeRowView>, AggregateErrorView>(e) || e == AggregateErrorView::NodeSumOverflow,
        aggregate_spec(nodes, pods, true) matches Ok(t) ==> forall|j: int|
            0 <= j < t.len() && (#[trigger] t[j]).capacity <= 0 && (forall|e: PodEntryView| !pod_in(pods, t[j].node_name, e))
                ==> t[j].pods.len() == 0 && t[j].allocated == 0 && t[j].source is None,
{
    if let Ok(acc) = dp_nodes_spec(nodes) {
        if let Ok(acc2) = dp_pods_spec(acc, pods) {
            lemma_dp_rows_include_empty(acc2);
            if let Ok(u) = dp_rows(acc2, true) {
                lemma_sort_filter::<NodeRow>(u, with_capacity());
            }
        }
    }
    law_device_plugin_table(nodes, pods, true);
    law_device_plugin_pods(nodes, pods, true);
    if let Ok(t) = aggregate_spec(nodes, pods, true) {
        assert forall|j: int|
            0 <= j < t.len() && (#[trigger] t[j]).capacity <= 0 && (forall|e: PodEntryView| !pod_in(pods, t[j].node_name, e))
                implies t[j].pods.len() == 0 && t[j].allocated == 0 && t[j].source is None by {
            if t[j].pods.len() > 0 {
                let e = t[j].pods[0];
                assert(t[j].pods.contains(e));
                assert(!pod_in(pods, t[j].node_name, e));
            }
            assert(row_well_formed(t[j]));
            assert(t[j].allocated == pods_sum(t[j].pods));
        }
    }
}

} // verus!
