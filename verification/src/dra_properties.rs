//! What holds of every table the DRA aggregation builds.
use vstd::prelude::*;

use crate::aggregate::{NodeRow, NodeRowView, PodEntry};
use crate::aggregate_dra::{
    aggregate_dra_spec, claims_fold, consumers_fold, counts_fold, dra_capacity, dra_ensure,
    dra_index, dra_nodes_spec, dra_row, dra_rows, is_pool_node, partition_spec, pool_fold,
    pool_infos_spec, result_step, results_fold, slice_node_label, split_nodes, ClaimNodeView,
    DraNodeView, PoolView, MULTI_NODE_LABEL,
};
use crate::cluster::{ClaimInfo, ConsumerInfo, DeviceResultInfo, NodeInfo, NodeInfoView, SliceInfo};
use crate::properties::{
    lemma_listed, lemma_listed_witness, listed, row_well_formed, with_capacity,
};
use crate::search::{first_index, lemma_first_index_facts, lemma_first_index_found};
use crate::sorting::{
    keys_distinct, lemma_sort_filter, lemma_sort_same_elements, lemma_sort_sorted,
    lemma_sort_strict, sort_seq, SortKey,
};
use crate::text::{lemma_seq_lt_total, seq_lt};

verus! {

/// Whether a pool's devices are on the node `name`.
pub open spec fn at_node(name: Seq<char>) -> spec_fn(PoolView) -> bool {
    |p: PoolView| p.node_name == name
}

/// Whether some pool of `pools` is on the node `name`.
pub open spec fn pool_on(pools: Seq<PoolView>, name: Seq<char>) -> bool {
    first_index(pools, at_node(name)) >= 0
}

proof fn lemma_pool_on(pools: Seq<PoolView>, k: int)
    requires
        0 <= k < pools.len(),
    ensures
        pool_on(pools, pools[k].node_name),
{
    let name = pools[k].node_name;
    assert(at_node(name)(pools[k]));
    lemma_first_index_found(pools, at_node(name), k);
}

proof fn lemma_pool_on_extend(pools: Seq<PoolView>, name: Seq<char>)
    requires
        pools.len() > 0,
        pool_on(pools.drop_last(), name),
    ensures
        pool_on(pools, name),
{
    let d = pools.drop_last();
    lemma_first_index_facts(d, at_node(name));
    let k = first_index(d, at_node(name));
    assert(at_node(name)(d[k]));
    assert(pools[k] == d[k]);
    lemma_first_index_found(pools, at_node(name), k);
}

/// No two nodes of `acc` share a name.
pub open spec fn dra_distinct(acc: Seq<DraNodeView>) -> bool {
    forall|i: int, j: int| 0 <= i < j < acc.len() ==> #[trigger] acc[i].name != #[trigger] acc[j].name
}

/// `b` keeps the nodes of `a` by name, in place, and adds only nodes that pools are on;
/// distinct names stay distinct.
pub open spec fn dra_grows(a: Seq<DraNodeView>, b: Seq<DraNodeView>, pools: Seq<PoolView>) -> bool {
    &&& a.len() <= b.len()
    &&& forall|i: int| 0 <= i < a.len() ==> #[trigger] b[i].name == a[i].name
    &&& forall|j: int| a.len() <= j < b.len() ==> pool_on(pools, #[trigger] b[j].name)
    &&& dra_distinct(a) ==> dra_distinct(b)
}

proof fn lemma_grows_refl(a: Seq<DraNodeView>, pools: Seq<PoolView>)
    ensures
        dra_grows(a, a, pools),
{
}

/// `dra_grows` is transitive.
pub(crate) proof fn lemma_grows_trans(
    a: Seq<DraNodeView>,
    b: Seq<DraNodeView>,
    c: Seq<DraNodeView>,
    pools: Seq<PoolView>,
)
    requires
        dra_grows(a, b, pools),
        dra_grows(b, c, pools),
    ensures
        dra_grows(a, c, pools),
{
    assert forall|j: int| a.len() <= j < c.len() implies pool_on(pools, #[trigger] c[j].name) by {
        if j < b.len() {
            assert(c[j].name == b[j].name);
        }
    }
}

proof fn lemma_grows_extend(a: Seq<DraNodeView>, b: Seq<DraNodeView>, pools: Seq<PoolView>)
    requires
        pools.len() > 0,
        dra_grows(a, b, pools.drop_last()),
    ensures
        dra_grows(a, b, pools),
{
    assert forall|j: int| a.len() <= j < b.len() implies pool_on(pools, #[trigger] b[j].name) by {
        lemma_pool_on_extend(pools, b[j].name);
    }
}

proof fn lemma_grows_update(a: Seq<DraNodeView>, i: int, v: DraNodeView, pools: Seq<PoolView>)
    requires
        0 <= i < a.len(),
        v.name == a[i].name,
    ensures
        dra_grows(a, a.update(i, v), pools),
{
    let b = a.update(i, v);
    assert forall|x: int| 0 <= x < a.len() implies #[trigger] b[x].name == a[x].name by {
        if x != i {
            assert(b[x] == a[x]);
        }
    }
}

/// What making sure that a node is present does to the node list.
pub(crate) proof fn lemma_ensure_facts(a: Seq<DraNodeView>, name: Seq<char>)
    ensures
        ({
            let b = dra_ensure(a, name);
            &&& forall|x: int| 0 <= x < a.len() ==> #[trigger] b[x] == a[x]
            &&& dra_index(a, name) >= 0 ==> b == a
            &&& dra_index(a, name) < 0 ==> b.len() == a.len() + 1 && b[a.len() as int].name == name
            &&& dra_distinct(a) ==> dra_distinct(b)
            &&& 0 <= dra_index(b, name) < b.len()
            &&& b[dra_index(b, name)].name == name
        }),
{
    lemma_first_index_facts(a, |n: DraNodeView| n.name == name);
    let b = dra_ensure(a, name);
    if dra_index(a, name) < 0 {
        assert forall|x: int| 0 <= x < a.len() implies #[trigger] b[x] == a[x] by {}
        if dra_distinct(a) {
            assert forall|x: int, y: int| 0 <= x < y < b.len() implies #[trigger] b[x].name != #[trigger] b[y].name by {
                if y == a.len() {
                    assert(b[x] == a[x]);
                    assert(!((|n: DraNodeView| n.name == name)(a[x])));
                } else {
                    assert(b[x] == a[x] && b[y] == a[y]);
                }
            }
        }
        assert(b[a.len() as int].name == name);
        lemma_first_index_found(b, |n: DraNodeView| n.name == name, a.len() as int);
    }
    lemma_first_index_facts(b, |n: DraNodeView| n.name == name);
}

proof fn lemma_grows_ensure(a: Seq<DraNodeView>, name: Seq<char>, pools: Seq<PoolView>)
    requires
        pool_on(pools, name) || dra_index(a, name) >= 0,
    ensures
        dra_grows(a, dra_ensure(a, name), pools),
        0 <= dra_index(dra_ensure(a, name), name) < dra_ensure(a, name).len(),
        dra_ensure(a, name)[dra_index(dra_ensure(a, name), name)].name == name,
{
    lemma_ensure_facts(a, name);
    let b = dra_ensure(a, name);
    assert forall|x: int| 0 <= x < a.len() implies #[trigger] b[x].name == a[x].name by {
        assert(b[x] == a[x]);
    }
}

/// Adding pool capacity only adds nodes that pools are on.
pub(crate) proof fn lemma_dra_capacity(acc: Seq<DraNodeView>, pools: Seq<PoolView>)
    ensures
        dra_capacity(acc, pools) matches Ok(b) ==> dra_grows(acc, b, pools),
    decreases pools.len(),
{
    if pools.len() == 0 {
        lemma_grows_refl(acc, pools);
    } else {
        lemma_dra_capacity(acc, pools.drop_last());
        if let Ok(b) = dra_capacity(acc, pools) {
            let a = dra_capacity(acc, pools.drop_last())->Ok_0;
            lemma_grows_extend(acc, a, pools);
            let p = pools.last();
            lemma_pool_on(pools, pools.len() - 1);
            lemma_grows_ensure(a, p.node_name, pools);
            let e = dra_ensure(a, p.node_name);
            let i = dra_index(e, p.node_name);
            lemma_grows_update(
                e,
                i,
                DraNodeView {
                    name: e[i].name,
                    capacity: (e[i].capacity + p.capacity) as i64,
                    allocated: e[i].allocated,
                    pods: e[i].pods,
                },
                pools,
            );
            lemma_grows_trans(a, e, b, pools);
            lemma_grows_trans(acc, a, b, pools);
        }
    }
}

proof fn lemma_result_step(
    st: (Seq<DraNodeView>, Seq<ClaimNodeView>),
    r: DeviceResultInfo,
    pools: Seq<PoolView>,
    driver: Seq<char>,
)
    ensures
        result_step(st, r, pools, driver) matches Ok(st2) ==> dra_grows(st.0, st2.0, pools),
{
    if let Ok(st2) = result_step(st, r, pools, driver) {
        let pi = crate::aggregate_dra::pool_index(pools, r.pool@);
        if r.admin_access == Some(true) || r.driver@ != driver || pi < 0 {
            lemma_grows_refl(st.0, pools);
        } else {
            lemma_first_index_facts(pools, |p: PoolView| p.pool == r.pool@);
            let node = pools[pi].node_name;
            lemma_pool_on(pools, pi);
            lemma_grows_ensure(st.0, node, pools);
            let b = dra_ensure(st.0, node);
            let i = dra_index(b, node);
            let pair = (r.pool@, r.device@);
            if b[i].allocated.contains(pair) {
                assert(st2.0 == b);
            } else {
                lemma_grows_update(
                    b,
                    i,
                    DraNodeView {
                        name: b[i].name,
                        capacity: b[i].capacity,
                        allocated: b[i].allocated.push(pair),
                        pods: b[i].pods,
                    },
                    pools,
                );
                lemma_grows_trans(st.0, b, st2.0, pools);
            }
        }
    }
}

/// One claim's results only add nodes that pools are on.
pub(crate) proof fn lemma_results_fold(
    acc: Seq<DraNodeView>,
    rs: Seq<DeviceResultInfo>,
    pools: Seq<PoolView>,
    driver: Seq<char>,
)
    ensures
        results_fold(acc, rs, pools, driver) matches Ok(st) ==> dra_grows(acc, st.0, pools),
    decreases rs.len(),
{
    if rs.len() == 0 {
        lemma_grows_refl(acc, pools);
    } else {
        lemma_results_fold(acc, rs.drop_last(), pools, driver);
        if let Ok(st) = results_fold(acc, rs, pools, driver) {
            let s0 = results_fold(acc, rs.drop_last(), pools, driver)->Ok_0;
            lemma_result_step(s0, rs.last(), pools, driver);
            lemma_grows_trans(acc, s0.0, st.0, pools);
        }
    }
}

proof fn lemma_consumers_fold(
    acc: Seq<DraNodeView>,
    cn: ClaimNodeView,
    ns: Seq<char>,
    cs: Seq<ConsumerInfo>,
    pools: Seq<PoolView>,
)
    ensures
        consumers_fold(acc, cn, ns, cs) matches Ok(b) ==> dra_grows(acc, b, pools),
    decreases cs.len(),
{
    if cs.len() == 0 {
        lemma_grows_refl(acc, pools);
    } else {
        lemma_consumers_fold(acc, cn, ns, cs.drop_last(), pools);
        if let Ok(b) = consumers_fold(acc, cn, ns, cs) {
            let a = consumers_fold(acc, cn, ns, cs.drop_last())->Ok_0;
            let i = dra_index(a, cn.node);
            lemma_first_index_facts(a, |n: DraNodeView| n.name == cn.node);
            if b == a {
                lemma_grows_refl(a, pools);
            } else {
                assert(b.len() == a.len());
                assert(b == a.update(i, b[i]));
                lemma_grows_update(a, i, b[i], pools);
            }
            lemma_grows_trans(acc, a, b, pools);
        }
    }
}

proof fn lemma_counts_fold(
    acc: Seq<DraNodeView>,
    counts: Seq<ClaimNodeView>,
    ns: Seq<char>,
    cs: Seq<ConsumerInfo>,
    pools: Seq<PoolView>,
)
    ensures
        counts_fold(acc, counts, ns, cs) matches Ok(b) ==> dra_grows(acc, b, pools),
    decreases counts.len(),
{
    if counts.len() == 0 {
        lemma_grows_refl(acc, pools);
    } else {
        lemma_counts_fold(acc, counts.drop_last(), ns, cs, pools);
        if let Ok(b) = counts_fold(acc, counts, ns, cs) {
            let a = counts_fold(acc, counts.drop_last(), ns, cs)->Ok_0;
            lemma_consumers_fold(a, counts.last(), ns, cs, pools);
            lemma_grows_trans(acc, a, b, pools);
        }
    }
}

/// The claims only add nodes that pools are on.
pub(crate) proof fn lemma_claims_fold(
    acc: Seq<DraNodeView>,
    claims: Seq<ClaimInfo>,
    pools: Seq<PoolView>,
    driver: Seq<char>,
)
    ensures
        claims_fold(acc, claims, pools, driver) matches Ok(b) ==> dra_grows(acc, b, pools),
    decreases claims.len(),
{
    if claims.len() == 0 {
        lemma_grows_refl(acc, pools);
    } else {
        lemma_claims_fold(acc, claims.drop_last(), pools, driver);
        if let Ok(b) = claims_fold(acc, claims, pools, driver) {
            let a = claims_fold(acc, claims.drop_last(), pools, driver)->Ok_0;
            let c = claims.last();
            lemma_results_fold(a, c.results@, pools, driver);
            let st = results_fold(a, c.results@, pools, driver)->Ok_0;
            lemma_counts_fold(st.0, st.1, crate::aggregate::opt_text(c.namespace), c.reserved_for@, pools);
            lemma_grows_trans(a, st.0, b, pools);
            lemma_grows_trans(acc, a, b, pools);
        }
    }
}

/// What the node list of the DRA aggregation holds: each listed name once.
pub open spec fn dra_nodes_facts(nodes: Seq<NodeInfo>, acc: Seq<DraNodeView>) -> bool {
    &&& dra_distinct(acc)
    &&& forall|k: int| 0 <= k < nodes.len() ==> (#[trigger] nodes[k]).name is Some && dra_index(acc, nodes[k].name->0@) >= 0
    &&& forall|i: int| 0 <= i < acc.len() ==> listed(nodes, #[trigger] acc[i].name)
}

/// The node list of the DRA aggregation: see `dra_nodes_facts`.
pub(crate) proof fn lemma_dra_nodes(nodes: Seq<NodeInfo>)
    ensures
        dra_nodes_spec(nodes) matches Ok(acc) ==> dra_nodes_facts(nodes, acc),
    decreases nodes.len(),
{
    if nodes.len() > 0 {
        let d = nodes.drop_last();
        let n = nodes.last();
        lemma_dra_nodes(d);
        if let Ok(acc) = dra_nodes_spec(nodes) {
            let a0 = dra_nodes_spec(d)->Ok_0;
            let nm = n.name->0@;
            assert(acc == dra_ensure(a0, nm));
            lemma_ensure_facts(a0, nm);
            assert forall|k: int| 0 <= k < nodes.len() implies (#[trigger] nodes[k]).name is Some && dra_index(acc, nodes[k].name->0@) >= 0 by {
                if k < d.len() {
                    assert(d[k] == nodes[k]);
                    lemma_first_index_facts(a0, |x: DraNodeView| x.name == d[k].name->0@);
                    let i0 = dra_index(a0, d[k].name->0@);
                    assert(acc[i0] == a0[i0]);
                    lemma_first_index_found(acc, |x: DraNodeView| x.name == d[k].name->0@, i0);
                } else {
                    assert(nodes[k] == n);
                }
            }
            assert forall|i: int| 0 <= i < acc.len() implies listed(nodes, #[trigger] acc[i].name) by {
                if i < a0.len() {
                    assert(acc[i] == a0[i]);
                    assert(listed(d, a0[i].name));
                    let k = lemma_listed_witness(d, a0[i].name);
                    assert(nodes[k] == d[k]);
                    lemma_listed(nodes, k);
                } else {
                    lemma_listed(nodes, nodes.len() - 1);
                }
            }
        }
    }
}

/// The name of a row is the name of a node, with that node's capacity.
pub open spec fn dra_row_of(acc: Seq<DraNodeView>, r: NodeRowView) -> bool {
    exists|i: int|
        0 <= i < acc.len() && #[trigger] acc[i].name == r.node_name && acc[i].capacity == r.capacity
            && r.pods == sort_seq::<PodEntry>(acc[i].pods) && r.allocated == acc[i].allocated.len()
}

/// What the DRA rows hold before they are sorted.
#[verifier::spinoff_prover]
#[verifier::rlimit(40)]
pub(crate) proof fn lemma_dra_rows(acc: Seq<DraNodeView>, include_empty: bool)
    ensures
        dra_rows(acc, include_empty) matches Ok(rows) ==> {
            &&& forall|j: int| 0 <= j < rows.len() ==> dra_row_of(acc, #[trigger] rows[j])
            &&& forall|j: int| 0 <= j < rows.len() ==> row_well_formed(#[trigger] rows[j])
            &&& forall|j: int| 0 <= j < rows.len() ==> (include_empty || (#[trigger] rows[j]).capacity > 0)
            &&& dra_distinct(acc) ==> keys_distinct::<NodeRow>(rows)
            &&& include_empty ==> forall|i: int| 0 <= i < acc.len() ==> exists|j: int| 0 <= j < rows.len() && (#[trigger] rows[j]).node_name == #[trigger] acc[i].name
        },
    decreases acc.len(),
{
    if acc.len() > 0 {
        let d = acc.drop_last();
        lemma_dra_rows(d, include_empty);
        if let Ok(rows) = dra_rows(acc, include_empty) {
            let r0 = dra_rows(d, include_empty)->Ok_0;
            let n = acc.last();
            assert forall|j: int| 0 <= j < r0.len() implies dra_row_of(acc, #[trigger] r0[j]) by {
                let i = choose|i: int| 0 <= i < d.len() && #[trigger] d[i].name == r0[j].node_name && d[i].capacity == r0[j].capacity && r0[j].pods == sort_seq::<PodEntry>(d[i].pods) && r0[j].allocated == d[i].allocated.len();
                assert(acc[i] == d[i]);
            }
            if include_empty || n.capacity > 0 {
                let r = dra_row(n)->Some_0;
                assert(rows == r0.push(r));
                lemma_sort_sorted::<PodEntry>(n.pods);
                assert(dra_row_of(acc, r)) by {
                    assert(acc[acc.len() - 1] == n);
                }
                assert forall|j: int| 0 <= j < rows.len() implies dra_row_of(acc, #[trigger] rows[j]) by {
                    if j < r0.len() {
                        assert(rows[j] == r0[j]);
                    }
                }
                if dra_distinct(acc) {
                    assert(dra_distinct(d));
                    assert forall|a: int, b: int| 0 <= a < b < rows.len() implies !(NodeRow::key_le(#[trigger] rows[a], #[trigger] rows[b]) && NodeRow::key_le(rows[b], rows[a])) by {
                        lemma_seq_lt_total(rows[a].node_name, rows[b].node_name);
                        if b == r0.len() {
                            assert(rows[a] == r0[a]);
                            let i = choose|i: int| 0 <= i < d.len() && #[trigger] d[i].name == r0[a].node_name && d[i].capacity == r0[a].capacity && r0[a].pods == sort_seq::<PodEntry>(d[i].pods) && r0[a].allocated == d[i].allocated.len();
                            assert(acc[i] == d[i]);
                            assert(acc[acc.len() - 1] == n);
                        } else {
                            assert(rows[a] == r0[a] && rows[b] == r0[b]);
                        }
                    }
                }
                if include_empty {
                    assert forall|i: int| 0 <= i < acc.len() implies exists|j: int| 0 <= j < rows.len() && (#[trigger] rows[j]).node_name == #[trigger] acc[i].name by {
                        if i < d.len() {
                            assert(d[i] == acc[i]);
                            let j = choose|j: int| 0 <= j < r0.len() && (#[trigger] r0[j]).node_name == #[trigger] d[i].name;
                            assert(rows[j] == r0[j]);
                        } else {
                            assert(rows[r0.len() as int] == r);
                        }
                    }
                }
            } else {
                assert(rows == r0);
            }
        }
    }
}

/// Whether `name` is where a slice of `driver` has its devices (its node, all nodes or
/// several nodes), or names a pool whose slices are on several nodes.
pub open spec fn driver_place(slices: Seq<SliceInfo>, driver: Seq<char>, name: Seq<char>) -> bool {
    ||| name == MULTI_NODE_LABEL@
    ||| exists|k: int| 0 <= k < slices.len() && (#[trigger] slices[k]).driver@ == driver && slice_node_label(slices[k]) == name
}

proof fn lemma_pool_places(prefix: Seq<SliceInfo>, all: Seq<SliceInfo>, driver: Seq<char>)
    ensures
        pool_fold(prefix, all, driver) matches Ok(p) ==> forall|i: int| 0 <= i < p.len() ==> driver_place(prefix, driver, #[trigger] p[i].node_name),
    decreases prefix.len(),
{
    if prefix.len() > 0 {
        let d = prefix.drop_last();
        let s = prefix.last();
        lemma_pool_places(d, all, driver);
        if let Ok(p) = pool_fold(prefix, all, driver) {
            let p0 = pool_fold(d, all, driver)->Ok_0;
            assert forall|i: int| 0 <= i < p0.len() && driver_place(d, driver, #[trigger] p0[i].node_name) implies driver_place(prefix, driver, p0[i].node_name) by {
                let name = p0[i].node_name;
                if name != MULTI_NODE_LABEL@ {
                    let k = choose|k: int| 0 <= k < d.len() && (#[trigger] d[k]).driver@ == driver && slice_node_label(d[k]) == name;
                    assert(prefix[k] == d[k]);
                }
            }
            assert(prefix[prefix.len() - 1] == s);
            assert(p == crate::aggregate_dra::pool_step(p0, s, all, driver)->Ok_0);
            let j = crate::aggregate_dra::pool_index(p0, s.pool_name@);
            if s.driver@ != driver || crate::aggregate_dra::pool_max_gen(all, driver, s.pool_name@) != Some(s.generation) {
                assert(p == p0);
            } else if j < 0 {
                assert forall|i: int| 0 <= i < p.len() implies driver_place(prefix, driver, #[trigger] p[i].node_name) by {
                    if i < p0.len() {
                        assert(p[i] == p0[i]);
                    }
                }
            } else {
                lemma_first_index_facts(p0, |q: PoolView| q.pool == s.pool_name@);
                assert forall|i: int| 0 <= i < p.len() implies driver_place(prefix, driver, #[trigger] p[i].node_name) by {
                    if i != j {
                        assert(p[i] == p0[i]);
                    }
                }
            }
        }
    }
}

/// The DRA table lists each node once, in strictly increasing order of name; each row is
/// a listed node or the place of a pool of the driver (at its newest generation), which a
/// slice of the driver names; without `include_empty`
/// every row has capacity, and with it every listed node has a row; in every row the pods
/// are sorted by namespace and name, and the source is shown exactly when the node has
/// capacity or allocation.
pub proof fn law_dra_table(
    nodes: Seq<NodeInfo>,
    slices: Seq<SliceInfo>,
    claims: Seq<ClaimInfo>,
    driver: Seq<char>,
    include_empty: bool,
)
    ensures
        aggregate_dra_spec(nodes, slices, claims, driver, include_empty) matches Ok(rows) ==> {
            &&& forall|i: int, j: int| 0 <= i < j < rows.len() ==> seq_lt(#[trigger] rows[i].node_name, #[trigger] rows[j].node_name)
            &&& forall|j: int| 0 <= j < rows.len() ==> listed(nodes, #[trigger] rows[j].node_name) || (pool_on(pool_infos_spec(slices, driver)->Ok_0, rows[j].node_name) && driver_place(slices, driver, rows[j].node_name))
            &&& forall|j: int| 0 <= j < rows.len() ==> row_well_formed(#[trigger] rows[j])
            &&& !include_empty ==> forall|j: int| 0 <= j < rows.len() ==> (#[trigger] rows[j]).capacity > 0
            &&& include_empty ==> forall|k: int| 0 <= k < nodes.len() && (#[trigger] nodes[k]).name is Some ==> exists|j: int| 0 <= j < rows.len() && (#[trigger] rows[j]).node_name == nodes[k].name->0@
        },
{
    lemma_dra_nodes(nodes);
    if let Ok(rows) = aggregate_dra_spec(nodes, slices, claims, driver, include_empty) {
        let acc0 = dra_nodes_spec(nodes)->Ok_0;
        let pools = pool_infos_spec(slices, driver)->Ok_0;
        lemma_pool_places(slices, slices, driver);
        lemma_dra_capacity(acc0, pools);
        let acc1 = dra_capacity(acc0, pools)->Ok_0;
        lemma_claims_fold(acc1, claims, pools, driver);
        let acc2 = claims_fold(acc1, claims, pools, driver)->Ok_0;
        lemma_grows_trans(acc0, acc1, acc2, pools);
        lemma_dra_rows(acc2, include_empty);
        let unsorted = dra_rows(acc2, include_empty)->Ok_0;
        lemma_sort_strict::<NodeRow>(unsorted);
        lemma_sort_same_elements::<NodeRow>(unsorted);
        assert(rows == sort_seq::<NodeRow>(unsorted));
        assert forall|i: int, j: int| 0 <= i < j < rows.len() implies seq_lt(#[trigger] rows[i].node_name, #[trigger] rows[j].node_name) by {
            lemma_seq_lt_total(rows[i].node_name, rows[j].node_name);
        }
        assert forall|j: int| #![trigger rows[j]] 0 <= j < rows.len() implies {
            &&& listed(nodes, rows[j].node_name) || (pool_on(pools, rows[j].node_name) && driver_place(slices, driver, rows[j].node_name))
            &&& row_well_formed(rows[j])
            &&& (include_empty || rows[j].capacity > 0)
        } by {
            assert(rows.contains(rows[j]));
            let u = choose|u: int| 0 <= u < unsorted.len() && unsorted[u] == rows[j];
            assert(dra_row_of(acc2, unsorted[u]));
            let i = choose|i: int| 0 <= i < acc2.len() && #[trigger] acc2[i].name == unsorted[u].node_name && acc2[i].capacity == unsorted[u].capacity && unsorted[u].pods == sort_seq::<PodEntry>(acc2[i].pods) && unsorted[u].allocated == acc2[i].allocated.len();
            if i < acc0.len() {
                assert(listed(nodes, acc0[i].name));
            } else {
                let name = acc2[i].name;
                assert(pool_on(pools, name));
                lemma_first_index_facts(pools, at_node(name));
                let k = first_index(pools, at_node(name));
                assert(at_node(name)(pools[k]));
                assert(driver_place(slices, driver, pools[k].node_name));
            }
        }
        if include_empty {
            assert forall|k: int| 0 <= k < nodes.len() && (#[trigger] nodes[k]).name is Some implies exists|j: int| 0 <= j < rows.len() && (#[trigger] rows[j]).node_name == nodes[k].name->0@ by {
                let name = nodes[k].name->0@;
                lemma_first_index_facts(acc0, |x: DraNodeView| x.name == name);
                let i = dra_index(acc0, name);
                assert(acc2[i].name == acc0[i].name);
                let u = choose|u: int| 0 <= u < unsorted.len() && (#[trigger] unsorted[u]).node_name == acc2[i].name;
                assert(unsorted.contains(unsorted[u]));
                assert(rows.contains(unsorted[u]));
                let j = choose|j: int| 0 <= j < rows.len() && rows[j] == unsorted[u];
                assert(rows[j].node_name == name);
            }
        }
    }
}

/// Whether a node is on a pool of `pools`.
pub open spec fn on_pool(pools: Seq<PoolView>) -> spec_fn(NodeInfoView) -> bool {
    |n: NodeInfoView| n.name matches Some(name) && is_pool_node(pools, name)
}

proof fn lemma_split_nodes(nodes: Seq<NodeInfoView>, pools: Seq<PoolView>)
    ensures
        split_nodes(nodes, pools).0 == nodes.filter(on_pool(pools)),
        split_nodes(nodes, pools).1 == nodes.filter(|n: NodeInfoView| !on_pool(pools)(n)),
        split_nodes(nodes, pools).0.len() + split_nodes(nodes, pools).1.len() == nodes.len(),
    decreases nodes.len(),
{
    reveal(Seq::filter);
    if nodes.len() > 0 {
        lemma_split_nodes(nodes.drop_last(), pools);
    }
}

/// The automatic mode's split of the nodes: the DRA list is exactly the nodes that a pool
/// of the driver is on, in their order, and the device-plugin list exactly the others, in
/// their order; every node goes to one of the two.
pub proof fn law_partition(nodes: Seq<NodeInfo>, slices: Seq<SliceInfo>, driver: Seq<char>)
    ensures
        partition_spec(nodes, slices, driver) matches Ok((dra, dp)) ==> {
            let pools = pool_infos_spec(slices, driver)->Ok_0;
            &&& dra == crate::sorting::views(nodes).filter(on_pool(pools))
            &&& dp == crate::sorting::views(nodes).filter(|n: NodeInfoView| !on_pool(pools)(n))
            &&& dra.len() + dp.len() == nodes.len()
        },
{
    if let Ok(pools) = pool_infos_spec(slices, driver) {
        lemma_split_nodes(crate::sorting::views(nodes), pools);
    }
}

proof fn lemma_dra_rows_include_empty(acc: Seq<DraNodeView>)
    ensures
        dra_rows(acc, true) matches Ok(t) ==> dra_rows(acc, false) == Ok::<Seq<NodeRowView>, crate::error::AggregateErrorView>(t.filter(with_capacity())),
        dra_rows(acc, true) matches Err(e) ==> e == crate::error::AggregateErrorView::DraAllocatedOverflow,
        dra_rows(acc, false) is Err ==> dra_rows(acc, true) == dra_rows(acc, false),
    decreases acc.len(),
{
    reveal_with_fuel(Seq::filter, 1);
    if acc.len() == 0 {
        assert(Seq::<NodeRowView>::empty().filter(with_capacity()) =~= Seq::<NodeRowView>::empty());
    } else {
        let d = acc.drop_last();
        let n = acc.last();
        lemma_dra_rows_include_empty(d);
        if let Ok(t) = dra_rows(acc, true) {
            let t0 = dra_rows(d, true)->Ok_0;
            let r = dra_row(n)->Some_0;
            assert(t == t0.push(r));
            assert(t.drop_last() =~= t0);
            assert(r.capacity == n.capacity);
        }
    }
}

/// With `include_empty` the DRA table is the plain table plus the rows of the nodes
/// without capacity, in node order: dropping those rows gives the plain table. The tables
/// fail alike, except that the larger one can also fail when a node without capacity has
/// more allocated devices than `i64` counts.
pub proof fn law_dra_include_empty(
    nodes: Seq<NodeInfo>,
    slices: Seq<SliceInfo>,
    claims: Seq<ClaimInfo>,
    driver: Seq<char>,
)
    ensures
        aggregate_dra_spec(nodes, slices, claims, driver, true) matches Ok(t) ==> aggregate_dra_spec(nodes, slices, claims, driver, false) == Ok::<Seq<NodeRowView>, crate::error::AggregateErrorView>(t.filter(with_capacity())),
        aggregate_dra_spec(nodes, slices, claims, driver, false) is Err ==> aggregate_dra_spec(nodes, slices, claims, driver, true) == aggregate_dra_spec(nodes, slices, claims, driver, false),
        aggregate_dra_spec(nodes, slices, claims, driver, true) matches Err(e) ==> aggregate_dra_spec(nodes, slices, claims, driver, false) == Err::<Seq<NodeRowView>, crate::error::AggregateErrorView>(e) || e == crate::error::AggregateErrorView::DraAllocatedOverflow,
{
    if let Ok(acc0) = dra_nodes_spec(nodes) {
        if let Ok(pools) = pool_infos_spec(slices, driver) {
            if let Ok(acc1) = dra_capacity(acc0, pools) {
                if let Ok(acc2) = claims_fold(acc1, claims, pools, driver) {
                    lemma_dra_rows_include_empty(acc2);
                    if let Ok(u) = dra_rows(acc2, true) {
                        lemma_sort_filter::<NodeRow>(u, with_capacity());
                    }
                }
            }
        }
    }
}

} // verus!
