//! What the aggregations leave out: inputs that change nothing in the table.
use vstd::prelude::*;

use crate::aggregate::{aggregate_spec, dp_add_pod, dp_pods_spec, phase_holds, pod_rngd, DpNodeView};
use crate::aggregate_dra::{
    aggregate_dra_spec, claims_fold, pool_fold, pool_max_gen, results_fold, ClaimNodeView,
    DraNodeView, PoolView,
};
use crate::cluster::{ClaimInfo, DeviceResultInfo, NodeInfo, PodInfo, SliceInfo};
use crate::error::AggregateErrorView;

verus! {

/// A pod that holds no device in the device-plugin count: unscheduled, not `Pending` or
/// `Running`, or asking for no `furiosa.ai/rngd` device.
pub open spec fn idle_pod(p: PodInfo) -> bool {
    ||| p.spec is None
    ||| p.spec->0.node_name is None
    ||| !phase_holds(p.phase)
    ||| pod_rngd(p) == Ok::<i64, AggregateErrorView>(0)
}

proof fn lemma_idle_pod_step(acc: Seq<DpNodeView>, p: PodInfo)
    requires
        idle_pod(p),
    ensures
        dp_add_pod(acc, p) == Ok::<Seq<DpNodeView>, AggregateErrorView>(acc),
{
}

proof fn lemma_pods_insert_idle(acc: Seq<DpNodeView>, pods: Seq<PodInfo>, k: int, p: PodInfo)
    requires
        0 <= k <= pods.len(),
        idle_pod(p),
    ensures
        dp_pods_spec(acc, pods.insert(k, p)) == dp_pods_spec(acc, pods),
    decreases pods.len(),
{
    let q = pods.insert(k, p);
    if k == pods.len() {
        assert(q.drop_last() =~= pods);
        assert(q.last() == p);
        if let Ok(a) = dp_pods_spec(acc, pods) {
            lemma_idle_pod_step(a, p);
        }
    } else {
        assert(q.drop_last() =~= pods.drop_last().insert(k, p));
        assert(q.last() == pods.last());
        lemma_pods_insert_idle(acc, pods.drop_last(), k, p);
    }
}

/// A pod that holds no device (unscheduled, not `Pending` or `Running`, or asking for no
/// device) changes nothing in the device-plugin table, wherever it stands in the list.
pub proof fn law_idle_pod_ignored(
    nodes: Seq<NodeInfo>,
    pods: Seq<PodInfo>,
    k: int,
    p: PodInfo,
    include_empty: bool,
)
    requires
        0 <= k <= pods.len(),
        idle_pod(p),
    ensures
        aggregate_spec(nodes, pods.insert(k, p), include_empty) == aggregate_spec(nodes, pods, include_empty),
{
    if let Ok(acc) = crate::aggregate::dp_nodes_spec(nodes) {
        lemma_pods_insert_idle(acc, pods, k, p);
    }
}

proof fn lemma_max_gen_insert(x: Seq<SliceInfo>, k: int, s: SliceInfo, driver: Seq<char>, pool: Seq<char>)
    requires
        0 <= k <= x.len(),
        s.driver@ != driver,
    ensures
        pool_max_gen(x.insert(k, s), driver, pool) == pool_max_gen(x, driver, pool),
    decreases x.len(),
{
    let q = x.insert(k, s);
    if k == x.len() {
        assert(q.drop_last() =~= x);
        assert(q.last() == s);
    } else {
        assert(q.drop_last() =~= x.drop_last().insert(k, s));
        assert(q.last() == x.last());
        lemma_max_gen_insert(x.drop_last(), k, s, driver, pool);
    }
}

proof fn lemma_pool_fold_same_gens(
    prefix: Seq<SliceInfo>,
    a1: Seq<SliceInfo>,
    a2: Seq<SliceInfo>,
    driver: Seq<char>,
)
    requires
        forall|pool: Seq<char>| #[trigger] pool_max_gen(a1, driver, pool) == pool_max_gen(a2, driver, pool),
    ensures
        pool_fold(prefix, a1, driver) == pool_fold(prefix, a2, driver),
    decreases prefix.len(),
{
    if prefix.len() > 0 {
        lemma_pool_fold_same_gens(prefix.drop_last(), a1, a2, driver);
        assert(pool_max_gen(a1, driver, prefix.last().pool_name@) == pool_max_gen(a2, driver, prefix.last().pool_name@));
    }
}

proof fn lemma_pool_fold_insert(
    x: Seq<SliceInfo>,
    k: int,
    s: SliceInfo,
    all: Seq<SliceInfo>,
    driver: Seq<char>,
)
    requires
        0 <= k <= x.len(),
        s.driver@ != driver,
    ensures
        pool_fold(x.insert(k, s), all, driver) == pool_fold(x, all, driver),
    decreases x.len(),
{
    let q = x.insert(k, s);
    if k == x.len() {
        assert(q.drop_last() =~= x);
        assert(q.last() == s);
    } else {
        assert(q.drop_last() =~= x.drop_last().insert(k, s));
        assert(q.last() == x.last());
        lemma_pool_fold_insert(x.drop_last(), k, s, all, driver);
    }
}

/// A resource slice of another driver changes nothing in the DRA table, wherever it stands
/// in the list.
pub proof fn law_other_driver_slice_ignored(
    nodes: Seq<NodeInfo>,
    slices: Seq<SliceInfo>,
    k: int,
    s: SliceInfo,
    claims: Seq<ClaimInfo>,
    driver: Seq<char>,
    include_empty: bool,
)
    requires
        0 <= k <= slices.len(),
        s.driver@ != driver,
    ensures
        aggregate_dra_spec(nodes, slices.insert(k, s), claims, driver, include_empty)
            == aggregate_dra_spec(nodes, slices, claims, driver, include_empty),
{
    let q = slices.insert(k, s);
    assert forall|pool: Seq<char>| #[trigger] pool_max_gen(q, driver, pool) == pool_max_gen(slices, driver, pool) by {
        lemma_max_gen_insert(slices, k, s, driver, pool);
    }
    lemma_pool_fold_same_gens(q, q, slices, driver);
    lemma_pool_fold_insert(slices, k, s, slices, driver);
    assert(crate::aggregate_dra::pool_infos_spec(q, driver) == crate::aggregate_dra::pool_infos_spec(slices, driver));
}

/// The newest of a pool's generations once a slice of generation `g` joins them.
pub open spec fn gen_join(m: Option<i64>, g: i64) -> Option<i64> {
    match m {
        None => Some(g),
        Some(a) => Some(if g > a { g } else { a }),
    }
}

proof fn lemma_max_gen_insert_same(x: Seq<SliceInfo>, k: int, s: SliceInfo, driver: Seq<char>, pool: Seq<char>)
    requires
        0 <= k <= x.len(),
        s.driver@ == driver,
    ensures
        pool_max_gen(x.insert(k, s), driver, pool) == if s.pool_name@ == pool {
            gen_join(pool_max_gen(x, driver, pool), s.generation)
        } else {
            pool_max_gen(x, driver, pool)
        },
    decreases x.len(),
{
    let q = x.insert(k, s);
    if k == x.len() {
        assert(q.drop_last() =~= x);
        assert(q.last() == s);
    } else {
        assert(q.drop_last() =~= x.drop_last().insert(k, s));
        assert(q.last() == x.last());
        lemma_max_gen_insert_same(x.drop_last(), k, s, driver, pool);
    }
}

proof fn lemma_pool_fold_insert_stale(
    x: Seq<SliceInfo>,
    k: int,
    s: SliceInfo,
    all: Seq<SliceInfo>,
    driver: Seq<char>,
)
    requires
        0 <= k <= x.len(),
        pool_max_gen(all, driver, s.pool_name@) != Some(s.generation),
    ensures
        pool_fold(x.insert(k, s), all, driver) == pool_fold(x, all, driver),
    decreases x.len(),
{
    let q = x.insert(k, s);
    if k == x.len() {
        assert(q.drop_last() =~= x);
        assert(q.last() == s);
    } else {
        assert(q.drop_last() =~= x.drop_last().insert(k, s));
        assert(q.last() == x.last());
        lemma_pool_fold_insert_stale(x.drop_last(), k, s, all, driver);
    }
}

/// A resource slice older than the newest generation of its pool changes nothing in the
/// DRA table, wherever it stands in the list: only the newest generation counts.
pub proof fn law_stale_slice_ignored(
    nodes: Seq<NodeInfo>,
    slices: Seq<SliceInfo>,
    k: int,
    s: SliceInfo,
    claims: Seq<ClaimInfo>,
    driver: Seq<char>,
    include_empty: bool,
)
    requires
        0 <= k <= slices.len(),
        pool_max_gen(slices, s.driver@, s.pool_name@) matches Some(g) && s.generation < g,
    ensures
        aggregate_dra_spec(nodes, slices.insert(k, s), claims, driver, include_empty)
            == aggregate_dra_spec(nodes, slices, claims, driver, include_empty),
{
    let q = slices.insert(k, s);
    if s.driver@ != driver {
        law_other_driver_slice_ignored(nodes, slices, k, s, claims, driver, include_empty);
    } else {
        assert forall|pool: Seq<char>| #[trigger] pool_max_gen(q, driver, pool) == pool_max_gen(slices, driver, pool) by {
            lemma_max_gen_insert_same(slices, k, s, driver, pool);
        }
        lemma_pool_fold_same_gens(q, q, slices, driver);
        lemma_pool_fold_insert_stale(slices, k, s, slices, driver);
        assert(crate::aggregate_dra::pool_infos_spec(q, driver) == crate::aggregate_dra::pool_infos_spec(slices, driver));
    }
}

/// A device result that the DRA count leaves out: one with admin access, or of another driver.
pub open spec fn result_ignored(r: DeviceResultInfo, driver: Seq<char>) -> bool {
    r.admin_access == Some(true) || r.driver@ != driver
}

proof fn lemma_results_ignored(
    acc: Seq<DraNodeView>,
    rs: Seq<DeviceResultInfo>,
    pools: Seq<PoolView>,
    driver: Seq<char>,
)
    requires
        forall|i: int| 0 <= i < rs.len() ==> result_ignored(#[trigger] rs[i], driver),
    ensures
        results_fold(acc, rs, pools, driver) == Ok::<(Seq<DraNodeView>, Seq<ClaimNodeView>), AggregateErrorView>((acc, Seq::empty())),
    decreases rs.len(),
{
    if rs.len() > 0 {
        let d = rs.drop_last();
        assert forall|i: int| 0 <= i < d.len() implies result_ignored(#[trigger] d[i], driver) by {
            assert(d[i] == rs[i]);
        }
        lemma_results_ignored(acc, d, pools, driver);
        assert(result_ignored(rs[rs.len() - 1], driver));
    }
}

proof fn lemma_claims_insert_ignored(
    acc: Seq<DraNodeView>,
    claims: Seq<ClaimInfo>,
    k: int,
    c: ClaimInfo,
    pools: Seq<PoolView>,
    driver: Seq<char>,
)
    requires
        0 <= k <= claims.len(),
        forall|i: int| 0 <= i < c.results@.len() ==> result_ignored(#[trigger] c.results@[i], driver),
    ensures
        claims_fold(acc, claims.insert(k, c), pools, driver) == claims_fold(acc, claims, pools, driver),
    decreases claims.len(),
{
    let q = claims.insert(k, c);
    if k == claims.len() {
        assert(q.drop_last() =~= claims);
        assert(q.last() == c);
        if let Ok(a) = claims_fold(acc, claims, pools, driver) {
            lemma_results_ignored(a, c.results@, pools, driver);
        }
    } else {
        assert(q.drop_last() =~= claims.drop_last().insert(k, c));
        assert(q.last() == claims.last());
        lemma_claims_insert_ignored(acc, claims.drop_last(), k, c, pools, driver);
    }
}

/// A claim whose every device result has admin access or is of another driver changes
/// nothing in the DRA table, wherever it stands in the list.
pub proof fn law_ignored_claim(
    nodes: Seq<NodeInfo>,
    slices: Seq<SliceInfo>,
    claims: Seq<ClaimInfo>,
    k: int,
    c: ClaimInfo,
    driver: Seq<char>,
    include_empty: bool,
)
    requires
        0 <= k <= claims.len(),
        forall|i: int| 0 <= i < c.results@.len() ==> result_ignored(#[trigger] c.results@[i], driver),
    ensures
        aggregate_dra_spec(nodes, slices, claims.insert(k, c), driver, include_empty)
            == aggregate_dra_spec(nodes, slices, claims, driver, include_empty),
{
    if let Ok(acc0) = crate::aggregate_dra::dra_nodes_spec(nodes) {
        if let Ok(pools) = crate::aggregate_dra::pool_infos_spec(slices, driver) {
            if let Ok(acc1) = crate::aggregate_dra::dra_capacity(acc0, pools) {
                lemma_claims_insert_ignored(acc1, claims, k, c, pools, driver);
            }
        }
    }
}

} // verus!
