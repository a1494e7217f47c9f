//! DRA aggregation: each node's capacity from the resource slices of a driver, and the
//! devices that resource claims hold on it, per node and per pod.
use vstd::prelude::*;

use crate::aggregate::{
    opt_text, rows_result, NodeRow, NodeRowView, PodEntry, PodEntryView, RowSource,
};
use crate::cluster::{
    ClaimInfo, ConsumerInfo, DeviceResultInfo, NodeInfo, NodeInfoView, SliceInfo,
};
use crate::error::{AggregateError, AggregateErrorView};
use crate::search::{first_index, lemma_first_index};
use crate::sorting::{sort_by_key, sort_seq, views};
use crate::text::str_eq;

verus! {

/// The node label of a pool whose devices are reachable from every node.
pub const ALL_NODES_LABEL: &'static str = "(all nodes)";

/// The node label of a pool whose devices are on several nodes, or on no named node.
pub const MULTI_NODE_LABEL: &'static str = "(multi-node)";

/// The newest generation among the slices of `driver` for `pool`, if any.
pub open spec fn pool_max_gen(slices: Seq<SliceInfo>, driver: Seq<char>, pool: Seq<char>) -> Option<
    i64,
>
    decreases slices.len(),
{
    if slices.len() == 0 {
        None
    } else {
        let prev = pool_max_gen(slices.drop_last(), driver, pool);
        let s = slices.last();
        if s.driver@ == driver && s.pool_name@ == pool {
            match prev {
                None => Some(s.generation),
                Some(g) => Some(
                    if s.generation > g {
                        s.generation
                    } else {
                        g
                    },
                ),
            }
        } else {
            prev
        }
    }
}

fn max_generation(slices: &[SliceInfo], driver: &str, pool: &str) -> (r: Option<i64>)
    ensures
        r == pool_max_gen(slices@, driver@, pool@),
{
    let mut best: Option<i64> = None;
    let mut k: usize = 0;
    assert(slices@.take(0) =~= Seq::<SliceInfo>::empty());
    while k < slices.len()
        invariant
            k <= slices@.len(),
            best == pool_max_gen(slices@.take(k as int), driver@, pool@),
        decreases slices.len() - k,
    {
        assert(slices@.take(k + 1).drop_last() =~= slices@.take(k as int));
        let s = &slices[k];
        if str_eq(s.driver.as_str(), driver) && str_eq(s.pool_name.as_str(), pool) {
            best = match best {
                None => Some(s.generation),
                Some(g) => Some(
                    if s.generation > g {
                        s.generation
                    } else {
                        g
                    },
                ),
            };
        }
        k += 1;
    }
    assert(slices@.take(k as int) =~= slices@);
    best
}

/// Where a slice's devices are: its node, else all nodes, else several nodes.
pub open spec fn slice_node_label(s: SliceInfo) -> Seq<char> {
    match s.node_name {
        Some(n) => n@,
        None => if s.all_nodes == Some(true) {
            ALL_NODES_LABEL@
        } else {
            MULTI_NODE_LABEL@
        },
    }
}

/// Where a slice's devices are: its node, else all nodes, else several nodes.
pub fn pool_node_name(s: &SliceInfo) -> (r: String)
    ensures
        r@ == slice_node_label(*s),
{
    match &s.node_name {
        Some(n) => n.clone(),
        None => if s.all_nodes == Some(true) {
            String::from_str(ALL_NODES_LABEL)
        } else {
            String::from_str(MULTI_NODE_LABEL)
        },
    }
}

/// A pool of the driver: where its devices are and how many there are.
pub struct PoolView {
    pub pool: Seq<char>,
    pub node_name: Seq<char>,
    pub capacity: i64,
}

struct PoolInfo {
    pool: String,
    node_name: String,
    capacity: i64,
}

impl View for PoolInfo {
    type V = PoolView;

    closed spec fn view(&self) -> PoolView {
        PoolView { pool: self.pool@, node_name: self.node_name@, capacity: self.capacity }
    }
}

/// The position of the pool `pool` in `pools`, or -1.
pub open spec fn pool_index(pools: Seq<PoolView>, pool: Seq<char>) -> int {
    first_index(pools, |p: PoolView| p.pool == pool)
}

fn find_pool(pools: &Vec<PoolInfo>, pool: &str) -> (r: Option<usize>)
    ensures
        match r {
            Some(i) => i < pools@.len() && pool_index(views(pools@), pool@) == i as int,
            None => pool_index(views(pools@), pool@) == -1,
        },
{
    let mut i: usize = 0;
    while i < pools.len()
        invariant
            i <= pools@.len(),
            forall|j: int| 0 <= j < i ==> (#[trigger] views(pools@)[j]).pool != pool@,
        decreases pools.len() - i,
    {
        if str_eq(pools[i].pool.as_str(), pool) {
            proof {
                lemma_first_index(views(pools@), |p: PoolView| p.pool == pool@, i as int);
            }
            return Some(i);
        }
        i += 1;
    }
    proof {
        lemma_first_index(views(pools@), |p: PoolView| p.pool == pool@, i as int);
    }
    None
}

/// `pools` after one slice: a slice of `driver` at its pool's newest generation adds its
/// devices to the pool; a pool whose slices name different nodes is multi-node.
pub open spec fn pool_step(
    pools: Seq<PoolView>,
    s: SliceInfo,
    all: Seq<SliceInfo>,
    driver: Seq<char>,
) -> Result<Seq<PoolView>, AggregateErrorView> {
    if s.driver@ != driver || pool_max_gen(all, driver, s.pool_name@) != Some(s.generation) {
        Ok(pools)
    } else if s.devices@.len() > i64::MAX {
        Err(AggregateErrorView::DraSliceDeviceCountOverflow)
    } else {
        let label = slice_node_label(s);
        let n = s.devices@.len() as int;
        let i = pool_index(pools, s.pool_name@);
        if i < 0 {
            Ok(pools.push(PoolView { pool: s.pool_name@, node_name: label, capacity: n as i64 }))
        } else if pools[i].capacity + n > i64::MAX {
            Err(AggregateErrorView::DraPoolCapacityOverflow)
        } else {
            Ok(
                pools.update(
                    i,
                    PoolView {
                        pool: pools[i].pool,
                        node_name: if pools[i].node_name != label {
                            MULTI_NODE_LABEL@
                        } else {
                            pools[i].node_name
                        },
                        capacity: (pools[i].capacity + n) as i64,
                    },
                ),
            )
        }
    }
}

/// The pools after the slices of `prefix`, in order of first appearance.
pub open spec fn pool_fold(prefix: Seq<SliceInfo>, all: Seq<SliceInfo>, driver: Seq<char>) -> Result<
    Seq<PoolView>,
    AggregateErrorView,
>
    decreases prefix.len(),
{
    if prefix.len() == 0 {
        Ok(Seq::empty())
    } else {
        match pool_fold(prefix.drop_last(), all, driver) {
            Err(e) => Err(e),
            Ok(p) => pool_step(p, prefix.last(), all, driver),
        }
    }
}

/// The pools of `driver` in `slices`: for each, where its devices are and how many there
/// are in the slices of its newest generation.
pub open spec fn pool_infos_spec(slices: Seq<SliceInfo>, driver: Seq<char>) -> Result<
    Seq<PoolView>,
    AggregateErrorView,
> {
    pool_fold(slices, slices, driver)
}

spec fn pools_result(r: Result<Vec<PoolInfo>, AggregateError>) -> Result<
    Seq<PoolView>,
    AggregateErrorView,
> {
    match r {
        Ok(v) => Ok(views(v@)),
        Err(e) => Err(e@),
    }
}

proof fn lemma_pool_fold_err(all: Seq<SliceInfo>, driver: Seq<char>, k: int)
    requires
        0 <= k <= all.len(),
        pool_fold(all.take(k), all, driver) is Err,
    ensures
        pool_fold(all, all, driver) == pool_fold(all.take(k), all, driver),
    decreases all.len() - k,
{
    if k < all.len() {
        assert(all.take(k + 1).drop_last() =~= all.take(k));
        lemma_pool_fold_err(all, driver, k + 1);
    } else {
        assert(all.take(k) =~= all);
    }
}

fn collect_pool_infos(slices: &[SliceInfo], driver: &str) -> (r: Result<
    Vec<PoolInfo>,
    AggregateError,
>)
    ensures
        pools_result(r) == pool_infos_spec(slices@, driver@),
{
    let mut pools: Vec<PoolInfo> = Vec::new();
    let mut k: usize = 0;
    assert(slices@.take(0) =~= Seq::<SliceInfo>::empty());
    assert(views(pools@) =~= Seq::<PoolView>::empty());
    while k < slices.len()
        invariant
            k <= slices@.len(),
            pool_fold(slices@.take(k as int), slices@, driver@) == Ok::<
                Seq<PoolView>,
                AggregateErrorView,
            >(views(pools@)),
        decreases slices.len() - k,
    {
        assert(slices@.take(k + 1).drop_last() =~= slices@.take(k as int));
        assert(slices@.take(k + 1).last() == slices@[k as int]);
        let s = &slices[k];
        let ghost before = views(pools@);
        if str_eq(s.driver.as_str(), driver) && max_generation(
            slices,
            driver,
            s.pool_name.as_str(),
        ) == Some(s.generation) {
            let n = s.devices.len();
            if n as u64 > i64::MAX as u64 {
                proof {
                    lemma_pool_fold_err(slices@, driver@, k as int + 1);
                }
                return Err(AggregateError::DraSliceDeviceCountOverflow);
            }
            let devices = n as i64;
            let label = pool_node_name(s);
            match find_pool(&pools, s.pool_name.as_str()) {
                None => {
                    pools.push(
                        PoolInfo { pool: s.pool_name.clone(), node_name: label, capacity: devices },
                    );
                    assert(views(pools@) =~= before.push(
                        PoolView {
                            pool: s.pool_name@,
                            node_name: slice_node_label(*s),
                            capacity: devices,
                        },
                    ));
                },
                Some(i) => {
                    if !str_eq(pools[i].node_name.as_str(), label.as_str()) {
                        pools[i].node_name = String::from_str(MULTI_NODE_LABEL);
                    }
                    match pools[i].capacity.checked_add(devices) {
                        None => {
                            proof {
                                lemma_pool_fold_err(slices@, driver@, k as int + 1);
                            }
                            return Err(AggregateError::DraPoolCapacityOverflow);
                        },
                        Some(c) => {
                            pools[i].capacity = c;
                        },
                    }
                    assert(views(pools@) =~= before.update(
                        i as int,
                        PoolView {
                            pool: before[i as int].pool,
                            node_name: if before[i as int].node_name != slice_node_label(*s) {
                                MULTI_NODE_LABEL@
                            } else {
                                before[i as int].node_name
                            },
                            capacity: (before[i as int].capacity + devices) as i64,
                        },
                    ));
                },
            }
        }
        k += 1;
    }
    assert(slices@.take(k as int) =~= slices@);
    Ok(pools)
}

/// A node's state while the DRA aggregation runs: its capacity, the distinct devices
/// (pool, device) allocated on it, and the pods holding its devices.
pub struct DraNodeView {
    pub name: Seq<char>,
    pub capacity: i64,
    pub allocated: Seq<(Seq<char>, Seq<char>)>,
    pub pods: Seq<PodEntryView>,
}

struct DraNode {
    name: String,
    capacity: i64,
    allocated: Vec<(String, String)>,
    pods: Vec<PodEntry>,
}

/// The views of a list of (pool, device) pairs.
pub open spec fn pair_views(s: Seq<(String, String)>) -> Seq<(Seq<char>, Seq<char>)> {
    s.map_values(|p: (String, String)| (p.0@, p.1@))
}

impl View for DraNode {
    type V = DraNodeView;

    closed spec fn view(&self) -> DraNodeView {
        DraNodeView {
            name: self.name@,
            capacity: self.capacity,
            allocated: pair_views(self.allocated@),
            pods: views(self.pods@),
        }
    }
}

/// The position of the node named `name` in `acc`, or -1.
pub open spec fn dra_index(acc: Seq<DraNodeView>, name: Seq<char>) -> int {
    first_index(acc, |n: DraNodeView| n.name == name)
}

/// `acc` holding a node named `name`: appended, empty, when absent.
pub open spec fn dra_ensure(acc: Seq<DraNodeView>, name: Seq<char>) -> Seq<DraNodeView> {
    if dra_index(acc, name) < 0 {
        acc.push(DraNodeView { name, capacity: 0, allocated: Seq::empty(), pods: Seq::empty() })
    } else {
        acc
    }
}

proof fn lemma_dra_ensure(acc: Seq<DraNodeView>, name: Seq<char>)
    ensures
        0 <= dra_index(dra_ensure(acc, name), name) < dra_ensure(acc, name).len(),
        dra_ensure(acc, name)[dra_index(dra_ensure(acc, name), name)].name == name,
        dra_index(acc, name) < 0 ==> dra_index(dra_ensure(acc, name), name) == acc.len(),
{
    crate::search::lemma_first_index_facts(acc, |n: DraNodeView| n.name == name);
    if dra_index(acc, name) < 0 {
        let a = dra_ensure(acc, name);
        assert forall|j: int| 0 <= j < acc.len() implies !((|n: DraNodeView| n.name == name)(
            #[trigger] a[j],
        )) by {
            assert(a[j] == acc[j]);
        }
        lemma_first_index(a, |n: DraNodeView| n.name == name, acc.len() as int);
    }
}

fn find_dra(acc: &Vec<DraNode>, name: &str) -> (r: Option<usize>)
    ensures
        match r {
            Some(i) => i < acc@.len() && dra_index(views(acc@), name@) == i as int,
            None => dra_index(views(acc@), name@) == -1,
        },
{
    let mut i: usize = 0;
    while i < acc.len()
        invariant
            i <= acc@.len(),
            forall|j: int| 0 <= j < i ==> (#[trigger] views(acc@)[j]).name != name@,
        decreases acc.len() - i,
    {
        if str_eq(acc[i].name.as_str(), name) {
            proof {
                lemma_first_index(views(acc@), |n: DraNodeView| n.name == name@, i as int);
            }
            return Some(i);
        }
        i += 1;
    }
    proof {
        lemma_first_index(views(acc@), |n: DraNodeView| n.name == name@, i as int);
    }
    None
}

/// Finds the node named `name`, adding it (empty) when absent.
fn ensure_dra(acc: &mut Vec<DraNode>, name: &String) -> (r: usize)
    ensures
        views(final(acc)@) == dra_ensure(views(old(acc)@), name@),
        r == dra_index(views(final(acc)@), name@),
        r < final(acc)@.len(),
{
    proof {
        lemma_dra_ensure(views(acc@), name@);
    }
    match find_dra(acc, name.as_str()) {
        Some(i) => i,
        None => {
            let ghost before = views(acc@);
            let allocated: Vec<(String, String)> = Vec::new();
            let pods: Vec<PodEntry> = Vec::new();
            assert(pair_views(allocated@) =~= Seq::<(Seq<char>, Seq<char>)>::empty());
            assert(views(pods@) =~= Seq::<PodEntryView>::empty());
            acc.push(DraNode { name: name.clone(), capacity: 0, allocated, pods });
            assert(views(acc@) =~= dra_ensure(before, name@));
            acc.len() - 1
        },
    }
}

/// The listed nodes, each once, in order of first appearance; fails at the first node
/// without a name.
pub open spec fn dra_nodes_spec(nodes: Seq<NodeInfo>) -> Result<
    Seq<DraNodeView>,
    AggregateErrorView,
>
    decreases nodes.len(),
{
    if nodes.len() == 0 {
        Ok(Seq::empty())
    } else {
        match dra_nodes_spec(nodes.drop_last()) {
            Err(e) => Err(e),
            Ok(acc) => match nodes.last().name {
                None => Err(AggregateErrorView::NodeWithoutName),
                Some(name) => Ok(dra_ensure(acc, name@)),
            },
        }
    }
}

spec fn dra_result(r: Result<Vec<DraNode>, AggregateError>) -> Result<
    Seq<DraNodeView>,
    AggregateErrorView,
> {
    match r {
        Ok(v) => Ok(views(v@)),
        Err(e) => Err(e@),
    }
}

proof fn lemma_dra_nodes_err(nodes: Seq<NodeInfo>, k: int)
    requires
        0 <= k <= nodes.len(),
        dra_nodes_spec(nodes.take(k)) is Err,
    ensures
        dra_nodes_spec(nodes) == dra_nodes_spec(nodes.take(k)),
    decreases nodes.len() - k,
{
    if k < nodes.len() {
        assert(nodes.take(k + 1).drop_last() =~= nodes.take(k));
        lemma_dra_nodes_err(nodes, k + 1);
    } else {
        assert(nodes.take(k) =~= nodes);
    }
}

fn dra_collect_nodes(nodes: &[NodeInfo]) -> (r: Result<Vec<DraNode>, AggregateError>)
    ensures
        dra_result(r) == dra_nodes_spec(nodes@),
{
    let mut acc: Vec<DraNode> = Vec::new();
    let mut k: usize = 0;
    assert(nodes@.take(0) =~= Seq::<NodeInfo>::empty());
    assert(views(acc@) =~= Seq::<DraNodeView>::empty());
    while k < nodes.len()
        invariant
            k <= nodes@.len(),
            dra_nodes_spec(nodes@.take(k as int)) == Ok::<Seq<DraNodeView>, AggregateErrorView>(
                views(acc@),
            ),
        decreases nodes.len() - k,
    {
        assert(nodes@.take(k + 1).drop_last() =~= nodes@.take(k as int));
        assert(nodes@.take(k + 1).last() == nodes@[k as int]);
        match &nodes[k].name {
            None => {
                proof {
                    lemma_dra_nodes_err(nodes@, k as int + 1);
                }
                return Err(AggregateError::NodeWithoutName);
            },
            Some(name) => {
                ensure_dra(&mut acc, name);
            },
        }
        k += 1;
    }
    assert(nodes@.take(k as int) =~= nodes@);
    Ok(acc)
}

/// `acc` with the capacity of the pools added to the nodes they are on (nodes not yet
/// listed are added); fails when a node's capacity passes `i64`.
pub open spec fn dra_capacity(acc: Seq<DraNodeView>, pools: Seq<PoolView>) -> Result<
    Seq<DraNodeView>,
    AggregateErrorView,
>
    decreases pools.len(),
{
    if pools.len() == 0 {
        Ok(acc)
    } else {
        match dra_capacity(acc, pools.drop_last()) {
            Err(e) => Err(e),
            Ok(a) => {
                let p = pools.last();
                let b = dra_ensure(a, p.node_name);
                let i = dra_index(b, p.node_name);
                if !(i64::MIN <= b[i].capacity + p.capacity <= i64::MAX) {
                    Err(AggregateErrorView::DraCapacityOverflow)
                } else {
                    Ok(
                        b.update(
                            i,
                            DraNodeView {
                                name: b[i].name,
                                capacity: (b[i].capacity + p.capacity) as i64,
                                allocated: b[i].allocated,
                                pods: b[i].pods,
                            },
                        ),
                    )
                }
            },
        }
    }
}

proof fn lemma_dra_capacity_err(acc: Seq<DraNodeView>, pools: Seq<PoolView>, k: int)
    requires
        0 <= k <= pools.len(),
        dra_capacity(acc, pools.take(k)) is Err,
    ensures
        dra_capacity(acc, pools) == dra_capacity(acc, pools.take(k)),
    decreases pools.len() - k,
{
    if k < pools.len() {
        assert(pools.take(k + 1).drop_last() =~= pools.take(k));
        lemma_dra_capacity_err(acc, pools, k + 1);
    } else {
        assert(pools.take(k) =~= pools);
    }
}

fn dra_add_capacity(initial: Vec<DraNode>, pools: &Vec<PoolInfo>) -> (r: Result<
    Vec<DraNode>,
    AggregateError,
>)
    ensures
        dra_result(r) == dra_capacity(views(initial@), views(pools@)),
{
    let ghost start = views(initial@);
    let mut acc = initial;
    let mut k: usize = 0;
    assert(views(pools@).take(0) =~= Seq::<PoolView>::empty());
    while k < pools.len()
        invariant
            k <= pools@.len(),
            start == views(initial@),
            dra_capacity(start, views(pools@).take(k as int)) == Ok::<
                Seq<DraNodeView>,
                AggregateErrorView,
            >(views(acc@)),
        decreases pools.len() - k,
    {
        let ghost pv = views(pools@);
        assert(pv.take(k + 1).drop_last() =~= pv.take(k as int));
        assert(pv.take(k + 1).last() == pools@[k as int]@);
        let i = ensure_dra(&mut acc, &pools[k].node_name);
        let ghost b = views(acc@);
        match acc[i].capacity.checked_add(pools[k].capacity) {
            None => {
                proof {
                    lemma_dra_capacity_err(start, pv, k as int + 1);
                }
                return Err(AggregateError::DraCapacityOverflow);
            },
            Some(c) => {
                acc[i].capacity = c;
            },
        }
        assert(views(acc@) =~= b.update(
            i as int,
            DraNodeView {
                name: b[i as int].name,
                capacity: (b[i as int].capacity + pools@[k as int]@.capacity) as i64,
                allocated: b[i as int].allocated,
                pods: b[i as int].pods,
            },
        ));
        k += 1;
    }
    assert(views(pools@).take(k as int) =~= views(pools@));
    Ok(acc)
}

/// What one claim allocates on one node: how many devices, and their names in order.
pub struct ClaimNodeView {
    pub node: Seq<char>,
    pub count: i64,
    pub devices: Seq<Seq<char>>,
}

struct ClaimNode {
    node: String,
    count: i64,
    devices: Vec<String>,
}

impl View for ClaimNode {
    type V = ClaimNodeView;

    closed spec fn view(&self) -> ClaimNodeView {
        ClaimNodeView { node: self.node@, count: self.count, devices: views(self.devices@) }
    }
}

/// The position of the node `node` in `counts`, or -1.
pub open spec fn claim_node_index(counts: Seq<ClaimNodeView>, node: Seq<char>) -> int {
    first_index(counts, |c: ClaimNodeView| c.node == node)
}

/// The position of the pod (`namespace`, `name`) in `pods`, or -1.
pub open spec fn pod_index(pods: Seq<PodEntryView>, namespace: Seq<char>, name: Seq<char>) -> int {
    first_index(pods, |p: PodEntryView| p.namespace == namespace && p.name == name)
}

/// The state of the nodes and of one claim's per-node counts after one of its device
/// results: a result of `driver` without admin access, from a known pool, marks the
/// device allocated on the pool's node and counts it for that node.
pub open spec fn result_step(
    state: (Seq<DraNodeView>, Seq<ClaimNodeView>),
    r: DeviceResultInfo,
    pools: Seq<PoolView>,
    driver: Seq<char>,
) -> Result<(Seq<DraNodeView>, Seq<ClaimNodeView>), AggregateErrorView> {
    let acc = state.0;
    let counts = state.1;
    let pi = pool_index(pools, r.pool@);
    if r.admin_access == Some(true) || r.driver@ != driver || pi < 0 {
        Ok(state)
    } else {
        let node = pools[pi].node_name;
        let b = dra_ensure(acc, node);
        let i = dra_index(b, node);
        let pair = (r.pool@, r.device@);
        let b2 = if b[i].allocated.contains(pair) {
            b
        } else {
            b.update(
                i,
                DraNodeView {
                    name: b[i].name,
                    capacity: b[i].capacity,
                    allocated: b[i].allocated.push(pair),
                    pods: b[i].pods,
                },
            )
        };
        let ci = claim_node_index(counts, node);
        if ci < 0 {
            Ok(
                (
                    b2,
                    counts.push(ClaimNodeView { node, count: 1, devices: seq![r.device@] }),
                ),
            )
        } else if counts[ci].count + 1 > i64::MAX {
            Err(AggregateErrorView::DraPodCountOverflow)
        } else {
            Ok(
                (
                    b2,
                    counts.update(
                        ci,
                        ClaimNodeView {
                            node: counts[ci].node,
                            count: (counts[ci].count + 1) as i64,
                            devices: counts[ci].devices.push(r.device@),
                        },
                    ),
                ),
            )
        }
    }
}

/// The state after the results of `prefix`, in order.
pub open spec fn results_fold(
    acc: Seq<DraNodeView>,
    prefix: Seq<DeviceResultInfo>,
    pools: Seq<PoolView>,
    driver: Seq<char>,
) -> Result<(Seq<DraNodeView>, Seq<ClaimNodeView>), AggregateErrorView>
    decreases prefix.len(),
{
    if prefix.len() == 0 {
        Ok((acc, Seq::empty()))
    } else {
        match results_fold(acc, prefix.drop_last(), pools, driver) {
            Err(e) => Err(e),
            Ok(st) => result_step(st, prefix.last(), pools, driver),
        }
    }
}

fn has_pair(list: &Vec<(String, String)>, pool: &str, device: &str) -> (r: bool)
    ensures
        r == pair_views(list@).contains((pool@, device@)),
{
    let mut i: usize = 0;
    while i < list.len()
        invariant
            i <= list@.len(),
            forall|j: int| 0 <= j < i ==> #[trigger] pair_views(list@)[j] != (pool@, device@),
        decreases list.len() - i,
    {
        if str_eq(list[i].0.as_str(), pool) && str_eq(list[i].1.as_str(), device) {
            assert(pair_views(list@)[i as int] == (pool@, device@));
            return true;
        }
        i += 1;
    }
    false
}

fn find_claim_node(counts: &Vec<ClaimNode>, node: &str) -> (r: Option<usize>)
    ensures
        match r {
            Some(i) => i < counts@.len() && claim_node_index(views(counts@), node@) == i as int,
            None => claim_node_index(views(counts@), node@) == -1,
        },
{
    let mut i: usize = 0;
    while i < counts.len()
        invariant
            i <= counts@.len(),
            forall|j: int| 0 <= j < i ==> (#[trigger] views(counts@)[j]).node != node@,
        decreases counts.len() - i,
    {
        if str_eq(counts[i].node.as_str(), node) {
            proof {
                lemma_first_index(views(counts@), |c: ClaimNodeView| c.node == node@, i as int);
            }
            return Some(i);
        }
        i += 1;
    }
    proof {
        lemma_first_index(views(counts@), |c: ClaimNodeView| c.node == node@, i as int);
    }
    None
}

fn apply_result(
    acc: &mut Vec<DraNode>,
    counts: &mut Vec<ClaimNode>,
    r: &DeviceResultInfo,
    pools: &Vec<PoolInfo>,
    driver: &str,
) -> (res: Result<(), AggregateError>)
    ensures
        match res {
            Ok(_) => result_step((views(old(acc)@), views(old(counts)@)), *r, views(pools@), driver@)
                == Ok::<(Seq<DraNodeView>, Seq<ClaimNodeView>), AggregateErrorView>(
                (views(final(acc)@), views(final(counts)@)),
            ),
            Err(e) => result_step(
                (views(old(acc)@), views(old(counts)@)),
                *r,
                views(pools@),
                driver@,
            ) == Err::<(Seq<DraNodeView>, Seq<ClaimNodeView>), AggregateErrorView>(e@),
        },
{
    if r.admin_access == Some(true) || !str_eq(r.driver.as_str(), driver) {
        return Ok(());
    }
    let pi = match find_pool(pools, r.pool.as_str()) {
        None => return Ok(()),
        Some(pi) => pi,
    };
    let node = &pools[pi].node_name;
    let i = ensure_dra(acc, node);
    let ghost b = views(acc@);
    if !has_pair(&acc[i].allocated, r.pool.as_str(), r.device.as_str()) {
        let ghost old_alloc = pair_views(acc@[i as int].allocated@);
        acc[i].allocated.push((r.pool.clone(), r.device.clone()));
        assert(pair_views(acc@[i as int].allocated@) =~= old_alloc.push((r.pool@, r.device@)));
        assert(views(acc@) =~= b.update(
            i as int,
            DraNodeView {
                name: b[i as int].name,
                capacity: b[i as int].capacity,
                allocated: b[i as int].allocated.push((r.pool@, r.device@)),
                pods: b[i as int].pods,
            },
        ));
    }
    let ghost c0 = views(counts@);
    match find_claim_node(counts, node.as_str()) {
        None => {
            let mut devices: Vec<String> = Vec::new();
            devices.push(r.device.clone());
            assert(views(devices@) =~= seq![r.device@]);
            counts.push(ClaimNode { node: node.clone(), count: 1, devices });
            assert(views(counts@) =~= c0.push(
                ClaimNodeView { node: node@, count: 1, devices: seq![r.device@] },
            ));
        },
        Some(ci) => {
            if counts[ci].count == i64::MAX {
                return Err(AggregateError::DraPodCountOverflow);
            }
            counts[ci].count = counts[ci].count + 1;
            let ghost old_devices = views(counts@[ci as int].devices@);
            counts[ci].devices.push(r.device.clone());
            assert(views(counts@[ci as int].devices@) =~= old_devices.push(r.device@));
            assert(views(counts@) =~= c0.update(
                ci as int,
                ClaimNodeView {
                    node: c0[ci as int].node,
                    count: (c0[ci as int].count + 1) as i64,
                    devices: c0[ci as int].devices.push(r.device@),
                },
            ));
        },
    }
    Ok(())
}

proof fn lemma_results_fold_err(
    acc: Seq<DraNodeView>,
    rs: Seq<DeviceResultInfo>,
    pools: Seq<PoolView>,
    driver: Seq<char>,
    k: int,
)
    requires
        0 <= k <= rs.len(),
        results_fold(acc, rs.take(k), pools, driver) is Err,
    ensures
        results_fold(acc, rs, pools, driver) == results_fold(acc, rs.take(k), pools, driver),
    decreases rs.len() - k,
{
    if k < rs.len() {
        assert(rs.take(k + 1).drop_last() =~= rs.take(k));
        lemma_results_fold_err(acc, rs, pools, driver, k + 1);
    } else {
        assert(rs.take(k) =~= rs);
    }
}

fn apply_results(
    acc: &mut Vec<DraNode>,
    rs: &Vec<DeviceResultInfo>,
    pools: &Vec<PoolInfo>,
    driver: &str,
) -> (res: Result<Vec<ClaimNode>, AggregateError>)
    ensures
        match res {
            Ok(counts) => results_fold(views(old(acc)@), rs@, views(pools@), driver@) == Ok::<
                (Seq<DraNodeView>, Seq<ClaimNodeView>),
                AggregateErrorView,
            >((views(final(acc)@), views(counts@))),
            Err(e) => results_fold(views(old(acc)@), rs@, views(pools@), driver@) == Err::<
                (Seq<DraNodeView>, Seq<ClaimNodeView>),
                AggregateErrorView,
            >(e@),
        },
{
    let ghost start = views(acc@);
    let mut counts: Vec<ClaimNode> = Vec::new();
    let mut k: usize = 0;
    assert(rs@.take(0) =~= Seq::<DeviceResultInfo>::empty());
    assert(views(counts@) =~= Seq::<ClaimNodeView>::empty());
    while k < rs.len()
        invariant
            k <= rs@.len(),
            start == views(old(acc)@),
            results_fold(start, rs@.take(k as int), views(pools@), driver@) == Ok::<
                (Seq<DraNodeView>, Seq<ClaimNodeView>),
                AggregateErrorView,
            >((views(acc@), views(counts@))),
        decreases rs.len() - k,
    {
        assert(rs@.take(k + 1).drop_last() =~= rs@.take(k as int));
        assert(rs@.take(k + 1).last() == rs@[k as int]);
        match apply_result(acc, &mut counts, &rs[k], pools, driver) {
            Err(e) => {
                proof {
                    lemma_results_fold_err(start, rs@, views(pools@), driver@, k as int + 1);
                }
                return Err(e);
            },
            Ok(_) => {},
        }
        k += 1;
    }
    assert(rs@.take(k as int) =~= rs@);
    Ok(counts)
}

/// The nodes after one consumer of a claim's per-node count: a pod consumer gets the
/// count and the device names of that node, added to what it already holds there.
pub open spec fn consumer_step(
    acc: Seq<DraNodeView>,
    cn: ClaimNodeView,
    namespace: Seq<char>,
    c: ConsumerInfo,
) -> Result<Seq<DraNodeView>, AggregateErrorView> {
    let i = dra_index(acc, cn.node);
    if c.resource@ != "pods"@ || i < 0 {
        Ok(acc)
    } else {
        let pods = acc[i].pods;
        let j = pod_index(pods, namespace, c.name@);
        if j < 0 {
            Ok(
                acc.update(
                    i,
                    DraNodeView {
                        name: acc[i].name,
                        capacity: acc[i].capacity,
                        allocated: acc[i].allocated,
                        pods: pods.push(
                            PodEntryView {
                                namespace,
                                name: c.name@,
                                count: cn.count,
                                devices: cn.devices,
                            },
                        ),
                    },
                ),
            )
        } else if !(i64::MIN <= pods[j].count + cn.count <= i64::MAX) {
            Err(AggregateErrorView::DraPodCountOverflow)
        } else {
            Ok(
                acc.update(
                    i,
                    DraNodeView {
                        name: acc[i].name,
                        capacity: acc[i].capacity,
                        allocated: acc[i].allocated,
                        pods: pods.update(
                            j,
                            PodEntryView {
                                namespace: pods[j].namespace,
                                name: pods[j].name,
                                count: (pods[j].count + cn.count) as i64,
                                devices: pods[j].devices + cn.devices,
                            },
                        ),
                    },
                ),
            )
        }
    }
}

/// The nodes after the consumers of `prefix`, in order.
pub open spec fn consumers_fold(
    acc: Seq<DraNodeView>,
    cn: ClaimNodeView,
    namespace: Seq<char>,
    prefix: Seq<ConsumerInfo>,
) -> Result<Seq<DraNodeView>, AggregateErrorView>
    decreases prefix.len(),
{
    if prefix.len() == 0 {
        Ok(acc)
    } else {
        match consumers_fold(acc, cn, namespace, prefix.drop_last()) {
            Err(e) => Err(e),
            Ok(a) => consumer_step(a, cn, namespace, prefix.last()),
        }
    }
}

/// The nodes after every per-node count of `prefix` has gone to the consumers.
pub open spec fn counts_fold(
    acc: Seq<DraNodeView>,
    prefix: Seq<ClaimNodeView>,
    namespace: Seq<char>,
    consumers: Seq<ConsumerInfo>,
) -> Result<Seq<DraNodeView>, AggregateErrorView>
    decreases prefix.len(),
{
    if prefix.len() == 0 {
        Ok(acc)
    } else {
        match counts_fold(acc, prefix.drop_last(), namespace, consumers) {
            Err(e) => Err(e),
            Ok(a) => consumers_fold(a, prefix.last(), namespace, consumers),
        }
    }
}

fn find_pod(pods: &Vec<PodEntry>, namespace: &str, name: &str) -> (r: Option<usize>)
    ensures
        match r {
            Some(j) => j < pods@.len() && pod_index(views(pods@), namespace@, name@) == j as int,
            None => pod_index(views(pods@), namespace@, name@) == -1,
        },
{
    let mut j: usize = 0;
    while j < pods.len()
        invariant
            j <= pods@.len(),
            forall|k: int|
                0 <= k < j ==> !((#[trigger] views(pods@)[k]).namespace == namespace@
                    && views(pods@)[k].name == name@),
        decreases pods.len() - j,
    {
        if str_eq(pods[j].namespace.as_str(), namespace) && str_eq(pods[j].name.as_str(), name) {
            proof {
                lemma_first_index(
                    views(pods@),
                    |p: PodEntryView| p.namespace == namespace@ && p.name == name@,
                    j as int,
                );
            }
            return Some(j);
        }
        j += 1;
    }
    proof {
        lemma_first_index(
            views(pods@),
            |p: PodEntryView| p.namespace == namespace@ && p.name == name@,
            j as int,
        );
    }
    None
}

fn copy_strings(v: &Vec<String>) -> (r: Vec<String>)
    ensures
        views(r@) == views(v@),
{
    let mut out: Vec<String> = Vec::new();
    let mut k: usize = 0;
    while k < v.len()
        invariant
            k <= v@.len(),
            views(out@) =~= views(v@).take(k as int),
        decreases v.len() - k,
    {
        let ghost before = views(out@);
        out.push(v[k].clone());
        assert(views(out@) =~= before.push(v@[k as int]@));
        assert(views(v@).take(k + 1) =~= views(v@).take(k as int).push(v@[k as int]@));
        k += 1;
    }
    assert(views(v@).take(k as int) =~= views(v@));
    out
}

fn apply_consumer(
    acc: &mut Vec<DraNode>,
    cn: &ClaimNode,
    namespace: &String,
    c: &ConsumerInfo,
) -> (res: Result<(), AggregateError>)
    ensures
        match res {
            Ok(_) => consumer_step(views(old(acc)@), cn@, namespace@, *c) == Ok::<
                Seq<DraNodeView>,
                AggregateErrorView,
            >(views(final(acc)@)),
            Err(e) => consumer_step(views(old(acc)@), cn@, namespace@, *c) == Err::<
                Seq<DraNodeView>,
                AggregateErrorView,
            >(e@),
        },
{
    proof {
        reveal_strlit("pods");
    }
    if !str_eq(c.resource.as_str(), "pods") {
        return Ok(());
    }
    let i = match find_dra(acc, cn.node.as_str()) {
        None => return Ok(()),
        Some(i) => i,
    };
    let ghost a0 = views(acc@);
    let ghost p0 = a0[i as int].pods;
    match find_pod(&acc[i].pods, namespace.as_str(), c.name.as_str()) {
        None => {
            let devices = copy_strings(&cn.devices);
            let entry = PodEntry {
                namespace: namespace.clone(),
                name: c.name.clone(),
                count: cn.count,
                devices,
            };
            acc[i].pods.push(entry);
            assert(views(acc@[i as int].pods@) =~= p0.push(
                PodEntryView {
                    namespace: namespace@,
                    name: c.name@,
                    count: cn@.count,
                    devices: cn@.devices,
                },
            ));
            assert(views(acc@) =~= a0.update(
                i as int,
                DraNodeView {
                    name: a0[i as int].name,
                    capacity: a0[i as int].capacity,
                    allocated: a0[i as int].allocated,
                    pods: p0.push(
                        PodEntryView {
                            namespace: namespace@,
                            name: c.name@,
                            count: cn@.count,
                            devices: cn@.devices,
                        },
                    ),
                },
            ));
        },
        Some(j) => {
            let sum = match acc[i].pods[j].count.checked_add(cn.count) {
                None => return Err(AggregateError::DraPodCountOverflow),
                Some(s) => s,
            };
            acc[i].pods[j].count = sum;
            let ghost d0 = views(acc@[i as int].pods@[j as int].devices@);
            let mut k: usize = 0;
            while k < cn.devices.len()
                invariant
                    k <= cn.devices@.len(),
                    i < acc@.len(),
                    j < acc@[i as int].pods@.len(),
                    views(acc@[i as int].pods@[j as int].devices@) =~= d0 + views(
                        cn.devices@,
                    ).take(k as int),
                    acc@.len() == a0.len(),
                    forall|x: int| 0 <= x < acc@.len() && x != i ==> #[trigger] acc@[x]@ == a0[x],
                    acc@[i as int].name@ == a0[i as int].name,
                    acc@[i as int].capacity == a0[i as int].capacity,
                    pair_views(acc@[i as int].allocated@) == a0[i as int].allocated,
                    acc@[i as int].pods@.len() == p0.len(),
                    forall|y: int|
                        0 <= y < p0.len() && y != j ==> #[trigger] acc@[i as int].pods@[y]@
                            == p0[y],
                    acc@[i as int].pods@[j as int].namespace@ == p0[j as int].namespace,
                    acc@[i as int].pods@[j as int].name@ == p0[j as int].name,
                    acc@[i as int].pods@[j as int].count == sum,
                decreases cn.devices.len() - k,
            {
                let ghost before = views(acc@[i as int].pods@[j as int].devices@);
                acc[i].pods[j].devices.push(cn.devices[k].clone());
                assert(views(acc@[i as int].pods@[j as int].devices@) =~= before.push(
                    cn.devices@[k as int]@,
                ));
                assert(views(cn.devices@).take(k + 1) =~= views(cn.devices@).take(k as int).push(
                    cn.devices@[k as int]@,
                ));
                k += 1;
            }
            assert(views(cn.devices@).take(k as int) =~= views(cn.devices@));
            let ghost newp = p0.update(
                j as int,
                PodEntryView {
                    namespace: p0[j as int].namespace,
                    name: p0[j as int].name,
                    count: sum,
                    devices: p0[j as int].devices + cn@.devices,
                },
            );
            assert(views(acc@[i as int].pods@) =~= newp);
            assert(views(acc@) =~= a0.update(
                i as int,
                DraNodeView {
                    name: a0[i as int].name,
                    capacity: a0[i as int].capacity,
                    allocated: a0[i as int].allocated,
                    pods: newp,
                },
            ));
        },
    }
    Ok(())
}

proof fn lemma_consumers_fold_err(
    acc: Seq<DraNodeView>,
    cn: ClaimNodeView,
    ns: Seq<char>,
    cs: Seq<ConsumerInfo>,
    k: int,
)
    requires
        0 <= k <= cs.len(),
        consumers_fold(acc, cn, ns, cs.take(k)) is Err,
    ensures
        consumers_fold(acc, cn, ns, cs) == consumers_fold(acc, cn, ns, cs.take(k)),
    decreases cs.len() - k,
{
    if k < cs.len() {
        assert(cs.take(k + 1).drop_last() =~= cs.take(k));
        lemma_consumers_fold_err(acc, cn, ns, cs, k + 1);
    } else {
        assert(cs.take(k) =~= cs);
    }
}

fn apply_consumers(
    acc: &mut Vec<DraNode>,
    cn: &ClaimNode,
    namespace: &String,
    cs: &Vec<ConsumerInfo>,
) -> (res: Result<(), AggregateError>)
    ensures
        match res {
            Ok(_) => consumers_fold(views(old(acc)@), cn@, namespace@, cs@) == Ok::<
                Seq<DraNodeView>,
                AggregateErrorView,
            >(views(final(acc)@)),
            Err(e) => consumers_fold(views(old(acc)@), cn@, namespace@, cs@) == Err::<
                Seq<DraNodeView>,
                AggregateErrorView,
            >(e@),
        },
{
    let ghost start = views(acc@);
    let mut k: usize = 0;
    assert(cs@.take(0) =~= Seq::<ConsumerInfo>::empty());
    while k < cs.len()
        invariant
            k <= cs@.len(),
            start == views(old(acc)@),
            consumers_fold(start, cn@, namespace@, cs@.take(k as int)) == Ok::<
                Seq<DraNodeView>,
                AggregateErrorView,
            >(views(acc@)),
        decreases cs.len() - k,
    {
        assert(cs@.take(k + 1).drop_last() =~= cs@.take(k as int));
        assert(cs@.take(k + 1).last() == cs@[k as int]);
        match apply_consumer(acc, cn, namespace, &cs[k]) {
            Err(e) => {
                proof {
                    lemma_consumers_fold_err(start, cn@, namespace@, cs@, k as int + 1);
                }
                return Err(e);
            },
            Ok(_) => {},
        }
        k += 1;
    }
    assert(cs@.take(k as int) =~= cs@);
    Ok(())
}

proof fn lemma_counts_fold_err(
    acc: Seq<DraNodeView>,
    counts: Seq<ClaimNodeView>,
    ns: Seq<char>,
    cs: Seq<ConsumerInfo>,
    k: int,
)
    requires
        0 <= k <= counts.len(),
        counts_fold(acc, counts.take(k), ns, cs) is Err,
    ensures
        counts_fold(acc, counts, ns, cs) == counts_fold(acc, counts.take(k), ns, cs),
    decreases counts.len() - k,
{
    if k < counts.len() {
        assert(counts.take(k + 1).drop_last() =~= counts.take(k));
        lemma_counts_fold_err(acc, counts, ns, cs, k + 1);
    } else {
        assert(counts.take(k) =~= counts);
    }
}

fn apply_counts(
    acc: &mut Vec<DraNode>,
    counts: &Vec<ClaimNode>,
    namespace: &String,
    cs: &Vec<ConsumerInfo>,
) -> (res: Result<(), AggregateError>)
    ensures
        match res {
            Ok(_) => counts_fold(views(old(acc)@), views(counts@), namespace@, cs@) == Ok::<
                Seq<DraNodeView>,
                AggregateErrorView,
            >(views(final(acc)@)),
            Err(e) => counts_fold(views(old(acc)@), views(counts@), namespace@, cs@) == Err::<
                Seq<DraNodeView>,
                AggregateErrorView,
            >(e@),
        },
{
    let ghost start = views(acc@);
    let ghost cv = views(counts@);
    let mut k: usize = 0;
    assert(cv.take(0) =~= Seq::<ClaimNodeView>::empty());
    while k < counts.len()
        invariant
            k <= counts@.len(),
            cv == views(counts@),
            start == views(old(acc)@),
            counts_fold(start, cv.take(k as int), namespace@, cs@) == Ok::<
                Seq<DraNodeView>,
                AggregateErrorView,
            >(views(acc@)),
        decreases counts.len() - k,
    {
        assert(cv.take(k + 1).drop_last() =~= cv.take(k as int));
        assert(cv.take(k + 1).last() == counts@[k as int]@);
        match apply_consumers(acc, &counts[k], namespace, cs) {
            Err(e) => {
                proof {
                    lemma_counts_fold_err(start, cv, namespace@, cs@, k as int + 1);
                }
                return Err(e);
            },
            Ok(_) => {},
        }
        k += 1;
    }
    assert(cv.take(k as int) =~= cv);
    Ok(())
}

/// The nodes after one claim: its results are counted per node, then each per-node count
/// goes to the pods the claim is reserved for.
pub open spec fn claim_step(
    acc: Seq<DraNodeView>,
    claim: ClaimInfo,
    pools: Seq<PoolView>,
    driver: Seq<char>,
) -> Result<Seq<DraNodeView>, AggregateErrorView> {
    match results_fold(acc, claim.results@, pools, driver) {
        Err(e) => Err(e),
        Ok(st) => counts_fold(st.0, st.1, opt_text(claim.namespace), claim.reserved_for@),
    }
}

/// The nodes after the claims of `prefix`, in order.
pub open spec fn claims_fold(
    acc: Seq<DraNodeView>,
    prefix: Seq<ClaimInfo>,
    pools: Seq<PoolView>,
    driver: Seq<char>,
) -> Result<Seq<DraNodeView>, AggregateErrorView>
    decreases prefix.len(),
{
    if prefix.len() == 0 {
        Ok(acc)
    } else {
        match claims_fold(acc, prefix.drop_last(), pools, driver) {
            Err(e) => Err(e),
            Ok(a) => claim_step(a, prefix.last(), pools, driver),
        }
    }
}

proof fn lemma_claims_fold_err(
    acc: Seq<DraNodeView>,
    claims: Seq<ClaimInfo>,
    pools: Seq<PoolView>,
    driver: Seq<char>,
    k: int,
)
    requires
        0 <= k <= claims.len(),
        claims_fold(acc, claims.take(k), pools, driver) is Err,
    ensures
        claims_fold(acc, claims, pools, driver) == claims_fold(acc, claims.take(k), pools, driver),
    decreases claims.len() - k,
{
    if k < claims.len() {
        assert(claims.take(k + 1).drop_last() =~= claims.take(k));
        lemma_claims_fold_err(acc, claims, pools, driver, k + 1);
    } else {
        assert(claims.take(k) =~= claims);
    }
}

fn apply_claims(
    initial: Vec<DraNode>,
    claims: &[ClaimInfo],
    pools: &Vec<PoolInfo>,
    driver: &str,
) -> (r: Result<Vec<DraNode>, AggregateError>)
    ensures
        dra_result(r) == claims_fold(views(initial@), claims@, views(pools@), driver@),
{
    let ghost start = views(initial@);
    let mut acc = initial;
    let mut k: usize = 0;
    assert(claims@.take(0) =~= Seq::<ClaimInfo>::empty());
    while k < claims.len()
        invariant
            k <= claims@.len(),
            start == views(initial@),
            claims_fold(start, claims@.take(k as int), views(pools@), driver@) == Ok::<
                Seq<DraNodeView>,
                AggregateErrorView,
            >(views(acc@)),
        decreases claims.len() - k,
    {
        assert(claims@.take(k + 1).drop_last() =~= claims@.take(k as int));
        assert(claims@.take(k + 1).last() == claims@[k as int]);
        let claim = &claims[k];
        let counts = match apply_results(&mut acc, &claim.results, pools, driver) {
            Err(e) => {
                proof {
                    lemma_claims_fold_err(start, claims@, views(pools@), driver@, k as int + 1);
                }
                return Err(e);
            },
            Ok(c) => c,
        };
        let namespace = crate::aggregate::opt_string(&claim.namespace);
        match apply_counts(&mut acc, &counts, &namespace, &claim.reserved_for) {
            Err(e) => {
                proof {
                    lemma_claims_fold_err(start, claims@, views(pools@), driver@, k as int + 1);
                }
                return Err(e);
            },
            Ok(_) => {},
        }
        k += 1;
    }
    assert(claims@.take(k as int) =~= claims@);
    Ok(acc)
}

/// The row of a node: its distinct allocated devices counted, its pods sorted by namespace
/// and name; the source is shown when the node has capacity or allocation.
pub open spec fn dra_row(n: DraNodeView) -> Option<NodeRowView> {
    if n.allocated.len() > i64::MAX {
        None
    } else {
        let allocated = n.allocated.len() as i64;
        Some(
            NodeRowView {
                node_name: n.name,
                source: if n.capacity > 0 || allocated > 0 {
                    Some(RowSource::Dra)
                } else {
                    None
                },
                capacity: n.capacity,
                allocated,
                pods: sort_seq::<PodEntry>(n.pods),
            },
        )
    }
}

/// The rows of the nodes that are shown: all with `include_empty`, else those with capacity.
pub open spec fn dra_rows(acc: Seq<DraNodeView>, include_empty: bool) -> Result<
    Seq<NodeRowView>,
    AggregateErrorView,
>
    decreases acc.len(),
{
    if acc.len() == 0 {
        Ok(Seq::empty())
    } else {
        match dra_rows(acc.drop_last(), include_empty) {
            Err(e) => Err(e),
            Ok(rows) => if !(include_empty || acc.last().capacity > 0) {
                Ok(rows)
            } else {
                match dra_row(acc.last()) {
                    None => Err(AggregateErrorView::DraAllocatedOverflow),
                    Some(r) => Ok(rows.push(r)),
                }
            },
        }
    }
}

/// What `aggregate_dra` gives: one row per listed node and per node that a pool or an
/// allocation of `driver` is on, sorted by node name.
pub open spec fn aggregate_dra_spec(
    nodes: Seq<NodeInfo>,
    slices: Seq<SliceInfo>,
    claims: Seq<ClaimInfo>,
    driver: Seq<char>,
    include_empty: bool,
) -> Result<Seq<NodeRowView>, AggregateErrorView> {
    match dra_nodes_spec(nodes) {
        Err(e) => Err(e),
        Ok(acc0) => match pool_infos_spec(slices, driver) {
            Err(e) => Err(e),
            Ok(pools) => match dra_capacity(acc0, pools) {
                Err(e) => Err(e),
                Ok(acc1) => match claims_fold(acc1, claims, pools, driver) {
                    Err(e) => Err(e),
                    Ok(acc2) => match dra_rows(acc2, include_empty) {
                        Err(e) => Err(e),
                        Ok(rows) => Ok(sort_seq::<NodeRow>(rows)),
                    },
                },
            },
        },
    }
}

proof fn lemma_dra_rows_err(acc: Seq<DraNodeView>, include_empty: bool, k: int)
    requires
        0 <= k <= acc.len(),
        dra_rows(acc.take(k), include_empty) is Err,
    ensures
        dra_rows(acc, include_empty) == dra_rows(acc.take(k), include_empty),
    decreases acc.len() - k,
{
    if k < acc.len() {
        assert(acc.take(k + 1).drop_last() =~= acc.take(k));
        lemma_dra_rows_err(acc, include_empty, k + 1);
    } else {
        assert(acc.take(k) =~= acc);
    }
}

fn dra_build_rows(acc: Vec<DraNode>, include_empty: bool) -> (r: Result<
    Vec<NodeRow>,
    AggregateError,
>)
    ensures
        rows_result(r) == dra_rows(views(acc@), include_empty),
{
    let ghost all = views(acc@);
    let mut rest = acc;
    let mut rows: Vec<NodeRow> = Vec::new();
    let mut k: usize = 0;
    assert(all.take(0) =~= Seq::<DraNodeView>::empty());
    assert(views(rows@) =~= Seq::<NodeRowView>::empty());
    assert(views(rest@) =~= all.skip(0));
    assert(rest@.len() == rest.len());
    while rest.len() > 0
        invariant
            k <= all.len() <= usize::MAX,
            all == views(acc@),
            views(rest@) == all.skip(k as int),
            rest@.len() == all.len() - k,
            dra_rows(all.take(k as int), include_empty) == Ok::<
                Seq<NodeRowView>,
                AggregateErrorView,
            >(views(rows@)),
        decreases rest.len(),
    {
        let ghost rest_before = rest@;
        let node = rest.remove(0);
        proof {
            assert(node@ == views(rest_before)[0]);
            assert(all.take(k + 1).drop_last() =~= all.take(k as int));
            assert(all.take(k + 1).last() == node@);
            assert forall|j: int| 0 <= j < rest@.len() implies #[trigger] views(rest@)[j]
                == all.skip(k + 1)[j] by {
                assert(rest@[j] == rest_before[j + 1]);
                assert(views(rest_before)[j + 1] == all.skip(k as int)[j + 1]);
            }
            assert(views(rest@) =~= all.skip(k + 1));
        }
        if include_empty || node.capacity > 0 {
            let n = node.allocated.len();
            assert(pair_views(node.allocated@).len() == n);
            if n as u64 > i64::MAX as u64 {
                proof {
                    lemma_dra_rows_err(all, include_empty, k as int + 1);
                }
                return Err(AggregateError::DraAllocatedOverflow);
            }
            let allocated = n as i64;
            let source = if node.capacity > 0 || allocated > 0 {
                Some(RowSource::Dra)
            } else {
                None
            };
            let pods = sort_by_key(node.pods);
            let row = NodeRow {
                node_name: node.name,
                source,
                capacity: node.capacity,
                allocated,
                pods,
            };
            assert(dra_row(node@) == Some(row@));
            let ghost rows_before = views(rows@);
            rows.push(row);
            assert(views(rows@) =~= rows_before.push(row@));
        }
        k += 1;
    }
    assert(all.take(k as int) =~= all);
    Ok(rows)
}

/// Builds the DRA table for `driver`: one row per listed node and per node that a pool
/// or an allocation is on. A node's capacity is the number of devices in the newest
/// generation of the pools on it; its allocation is the number of distinct devices that
/// claims hold on it (admin-access results and other drivers left out); each pod a claim
/// is reserved for gets the claim's devices on that node. Without `include_empty`, nodes
/// without capacity are left out. Rows are sorted by node name, pods by namespace and
/// name.
pub fn aggregate_dra(
    nodes: &[NodeInfo],
    slices: &[SliceInfo],
    claims: &[ClaimInfo],
    driver: &str,
    include_empty: bool,
) -> (r: Result<Vec<NodeRow>, AggregateError>)
    ensures
        rows_result(r) == aggregate_dra_spec(nodes@, slices@, claims@, driver@, include_empty),
{
    let acc = match dra_collect_nodes(nodes) {
        Err(e) => return Err(e),
        Ok(a) => a,
    };
    let pools = match collect_pool_infos(slices, driver) {
        Err(e) => return Err(e),
        Ok(p) => p,
    };
    let acc = match dra_add_capacity(acc, &pools) {
        Err(e) => return Err(e),
        Ok(a) => a,
    };
    let acc = match apply_claims(acc, claims, &pools, driver) {
        Err(e) => return Err(e),
        Ok(a) => a,
    };
    let rows = match dra_build_rows(acc, include_empty) {
        Err(e) => return Err(e),
        Ok(r) => r,
    };
    Ok(sort_by_key(rows))
}

/// Whether some slice belongs to `driver`.
pub open spec fn has_driver_spec(slices: Seq<SliceInfo>, driver: Seq<char>) -> bool {
    exists|i: int| 0 <= i < slices.len() && (#[trigger] slices[i]).driver@ == driver
}

/// Whether some slice belongs to `driver`.
pub fn has_driver_slices(slices: &[SliceInfo], driver: &str) -> (r: bool)
    ensures
        r == has_driver_spec(slices@, driver@),
{
    let mut k: usize = 0;
    while k < slices.len()
        invariant
            k <= slices@.len(),
            forall|j: int| 0 <= j < k ==> (#[trigger] slices@[j]).driver@ != driver@,
        decreases slices.len() - k,
    {
        if str_eq(slices[k].driver.as_str(), driver) {
            assert(slices@[k as int].driver@ == driver@);
            return true;
        }
        k += 1;
    }
    false
}

/// Whether `name` is the node of some pool (the all-nodes and multi-node labels are no
/// node).
pub open spec fn is_pool_node(pools: Seq<PoolView>, name: Seq<char>) -> bool {
    &&& name != ALL_NODES_LABEL@
    &&& name != MULTI_NODE_LABEL@
    &&& exists|i: int| 0 <= i < pools.len() && (#[trigger] pools[i]).node_name == name
}

fn pool_node(pools: &Vec<PoolInfo>, name: &str) -> (r: bool)
    ensures
        r == is_pool_node(views(pools@), name@),
{
    if str_eq(name, ALL_NODES_LABEL) || str_eq(name, MULTI_NODE_LABEL) {
        return false;
    }
    let mut k: usize = 0;
    while k < pools.len()
        invariant
            k <= pools@.len(),
            name@ != ALL_NODES_LABEL@,
            name@ != MULTI_NODE_LABEL@,
            forall|j: int| 0 <= j < k ==> (#[trigger] views(pools@)[j]).node_name != name@,
        decreases pools.len() - k,
    {
        if str_eq(pools[k].node_name.as_str(), name) {
            assert(views(pools@)[k as int].node_name == name@);
            return true;
        }
        k += 1;
    }
    false
}

/// The named nodes split, in order, into those that a pool is on and the others.
pub open spec fn split_nodes(nodes: Seq<NodeInfoView>, pools: Seq<PoolView>) -> (
    Seq<NodeInfoView>,
    Seq<NodeInfoView>,
)
    decreases nodes.len(),
{
    if nodes.len() == 0 {
        (Seq::empty(), Seq::empty())
    } else {
        let (dra, dp) = split_nodes(nodes.drop_last(), pools);
        let n = nodes.last();
        if n.name matches Some(name) && is_pool_node(pools, name) {
            (dra.push(n), dp)
        } else {
            (dra, dp.push(n))
        }
    }
}

/// What `partition_nodes` gives.
pub open spec fn partition_spec(
    nodes: Seq<NodeInfo>,
    slices: Seq<SliceInfo>,
    driver: Seq<char>,
) -> Result<(Seq<NodeInfoView>, Seq<NodeInfoView>), AggregateErrorView> {
    match pool_infos_spec(slices, driver) {
        Err(e) => Err(e),
        Ok(pools) => if exists|i: int| 0 <= i < nodes.len() && (#[trigger] nodes[i]).name is None {
            Err(AggregateErrorView::NodeWithoutName)
        } else {
            Ok(split_nodes(views(nodes), pools))
        },
    }
}

/// Splits the nodes into those that a pool of `driver` is on (shown from DRA data) and
/// the others (shown from device-plugin data), each list in the given order.
pub fn partition_nodes(nodes: &[NodeInfo], slices: &[SliceInfo], driver: &str) -> (r: Result<
    (Vec<NodeInfo>, Vec<NodeInfo>),
    AggregateError,
>)
    ensures
        match r {
            Ok((dra, dp)) => partition_spec(nodes@, slices@, driver@) == Ok::<
                (Seq<NodeInfoView>, Seq<NodeInfoView>),
                AggregateErrorView,
            >((views(dra@), views(dp@))),
            Err(e) => partition_spec(nodes@, slices@, driver@) == Err::<
                (Seq<NodeInfoView>, Seq<NodeInfoView>),
                AggregateErrorView,
            >(e@),
        },
{
    let pools = match collect_pool_infos(slices, driver) {
        Err(e) => return Err(e),
        Ok(p) => p,
    };
    let mut dra_nodes: Vec<NodeInfo> = Vec::new();
    let mut dp_nodes: Vec<NodeInfo> = Vec::new();
    let mut k: usize = 0;
    assert(views(nodes@).take(0) =~= Seq::<NodeInfoView>::empty());
    assert(views(dra_nodes@) =~= Seq::<NodeInfoView>::empty());
    assert(views(dp_nodes@) =~= Seq::<NodeInfoView>::empty());
    while k < nodes.len()
        invariant
            k <= nodes@.len(),
            forall|j: int| 0 <= j < k ==> (#[trigger] nodes@[j]).name is Some,
            pool_infos_spec(slices@, driver@) == Ok::<Seq<PoolView>, AggregateErrorView>(
                views(pools@),
            ),
            split_nodes(views(nodes@).take(k as int), views(pools@)) == (
                views(dra_nodes@),
                views(dp_nodes@),
            ),
        decreases nodes.len() - k,
    {
        let ghost vn = views(nodes@);
        assert(vn.take(k + 1).drop_last() =~= vn.take(k as int));
        assert(vn.take(k + 1).last() == nodes@[k as int]@);
        let node = &nodes[k];
        let name = match &node.name {
            None => {
                assert(nodes@[k as int].name is None);
                return Err(AggregateError::NodeWithoutName);
            },
            Some(n) => n,
        };
        let copy = node.duplicate();
        if pool_node(&pools, name.as_str()) {
            let ghost before = views(dra_nodes@);
            dra_nodes.push(copy);
            assert(views(dra_nodes@) =~= before.push(node@));
        } else {
            let ghost before = views(dp_nodes@);
            dp_nodes.push(copy);
            assert(views(dp_nodes@) =~= before.push(node@));
        }
        k += 1;
    }
    assert(views(nodes@).take(k as int) =~= views(nodes@));
    Ok((dra_nodes, dp_nodes))
}

/// The names of the nodes, in order, that also list `furiosa.ai/rngd` capacity.
pub open spec fn conflicts_spec(nodes: Seq<NodeInfo>) -> Seq<Seq<char>>
    decreases nodes.len(),
{
    if nodes.len() == 0 {
        Seq::empty()
    } else {
        let prev = conflicts_spec(nodes.drop_last());
        let n = nodes.last();
        if crate::cluster::lookup(n.capacity@, crate::RNGD_RESOURCE@) is Some && n.name is Some {
            prev.push(n.name->0@)
        } else {
            prev
        }
    }
}

/// The names of the nodes, in order, that also list `furiosa.ai/rngd` capacity: nodes
/// served by DRA that a device plugin reports too.
pub fn device_plugin_conflicts(dra_nodes: &[NodeInfo]) -> (r: Vec<String>)
    ensures
        views(r@) == conflicts_spec(dra_nodes@),
{
    let mut out: Vec<String> = Vec::new();
    let mut k: usize = 0;
    assert(dra_nodes@.take(0) =~= Seq::<NodeInfo>::empty());
    assert(views(out@) =~= Seq::<Seq<char>>::empty());
    while k < dra_nodes.len()
        invariant
            k <= dra_nodes@.len(),
            views(out@) == conflicts_spec(dra_nodes@.take(k as int)),
        decreases dra_nodes.len() - k,
    {
        assert(dra_nodes@.take(k + 1).drop_last() =~= dra_nodes@.take(k as int));
        assert(dra_nodes@.take(k + 1).last() == dra_nodes@[k as int]);
        let node = &dra_nodes[k];
        if crate::cluster::find_value(&node.capacity, crate::RNGD_RESOURCE).is_some() {
            if let Some(name) = &node.name {
                let ghost before = views(out@);
                out.push(name.clone());
                assert(views(out@) =~= before.push(name@));
            }
        }
        k += 1;
    }
    assert(dra_nodes@.take(k as int) =~= dra_nodes@);
    out
}

} // verus!
