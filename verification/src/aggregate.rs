//! Device-plugin aggregation: each node's `furiosa.ai/rngd` capacity and the pods that
//! hold its devices, from node capacities and container limits.
use vstd::prelude::*;

use crate::cluster::{lookup, find_value, ContainerInfo, NodeInfo, PodInfo};
use crate::error::{AggregateError, AggregateErrorView};
use crate::search::{first_index, lemma_first_index};
use crate::sorting::{sort_by_key, sort_seq, views, SortKey};
use crate::text::{parse_i64, parse_i64_spec, seq_lt, str_eq, trim, trimmed};
use crate::RNGD_RESOURCE;

verus! {

/// Where a row's numbers come from.
#[derive(Clone, Copy, Debug, PartialEq, Eq, Structural)]
pub enum RowSource {
    DevicePlugin,
    Dra,
}

impl RowSource {
    /// The name shown for this source.
    pub open spec fn spec_label(self) -> Seq<char> {
        match self {
            RowSource::DevicePlugin => "device-plugin"@,
            RowSource::Dra => "dra"@,
        }
    }

    /// The name shown for this source.
    pub fn label(&self) -> (r: &'static str)
        ensures
            r@ == self.spec_label(),
    {
        match self {
            RowSource::DevicePlugin => "device-plugin",
            RowSource::Dra => "dra",
        }
    }
}

/// A pod that holds devices of a node: how many, and which (by name, where known).
#[derive(Clone, Debug, PartialEq, Eq)]
pub struct PodEntry {
    pub namespace: String,
    pub name: String,
    pub count: i64,
    pub devices: Vec<String>,
}

/// A `PodEntry` with its text as character sequences.
pub struct PodEntryView {
    pub namespace: Seq<char>,
    pub name: Seq<char>,
    pub count: i64,
    pub devices: Seq<Seq<char>>,
}

impl View for PodEntry {
    type V = PodEntryView;

    open spec fn view(&self) -> PodEntryView {
        PodEntryView {
            namespace: self.namespace@,
            name: self.name@,
            count: self.count,
            devices: views(self.devices@),
        }
    }
}

/// One node of the table: its capacity, how much of it is allocated, and to which pods.
#[derive(Clone, Debug, PartialEq, Eq)]
pub struct NodeRow {
    pub node_name: String,
    pub source: Option<RowSource>,
    pub capacity: i64,
    pub allocated: i64,
    pub pods: Vec<PodEntry>,
}

/// A `NodeRow` with its text as character sequences.
pub struct NodeRowView {
    pub node_name: Seq<char>,
    pub source: Option<RowSource>,
    pub capacity: i64,
    pub allocated: i64,
    pub pods: Seq<PodEntryView>,
}

impl View for NodeRow {
    type V = NodeRowView;

    open spec fn view(&self) -> NodeRowView {
        NodeRowView {
            node_name: self.node_name@,
            source: self.source,
            capacity: self.capacity,
            allocated: self.allocated,
            pods: views(self.pods@),
        }
    }
}

/// Pods are ordered by namespace, then name.
impl SortKey for PodEntry {
    open spec fn key_le(a: PodEntryView, b: PodEntryView) -> bool {
        !(seq_lt(b.namespace, a.namespace) || (b.namespace == a.namespace && seq_lt(
            b.name,
            a.name,
        )))
    }

    proof fn lemma_key_le_total(a: PodEntryView, b: PodEntryView) {
        crate::text::lemma_seq_lt_total(a.namespace, b.namespace);
        crate::text::lemma_seq_lt_total(a.name, b.name);
    }

    proof fn lemma_key_le_trans(a: PodEntryView, b: PodEntryView, c: PodEntryView) {
        crate::text::lemma_seq_lt_total(a.namespace, b.namespace);
        crate::text::lemma_seq_lt_total(b.namespace, c.namespace);
        crate::text::lemma_seq_lt_total(a.namespace, c.namespace);
        crate::text::lemma_seq_lt_total(a.name, b.name);
        crate::text::lemma_seq_lt_total(b.name, c.name);
        crate::text::lemma_seq_lt_total(a.name, c.name);
        if seq_lt(c.namespace, a.namespace) {
            if seq_lt(b.namespace, a.namespace) {
            } else if a.namespace == b.namespace {
            } else {
                crate::text::lemma_seq_lt_transitive(c.namespace, a.namespace, b.namespace);
            }
        }
        if c.namespace == a.namespace && seq_lt(c.name, a.name) {
            if seq_lt(a.name, b.name) {
                crate::text::lemma_seq_lt_transitive(c.name, a.name, b.name);
            }
        }
    }

    fn key_le_exec(&self, other: &PodEntry) -> (r: bool) {
        let ns_lt = crate::text::str_lt(other.namespace.as_str(), self.namespace.as_str());
        let ns_eq = str_eq(other.namespace.as_str(), self.namespace.as_str());
        let name_lt = crate::text::str_lt(other.name.as_str(), self.name.as_str());
        !(ns_lt || (ns_eq && name_lt))
    }
}

/// Rows are ordered by node name.
impl SortKey for NodeRow {
    open spec fn key_le(a: NodeRowView, b: NodeRowView) -> bool {
        !seq_lt(b.node_name, a.node_name)
    }

    proof fn lemma_key_le_total(a: NodeRowView, b: NodeRowView) {
        crate::text::lemma_seq_lt_total(a.node_name, b.node_name);
    }

    proof fn lemma_key_le_trans(a: NodeRowView, b: NodeRowView, c: NodeRowView) {
        crate::text::lemma_seq_lt_total(a.node_name, b.node_name);
        crate::text::lemma_seq_lt_total(b.node_name, c.node_name);
        if seq_lt(c.node_name, a.node_name) && seq_lt(a.node_name, b.node_name) {
            crate::text::lemma_seq_lt_transitive(c.node_name, a.node_name, b.node_name);
        }
    }

    fn key_le_exec(&self, other: &NodeRow) -> (r: bool) {
        !crate::text::str_lt(other.node_name.as_str(), self.node_name.as_str())
    }
}

/// A quantity's value: the integer its trimmed text spells, or why it spells none.
pub open spec fn quantity_spec(raw: Seq<char>) -> Result<i64, AggregateErrorView> {
    match parse_i64_spec(trimmed(raw)) {
        Ok(v) => Ok(v),
        Err(kind) => Err(AggregateErrorView::InvalidQuantity { raw, kind }),
    }
}

/// Reads a `furiosa.ai/rngd` quantity as a whole number (surrounding white space allowed).
pub fn parse_int_quantity(raw: &str) -> (r: Result<i64, AggregateError>)
    ensures
        match r {
            Ok(v) => quantity_spec(raw@) == Ok::<i64, AggregateErrorView>(v),
            Err(e) => quantity_spec(raw@) == Err::<i64, AggregateErrorView>(e@),
        },
{
    match parse_i64(trim(raw)) {
        Ok(v) => Ok(v),
        Err(kind) => Err(AggregateError::InvalidQuantity { raw: String::from_str(raw), kind }),
    }
}

/// The `furiosa.ai/rngd` quantity that `entries` list, read as a whole number; 0 when absent.
pub open spec fn rngd_in(entries: Seq<(String, String)>) -> Result<i64, AggregateErrorView> {
    match lookup(entries, RNGD_RESOURCE@) {
        None => Ok(0),
        Some(q) => quantity_spec(q),
    }
}

fn rngd_of(entries: &Vec<(String, String)>) -> (r: Result<i64, AggregateError>)
    ensures
        match r {
            Ok(v) => rngd_in(entries@) == Ok::<i64, AggregateErrorView>(v),
            Err(e) => rngd_in(entries@) == Err::<i64, AggregateErrorView>(e@),
        },
{
    match find_value(entries, RNGD_RESOURCE) {
        None => Ok(0),
        Some(q) => parse_int_quantity(q.as_str()),
    }
}

/// The `furiosa.ai/rngd` limits of `cs`, summed in order; fails at the first unreadable
/// quantity or at the first partial sum outside `i64`.
pub open spec fn containers_rngd(cs: Seq<ContainerInfo>) -> Result<i64, AggregateErrorView>
    decreases cs.len(),
{
    if cs.len() == 0 {
        Ok(0)
    } else {
        match containers_rngd(cs.drop_last()) {
            Err(e) => Err(e),
            Ok(prev) => match rngd_in(cs.last().limits@) {
                Err(e) => Err(e),
                Ok(v) => if i64::MIN <= prev + v <= i64::MAX {
                    Ok((prev + v) as i64)
                } else {
                    Err(AggregateErrorView::PodSumOverflow)
                },
            },
        }
    }
}

/// The `furiosa.ai/rngd` devices that a pod asks for: the sum of its containers' limits.
pub open spec fn pod_rngd(pod: PodInfo) -> Result<i64, AggregateErrorView> {
    match pod.spec {
        None => Ok(0),
        Some(spec) => containers_rngd(spec.containers@),
    }
}

/// Sums the `furiosa.ai/rngd` limits of a pod's containers.
pub fn sum_pod_rngd(pod: &PodInfo) -> (r: Result<i64, AggregateError>)
    ensures
        match r {
            Ok(v) => pod_rngd(*pod) == Ok::<i64, AggregateErrorView>(v),
            Err(e) => pod_rngd(*pod) == Err::<i64, AggregateErrorView>(e@),
        },
{
    let spec = match &pod.spec {
        None => return Ok(0),
        Some(spec) => spec,
    };
    let cs = &spec.containers;
    let mut sum: i64 = 0;
    let mut i: usize = 0;
    assert(cs@.take(0) =~= Seq::<ContainerInfo>::empty());
    while i < cs.len()
        invariant
            i <= cs@.len(),
            containers_rngd(cs@.take(i as int)) == Ok::<i64, AggregateErrorView>(sum),
            pod.spec == Some(*spec),
            cs@ == spec.containers@,
        decreases cs.len() - i,
    {
        assert(cs@.take(i + 1).drop_last() =~= cs@.take(i as int));
        let v = match rngd_of(&cs[i].limits) {
            Ok(v) => v,
            Err(e) => {
                assert(containers_rngd(cs@.take(i + 1)) == Err::<i64, AggregateErrorView>(e@));
                proof {
                    lemma_containers_rngd_err(cs@, i as int + 1);
                }
                return Err(e);
            },
        };
        match sum.checked_add(v) {
            Some(s) => {
                sum = s;
            },
            None => {
                assert(containers_rngd(cs@.take(i + 1)) == Err::<i64, AggregateErrorView>(
                    AggregateErrorView::PodSumOverflow,
                ));
                proof {
                    lemma_containers_rngd_err(cs@, i as int + 1);
                }
                return Err(AggregateError::PodSumOverflow);
            },
        }
        i += 1;
    }
    assert(cs@.take(i as int) =~= cs@);
    Ok(sum)
}

proof fn lemma_containers_rngd_err(cs: Seq<ContainerInfo>, k: int)
    requires
        0 <= k <= cs.len(),
        containers_rngd(cs.take(k)) is Err,
    ensures
        containers_rngd(cs) == containers_rngd(cs.take(k)),
    decreases cs.len() - k,
{
    if k < cs.len() {
        assert(cs.take(k + 1).drop_last() =~= cs.take(k));
        lemma_containers_rngd_err(cs, k + 1);
    } else {
        assert(cs.take(k) =~= cs);
    }
}

/// A node's state while the device-plugin aggregation runs: its name, its capacity, and
/// the pods found on it so far.
pub struct DpNodeView {
    pub name: Seq<char>,
    pub capacity: i64,
    pub pods: Seq<PodEntryView>,
}

struct DpNode {
    name: String,
    capacity: i64,
    pods: Vec<PodEntry>,
}

impl View for DpNode {
    type V = DpNodeView;

    closed spec fn view(&self) -> DpNodeView {
        DpNodeView { name: self.name@, capacity: self.capacity, pods: views(self.pods@) }
    }
}

/// The text of an optional string, empty when absent.
pub open spec fn opt_text(o: Option<String>) -> Seq<char> {
    match o {
        Some(s) => s@,
        None => Seq::empty(),
    }
}

/// A copy of an optional string's text, empty when absent.
pub(crate) fn opt_string(o: &Option<String>) -> (r: String)
    ensures
        r@ == opt_text(*o),
{
    match o {
        Some(s) => s.clone(),
        None => String::new(),
    }
}

/// The position of the node named `name` in `acc`, or -1.
pub open spec fn dp_index(acc: Seq<DpNodeView>, name: Seq<char>) -> int {
    first_index(acc, |n: DpNodeView| n.name == name)
}

fn find_dp(acc: &Vec<DpNode>, name: &str) -> (r: Option<usize>)
    ensures
        match r {
            Some(i) => i < acc@.len() && dp_index(views(acc@), name@) == i as int
                && acc@[i as int].name@ == name@,
            None => dp_index(views(acc@), name@) == -1,
        },
{
    let mut i: usize = 0;
    while i < acc.len()
        invariant
            i <= acc@.len(),
            forall|j: int| 0 <= j < i ==> (#[trigger] views(acc@)[j]).name != name@,
        decreases acc.len() - i,
    {
        if str_eq(acc[i].name.as_str(), name) {
            proof {
                lemma_first_index(views(acc@), |n: DpNodeView| n.name == name@, i as int);
            }
            return Some(i);
        }
        i += 1;
    }
    proof {
        lemma_first_index(views(acc@), |n: DpNodeView| n.name == name@, i as int);
    }
    None
}

/// `acc` with the node `name` at capacity `cap`: updated in place when present, else
/// appended with no pods (a later node of the same name overrides an earlier one).
pub open spec fn dp_put_node(acc: Seq<DpNodeView>, name: Seq<char>, cap: i64) -> Seq<DpNodeView> {
    let i = dp_index(acc, name);
    if i < 0 {
        acc.push(DpNodeView { name, capacity: cap, pods: Seq::empty() })
    } else {
        acc.update(i, DpNodeView { name, capacity: cap, pods: acc[i].pods })
    }
}

/// The nodes in order of first appearance with their device-plugin capacities; fails at
/// the first node without a name or with an unreadable `furiosa.ai/rngd` capacity.
pub open spec fn dp_nodes_spec(nodes: Seq<NodeInfo>) -> Result<Seq<DpNodeView>, AggregateErrorView>
    decreases nodes.len(),
{
    if nodes.len() == 0 {
        Ok(Seq::empty())
    } else {
        match dp_nodes_spec(nodes.drop_last()) {
            Err(e) => Err(e),
            Ok(acc) => match nodes.last().name {
                None => Err(AggregateErrorView::NodeWithoutName),
                Some(name) => match rngd_in(nodes.last().capacity@) {
                    Err(e) => Err(e),
                    Ok(cap) => Ok(dp_put_node(acc, name@, cap)),
                },
            },
        }
    }
}

/// Whether a pod in this phase holds its devices: `Pending` or `Running`.
pub open spec fn phase_holds(phase: Option<String>) -> bool {
    match phase {
        Some(p) => p@ == "Pending"@ || p@ == "Running"@,
        None => false,
    }
}

fn holds_devices(phase: &Option<String>) -> (r: bool)
    ensures
        r == phase_holds(*phase),
{
    match phase {
        Some(p) => {
            proof {
                reveal_strlit("Pending");
                reveal_strlit("Running");
            }
            str_eq(p.as_str(), "Pending") || str_eq(p.as_str(), "Running")
        },
        None => false,
    }
}

/// The entry that a pod makes with `count` devices and no device names.
pub open spec fn dp_entry(pod: PodInfo, count: i64) -> PodEntryView {
    PodEntryView {
        namespace: opt_text(pod.namespace),
        name: opt_text(pod.name),
        count,
        devices: Seq::empty(),
    }
}

/// `acc` after one pod: a scheduled `Pending` or `Running` pod that asks for a nonzero
/// number of devices is listed under its node, when that node is known.
pub open spec fn dp_add_pod(acc: Seq<DpNodeView>, pod: PodInfo) -> Result<
    Seq<DpNodeView>,
    AggregateErrorView,
> {
    match pod.spec {
        None => Ok(acc),
        Some(spec) => match spec.node_name {
            None => Ok(acc),
            Some(node_name) => if !phase_holds(pod.phase) {
                Ok(acc)
            } else {
                match pod_rngd(pod) {
                    Err(e) => Err(e),
                    Ok(count) => {
                        let i = dp_index(acc, node_name@);
                        if count == 0 || i < 0 {
                            Ok(acc)
                        } else {
                            Ok(
                                acc.update(
                                    i,
                                    DpNodeView {
                                        name: acc[i].name,
                                        capacity: acc[i].capacity,
                                        pods: acc[i].pods.push(dp_entry(pod, count)),
                                    },
                                ),
                            )
                        }
                    },
                }
            },
        },
    }
}

/// `acc` after the pods, in order; fails at the first pod whose devices cannot be counted.
pub open spec fn dp_pods_spec(acc: Seq<DpNodeView>, pods: Seq<PodInfo>) -> Result<
    Seq<DpNodeView>,
    AggregateErrorView,
>
    decreases pods.len(),
{
    if pods.len() == 0 {
        Ok(acc)
    } else {
        match dp_pods_spec(acc, pods.drop_last()) {
            Err(e) => Err(e),
            Ok(a) => dp_add_pod(a, pods.last()),
        }
    }
}

/// The sum of the pods' counts, when every partial sum fits in `i64`.
pub open spec fn checked_total(pods: Seq<PodEntryView>) -> Option<i64>
    decreases pods.len(),
{
    if pods.len() == 0 {
        Some(0)
    } else {
        match checked_total(pods.drop_last()) {
            None => None,
            Some(t) => if i64::MIN <= t + pods.last().count <= i64::MAX {
                Some((t + pods.last().count) as i64)
            } else {
                None
            },
        }
    }
}

/// The row of a node: its pods sorted by namespace and name, their counts summed; the
/// source is shown when the node has capacity or allocation.
pub open spec fn dp_row(n: DpNodeView) -> Option<NodeRowView> {
    let pods = sort_seq::<PodEntry>(n.pods);
    match checked_total(pods) {
        None => None,
        Some(allocated) => Some(
            NodeRowView {
                node_name: n.name,
                source: if n.capacity > 0 || allocated > 0 {
                    Some(RowSource::DevicePlugin)
                } else {
                    None
                },
                capacity: n.capacity,
                allocated,
                pods,
            },
        ),
    }
}

/// The rows of the nodes that are shown: all with `include_empty`, else those with capacity.
pub open spec fn dp_rows(acc: Seq<DpNodeView>, include_empty: bool) -> Result<
    Seq<NodeRowView>,
    AggregateErrorView,
>
    decreases acc.len(),
{
    if acc.len() == 0 {
        Ok(Seq::empty())
    } else {
        match dp_rows(acc.drop_last(), include_empty) {
            Err(e) => Err(e),
            Ok(rows) => if !(include_empty || acc.last().capacity > 0) {
                Ok(rows)
            } else {
                match dp_row(acc.last()) {
                    None => Err(AggregateErrorView::NodeSumOverflow),
                    Some(r) => Ok(rows.push(r)),
                }
            },
        }
    }
}

/// What `aggregate` gives: one row per named node, sorted by node name.
pub open spec fn aggregate_spec(nodes: Seq<NodeInfo>, pods: Seq<PodInfo>, include_empty: bool) -> Result<
    Seq<NodeRowView>,
    AggregateErrorView,
> {
    match dp_nodes_spec(nodes) {
        Err(e) => Err(e),
        Ok(acc) => match dp_pods_spec(acc, pods) {
            Err(e) => Err(e),
            Ok(acc2) => match dp_rows(acc2, include_empty) {
                Err(e) => Err(e),
                Ok(rows) => Ok(sort_seq::<NodeRow>(rows)),
            },
        },
    }
}

/// The views of a list of rows, or of the error.
pub open spec fn rows_result(r: Result<Vec<NodeRow>, AggregateError>) -> Result<
    Seq<NodeRowView>,
    AggregateErrorView,
> {
    match r {
        Ok(v) => Ok(views(v@)),
        Err(e) => Err(e@),
    }
}

spec fn dp_result(r: Result<Vec<DpNode>, AggregateError>) -> Result<
    Seq<DpNodeView>,
    AggregateErrorView,
> {
    match r {
        Ok(v) => Ok(views(v@)),
        Err(e) => Err(e@),
    }
}

fn dp_collect_nodes(nodes: &[NodeInfo]) -> (r: Result<Vec<DpNode>, AggregateError>)
    ensures
        dp_result(r) == dp_nodes_spec(nodes@),
{
    let mut acc: Vec<DpNode> = Vec::new();
    let mut k: usize = 0;
    assert(nodes@.take(0) =~= Seq::<NodeInfo>::empty());
    assert(views(acc@) =~= Seq::<DpNodeView>::empty());
    while k < nodes.len()
        invariant
            k <= nodes@.len(),
            dp_nodes_spec(nodes@.take(k as int)) == Ok::<Seq<DpNodeView>, AggregateErrorView>(
                views(acc@),
            ),
        decreases nodes.len() - k,
    {
        assert(nodes@.take(k + 1).drop_last() =~= nodes@.take(k as int));
        assert(nodes@.take(k + 1).last() == nodes@[k as int]);
        let node = &nodes[k];
        let name = match &node.name {
            None => {
                proof {
                    lemma_dp_nodes_err(nodes@, k as int + 1);
                }
                return Err(AggregateError::NodeWithoutName);
            },
            Some(name) => name,
        };
        let cap = match rngd_of(&node.capacity) {
            Err(e) => {
                proof {
                    lemma_dp_nodes_err(nodes@, k as int + 1);
                }
                return Err(e);
            },
            Ok(c) => c,
        };
        let ghost before = views(acc@);
        match find_dp(&acc, name.as_str()) {
            Some(i) => {
                acc[i].capacity = cap;
                assert(views(acc@) =~= dp_put_node(before, name@, cap));
            },
            None => {
                let pods: Vec<PodEntry> = Vec::new();
                assert(views(pods@) =~= Seq::<PodEntryView>::empty());
                acc.push(DpNode { name: name.clone(), capacity: cap, pods });
                assert(views(acc@) =~= dp_put_node(before, name@, cap));
            },
        }
        k += 1;
    }
    assert(nodes@.take(k as int) =~= nodes@);
    Ok(acc)
}

proof fn lemma_dp_nodes_err(nodes: Seq<NodeInfo>, k: int)
    requires
        0 <= k <= nodes.len(),
        dp_nodes_spec(nodes.take(k)) is Err,
    ensures
        dp_nodes_spec(nodes) == dp_nodes_spec(nodes.take(k)),
    decreases nodes.len() - k,
{
    if k < nodes.len() {
        assert(nodes.take(k + 1).drop_last() =~= nodes.take(k));
        lemma_dp_nodes_err(nodes, k + 1);
    } else {
        assert(nodes.take(k) =~= nodes);
    }
}

fn dp_add_pods(initial: Vec<DpNode>, pods: &[PodInfo]) -> (r: Result<
    Vec<DpNode>,
    AggregateError,
>)
    ensures
        dp_result(r) == dp_pods_spec(views(initial@), pods@),
{
    let ghost start = views(initial@);
    let mut acc = initial;
    let mut k: usize = 0;
    assert(pods@.take(0) =~= Seq::<PodInfo>::empty());
    while k < pods.len()
        invariant
            k <= pods@.len(),
            start == views(initial@),
            dp_pods_spec(start, pods@.take(k as int)) == Ok::<
                Seq<DpNodeView>,
                AggregateErrorView,
            >(views(acc@)),
        decreases pods.len() - k,
    {
        assert(pods@.take(k + 1).drop_last() =~= pods@.take(k as int));
        assert(pods@.take(k + 1).last() == pods@[k as int]);
        let pod = &pods[k];
        let ghost before = views(acc@);
        if let Some(spec) = &pod.spec {
            if let Some(node_name) = &spec.node_name {
                if holds_devices(&pod.phase) {
                    let count = match sum_pod_rngd(pod) {
                        Err(e) => {
                            proof {
                                lemma_dp_pods_err(start, pods@, k as int + 1);
                            }
                            return Err(e);
                        },
                        Ok(c) => c,
                    };
                    if count != 0 {
                        if let Some(i) = find_dp(&acc, node_name.as_str()) {
                            let ns = opt_string(&pod.namespace);
                            let nm = opt_string(&pod.name);
                            let devices: Vec<String> = Vec::new();
                            assert(views(devices@) =~= Seq::<Seq<char>>::empty());
                            let entry = PodEntry { namespace: ns, name: nm, count, devices };
                            assert(entry@ == dp_entry(*pod, count));
                            let ghost old_pods = views(acc@[i as int].pods@);
                            acc[i].pods.push(entry);
                            assert(views(acc@[i as int].pods@) =~= old_pods.push(entry@));
                            assert(views(acc@) =~= before.update(
                                i as int,
                                DpNodeView {
                                    name: before[i as int].name,
                                    capacity: before[i as int].capacity,
                                    pods: before[i as int].pods.push(dp_entry(*pod, count)),
                                },
                            ));
                        }
                    }
                }
            }
        }
        k += 1;
    }
    assert(pods@.take(k as int) =~= pods@);
    Ok(acc)
}

proof fn lemma_dp_pods_err(start: Seq<DpNodeView>, pods: Seq<PodInfo>, k: int)
    requires
        0 <= k <= pods.len(),
        dp_pods_spec(start, pods.take(k)) is Err,
    ensures
        dp_pods_spec(start, pods) == dp_pods_spec(start, pods.take(k)),
    decreases pods.len() - k,
{
    if k < pods.len() {
        assert(pods.take(k + 1).drop_last() =~= pods.take(k));
        lemma_dp_pods_err(start, pods, k + 1);
    } else {
        assert(pods.take(k) =~= pods);
    }
}

fn total_count(pods: &Vec<PodEntry>) -> (r: Option<i64>)
    ensures
        r == checked_total(views(pods@)),
{
    let mut total: i64 = 0;
    let mut k: usize = 0;
    assert(views(pods@).take(0) =~= Seq::<PodEntryView>::empty());
    while k < pods.len()
        invariant
            k <= pods@.len(),
            checked_total(views(pods@).take(k as int)) == Some(total),
        decreases pods.len() - k,
    {
        assert(views(pods@).take(k + 1).drop_last() =~= views(pods@).take(k as int));
        match total.checked_add(pods[k].count) {
            None => {
                proof {
                    lemma_checked_total_none(views(pods@), k as int + 1);
                }
                return None;
            },
            Some(t) => {
                total = t;
            },
        }
        k += 1;
    }
    assert(views(pods@).take(k as int) =~= views(pods@));
    Some(total)
}

proof fn lemma_checked_total_none(pods: Seq<PodEntryView>, k: int)
    requires
        0 <= k <= pods.len(),
        checked_total(pods.take(k)) is None,
    ensures
        checked_total(pods) is None,
    decreases pods.len() - k,
{
    if k < pods.len() {
        assert(pods.take(k + 1).drop_last() =~= pods.take(k));
        lemma_checked_total_none(pods, k + 1);
    } else {
        assert(pods.take(k) =~= pods);
    }
}

fn dp_build_rows(acc: Vec<DpNode>, include_empty: bool) -> (r: Result<Vec<NodeRow>, AggregateError>)
    ensures
        rows_result(r) == dp_rows(views(acc@), include_empty),
{
    let ghost all = views(acc@);
    let mut rest = acc;
    let mut rows: Vec<NodeRow> = Vec::new();
    let mut k: usize = 0;
    assert(all.take(0) =~= Seq::<DpNodeView>::empty());
    assert(views(rows@) =~= Seq::<NodeRowView>::empty());
    assert(views(rest@) =~= all.skip(0));
    assert(rest@.len() == rest.len());
    while rest.len() > 0
        invariant
            k <= all.len() <= usize::MAX,
            all == views(acc@),
            views(rest@) == all.skip(k as int),
            rest@.len() == all.len() - k,
            dp_rows(all.take(k as int), include_empty) == Ok::<
                Seq<NodeRowView>,
                AggregateErrorView,
            >(views(rows@)),
        decreases rest.len(),
    {
        let ghost rest_before = rest@;
        let node = rest.remove(0);
        proof {
            assert(node@ == views(rest_before)[0]);
            assert(all.take(k + 1).drop_last() =~= all.take(k as int));
            assert(all.take(k + 1).last() == node@);
            assert forall|j: int| 0 <= j < rest@.len() implies #[trigger] views(rest@)[j]
                == all.skip(k + 1)[j] by {
                assert(rest@[j] == rest_before[j + 1]);
                assert(views(rest_before)[j + 1] == all.skip(k as int)[j + 1]);
            }
            assert(views(rest@) =~= all.skip(k + 1));
        }
        if include_empty || node.capacity > 0 {
            let pods = sort_by_key(node.pods);
            match total_count(&pods) {
                None => {
                    proof {
                        lemma_dp_rows_err(all, include_empty, k as int + 1);
                    }
                    return Err(AggregateError::NodeSumOverflow);
                },
                Some(allocated) => {
                    let source = if node.capacity > 0 || allocated > 0 {
                        Some(RowSource::DevicePlugin)
                    } else {
                        None
                    };
                    let row = NodeRow {
                        node_name: node.name,
                        source,
                        capacity: node.capacity,
                        allocated,
                        pods,
                    };
                    assert(dp_row(node@) == Some(row@));
                    let ghost rows_before = views(rows@);
                    rows.push(row);
                    assert(views(rows@) =~= rows_before.push(row@));
                },
            }
        }
        k += 1;
    }
    assert(all.take(k as int) =~= all);
    Ok(rows)
}

proof fn lemma_dp_rows_err(acc: Seq<DpNodeView>, include_empty: bool, k: int)
    requires
        0 <= k <= acc.len(),
        dp_rows(acc.take(k), include_empty) is Err,
    ensures
        dp_rows(acc, include_empty) == dp_rows(acc.take(k), include_empty),
    decreases acc.len() - k,
{
    if k < acc.len() {
        assert(acc.take(k + 1).drop_last() =~= acc.take(k));
        lemma_dp_rows_err(acc, include_empty, k + 1);
    } else {
        assert(acc.take(k) =~= acc);
    }
}

/// Builds the device-plugin table: one row per named node (later nodes of the same name
/// override earlier ones), holding its `furiosa.ai/rngd` capacity and the scheduled
/// `Pending` or `Running` pods on it that ask for devices, sorted by namespace and name;
/// without `include_empty`, nodes without capacity are left out. Rows are sorted by node
/// name.
pub fn aggregate(nodes: &[NodeInfo], pods: &[PodInfo], include_empty: bool) -> (r: Result<
    Vec<NodeRow>,
    AggregateError,
>)
    ensures
        rows_result(r) == aggregate_spec(nodes@, pods@, include_empty),
{
    let acc = match dp_collect_nodes(nodes) {
        Err(e) => return Err(e),
        Ok(a) => a,
    };
    let acc = match dp_add_pods(acc, pods) {
        Err(e) => return Err(e),
        Ok(a) => a,
    };
    let rows = match dp_build_rows(acc, include_empty) {
        Err(e) => return Err(e),
        Ok(r) => r,
    };
    Ok(sort_by_key(rows))
}

} // verus!
