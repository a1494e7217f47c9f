//! The parts of cluster objects (nodes, pods, resource slices and claims) that the
//! aggregation reads, held as plain values.
use vstd::prelude::*;

verus! {

/// A node: its name and its capacity list (resource name, quantity text).
#[derive(Clone, Debug)]
pub struct NodeInfo {
    pub name: Option<String>,
    pub capacity: Vec<(String, String)>,
}

/// A container: its resource limits (resource name, quantity text).
#[derive(Clone, Debug)]
pub struct ContainerInfo {
    pub limits: Vec<(String, String)>,
}

/// What a pod's spec holds that the aggregation reads.
#[derive(Clone, Debug)]
pub struct PodSpecInfo {
    pub node_name: Option<String>,
    pub containers: Vec<ContainerInfo>,
}

/// A pod: its namespace, name, spec and phase.
#[derive(Clone, Debug)]
pub struct PodInfo {
    pub namespace: Option<String>,
    pub name: Option<String>,
    pub spec: Option<PodSpecInfo>,
    pub phase: Option<String>,
}

/// A resource slice: the driver, the pool with its generation, where its devices are,
/// and the names of its devices.
#[derive(Clone, Debug)]
pub struct SliceInfo {
    pub driver: String,
    pub pool_name: String,
    pub generation: i64,
    pub node_name: Option<String>,
    pub all_nodes: Option<bool>,
    pub devices: Vec<String>,
}

/// One allocated device of a resource claim.
#[derive(Clone, Debug)]
pub struct DeviceResultInfo {
    pub driver: String,
    pub pool: String,
    pub device: String,
    pub admin_access: Option<bool>,
}

/// A consumer for which a resource claim is reserved.
#[derive(Clone, Debug)]
pub struct ConsumerInfo {
    pub resource: String,
    pub name: String,
}

/// A resource claim: its namespace, its allocated devices (empty when it holds no
/// allocation) and the consumers it is reserved for.
#[derive(Clone, Debug)]
pub struct ClaimInfo {
    pub namespace: Option<String>,
    pub results: Vec<DeviceResultInfo>,
    pub reserved_for: Vec<ConsumerInfo>,
}

/// The value of the first entry of `entries` whose key is `key`.
pub open spec fn lookup(entries: Seq<(String, String)>, key: Seq<char>) -> Option<Seq<char>>
    decreases entries.len(),
{
    if entries.len() == 0 {
        None
    } else if entries[0].0@ == key {
        Some(entries[0].1@)
    } else {
        lookup(entries.drop_first(), key)
    }
}

/// The value of the first entry of `entries` whose key is `key`.
pub fn find_value<'a>(entries: &'a Vec<(String, String)>, key: &str) -> (r: Option<&'a String>)
    ensures
        match r {
            Some(v) => lookup(entries@, key@) == Some(v@),
            None => lookup(entries@, key@) is None,
        },
{
    let mut i: usize = 0;
    assert(entries@.skip(0) =~= entries@);
    while i < entries.len()
        invariant
            i <= entries@.len(),
            lookup(entries@, key@) == lookup(entries@.skip(i as int), key@),
        decreases entries.len() - i,
    {
        assert(entries@.skip(i as int).drop_first() =~= entries@.skip(i + 1));
        if crate::text::str_eq(entries[i].0.as_str(), key) {
            return Some(&entries[i].1);
        }
        i += 1;
    }
    None
}

/// The text of an optional string.
pub open spec fn opt_view(o: Option<String>) -> Option<Seq<char>> {
    match o {
        Some(s) => Some(s@),
        None => None,
    }
}

/// The views of a list of (key, value) text pairs.
pub open spec fn entry_views(s: Seq<(String, String)>) -> Seq<(Seq<char>, Seq<char>)> {
    s.map_values(|p: (String, String)| (p.0@, p.1@))
}

/// A `NodeInfo` with its text as character sequences.
pub struct NodeInfoView {
    pub name: Option<Seq<char>>,
    pub capacity: Seq<(Seq<char>, Seq<char>)>,
}

impl View for NodeInfo {
    type V = NodeInfoView;

    open spec fn view(&self) -> NodeInfoView {
        NodeInfoView { name: opt_view(self.name), capacity: entry_views(self.capacity@) }
    }
}

fn copy_entries(v: &Vec<(String, String)>) -> (r: Vec<(String, String)>)
    ensures
        entry_views(r@) == entry_views(v@),
{
    let mut out: Vec<(String, String)> = Vec::new();
    let mut k: usize = 0;
    while k < v.len()
        invariant
            k <= v@.len(),
            entry_views(out@) =~= entry_views(v@).take(k as int),
        decreases v.len() - k,
    {
        let ghost before = entry_views(out@);
        out.push((v[k].0.clone(), v[k].1.clone()));
        assert(entry_views(out@) =~= before.push((v@[k as int].0@, v@[k as int].1@)));
        assert(entry_views(v@).take(k + 1) =~= entry_views(v@).take(k as int).push(
            (v@[k as int].0@, v@[k as int].1@),
        ));
        k += 1;
    }
    assert(entry_views(v@).take(k as int) =~= entry_views(v@));
    out
}

impl NodeInfo {
    /// A copy of this node.
    pub fn duplicate(&self) -> (r: NodeInfo)
        ensures
            r@ == self@,
    {
        let name = match &self.name {
            Some(n) => Some(n.clone()),
            None => None,
        };
        NodeInfo { name, capacity: copy_entries(&self.capacity) }
    }
}

} // verus!
