//! What a pod asks for: the `furiosa.ai/rngd` limits of all its containers, summed.
use vstd::prelude::*;

use crate::aggregate::{containers_rngd, pod_rngd, quantity_spec, rngd_in};
use crate::cluster::{lookup, ContainerInfo, PodInfo};
use crate::error::AggregateErrorView;
use crate::RNGD_RESOURCE;

verus! {

proof fn lemma_lookup_insert_other(l: Seq<(String, String)>, j: int, e: (String, String), key: Seq<char>)
    requires
        0 <= j <= l.len(),
        e.0@ != key,
    ensures
        lookup(l.insert(j, e), key) == lookup(l, key),
    decreases l.len(),
{
    let q = l.insert(j, e);
    if j == 0 {
        assert(q.drop_first() =~= l);
    } else {
        assert(q[0] == l[0]);
        assert(q.drop_first() =~= l.drop_first().insert(j - 1, e));
        lemma_lookup_insert_other(l.drop_first(), j - 1, e, key);
    }
}

proof fn lemma_containers_same_limits(a: Seq<ContainerInfo>, b: Seq<ContainerInfo>)
    requires
        a.len() == b.len(),
        forall|i: int| 0 <= i < a.len() ==> #[trigger] rngd_in(a[i].limits@) == rngd_in(b[i].limits@),
    ensures
        containers_rngd(a) == containers_rngd(b),
    decreases a.len(),
{
    if a.len() > 0 {
        assert forall|i: int| 0 <= i < a.len() - 1 implies #[trigger] rngd_in(a.drop_last()[i].limits@) == rngd_in(b.drop_last()[i].limits@) by {
            assert(a.drop_last()[i] == a[i] && b.drop_last()[i] == b[i]);
        }
        lemma_containers_same_limits(a.drop_last(), b.drop_last());
        assert(rngd_in(a[a.len() - 1].limits@) == rngd_in(b[b.len() - 1].limits@));
    }
}

proof fn lemma_containers_insert_unlimited(cs: Seq<ContainerInfo>, k: int, c: ContainerInfo)
    requires
        0 <= k <= cs.len(),
        lookup(c.limits@, RNGD_RESOURCE@) is None,
    ensures
        containers_rngd(cs.insert(k, c)) == containers_rngd(cs),
    decreases cs.len(),
{
    let q = cs.insert(k, c);
    if k == cs.len() {
        assert(q.drop_last() =~= cs);
        assert(q.last() == c);
    } else {
        assert(q.drop_last() =~= cs.drop_last().insert(k, c));
        assert(q.last() == cs.last());
        lemma_containers_insert_unlimited(cs.drop_last(), k, c);
    }
}

/// The containers of a pod that has a spec.
pub open spec fn containers_of(p: PodInfo) -> Seq<ContainerInfo> {
    p.spec->0.containers@
}

/// A pod without a spec asks for no device, and neither does a pod without containers.
pub proof fn law_pod_rngd_empty(p: PodInfo)
    requires
        p.spec is None || containers_of(p).len() == 0,
    ensures
        pod_rngd(p) == Ok::<i64, AggregateErrorView>(0),
{
}

/// A container without a `furiosa.ai/rngd` limit adds nothing: inserting one anywhere in a
/// pod's container list leaves what the pod asks for unchanged.
pub proof fn law_pod_rngd_unlimited_container(p: PodInfo, q: PodInfo, k: int, c: ContainerInfo)
    requires
        p.spec is Some,
        q.spec is Some,
        0 <= k <= containers_of(p).len(),
        containers_of(q) == containers_of(p).insert(k, c),
        lookup(c.limits@, RNGD_RESOURCE@) is None,
    ensures
        pod_rngd(q) == pod_rngd(p),
{
    lemma_containers_insert_unlimited(containers_of(p), k, c);
}

/// A container's limit is found by its key, wherever it stands among the container's
/// limits: inserting a limit of another resource anywhere in any container leaves what the
/// pod asks for unchanged.
pub proof fn law_pod_rngd_other_limit(p: PodInfo, q: PodInfo, i: int, j: int, e: (String, String), c: ContainerInfo)
    requires
        p.spec is Some,
        q.spec is Some,
        0 <= i < containers_of(p).len(),
        0 <= j <= containers_of(p)[i].limits@.len(),
        e.0@ != RNGD_RESOURCE@,
        c.limits@ == containers_of(p)[i].limits@.insert(j, e),
        containers_of(q) == containers_of(p).update(i, c),
    ensures
        pod_rngd(q) == pod_rngd(p),
{
    let a = containers_of(p);
    let b = containers_of(q);
    lemma_lookup_insert_other(a[i].limits@, j, e, RNGD_RESOURCE@);
    assert forall|x: int| 0 <= x < a.len() implies #[trigger] rngd_in(a[x].limits@) == rngd_in(b[x].limits@) by {
        if x != i {
            assert(b[x] == a[x]);
        }
    }
    lemma_containers_same_limits(a, b);
}

/// Adding a container adds its `furiosa.ai/rngd` limit, the quantity of the entry with that
/// key among its limits (0 when there is none), to what the pod asks for; an unreadable
/// quantity, or a sum past `i64`, is an error.
pub proof fn law_pod_rngd_add_container(p: PodInfo, q: PodInfo, c: ContainerInfo)
    requires
        p.spec is Some,
        q.spec is Some,
        containers_of(q) == containers_of(p).push(c),
    ensures
        pod_rngd(p) is Err ==> pod_rngd(q) == pod_rngd(p),
        pod_rngd(p) is Ok && lookup(c.limits@, RNGD_RESOURCE@) is None ==> pod_rngd(q) == pod_rngd(p),
        pod_rngd(p) is Ok && lookup(c.limits@, RNGD_RESOURCE@) is Some ==> match quantity_spec(lookup(c.limits@, RNGD_RESOURCE@)->0) {
            Err(e) => pod_rngd(q) == Err::<i64, AggregateErrorView>(e),
            Ok(v) => if i64::MIN <= pod_rngd(p)->Ok_0 + v <= i64::MAX {
                pod_rngd(q) == Ok::<i64, AggregateErrorView>((pod_rngd(p)->Ok_0 + v) as i64)
            } else {
                pod_rngd(q) == Err::<i64, AggregateErrorView>(AggregateErrorView::PodSumOverflow)
            },
        },
{
    assert(containers_of(q).drop_last() =~= containers_of(p));
    assert(containers_of(q).last() == c);
}

} // verus!
