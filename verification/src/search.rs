//! The first position in a sequence where a property holds.
use vstd::prelude::*;

verus! {

/// The first index of `s` whose element satisfies `p`, or -1 when there is none.
pub open spec fn first_index<V>(s: Seq<V>, p: spec_fn(V) -> bool) -> int
    decreases s.len(),
{
    if s.len() == 0 {
        -1
    } else if p(s[0]) {
        0
    } else {
        let r = first_index(s.drop_first(), p);
        if r < 0 {
            -1
        } else {
            r + 1
        }
    }
}

/// A scan that stops at `i` finds the first index.
pub proof fn lemma_first_index<V>(s: Seq<V>, p: spec_fn(V) -> bool, i: int)
    requires
        0 <= i <= s.len(),
        forall|j: int| 0 <= j < i ==> !p(#[trigger] s[j]),
        i == s.len() || p(s[i]),
    ensures
        first_index(s, p) == (if i == s.len() {
            -1
        } else {
            i
        }),
    decreases i,
{
    if i > 0 {
        let t = s.drop_first();
        assert forall|j: int| 0 <= j < i - 1 implies !p(#[trigger] t[j]) by {
            assert(t[j] == s[j + 1]);
        }
        lemma_first_index(t, p, i - 1);
    }
}

/// What `first_index` gives: -1 when no element satisfies `p`, else a satisfying index
/// with none before it.
pub proof fn lemma_first_index_facts<V>(s: Seq<V>, p: spec_fn(V) -> bool)
    ensures
        -1 <= first_index(s, p) < s.len(),
        first_index(s, p) >= 0 ==> p(s[first_index(s, p)]),
        forall|j: int|
            0 <= j < s.len() && (first_index(s, p) < 0 || j < first_index(s, p)) ==> !p(
                #[trigger] s[j],
            ),
    decreases s.len(),
{
    if s.len() > 0 && !p(s[0]) {
        let t = s.drop_first();
        lemma_first_index_facts(t, p);
        assert forall|j: int|
            0 <= j < s.len() && (first_index(s, p) < 0 || j < first_index(s, p)) implies !p(
            #[trigger] s[j],
        ) by {
            if j > 0 {
                assert(s[j] == t[j - 1]);
            }
        }
    }
}

/// When the element at `j` satisfies `p`, some first index exists, at or before `j`.
pub proof fn lemma_first_index_found<V>(s: Seq<V>, p: spec_fn(V) -> bool, j: int)
    requires
        0 <= j < s.len(),
        p(s[j]),
    ensures
        0 <= first_index(s, p) <= j,
    decreases j,
{
    if j > 0 && !p(s[0]) {
        lemma_first_index_found(s.drop_first(), p, j - 1);
    }
}

} // verus!
