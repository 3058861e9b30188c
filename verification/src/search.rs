//! The first element of a sequence that satisfies a predicate.
use vstd::prelude::*;

verus! {

/// `i` is the position of the first element of `s` that satisfies `p`.
pub open spec fn is_first<T>(s: Seq<T>, p: spec_fn(T) -> bool, i: int) -> bool {
    &&& 0 <= i < s.len()
    &&& p(s[i])
    &&& forall|j: int| 0 <= j < i ==> !p(#[trigger] s[j])
}

/// The position of the first element of `s` that satisfies `p`, if any.
pub open spec fn first_index<T>(s: Seq<T>, p: spec_fn(T) -> bool) -> Option<int> {
    if exists|i: int| 0 <= i < s.len() && p(#[trigger] s[i]) {
        Some(choose|i: int| is_first(s, p, i))
    } else {
        None
    }
}

pub proof fn lemma_first_index_some<T>(s: Seq<T>, p: spec_fn(T) -> bool, i: int)
    requires
        is_first(s, p, i),
    ensures
        first_index(s, p) == Some(i),
{
    assert(0 <= i < s.len() && p(s[i]));
    let j = choose|j: int| is_first(s, p, j);
    assert(is_first(s, p, j));
    if j < i {
        assert(!p(s[j]));
    } else if j > i {
        assert(!p(s[i]));
    }
}

pub proof fn lemma_first_index_none<T>(s: Seq<T>, p: spec_fn(T) -> bool)
    requires
        forall|j: int| 0 <= j < s.len() ==> !p(#[trigger] s[j]),
    ensures
        first_index(s, p) is None,
{
}

/// Where an element satisfies `p`, the first one does, at the position
/// `first_index` gives.
pub proof fn lemma_first_index_found<T>(s: Seq<T>, p: spec_fn(T) -> bool)
    ensures
        first_index(s, p) matches Some(i) ==> is_first(s, p, i),
{
    if exists|i: int| 0 <= i < s.len() && p(#[trigger] s[i]) {
        lemma_first_exists(s, p, s.len() as int);
    }
}

proof fn lemma_first_exists<T>(s: Seq<T>, p: spec_fn(T) -> bool, upto: int)
    requires
        0 <= upto <= s.len(),
        exists|i: int| 0 <= i < upto && p(#[trigger] s[i]),
    ensures
        exists|i: int| is_first(s, p, i),
    decreases upto,
{
    if exists|i: int| 0 <= i < upto - 1 && p(#[trigger] s[i]) {
        lemma_first_exists(s, p, upto - 1);
    } else {
        assert(is_first(s, p, upto - 1));
    }
}

} // verus!
