//! Stable ordering of sequences by a strict order, as `slice::sort_by`
//! produces it.
use vstd::prelude::*;

verus! {

/// Where a stable insertion puts `x` into `s`: before the first element at
/// or after `i` that `x` strictly precedes.
pub open spec fn insert_pos<T>(s: Seq<T>, x: T, lt: spec_fn(T, T) -> bool, i: int) -> int
    decreases s.len() - i,
{
    if i < 0 || i >= s.len() {
        s.len() as int
    } else if lt(x, s[i]) {
        i
    } else {
        insert_pos(s, x, lt, i + 1)
    }
}

/// `s` sorted stably by the strict order `lt`: each element is placed after
/// every earlier element that it does not strictly precede, so elements that
/// compare equal keep their relative order.
pub open spec fn stable_sort<T>(s: Seq<T>, lt: spec_fn(T, T) -> bool) -> Seq<T>
    decreases s.len(),
{
    if s.len() == 0 {
        Seq::empty()
    } else {
        let sorted = stable_sort(s.drop_last(), lt);
        let p = insert_pos(sorted, s.last(), lt, 0);
        sorted.take(p) + seq![s.last()] + sorted.skip(p)
    }
}

pub proof fn lemma_insert_pos_bounds<T>(s: Seq<T>, x: T, lt: spec_fn(T, T) -> bool, i: int)
    requires
        0 <= i <= s.len(),
    ensures
        i <= insert_pos(s, x, lt, i) <= s.len(),
    decreases s.len() - i,
{
    if i < s.len() && !lt(x, s[i]) {
        lemma_insert_pos_bounds(s, x, lt, i + 1);
    }
}

/// One step of the stable sort: the sort of a prefix one longer.
pub proof fn lemma_stable_sort_step<T>(s: Seq<T>, lt: spec_fn(T, T) -> bool, i: int)
    requires
        0 <= i < s.len(),
    ensures
        ({
            let sorted = stable_sort(s.take(i), lt);
            let p = insert_pos(sorted, s[i], lt, 0);
            stable_sort(s.take(i + 1), lt) == sorted.take(p) + seq![s[i]] + sorted.skip(p)
        }),
{
    assert(s.take(i + 1).drop_last() =~= s.take(i));
    assert(s.take(i + 1).last() == s[i]);
}

} // verus!
