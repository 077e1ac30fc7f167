//! Facts about filtered sequences.
use vstd::prelude::*;

verus! {

/// Filtering one more item of `s` appends it exactly when it passes.
pub proof fn lemma_filter_step<T>(s: Seq<T>, i: int, p: spec_fn(T) -> bool)
    requires
        0 <= i < s.len(),
    ensures
        s.take(i + 1).filter(p) == if p(s[i]) {
            s.take(i).filter(p).push(s[i])
        } else {
            s.take(i).filter(p)
        },
{
    reveal(Seq::filter);
    assert(s.take(i + 1).drop_last() =~= s.take(i));
}

/// The items of `s` whose flag in `gone` is not set, in order.
pub open spec fn unflagged<T>(s: Seq<T>, gone: Seq<bool>) -> Seq<T>
    decreases s.len(),
{
    if s.len() == 0 {
        Seq::empty()
    } else {
        let front = unflagged(s.drop_last(), gone);
        if s.len() <= gone.len() && gone[s.len() - 1] {
            front
        } else {
            front.push(s.last())
        }
    }
}

/// One more item of `s` is kept exactly when its flag is not set.
pub proof fn lemma_unflagged_step<T>(s: Seq<T>, gone: Seq<bool>, i: int)
    requires
        0 <= i < s.len(),
        s.len() == gone.len(),
    ensures
        unflagged(s.take(i + 1), gone) == if gone[i] {
            unflagged(s.take(i), gone)
        } else {
            unflagged(s.take(i), gone).push(s[i])
        },
{
    assert(s.take(i + 1).drop_last() =~= s.take(i));
}

} // verus!
