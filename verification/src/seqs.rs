use vstd::prelude::*;

verus! {

/// Filtering one more element of a prefix adds that element exactly when it passes.
pub proof fn lemma_filter_take_step<A>(s: Seq<A>, p: spec_fn(A) -> bool, j: int)
    requires
        0 <= j < s.len(),
    ensures
        s.take(j + 1).filter(p) == (if p(s[j]) {
            s.take(j).filter(p).push(s[j])
        } else {
            s.take(j).filter(p)
        }),
{
    reveal(Seq::filter);
    let t = s.take(j + 1);
    assert(t.drop_last() == s.take(j));
    assert(t.last() == s[j]);
}

} // verus!
