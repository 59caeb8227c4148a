//! Facts about sequences that the proofs share.

use vstd::prelude::*;

verus! {

/// Mapping a sequence and adding an element commute.
pub broadcast proof fn lemma_map_push<A, B>(s: Seq<A>, f: spec_fn(A) -> B, x: A)
    ensures
        #[trigger] s.push(x).map_values(f) == s.map_values(f).push(f(x)),
{
    assert(s.push(x).map_values(f) =~= s.map_values(f).push(f(x)));
}

/// One element more.
pub proof fn lemma_take_succ<A>(s: Seq<A>, i: int)
    requires
        0 <= i < s.len(),
    ensures
        s.take(i + 1) == s.take(i).push(s[i]),
        s.take(i + 1).drop_last() == s.take(i),
        s.take(i + 1).last() == s[i],
{
    assert(s.take(i + 1) =~= s.take(i).push(s[i]));
    assert(s.take(i + 1).drop_last() =~= s.take(i));
}

} // verus!
