//! Facts about sequences that the proofs call on by name.

use vstd::prelude::*;

verus! {

/// What pushing `a` onto `s` gives: one more element, `a` last, the others
/// unchanged.
pub proof fn lemma_push<A>(s: Seq<A>, a: A)
    ensures
        s.push(a).len() == s.len() + 1,
        s.push(a)[s.len() as int] == a,
        forall|i: int| 0 <= i < s.len() ==> #[trigger] s.push(a)[i] == s[i],
{
    vstd::seq::axiom_seq_push_len(s, a);
    vstd::seq::axiom_seq_push_index_same(s, a, s.len() as int);
    assert forall|i: int| 0 <= i < s.len() implies #[trigger] s.push(a)[i] == s[i] by {
        vstd::seq::axiom_seq_push_index_different(s, a, i);
    }
}

} // verus!
