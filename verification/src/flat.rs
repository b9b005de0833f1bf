//! Concatenation of a per-element sequence over a whole sequence.
//!
//! Both the document's unit model and the serialized byte formats are
//! "concatenate a translation of each element in order"; this module states
//! that shape once, with the lemmas the rest of the library needs.

use vstd::prelude::*;

verus! {

/// The concatenation `f(s[0]) + f(s[1]) + ... + f(s[len - 1])`.
pub open spec fn flat_concat<A, B>(s: Seq<A>, f: spec_fn(A) -> Seq<B>) -> Seq<B>
    decreases s.len(),
{
    if s.len() == 0 {
        Seq::empty()
    } else {
        f(s[0]) + flat_concat(s.drop_first(), f)
    }
}

/// Concatenating the translations of `a + b` splits at the border of `a` and `b`.
pub proof fn lemma_flat_concat_add<A, B>(a: Seq<A>, b: Seq<A>, f: spec_fn(A) -> Seq<B>)
    ensures
        flat_concat(a + b, f) == flat_concat(a, f) + flat_concat(b, f),
    decreases a.len(),
{
    if a.len() == 0 {
        assert(a + b =~= b);
        assert(flat_concat(a, f) + flat_concat(b, f) =~= flat_concat(b, f));
    } else {
        assert((a + b).drop_first() =~= a.drop_first() + b);
        assert((a + b)[0] == a[0]);
        lemma_flat_concat_add(a.drop_first(), b, f);
        assert(flat_concat(a + b, f) =~= flat_concat(a, f) + flat_concat(b, f));
    }
}

/// On a one-element sequence the concatenation is that element's translation.
pub proof fn lemma_flat_concat_singleton<A, B>(x: A, f: spec_fn(A) -> Seq<B>)
    ensures
        flat_concat(seq![x], f) == f(x),
{
    let s = seq![x];
    assert(s.drop_first() =~= Seq::<A>::empty());
    assert(flat_concat(Seq::<A>::empty(), f) == Seq::<B>::empty());
    assert(flat_concat(s, f) == f(s[0]) + flat_concat(s.drop_first(), f));
    assert(f(x) + Seq::<B>::empty() =~= f(x));
}

/// Extending the prefix taken by one element appends that element's translation.
pub proof fn lemma_flat_concat_take_succ<A, B>(s: Seq<A>, f: spec_fn(A) -> Seq<B>, i: int)
    requires
        0 <= i < s.len(),
    ensures
        flat_concat(s.take(i + 1), f) == flat_concat(s.take(i), f) + f(s[i]),
{
    assert(s.take(i + 1) =~= s.take(i) + seq![s[i]]);
    lemma_flat_concat_add(s.take(i), seq![s[i]], f);
    lemma_flat_concat_singleton(s[i], f);
}

/// The translations of a full sequence split around any single position.
pub proof fn lemma_flat_concat_split<A, B>(s: Seq<A>, f: spec_fn(A) -> Seq<B>, i: int)
    requires
        0 <= i < s.len(),
    ensures
        flat_concat(s, f) == flat_concat(s.take(i), f) + f(s[i]) + flat_concat(s.skip(i + 1), f),
{
    assert(s =~= s.take(i + 1) + s.skip(i + 1));
    lemma_flat_concat_add(s.take(i + 1), s.skip(i + 1), f);
    lemma_flat_concat_take_succ(s, f, i);
}

} // verus!
