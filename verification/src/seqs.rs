//! Small facts about optional sequences used by the decoders.
use vstd::prelude::*;

verus! {

/// Prefixes the sequence inside an optional result.
pub open spec fn opt_prepend<A>(prefix: Seq<A>, o: Option<Seq<A>>) -> Option<Seq<A>> {
    match o {
        Some(s) => Some(prefix + s),
        None => None,
    }
}

/// Prefixing one element, then a prefix, is prefixing their concatenation.
pub proof fn lemma_opt_prepend_push<A>(prefix: Seq<A>, a: A, o: Option<Seq<A>>)
    ensures
        opt_prepend(prefix, opt_prepend(seq![a], o)) == opt_prepend(prefix.push(a), o),
{
    match o {
        Some(s) => {
            assert(prefix + (seq![a] + s) =~= prefix.push(a) + s);
        },
        None => {},
    }
}

/// The empty prefix changes nothing.
pub proof fn lemma_opt_prepend_empty<A>(o: Option<Seq<A>>)
    ensures
        opt_prepend(Seq::<A>::empty(), o) == o,
{
    match o {
        Some(s) => {
            assert(Seq::<A>::empty() + s =~= s);
        },
        None => {},
    }
}

} // verus!
