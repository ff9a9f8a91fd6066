//! Display names for binders: a name is primed until it differs from those in scope.
use vstd::prelude::*;

verus! {

/// The length of the longest name.
pub open spec fn max_len(names: Seq<Seq<char>>) -> nat
    decreases names.len(),
{
    if names.len() == 0 {
        0
    } else {
        let m = max_len(names.drop_last());
        if names.last().len() > m {
            names.last().len()
        } else {
            m
        }
    }
}

/// No name in `names` is longer than [`max_len`].
pub proof fn lemma_max_len(names: Seq<Seq<char>>, x: Seq<char>)
    requires
        names.contains(x),
    ensures
        x.len() <= max_len(names),
    decreases names.len(),
{
    if names.last() != x {
        let i = choose|i: int| 0 <= i < names.len() && names[i] == x;
        assert(names.drop_last()[i] == x);
        lemma_max_len(names.drop_last(), x);
    }
}

/// `x`, followed by as few `'` as make it differ from every name in `names`.
pub open spec fn fresh_name(names: Seq<Seq<char>>, x: Seq<char>) -> Seq<char>
    decreases max_len(names) + 1 - x.len(),
{
    if names.contains(x) {
        proof {
            lemma_max_len(names, x);
        }
        fresh_name(names, x + seq!['\''])
    } else {
        x
    }
}

/// A fresh name is not among the names it was made fresh against.
pub proof fn lemma_fresh_name_is_fresh(names: Seq<Seq<char>>, x: Seq<char>)
    ensures
        !names.contains(fresh_name(names, x)),
    decreases max_len(names) + 1 - x.len(),
{
    if names.contains(x) {
        lemma_max_len(names, x);
        lemma_fresh_name_is_fresh(names, x + seq!['\'']);
    }
}

} // verus!
