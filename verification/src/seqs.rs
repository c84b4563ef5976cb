//! Small facts about sequences that are put together from parts.

use vstd::prelude::*;

verus! {

/// An element put before a sequence is its first, and the sequence is
/// what follows.
pub proof fn lemma_cons<A>(x: A, s: Seq<A>)
    ensures
        (seq![x] + s).len() == s.len() + 1,
        (seq![x] + s)[0] == x,
        (seq![x] + s).skip(1) == s,
{
    assert((seq![x] + s).skip(1) =~= s);
}

/// A sequence is its first element and what follows.
pub proof fn lemma_uncons<A>(s: Seq<A>)
    requires
        s.len() > 0,
    ensures
        s == seq![s[0]] + s.skip(1),
{
    assert(s =~= seq![s[0]] + s.skip(1));
}

/// Two elements put before a sequence are its first two, and the
/// sequence is what follows.
pub proof fn lemma_cons2<A>(x: A, y: A, s: Seq<A>)
    ensures
        (seq![x, y] + s).len() == s.len() + 2,
        (seq![x, y] + s)[0] == x,
        (seq![x, y] + s)[1] == y,
        (seq![x, y] + s).skip(2) == s,
{
    assert((seq![x, y] + s).skip(2) =~= s);
}

/// A sequence is its first two elements and what follows.
pub proof fn lemma_uncons2<A>(s: Seq<A>)
    requires
        s.len() > 1,
    ensures
        s == seq![s[0], s[1]] + s.skip(2),
{
    assert(s =~= seq![s[0], s[1]] + s.skip(2));
}

/// Concatenation may be grouped either way.
pub proof fn lemma_regroup<A>(a: Seq<A>, b: Seq<A>, c: Seq<A>)
    ensures
        a + b + c == a + (b + c),
{
    assert(a + b + c =~= a + (b + c));
}

/// A concatenation begins as its first part does.
pub proof fn lemma_front<A>(a: Seq<A>, b: Seq<A>)
    requires
        a.len() > 0,
    ensures
        (a + b)[0] == a[0],
        (a + b).len() == a.len() + b.len(),
{
}

} // verus!
