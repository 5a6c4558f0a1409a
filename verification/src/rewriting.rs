//! The mathematical model of L-system rewriting: what it means to apply a
//! grammar's productions to a string, once and `n` times.  The executable
//! rewriters and the lazy generator are specified against these functions.

use vstd::prelude::*;

verus! {

/// The replacement for one symbol: its production when the grammar has one,
/// otherwise the symbol itself (a symbol without a rule is terminal).
pub open spec fn expand_symbol(g: Map<char, Seq<char>>, c: char) -> Seq<char> {
    if g.dom().contains(c) {
        g[c]
    } else {
        seq![c]
    }
}

/// One rewriting pass over a whole string, replacing every symbol in parallel,
/// left to right.
pub open spec fn rewrite_once(g: Map<char, Seq<char>>, s: Seq<char>) -> Seq<char>
    decreases s.len(),
{
    if s.len() == 0 {
        Seq::empty()
    } else {
        expand_symbol(g, s[0]) + rewrite_once(g, s.drop_first())
    }
}

/// `n` rewriting passes applied to `s`.
pub open spec fn rewrite_n(g: Map<char, Seq<char>>, s: Seq<char>, n: nat) -> Seq<char>
    decreases n,
{
    if n == 0 {
        s
    } else {
        rewrite_n(g, rewrite_once(g, s), (n - 1) as nat)
    }
}

/// A derivation of depth zero is the start string unchanged.
pub proof fn lemma_depth_zero(g: Map<char, Seq<char>>, s: Seq<char>)
    ensures
        rewrite_n(g, s, 0) == s,
{
}

/// An empty string stays empty at every depth.
pub proof fn lemma_rewrite_n_empty(g: Map<char, Seq<char>>, n: nat)
    ensures
        rewrite_n(g, Seq::empty(), n) == Seq::<char>::empty(),
    decreases n,
{
    if n != 0 {
        assert(rewrite_once(g, Seq::empty()) == Seq::<char>::empty());
        lemma_rewrite_n_empty(g, (n - 1) as nat);
    }
}

/// One pass distributes over concatenation.
pub proof fn lemma_rewrite_once_concat(g: Map<char, Seq<char>>, a: Seq<char>, b: Seq<char>)
    ensures
        rewrite_once(g, a + b) == rewrite_once(g, a) + rewrite_once(g, b),
    decreases a.len(),
{
    if a.len() == 0 {
        assert(a + b =~= b);
        assert(rewrite_once(g, a) + rewrite_once(g, b) =~= rewrite_once(g, b));
    } else {
        assert((a + b).drop_first() =~= a.drop_first() + b);
        lemma_rewrite_once_concat(g, a.drop_first(), b);
        assert(expand_symbol(g, a[0]) + (rewrite_once(g, a.drop_first()) + rewrite_once(g, b))
            =~= (expand_symbol(g, a[0]) + rewrite_once(g, a.drop_first())) + rewrite_once(g, b));
    }
}

/// `n` passes distribute over concatenation.
pub proof fn lemma_rewrite_n_concat(g: Map<char, Seq<char>>, a: Seq<char>, b: Seq<char>, n: nat)
    ensures
        rewrite_n(g, a + b, n) == rewrite_n(g, a, n) + rewrite_n(g, b, n),
    decreases n,
{
    if n != 0 {
        lemma_rewrite_once_concat(g, a, b);
        lemma_rewrite_n_concat(g, rewrite_once(g, a), rewrite_once(g, b), (n - 1) as nat);
    }
}

/// One pass over a single symbol is exactly that symbol's replacement.
pub proof fn lemma_rewrite_once_singleton(g: Map<char, Seq<char>>, c: char)
    ensures
        rewrite_once(g, seq![c]) == expand_symbol(g, c),
{
    assert(seq![c].drop_first() =~= Seq::<char>::empty());
    assert(rewrite_once(g, Seq::<char>::empty()) =~= Seq::<char>::empty());
    assert(expand_symbol(g, c) + Seq::<char>::empty() =~= expand_symbol(g, c));
}

/// A terminal symbol reproduces itself unchanged at every depth.
pub proof fn lemma_rewrite_n_terminal(g: Map<char, Seq<char>>, c: char, n: nat)
    requires
        !g.dom().contains(c),
    ensures
        rewrite_n(g, seq![c], n) == seq![c],
    decreases n,
{
    if n != 0 {
        lemma_rewrite_once_singleton(g, c);
        lemma_rewrite_n_terminal(g, c, (n - 1) as nat);
    }
}

/// Rewriting a single symbol `n` times is rewriting its replacement `n - 1`
/// times.  This is the step the lazy generator takes when it moves one layer
/// inward.
pub proof fn lemma_rewrite_n_unfold_symbol(g: Map<char, Seq<char>>, c: char, n: nat)
    requires
        n >= 1,
    ensures
        rewrite_n(g, seq![c], n) == rewrite_n(g, expand_symbol(g, c), (n - 1) as nat),
{
    lemma_rewrite_once_singleton(g, c);
}

} // verus!
