//! The grammar of a deterministic L-system: a finite mapping from symbols to
//! productions, stored as an association list so that lookup needs nothing
//! from the host beyond a vector.  A symbol without an entry is terminal.

use vstd::prelude::*;

verus! {

/// A configuration fault, reported when the faulty value is first used.
#[derive(Clone, Copy, Debug, PartialEq, Eq, Structural)]
pub enum ConfigurationError {
    /// A weighted rule offered no alternative to choose from.
    NoAlternatives,
    /// A production carried weight zero; weights must be positive.
    NonPositiveWeight,
    /// A zero-length vector was given where a heading was required.
    ZeroHeading,
}

/// One rewriting rule: the symbol on the left and its replacement.
pub struct Rule {
    pub symbol: char,
    pub production: Vec<char>,
}

/// The first production listed for `c`, scanning from the front.
pub open spec fn spec_lookup(rules: Seq<Rule>, c: char) -> Option<Seq<char>>
    decreases rules.len(),
{
    if rules.len() == 0 {
        None
    } else if rules[0].symbol == c {
        Some(rules[0].production@)
    } else {
        spec_lookup(rules.drop_first(), c)
    }
}

/// A deterministic grammar: at most one production per symbol.
pub struct Grammar {
    rules: Vec<Rule>,
}

impl View for Grammar {
    type V = Map<char, Seq<char>>;

    closed spec fn view(&self) -> Map<char, Seq<char>> {
        Map::new(
            |c: char| spec_lookup(self.rules@, c) is Some,
            |c: char| spec_lookup(self.rules@, c)->Some_0,
        )
    }
}

/// Skipping rules that do not mention `c` leaves the lookup unchanged.
proof fn lemma_lookup_skip(rules: Seq<Rule>, c: char, i: int)
    requires
        0 <= i <= rules.len(),
        forall|j: int| 0 <= j < i ==> (#[trigger] rules[j]).symbol != c,
    ensures
        spec_lookup(rules.skip(i), c) == spec_lookup(rules, c),
    decreases i,
{
    if i == 0 {
        assert(rules.skip(0) =~= rules);
    } else {
        lemma_lookup_skip(rules, c, i - 1);
        assert(rules.skip(i - 1).drop_first() =~= rules.skip(i));
        assert(rules.skip(i - 1)[0] == rules[i - 1]);
    }
}

/// Replacing the production at the first index whose symbol is `c` changes
/// only the lookup of `c`.
proof fn lemma_lookup_update(rules: Seq<Rule>, c: char, i: int, r: Rule, x: char)
    requires
        0 <= i < rules.len(),
        rules[i].symbol == c,
        r.symbol == c,
        forall|j: int| 0 <= j < i ==> (#[trigger] rules[j]).symbol != c,
    ensures
        spec_lookup(rules.update(i, r), x) == if x == c {
            Some(r.production@)
        } else {
            spec_lookup(rules, x)
        },
    decreases i,
{
    if i == 0 {
        if x != c {
            assert(rules.update(0, r).drop_first() =~= rules.drop_first());
        }
    } else {
        assert(rules.update(i, r).drop_first() =~= rules.drop_first().update(i - 1, r));
        lemma_lookup_update(rules.drop_first(), c, i - 1, r, x);
    }
}

/// Appending a rule for a symbol that has none changes only that symbol's
/// lookup.
proof fn lemma_lookup_push(rules: Seq<Rule>, c: char, r: Rule, x: char)
    requires
        r.symbol == c,
        forall|j: int| 0 <= j < rules.len() ==> (#[trigger] rules[j]).symbol != c,
    ensures
        spec_lookup(rules.push(r), x) == if x == c {
            Some(r.production@)
        } else {
            spec_lookup(rules, x)
        },
    decreases rules.len(),
{
    if rules.len() == 0 {
        assert(rules.push(r)[0] == r);
        if x != c {
            assert(rules.push(r).drop_first() =~= Seq::<Rule>::empty());
            assert(spec_lookup(Seq::<Rule>::empty(), x) is None);
        }
    } else {
        assert(rules.push(r)[0] == rules[0]);
        assert(rules.push(r).drop_first() =~= rules.drop_first().push(r));
        lemma_lookup_push(rules.drop_first(), c, r, x);
    }
}

/// Every production in the map is the production of some stored rule.
proof fn lemma_lookup_is_some_rule(rules: Seq<Rule>, c: char)
    requires
        spec_lookup(rules, c) is Some,
    ensures
        exists|i: int|
            0 <= i < rules.len() && (#[trigger] rules[i]).symbol == c && rules[i].production@
                == spec_lookup(rules, c)->Some_0,
    decreases rules.len(),
{
    if rules.len() > 0 && rules[0].symbol != c {
        lemma_lookup_is_some_rule(rules.drop_first(), c);
        let j = choose|j: int|
            0 <= j < rules.drop_first().len() && (#[trigger] rules.drop_first()[j]).symbol == c
                && rules.drop_first()[j].production@ == spec_lookup(rules.drop_first(), c)->Some_0;
        assert(rules[j + 1] == rules.drop_first()[j]);
    }
}

impl Grammar {
    /// An empty grammar: every symbol is terminal.
    pub fn new() -> (g: Grammar)
        ensures
            g@ == Map::<char, Seq<char>>::empty(),
    {
        let g = Grammar { rules: Vec::new() };
        proof {
            assert(g@ =~= Map::<char, Seq<char>>::empty());
        }
        g
    }

    /// Set the production for `symbol`, replacing an earlier one if present.
    #[verifier::loop_isolation(false)]
    pub fn insert(&mut self, symbol: char, production: Vec<char>)
        ensures
            final(self)@ == old(self)@.insert(symbol, production@),
    {
        let ghost orig = self.rules@;
        let ghost prodv = production@;
        let r = Rule { symbol, production };
        let ghost rr = r;
        let n = self.rules.len();
        let mut i: usize = 0;
        while i < n
            invariant
                0 <= i <= n,
                n == self.rules.len(),
                self.rules@ == orig,
                forall|j: int| 0 <= j < i ==> (#[trigger] orig[j]).symbol != symbol,
            decreases n - i,
        {
            if self.rules[i].symbol == symbol {
                self.rules[i] = r;
                proof {
                    assert forall|x: char|
                        spec_lookup(self.rules@, x) == if x == symbol {
                            Some(prodv)
                        } else {
                            spec_lookup(orig, x)
                        } by {
                        lemma_lookup_update(orig, symbol, i as int, rr, x);
                    }
                    assert(self@ =~= old(self)@.insert(symbol, prodv));
                }
                return ;
            }
            i += 1;
        }
        self.rules.push(r);
        proof {
            assert forall|x: char|
                spec_lookup(self.rules@, x) == if x == symbol {
                    Some(prodv)
                } else {
                    spec_lookup(orig, x)
                } by {
                lemma_lookup_push(orig, symbol, rr, x);
            }
            assert(self@ =~= old(self)@.insert(symbol, prodv));
        }
    }

    /// The production for `c`, or `None` when `c` is terminal.
    #[verifier::loop_isolation(false)]
    pub fn lookup(&self, c: char) -> (r: Option<&Vec<char>>)
        ensures
            match r {
                Some(p) => self@.dom().contains(c) && p@ == self@[c],
                None => !self@.dom().contains(c),
            },
    {
        let n = self.rules.len();
        let mut i: usize = 0;
        while i < n
            invariant
                0 <= i <= n,
                n == self.rules.len(),
                forall|j: int| 0 <= j < i ==> (#[trigger] self.rules@[j]).symbol != c,
            decreases n - i,
        {
            if self.rules[i].symbol == c {
                proof {
                    lemma_lookup_skip(self.rules@, c, i as int);
                    assert(self.rules@.skip(i as int)[0] == self.rules@[i as int]);
                }
                return Some(&self.rules[i].production);
            }
            i += 1;
        }
        proof {
            lemma_lookup_skip(self.rules@, c, n as int);
            assert(self.rules@.skip(n as int).len() == 0);
        }
        None
    }

    /// An upper bound on the length of every production in the grammar.
    #[verifier::loop_isolation(false)]
    pub fn widest_production(&self) -> (w: usize)
        ensures
            forall|c: char| self@.dom().contains(c) ==> (#[trigger] self@[c]).len() <= w,
    {
        let n = self.rules.len();
        let mut w: usize = 0;
        let mut i: usize = 0;
        while i < n
            invariant
                0 <= i <= n,
                n == self.rules.len(),
                forall|j: int| 0 <= j < i ==> (#[trigger] self.rules@[j]).production@.len() <= w,
            decreases n - i,
        {
            let len = self.rules[i].production.len();
            if len > w {
                w = len;
            }
            i += 1;
        }
        proof {
            assert forall|c: char| self@.dom().contains(c) implies (#[trigger] self@[c]).len()
                <= w by {
                lemma_lookup_is_some_rule(self.rules@, c);
            }
        }
        w
    }
}

} // verus!
