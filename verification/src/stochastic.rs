//! Weighted (stochastic) grammars: a symbol may carry several productions,
//! each with a positive weight, and one is drawn at random at the moment of
//! expansion, independently for every occurrence.  What a stochastic run can
//! produce is captured by the relation [`stoch_derives`].

use vstd::prelude::*;

use crate::expression::{
    clone_chars, lemma_potential_congruence, lemma_potential_nonneg, lemma_potential_update,
    potential_from, SymbolSource,
};
use vstd::arithmetic::power::pow;
use crate::grammar::ConfigurationError;
use crate::random::RandomSource;

verus! {

/// One weighted alternative for a symbol.
pub struct WeightedProduction {
    /// The replacement sequence.
    pub symbols: Vec<char>,
    /// The positive selection weight.  A zero weight is a configuration
    /// error, raised when the alternative's symbol is first expanded.
    pub weight: u32,
}

/// One rule: a symbol and its weighted alternatives.
struct StochasticRule {
    symbol: char,
    alternatives: Vec<WeightedProduction>,
}

/// The first alternatives listed for `c`, scanning from the front.
spec fn spec_stoch_lookup(rules: Seq<StochasticRule>, c: char) -> Option<Seq<WeightedProduction>>
    decreases rules.len(),
{
    if rules.len() == 0 {
        None
    } else if rules[0].symbol == c {
        Some(rules[0].alternatives@)
    } else {
        spec_stoch_lookup(rules.drop_first(), c)
    }
}

/// A weighted grammar: a symbol without an entry is terminal.
pub struct StochasticGrammar {
    rules: Vec<StochasticRule>,
}

impl View for StochasticGrammar {
    type V = Map<char, Seq<WeightedProduction>>;

    closed spec fn view(&self) -> Map<char, Seq<WeightedProduction>> {
        Map::new(
            |c: char| spec_stoch_lookup(self.rules@, c) is Some,
            |c: char| spec_stoch_lookup(self.rules@, c)->Some_0,
        )
    }
}

proof fn lemma_stoch_lookup_skip(rules: Seq<StochasticRule>, c: char, i: int)
    requires
        0 <= i <= rules.len(),
        forall|j: int| 0 <= j < i ==> (#[trigger] rules[j]).symbol != c,
    ensures
        spec_stoch_lookup(rules.skip(i), c) == spec_stoch_lookup(rules, c),
    decreases i,
{
    if i == 0 {
        assert(rules.skip(0) =~= rules);
    } else {
        lemma_stoch_lookup_skip(rules, c, i - 1);
        assert(rules.skip(i - 1).drop_first() =~= rules.skip(i));
        assert(rules.skip(i - 1)[0] == rules[i - 1]);
    }
}

proof fn lemma_stoch_lookup_update(
    rules: Seq<StochasticRule>,
    c: char,
    i: int,
    r: StochasticRule,
    x: char,
)
    requires
        0 <= i < rules.len(),
        rules[i].symbol == c,
        r.symbol == c,
        forall|j: int| 0 <= j < i ==> (#[trigger] rules[j]).symbol != c,
    ensures
        spec_stoch_lookup(rules.update(i, r), x) == if x == c {
            Some(r.alternatives@)
        } else {
            spec_stoch_lookup(rules, x)
        },
    decreases i,
{
    if i == 0 {
        if x != c {
            assert(rules.update(0, r).drop_first() =~= rules.drop_first());
        }
    } else {
        assert(rules.update(i, r).drop_first() =~= rules.drop_first().update(i - 1, r));
        lemma_stoch_lookup_update(rules.drop_first(), c, i - 1, r, x);
    }
}

proof fn lemma_stoch_lookup_push(rules: Seq<StochasticRule>, c: char, r: StochasticRule, x: char)
    requires
        r.symbol == c,
        forall|j: int| 0 <= j < rules.len() ==> (#[trigger] rules[j]).symbol != c,
    ensures
        spec_stoch_lookup(rules.push(r), x) == if x == c {
            Some(r.alternatives@)
        } else {
            spec_stoch_lookup(rules, x)
        },
    decreases rules.len(),
{
    if rules.len() == 0 {
        assert(rules.push(r)[0] == r);
        if x != c {
            assert(rules.push(r).drop_first() =~= Seq::<StochasticRule>::empty());
            assert(spec_stoch_lookup(Seq::<StochasticRule>::empty(), x) is None);
        }
    } else {
        assert(rules.push(r)[0] == rules[0]);
        assert(rules.push(r).drop_first() =~= rules.drop_first().push(r));
        lemma_stoch_lookup_push(rules.drop_first(), c, r, x);
    }
}

impl StochasticGrammar {
    /// An empty grammar: every symbol is terminal.
    pub fn new() -> (g: StochasticGrammar)
        ensures
            g@ == Map::<char, Seq<WeightedProduction>>::empty(),
    {
        let g = StochasticGrammar { rules: Vec::new() };
        proof {
            assert(g@ =~= Map::<char, Seq<WeightedProduction>>::empty());
        }
        g
    }

    /// Set the alternatives for `symbol`, replacing earlier ones if present.
    #[verifier::loop_isolation(false)]
    pub fn insert(&mut self, symbol: char, alternatives: Vec<WeightedProduction>)
        requires
            alternatives@.len() < 0x1_0000_0000,
        ensures
            final(self)@ == old(self)@.insert(symbol, alternatives@),
    {
        let ghost orig = self.rules@;
        let ghost altv = alternatives@;
        let r = StochasticRule { symbol, alternatives };
        let ghost rr = r;
        let n = self.rules.len();
        let mut i: usize = 0;
        while i < n
            invariant
                0 <= i <= n,
                n == self.rules.len(),
                self.rules@ == orig,
                forall|j: int| 0 <= j < i ==> (#[trigger] orig[j]).symbol != symbol,
            decreases n - i,
        {
            if self.rules[i].symbol == symbol {
                self.rules[i] = r;
                proof {
                    assert forall|x: char|
                        spec_stoch_lookup(self.rules@, x) == if x == symbol {
                            Some(altv)
                        } else {
                            spec_stoch_lookup(orig, x)
                        } by {
                        lemma_stoch_lookup_update(orig, symbol, i as int, rr, x);
                    }
                    assert(self@ =~= old(self)@.insert(symbol, altv));
                }
                return ;
            }
            i += 1;
        }
        self.rules.push(r);
        proof {
            assert forall|x: char|
                spec_stoch_lookup(self.rules@, x) == if x == symbol {
                    Some(altv)
                } else {
                    spec_stoch_lookup(orig, x)
                } by {
                lemma_stoch_lookup_push(orig, symbol, rr, x);
            }
            assert(self@ =~= old(self)@.insert(symbol, altv));
        }
    }

    /// The alternatives for `c`, or `None` when `c` is terminal.
    #[verifier::loop_isolation(false)]
    pub fn lookup(&self, c: char) -> (r: Option<&Vec<WeightedProduction>>)
        ensures
            match r {
                Some(p) => self@.dom().contains(c) && p@ == self@[c],
                None => !self@.dom().contains(c),
            },
    {
        let n = self.rules.len();
        let mut i: usize = 0;
        while i < n
            invariant
                0 <= i <= n,
                n == self.rules.len(),
                forall|j: int| 0 <= j < i ==> (#[trigger] self.rules@[j]).symbol != c,
            decreases n - i,
        {
            if self.rules[i].symbol == c {
                proof {
                    lemma_stoch_lookup_skip(self.rules@, c, i as int);
                    assert(self.rules@.skip(i as int)[0] == self.rules@[i as int]);
                }
                return Some(&self.rules[i].alternatives);
            }
            i += 1;
        }
        proof {
            lemma_stoch_lookup_skip(self.rules@, c, n as int);
        }
        None
    }
}

proof fn lemma_stoch_lookup_is_some_rule(rules: Seq<StochasticRule>, c: char)
    requires
        spec_stoch_lookup(rules, c) is Some,
    ensures
        exists|i: int|
            0 <= i < rules.len() && (#[trigger] rules[i]).symbol == c && rules[i].alternatives@
                == spec_stoch_lookup(rules, c)->Some_0,
    decreases rules.len(),
{
    if rules.len() > 0 && rules[0].symbol != c {
        lemma_stoch_lookup_is_some_rule(rules.drop_first(), c);
        let j = choose|j: int|
            0 <= j < rules.drop_first().len() && (#[trigger] rules.drop_first()[j]).symbol == c
                && rules.drop_first()[j].alternatives@ == spec_stoch_lookup(
                rules.drop_first(),
                c,
            )->Some_0;
        assert(rules[j + 1] == rules.drop_first()[j]);
    }
}

impl StochasticGrammar {
    /// An upper bound on the length of every alternative's replacement in
    /// the grammar.
    #[verifier::loop_isolation(false)]
    pub fn widest_production(&self) -> (w: usize)
        ensures
            forall|c: char, k: int|
                self@.dom().contains(c) && 0 <= k < self@[c].len() ==> (
                #[trigger] self@[c][k]).symbols@.len() <= w,
    {
        let n = self.rules.len();
        let mut w: usize = 0;
        let mut i: usize = 0;
        while i < n
            invariant
                0 <= i <= n,
                n == self.rules.len(),
                forall|j: int, k: int|
                    0 <= j < i && 0 <= k < self.rules@[j].alternatives@.len() ==> (#[trigger] self
                        .rules@[j].alternatives@[k]).symbols@.len() <= w,
            decreases n - i,
        {
            let alts = &self.rules[i].alternatives;
            let m = alts.len();
            let mut k: usize = 0;
            while k < m
                invariant
                    0 <= k <= m,
                    m == alts@.len(),
                    alts@ == self.rules@[i as int].alternatives@,
                    i < n,
                    n == self.rules.len(),
                    forall|j: int, k2: int|
                        0 <= j < i && 0 <= k2 < self.rules@[j].alternatives@.len() ==> (
                        #[trigger] self.rules@[j].alternatives@[k2]).symbols@.len() <= w,
                    forall|k2: int|
                        0 <= k2 < k ==> (#[trigger] alts@[k2]).symbols@.len() <= w,
                decreases m - k,
            {
                let len = alts[k].symbols.len();
                if len > w {
                    w = len;
                }
                k += 1;
            }
            i += 1;
        }
        proof {
            assert forall|c: char, k: int|
                self@.dom().contains(c) && 0 <= k < self@[c].len() implies (
            #[trigger] self@[c][k]).symbols@.len() <= w by {
                lemma_stoch_lookup_is_some_rule(self.rules@, c);
            }
        }
        w
    }
}

/// The sum of the first `i` weights.
pub open spec fn prefix_weight(alts: Seq<WeightedProduction>, i: int) -> int
    decreases i,
{
    if i <= 0 {
        0
    } else {
        prefix_weight(alts, i - 1) + alts[i - 1].weight
    }
}

/// The sum of all weights.
pub open spec fn total_weight(alts: Seq<WeightedProduction>) -> int {
    prefix_weight(alts, alts.len() as int)
}

/// No alternative carries weight zero.
pub open spec fn all_weights_positive(alts: Seq<WeightedProduction>) -> bool {
    forall|i: int| 0 <= i < alts.len() ==> (#[trigger] alts[i]).weight > 0
}

/// No entry holds more alternatives than a 64-bit weight sum can count;
/// a machine limit the selection arithmetic needs.
pub open spec fn stoch_map_bounded(g: Map<char, Seq<WeightedProduction>>) -> bool {
    forall|c: char| g.dom().contains(c) ==> (#[trigger] g[c]).len() < 0x1_0000_0000
}

/// Every entry of the grammar can be selected from: it offers at least one
/// alternative and only positive weights.
pub open spec fn stoch_map_wf(g: Map<char, Seq<WeightedProduction>>) -> bool {
    forall|c: char|
        g.dom().contains(c) ==> (#[trigger] g[c]).len() > 0 && all_weights_positive(g[c])
}

/// The entry for `c` forces exactly the fault `e` when it is selected from:
/// it offers no alternative, or it carries a zero weight.
pub open spec fn entry_faults(
    g: Map<char, Seq<WeightedProduction>>,
    c: char,
    e: ConfigurationError,
) -> bool {
    g.dom().contains(c) && ((e == ConfigurationError::NoAlternatives && g[c].len() == 0) || (e
        == ConfigurationError::NonPositiveWeight && !all_weights_positive(g[c])))
}

/// Some entry of the grammar forces the fault `e`.
pub open spec fn some_entry_faults(g: Map<char, Seq<WeightedProduction>>, e: ConfigurationError) -> bool {
    exists|c: char| entry_faults(g, c, e)
}

/// The alternative a draw selects: the index whose cumulative weight
/// interval contains `draw`.
pub open spec fn spec_pick(alts: Seq<WeightedProduction>, draw: int) -> int
    decreases alts.len(),
{
    if alts.len() == 0 {
        0
    } else if draw < alts[0].weight {
        0
    } else {
        1 + spec_pick(alts.drop_first(), draw - alts[0].weight)
    }
}

/// What one weighted selection yields from a seeded source: the fault of an
/// entry that cannot be selected from, or the picked index and the stepped
/// state.  Equal states pick equally.
pub open spec fn spec_select_seeded(alts: Seq<WeightedProduction>, state: u64) -> Result<
    (int, u64),
    ConfigurationError,
> {
    if alts.len() == 0 {
        Err(ConfigurationError::NoAlternatives)
    } else if !all_weights_positive(alts) {
        Err(ConfigurationError::NonPositiveWeight)
    } else {
        Ok(
            (
                spec_pick(
                    alts,
                    (crate::random::seeded_output(state) as int) % total_weight(alts),
                ),
                crate::random::seeded_step(state),
            ),
        )
    }
}

/// A prefix sum one longer counts the first weight once.
proof fn lemma_prefix_weight_shift(alts: Seq<WeightedProduction>, k: int)
    requires
        alts.len() > 0,
        0 <= k,
        k + 1 <= alts.len(),
    ensures
        prefix_weight(alts, k + 1) == alts[0].weight + prefix_weight(alts.drop_first(), k),
    decreases k,
{
    if k == 0 {
        assert(prefix_weight(alts, 0) == 0);
        assert(prefix_weight(alts.drop_first(), 0) == 0);
    } else {
        lemma_prefix_weight_shift(alts, k - 1);
        assert(alts.drop_first()[k - 1] == alts[k]);
    }
}

/// `spec_pick` lands in the cumulative interval that contains the draw.
proof fn lemma_spec_pick_interval(alts: Seq<WeightedProduction>, draw: int)
    requires
        all_weights_positive(alts),
        0 <= draw,
        draw < total_weight(alts),
    ensures
        0 <= spec_pick(alts, draw) < alts.len(),
        prefix_weight(alts, spec_pick(alts, draw)) <= draw,
        draw < prefix_weight(alts, spec_pick(alts, draw) + 1),
    decreases alts.len(),
{
    if alts.len() == 0 {
        assert(prefix_weight(alts, 0) == 0);
    } else if draw < alts[0].weight {
        assert(prefix_weight(alts, 0) == 0);
        assert(prefix_weight(alts, 1) == alts[0].weight) by {
            assert(prefix_weight(alts, 0) == 0);
        }
    } else {
        assert forall|j: int| 0 <= j < alts.drop_first().len() implies (#[trigger] alts.drop_first()[j]).weight > 0 by {
            assert(alts.drop_first()[j] == alts[j + 1]);
        }
        lemma_prefix_weight_shift(alts, alts.drop_first().len() as int);
        lemma_spec_pick_interval(alts.drop_first(), draw - alts[0].weight);
        let k = spec_pick(alts.drop_first(), draw - alts[0].weight);
        lemma_prefix_weight_shift(alts, k);
        lemma_prefix_weight_shift(alts, k + 1);
    }
}

/// The cumulative intervals are disjoint: the draw pins the index.
proof fn lemma_weighted_interval_unique(alts: Seq<WeightedProduction>, draw: int, i: int, j: int)
    requires
        0 <= i < alts.len(),
        0 <= j < alts.len(),
        prefix_weight(alts, i) <= draw < prefix_weight(alts, i + 1),
        prefix_weight(alts, j) <= draw < prefix_weight(alts, j + 1),
    ensures
        i == j,
{
    if i < j {
        lemma_prefix_weight_monotone(alts, i + 1, j);
    }
    if j < i {
        lemma_prefix_weight_monotone(alts, j + 1, i);
    }
}

/// Weight prefix sums grow with the prefix.
proof fn lemma_prefix_weight_monotone(alts: Seq<WeightedProduction>, i: int, j: int)
    requires
        0 <= i <= j,
    ensures
        prefix_weight(alts, i) <= prefix_weight(alts, j),
    decreases j - i,
{
    if i < j {
        lemma_prefix_weight_monotone(alts, i, j - 1);
    }
}

/// The sum of all weights, with the faults the specification calls for:
/// an entry with nothing to choose, or a non-positive weight, reported at
/// selection time.
#[verifier::loop_isolation(false)]
fn sum_weights(alts: &Vec<WeightedProduction>) -> (r: Result<u64, ConfigurationError>)
    requires
        alts@.len() < 0x1_0000_0000,
    ensures
        match r {
            Ok(t) => t as int == total_weight(alts@) && all_weights_positive(alts@) && alts@.len()
                > 0 && t > 0,
            Err(e) => (e == ConfigurationError::NoAlternatives && alts@.len() == 0) || (e
                == ConfigurationError::NonPositiveWeight && !all_weights_positive(alts@)),
        },
{
    let n = alts.len();
    if n == 0 {
        return Err(ConfigurationError::NoAlternatives);
    }
    let mut acc: u64 = 0;
    let mut i: usize = 0;
    while i < n
        invariant
            0 <= i <= n,
            acc as int == prefix_weight(alts@, i as int),
            acc as int <= i as int * 0xFFFF_FFFFint,
            forall|j: int| 0 <= j < i ==> (#[trigger] alts@[j]).weight > 0,
        decreases n - i,
    {
        let w = alts[i].weight;
        if w == 0 {
            return Err(ConfigurationError::NonPositiveWeight);
        }
        proof {
            assert(acc as int + w as int <= (i as int + 1) * 0xFFFF_FFFFint) by (nonlinear_arith)
                requires
                    acc as int <= i as int * 0xFFFF_FFFFint,
                    w <= 0xFFFF_FFFFu32,
                    i >= 0,
            ;
            assert((i as int + 1) * 0xFFFF_FFFFint < 0x1_0000_0000int * 0xFFFF_FFFFint)
                by (nonlinear_arith)
                requires
                    i as int + 1 < 0x1_0000_0000int,
            ;
        }
        acc = acc + (w as u64);
        i += 1;
    }
    proof {
        lemma_prefix_weight_monotone(alts@, 1, n as int);
        assert(prefix_weight(alts@, 0) == 0);
        assert(prefix_weight(alts@, 1) == alts@[0].weight as int);
    }
    Ok(acc)
}

/// The alternative a draw selects: the unique index whose cumulative weight
/// interval contains `r`.
#[verifier::loop_isolation(false)]
fn weighted_index(alts: &Vec<WeightedProduction>, r: u64, total: u64) -> (i: usize)
    requires
        total as int == total_weight(alts@),
        (r as int) < total as int,
        all_weights_positive(alts@),
    ensures
        i < alts@.len(),
        prefix_weight(alts@, i as int) <= r as int,
        (r as int) < prefix_weight(alts@, i as int + 1),
{
    let n = alts.len();
    let mut acc: u64 = 0;
    let mut i: usize = 0;
    while i < n
        invariant
            0 <= i <= n,
            acc as int == prefix_weight(alts@, i as int),
            acc as int <= r as int,
        decreases n - i,
    {
        proof {
            lemma_prefix_weight_monotone(alts@, i as int + 1, n as int);
        }
        let w = alts[i].weight;
        if r < acc + (w as u64) {
            return i;
        }
        acc = acc + (w as u64);
        i += 1;
    }
    proof {
        assert(false);
    }
    0
}

/// `t` is a replacement a stochastic expansion of `c` may produce: one of
/// the listed alternatives, or `c` itself when `c` is terminal.
pub open spec fn stoch_expand_ok(
    g: Map<char, Seq<WeightedProduction>>,
    c: char,
    t: Seq<char>,
) -> bool {
    if g.dom().contains(c) {
        exists|i: int| 0 <= i < g[c].len() && t == (#[trigger] g[c][i]).symbols@
    } else {
        t == seq![c]
    }
}

/// `t` is a string one stochastic pass over `s` may produce.
pub open spec fn stoch_once(
    g: Map<char, Seq<WeightedProduction>>,
    s: Seq<char>,
    t: Seq<char>,
) -> bool
    decreases s.len(),
{
    if s.len() == 0 {
        t.len() == 0
    } else {
        exists|u: Seq<char>, v: Seq<char>|
            t == #[trigger] (u + v) && stoch_expand_ok(g, s[0], u) && stoch_once(
                g,
                s.drop_first(),
                v,
            )
    }
}

/// `t` is a string `n` stochastic passes over `s` may produce.
pub open spec fn stoch_derives(
    g: Map<char, Seq<WeightedProduction>>,
    s: Seq<char>,
    t: Seq<char>,
    n: nat,
) -> bool
    decreases n,
{
    if n == 0 {
        t == s
    } else {
        exists|mid: Seq<char>| #[trigger]
            stoch_once(g, s, mid) && stoch_derives(g, mid, t, (n - 1) as nat)
    }
}

/// Extending the source by one symbol extends a pass by one replacement.
proof fn lemma_stoch_once_append(
    g: Map<char, Seq<WeightedProduction>>,
    s: Seq<char>,
    t: Seq<char>,
    c: char,
    u: Seq<char>,
)
    requires
        stoch_once(g, s, t),
        stoch_expand_ok(g, c, u),
    ensures
        stoch_once(g, s.push(c), t + u),
    decreases s.len(),
{
    if s.len() == 0 {
        assert(s.push(c)[0] == c);
        assert(s.push(c).drop_first() =~= Seq::<char>::empty());
        assert(t + u =~= u + Seq::<char>::empty());
        assert(stoch_once(g, Seq::<char>::empty(), Seq::<char>::empty()));
        assert(u + Seq::<char>::empty() == #[trigger] (u + Seq::<char>::empty()) && stoch_expand_ok(
            g,
            s.push(c)[0],
            u,
        ) && stoch_once(g, s.push(c).drop_first(), Seq::<char>::empty()));
    } else {
        let (u0, v0) = choose|u0: Seq<char>, v0: Seq<char>|
            t == #[trigger] (u0 + v0) && stoch_expand_ok(g, s[0], u0) && stoch_once(
                g,
                s.drop_first(),
                v0,
            );
        lemma_stoch_once_append(g, s.drop_first(), v0, c, u);
        assert(s.push(c)[0] == s[0]);
        assert(s.push(c).drop_first() =~= s.drop_first().push(c));
        assert(t + u =~= u0 + (v0 + u));
        assert(u0 + (v0 + u) == #[trigger] (u0 + (v0 + u)) && stoch_expand_ok(g, s.push(c)[0], u0)
            && stoch_once(g, s.push(c).drop_first(), v0 + u));
    }
}

/// A derivation followed by one more pass is a derivation one deeper.
proof fn lemma_stoch_derives_extend(
    g: Map<char, Seq<WeightedProduction>>,
    s: Seq<char>,
    mid: Seq<char>,
    t: Seq<char>,
    n: nat,
)
    requires
        stoch_derives(g, s, mid, n),
        stoch_once(g, mid, t),
    ensures
        stoch_derives(g, s, t, (n + 1) as nat),
    decreases n,
{
    if n == 0 {
        assert(stoch_once(g, s, t) && stoch_derives(g, t, t, 0));
    } else {
        let m1 = choose|m1: Seq<char>| #[trigger]
            stoch_once(g, s, m1) && stoch_derives(g, m1, mid, (n - 1) as nat);
        lemma_stoch_derives_extend(g, m1, mid, t, (n - 1) as nat);
        assert(stoch_once(g, s, m1) && stoch_derives(g, m1, t, n));
    }
}

/// Passes compose over concatenation.
proof fn lemma_stoch_once_concat(
    g: Map<char, Seq<WeightedProduction>>,
    s1: Seq<char>,
    t1: Seq<char>,
    s2: Seq<char>,
    t2: Seq<char>,
)
    requires
        stoch_once(g, s1, t1),
        stoch_once(g, s2, t2),
    ensures
        stoch_once(g, s1 + s2, t1 + t2),
    decreases s1.len(),
{
    if s1.len() == 0 {
        assert(s1 + s2 =~= s2);
        assert(t1 + t2 =~= t2);
    } else {
        let (u, v) = choose|u: Seq<char>, v: Seq<char>|
            t1 == #[trigger] (u + v) && stoch_expand_ok(g, s1[0], u) && stoch_once(
                g,
                s1.drop_first(),
                v,
            );
        lemma_stoch_once_concat(g, s1.drop_first(), v, s2, t2);
        assert((s1 + s2)[0] == s1[0]);
        assert((s1 + s2).drop_first() =~= s1.drop_first() + s2);
        assert(t1 + t2 =~= u + (v + t2));
        assert(u + (v + t2) == #[trigger] (u + (v + t2)) && stoch_expand_ok(g, (s1 + s2)[0], u)
            && stoch_once(g, (s1 + s2).drop_first(), v + t2));
    }
}

/// Derivations compose over concatenation.
proof fn lemma_stoch_derives_concat(
    g: Map<char, Seq<WeightedProduction>>,
    s1: Seq<char>,
    t1: Seq<char>,
    s2: Seq<char>,
    t2: Seq<char>,
    n: nat,
)
    requires
        stoch_derives(g, s1, t1, n),
        stoch_derives(g, s2, t2, n),
    ensures
        stoch_derives(g, s1 + s2, t1 + t2, n),
    decreases n,
{
    if n != 0 {
        let m1 = choose|m1: Seq<char>| #[trigger]
            stoch_once(g, s1, m1) && stoch_derives(g, m1, t1, (n - 1) as nat);
        let m2 = choose|m2: Seq<char>| #[trigger]
            stoch_once(g, s2, m2) && stoch_derives(g, m2, t2, (n - 1) as nat);
        lemma_stoch_once_concat(g, s1, m1, s2, m2);
        lemma_stoch_derives_concat(g, m1, t1, m2, t2, (n - 1) as nat);
        assert(stoch_once(g, s1 + s2, m1 + m2) && stoch_derives(g, m1 + m2, t1 + t2, (
        n - 1) as nat));
    }
}

/// The empty string derives only itself.
proof fn lemma_stoch_derives_empty(g: Map<char, Seq<WeightedProduction>>, n: nat)
    ensures
        stoch_derives(g, Seq::<char>::empty(), Seq::<char>::empty(), n),
    decreases n,
{
    if n != 0 {
        lemma_stoch_derives_empty(g, (n - 1) as nat);
        assert(stoch_once(g, Seq::<char>::empty(), Seq::<char>::empty()) && stoch_derives(
            g,
            Seq::<char>::empty(),
            Seq::<char>::empty(),
            (n - 1) as nat,
        ));
    }
}

/// Whatever the empty string derives is empty.
proof fn lemma_stoch_derives_of_empty(g: Map<char, Seq<WeightedProduction>>, t: Seq<char>, n: nat)
    requires
        stoch_derives(g, Seq::<char>::empty(), t, n),
    ensures
        t == Seq::<char>::empty(),
    decreases n,
{
    if n != 0 {
        let mid = choose|mid: Seq<char>| #[trigger]
            stoch_once(g, Seq::<char>::empty(), mid) && stoch_derives(g, mid, t, (n - 1) as nat);
        assert(mid =~= Seq::<char>::empty());
        lemma_stoch_derives_of_empty(g, t, (n - 1) as nat);
    }
}

/// A terminal symbol derives only itself, and always does.
proof fn lemma_stoch_derives_terminal(g: Map<char, Seq<WeightedProduction>>, c: char, n: nat)
    requires
        !g.dom().contains(c),
    ensures
        stoch_derives(g, seq![c], seq![c], n),
    decreases n,
{
    if n != 0 {
        lemma_stoch_derives_terminal(g, c, (n - 1) as nat);
        assert(stoch_once(g, seq![c], seq![c])) by {
            lemma_stoch_once_symbol(g, c, seq![c]);
        }
        assert(stoch_once(g, seq![c], seq![c]) && stoch_derives(g, seq![c], seq![c], (
        n - 1) as nat));
    }
}

/// One pass over a single symbol is one acceptable replacement.
proof fn lemma_stoch_once_symbol(g: Map<char, Seq<WeightedProduction>>, c: char, p: Seq<char>)
    requires
        stoch_expand_ok(g, c, p),
    ensures
        stoch_once(g, seq![c], p),
{
    assert(seq![c].drop_first() =~= Seq::<char>::empty());
    assert(p =~= p + Seq::<char>::empty());
    assert(p + Seq::<char>::empty() == #[trigger] (p + Seq::<char>::empty()) && stoch_expand_ok(
        g,
        seq![c][0],
        p,
    ) && stoch_once(g, seq![c].drop_first(), Seq::<char>::empty()));
}

/// A symbol derives at depth `n + 1` whatever one of its replacements
/// derives at depth `n`.
proof fn lemma_stoch_derives_symbol_step(
    g: Map<char, Seq<WeightedProduction>>,
    c: char,
    p: Seq<char>,
    u: Seq<char>,
    n: nat,
)
    requires
        stoch_expand_ok(g, c, p),
        stoch_derives(g, p, u, n),
    ensures
        stoch_derives(g, seq![c], u, (n + 1) as nat),
{
    lemma_stoch_once_symbol(g, c, p);
    assert(stoch_once(g, seq![c], p) && stoch_derives(g, p, u, n));
}

/// Select one alternative by weighted random draw.  The faults are exactly
/// those of the weights; with a seeded source the selected index is a
/// function of the source's state.
pub fn select_production(alts: &Vec<WeightedProduction>, source: &mut RandomSource) -> (r: Result<
    usize,
    ConfigurationError,
>)
    requires
        alts@.len() < 0x1_0000_0000,
    ensures
        match r {
            Ok(i) => i < alts@.len() && alts@.len() > 0 && all_weights_positive(alts@),
            Err(e) => (e == ConfigurationError::NoAlternatives && alts@.len() == 0) || (e
                == ConfigurationError::NonPositiveWeight && !all_weights_positive(alts@)),
        },
        alts@.len() > 0 && all_weights_positive(alts@) ==> r is Ok,
        match r {
            Ok(i) => match *old(source) {
                RandomSource::Seeded { state } => {
                    let draw = (crate::random::seeded_output(state) as int) % total_weight(
                        alts@,
                    );
                    &&& *final(source) == (RandomSource::Seeded {
                        state: crate::random::seeded_step(state),
                    })
                    &&& prefix_weight(alts@, i as int) <= draw < prefix_weight(alts@, i as int + 1)
                    &&& spec_select_seeded(alts@, state) == Ok::<(int, u64), ConfigurationError>(
                        (i as int, crate::random::seeded_step(state)),
                    )
                },
                RandomSource::System => *final(source) == RandomSource::System,
            },
            Err(e) => *final(source) == *old(source) && (*old(source) is Seeded
                ==> spec_select_seeded(alts@, seeded_state(*old(source))) == Err::<
                (int, u64),
                ConfigurationError,
            >(e)),
        },
{
    let total = match sum_weights(alts) {
        Ok(t) => t,
        Err(e) => {
            return Err(e);
        },
    };
    let draw = source.next_below(total);
    let i = weighted_index(alts, draw, total);
    proof {
        if let RandomSource::Seeded { state } = *old(source) {
            let d = (crate::random::seeded_output(state) as int) % total_weight(alts@);
            lemma_spec_pick_interval(alts@, d);
            lemma_weighted_interval_unique(alts@, d, i as int, spec_pick(alts@, d));
        }
    }
    Ok(i)
}

/// The state a seeded source holds.
pub open spec fn seeded_state(s: RandomSource) -> u64 {
    match s {
        RandomSource::Seeded { state } => state,
        RandomSource::System => 0,
    }
}

/// One eager stochastic pass over `s` under a seeded source, as a function
/// of the source state: the rewritten string and the state left behind, or
/// the fault of the first bad entry reached.
pub open spec fn spec_pass_seeded(
    g: Map<char, Seq<WeightedProduction>>,
    s: Seq<char>,
    state: u64,
) -> Result<(Seq<char>, u64), ConfigurationError>
    decreases s.len(),
{
    if s.len() == 0 {
        Ok((Seq::empty(), state))
    } else {
        let c = s[0];
        if !g.dom().contains(c) {
            match spec_pass_seeded(g, s.drop_first(), state) {
                Ok(rest) => Ok((seq![c] + rest.0, rest.1)),
                Err(e) => Err(e),
            }
        } else {
            match spec_select_seeded(g[c], state) {
                Err(e) => Err(e),
                Ok(pick) => match spec_pass_seeded(g, s.drop_first(), pick.1) {
                    Ok(rest) => Ok((g[c][pick.0].symbols@ + rest.0, rest.1)),
                    Err(e) => Err(e),
                },
            }
        }
    }
}

/// `n` eager stochastic passes under a seeded source, as a function of the
/// source state.  Equal grammars, start strings, depths and seeds rewrite to
/// equal strings.
pub open spec fn spec_rewrite_seeded(
    g: Map<char, Seq<WeightedProduction>>,
    s: Seq<char>,
    n: nat,
    state: u64,
) -> Result<(Seq<char>, u64), ConfigurationError>
    decreases n,
{
    if n == 0 {
        Ok((s, state))
    } else {
        match spec_pass_seeded(g, s, state) {
            Err(e) => Err(e),
            Ok(mid) => spec_rewrite_seeded(g, mid.0, (n - 1) as nat, mid.1),
        }
    }
}

/// `t` is a possible joint outcome of finishing layers `i..`: each layer's
/// remaining content derived through as many passes as its level owes,
/// concatenated in layer order.
spec fn completes_layers(
    g: Map<char, Seq<WeightedProduction>>,
    rems: Seq<Seq<char>>,
    i: int,
    t: Seq<char>,
) -> bool
    decreases rems.len() - i,
{
    if 0 <= i < rems.len() {
        exists|u: Seq<char>, v: Seq<char>|
            t == #[trigger] (u + v) && stoch_derives(g, rems[i], u, i as nat) && completes_layers(
                g,
                rems,
                i + 1,
                v,
            )
    } else {
        t.len() == 0
    }
}

/// Layer suffixes that agree element by element have the same completions.
proof fn lemma_completes_congruence(
    g: Map<char, Seq<WeightedProduction>>,
    r1: Seq<Seq<char>>,
    r2: Seq<Seq<char>>,
    i: int,
)
    requires
        r1.len() == r2.len(),
        forall|k: int| i <= k < r1.len() ==> r1[k] == r2[k],
    ensures
        forall|t: Seq<char>| completes_layers(g, r1, i, t) == completes_layers(g, r2, i, t),
    decreases r1.len() - i,
{
    if 0 <= i < r1.len() {
        lemma_completes_congruence(g, r1, r2, i + 1);
        assert forall|t: Seq<char>|
            completes_layers(g, r1, i, t) == completes_layers(g, r2, i, t) by {
            if completes_layers(g, r1, i, t) {
                let (u, v) = choose|u: Seq<char>, v: Seq<char>|
                    t == #[trigger] (u + v) && stoch_derives(g, r1[i], u, i as nat)
                        && completes_layers(g, r1, i + 1, v);
                assert(u + v == #[trigger] (u + v) && stoch_derives(g, r2[i], u, i as nat)
                    && completes_layers(g, r2, i + 1, v));
            }
            if completes_layers(g, r2, i, t) {
                let (u, v) = choose|u: Seq<char>, v: Seq<char>|
                    t == #[trigger] (u + v) && stoch_derives(g, r2[i], u, i as nat)
                        && completes_layers(g, r2, i + 1, v);
                assert(u + v == #[trigger] (u + v) && stoch_derives(g, r1[i], u, i as nat)
                    && completes_layers(g, r1, i + 1, v));
            }
        }
    }
}

/// Empty layers below `i` contribute nothing to a completion.
proof fn lemma_completes_skip_empty(
    g: Map<char, Seq<WeightedProduction>>,
    rems: Seq<Seq<char>>,
    j: int,
    i: int,
)
    requires
        0 <= j <= i <= rems.len(),
        forall|k: int| j <= k < i ==> (#[trigger] rems[k]).len() == 0,
    ensures
        forall|t: Seq<char>| completes_layers(g, rems, j, t) == completes_layers(g, rems, i, t),
    decreases i - j,
{
    if j < i {
        lemma_completes_skip_empty(g, rems, j + 1, i);
        assert(rems[j] =~= Seq::<char>::empty());
        assert forall|t: Seq<char>|
            completes_layers(g, rems, j, t) == completes_layers(g, rems, j + 1, t) by {
            if completes_layers(g, rems, j, t) {
                let (u, v) = choose|u: Seq<char>, v: Seq<char>|
                    t == #[trigger] (u + v) && stoch_derives(g, rems[j], u, j as nat)
                        && completes_layers(g, rems, j + 1, v);
                lemma_stoch_derives_of_empty(g, u, j as nat);
                assert(t =~= v);
            }
            if completes_layers(g, rems, j + 1, t) {
                lemma_stoch_derives_empty(g, j as nat);
                assert(t =~= Seq::<char>::empty() + t);
                assert(Seq::<char>::empty() + t == #[trigger] (Seq::<char>::empty() + t)
                    && stoch_derives(g, rems[j], Seq::<char>::empty(), j as nat)
                    && completes_layers(g, rems, j + 1, t));
            }
        }
    }
}

/// Rewrite `start` through `depth` stochastic passes, drawing one alternative
/// from `source` for every expanded occurrence, independently.  The result is
/// always one of the strings the grammar can derive; a grammar whose reached
/// entries all offer positively weighted alternatives never faults.
#[verifier::loop_isolation(false)]
pub fn write_expression_stochastic(
    start: Vec<char>,
    rules: &StochasticGrammar,
    depth: usize,
    source: &mut RandomSource,
) -> (r: Result<Vec<char>, ConfigurationError>)
    requires
        stoch_map_bounded(rules@),
    ensures
        match r {
            Ok(out) => stoch_derives(rules@, start@, out@, depth as nat),
            Err(e) => !stoch_map_wf(rules@) && some_entry_faults(rules@, e),
        },
        stoch_map_wf(rules@) ==> r is Ok,
        *old(source) is System ==> *final(source) is System,
        *old(source) is Seeded ==> (match (
            r,
            spec_rewrite_seeded(rules@, start@, depth as nat, seeded_state(*old(source))),
        ) {
            (Ok(out), Ok(pair)) => out@ == pair.0 && *final(source) == (RandomSource::Seeded {
                state: pair.1,
            }),
            (Err(e1), Err(e2)) => e1 == e2,
            _ => false,
        }),
{
    let ghost startv = start@;
    let ghost st0 = seeded_state(*old(source));
    let mut expression = start;
    let mut pass: usize = 0;
    while pass < depth
        invariant
            0 <= pass <= depth,
            stoch_derives(rules@, startv, expression@, pass as nat),
            *old(source) is System ==> *source is System,
            *old(source) is Seeded ==> *source is Seeded && spec_rewrite_seeded(
                rules@,
                startv,
                depth as nat,
                st0,
            ) == spec_rewrite_seeded(
                rules@,
                expression@,
                (depth - pass) as nat,
                seeded_state(*source),
            ),
        decreases depth - pass,
    {
        let ghost prev = expression@;
        let ghost st_in = seeded_state(*source);
        let mut new: Vec<char> = Vec::new();
        proof {
            if *old(source) is Seeded {
                assert(prev.skip(0) =~= prev);
                let r0 = spec_pass_seeded(rules@, prev, st_in);
                if r0 is Ok {
                    assert(Seq::<char>::empty() + r0->Ok_0.0 =~= r0->Ok_0.0);
                }
            }
        }
        let n = expression.len();
        let mut i: usize = 0;
        while i < n
            invariant
                0 <= i <= n,
                n == expression.len(),
                expression@ == prev,
                stoch_once(rules@, prev.take(i as int), new@),
                *old(source) is System ==> *source is System,
                *old(source) is Seeded ==> *source is Seeded && (match spec_pass_seeded(
                    rules@,
                    prev.skip(i as int),
                    seeded_state(*source),
                ) {
                    Ok(rest) => spec_pass_seeded(rules@, prev, st_in) == Ok::<
                        (Seq<char>, u64),
                        ConfigurationError,
                    >((new@ + rest.0, rest.1)),
                    Err(e) => spec_pass_seeded(rules@, prev, st_in) == Err::<
                        (Seq<char>, u64),
                        ConfigurationError,
                    >(e),
                }),
            decreases n - i,
        {
            let c = expression[i];
            let ghost new_before = new@;
            let ghost st_here = seeded_state(*source);
            proof {
                assert(prev.skip(i as int)[0] == prev[i as int]);
                assert(prev.skip(i as int).drop_first() =~= prev.skip(i + 1));
            }
            match rules.lookup(c) {
                Some(alts) => {
                    let k = match select_production(alts, source) {
                        Ok(k) => k,
                        Err(e) => {
                            proof {
                                assert(entry_faults(rules@, c, e));
                                if *old(source) is Seeded {
                                    assert(spec_pass_seeded(rules@, prev.skip(i as int), st_here)
                                        == Err::<(Seq<char>, u64), ConfigurationError>(e));
                                    assert(spec_rewrite_seeded(rules@, startv, depth as nat, st0)
                                        == Err::<(Seq<char>, u64), ConfigurationError>(e));
                                }
                            }
                            return Err(e);
                        },
                    };
                    let mut copy = clone_chars(&alts[k].symbols);
                    new.append(&mut copy);
                    proof {
                        assert(new@ == new_before + rules@[c][k as int].symbols@);
                        assert(stoch_expand_ok(rules@, c, rules@[c][k as int].symbols@));
                        lemma_stoch_once_append(
                            rules@,
                            prev.take(i as int),
                            new_before,
                            c,
                            rules@[c][k as int].symbols@,
                        );
                        if *old(source) is Seeded {
                            let prod = rules@[c][k as int].symbols@;
                            let r1 = spec_pass_seeded(
                                rules@,
                                prev.skip(i + 1),
                                seeded_state(*source),
                            );
                            if r1 is Ok {
                                assert(spec_pass_seeded(rules@, prev.skip(i as int), st_here)
                                    == Ok::<(Seq<char>, u64), ConfigurationError>(
                                    (prod + r1->Ok_0.0, r1->Ok_0.1),
                                ));
                                assert(new_before + (prod + r1->Ok_0.0) =~= new@ + r1->Ok_0.0);
                            } else {
                                assert(spec_pass_seeded(rules@, prev.skip(i as int), st_here)
                                    == Err::<(Seq<char>, u64), ConfigurationError>(r1->Err_0));
                            }
                        }
                    }
                },
                None => {
                    new.push(c);
                    proof {
                        assert(new@ =~= new_before + seq![c]);
                        assert(stoch_expand_ok(rules@, c, seq![c]));
                        lemma_stoch_once_append(rules@, prev.take(i as int), new_before, c, seq![c]);
                        if *old(source) is Seeded {
                            let r1 = spec_pass_seeded(
                                rules@,
                                prev.skip(i + 1),
                                seeded_state(*source),
                            );
                            if r1 is Ok {
                                assert(spec_pass_seeded(rules@, prev.skip(i as int), st_here)
                                    == Ok::<(Seq<char>, u64), ConfigurationError>(
                                    (seq![c] + r1->Ok_0.0, r1->Ok_0.1),
                                ));
                                assert(new_before + (seq![c] + r1->Ok_0.0) =~= new@ + r1->Ok_0.0);
                            }
                        }
                    }
                },
            }
            i += 1;
            proof {
                assert(prev.take(i as int) =~= prev.take(i - 1).push(prev[i - 1]));
            }
        }
        proof {
            assert(prev.take(n as int) =~= prev);
            lemma_stoch_derives_extend(rules@, startv, prev, new@, pass as nat);
            if *old(source) is Seeded {
                assert(prev.skip(n as int).len() == 0);
                assert(spec_pass_seeded(rules@, prev.skip(n as int), seeded_state(*source))
                    == Ok::<(Seq<char>, u64), ConfigurationError>(
                    (Seq::empty(), seeded_state(*source)),
                ));
                assert(new@ + Seq::<char>::empty() =~= new@);
            }
        }
        expression = new;
        pass += 1;
    }
    Ok(expression)
}

/// Every replacement in the grammar is at most `wd` symbols long.
pub open spec fn grammar_widths_bounded(g: Map<char, Seq<WeightedProduction>>, wd: int) -> bool {
    forall|c: char, k: int|
        g.dom().contains(c) && 0 <= k < g[c].len() ==> (#[trigger] g[c][k]).symbols@.len() <= wd
}

/// One pull of the lazy depth-first traversal under a seeded source, as a
/// function of the layer contents and the source state: what the pull
/// returns, the layers it leaves, and the state it leaves.  The width bound
/// `wd` only drives the termination measure.
pub open spec fn spec_traverse(
    g: Map<char, Seq<WeightedProduction>>,
    rems: Seq<Seq<char>>,
    ptr: int,
    state: u64,
    wd: int,
) -> (Result<Option<char>, ConfigurationError>, Seq<Seq<char>>, u64)
    decreases potential_from(rems, 0, wd + 1), rems.len() + 1 - ptr,
        when 0 <= ptr <= rems.len() && wd >= 1 && grammar_widths_bounded(g, wd)
    via spec_traverse_decreases
{
    if ptr >= rems.len() {
        (Ok(None), rems, state)
    } else if rems[0].len() > 0 {
        (Ok(Some(rems[0][0])), rems.update(0, rems[0].drop_first()), state)
    } else if rems[ptr].len() > 0 {
        let c = rems[ptr][0];
        if !g.dom().contains(c) {
            (Ok(Some(c)), rems.update(ptr, rems[ptr].drop_first()), state)
        } else {
            match spec_select_seeded(g[c], state) {
                Err(e) => (Err(e), rems, state),
                Ok(pick) => spec_traverse(
                    g,
                    rems.update(ptr, rems[ptr].drop_first()).update(
                        ptr - 1,
                        g[c][pick.0].symbols@,
                    ),
                    ptr - 1,
                    pick.1,
                    wd,
                ),
            }
        }
    } else {
        spec_traverse(g, rems, ptr + 1, state, wd)
    }
}

#[via_fn]
proof fn spec_traverse_decreases(
    g: Map<char, Seq<WeightedProduction>>,
    rems: Seq<Seq<char>>,
    ptr: int,
    state: u64,
    wd: int,
) {
    let w = wd + 1;
    lemma_potential_nonneg(rems, 0, w);
    if ptr < rems.len() && rems[0].len() == 0 && rems[ptr].len() > 0 {
        let c = rems[ptr][0];
        if g.dom().contains(c) {
            match spec_select_seeded(g[c], state) {
                Err(_) => {},
                Ok(pick) => {
                    let alts = g[c];
                    let draw = (crate::random::seeded_output(state) as int) % total_weight(alts);
                    assert(total_weight(alts) >= 1) by {
                        lemma_prefix_weight_monotone(alts, 1, alts.len() as int);
                        assert(prefix_weight(alts, 0) == 0);
                        assert(prefix_weight(alts, 1) == alts[0].weight as int);
                    }
                    lemma_spec_pick_interval(alts, draw);
                    let k = pick.0;
                    assert(0 <= k < alts.len());
                    let prod = alts[k].symbols@;
                    assert(prod.len() <= wd);
                    // The expansion trades one symbol at level `ptr` for at
                    // most `wd` symbols one level down.
                    let mid = rems.update(ptr, rems[ptr].drop_first());
                    let after = mid.update(ptr - 1, prod);
                    lemma_potential_nonneg(after, 0, w);
                    lemma_potential_update(rems, ptr, rems[ptr].drop_first(), 0, w);
                    lemma_potential_update(mid, ptr - 1, prod, 0, w);
                    vstd::arithmetic::power::lemma_pow_positive(w, (ptr - 1) as nat);
                    assert(pow(w, ptr as nat) == w * pow(w, (ptr - 1) as nat)) by {
                        reveal(pow);
                    }
                    assert(potential_from(after, 0, w) < potential_from(rems, 0, w))
                        by (nonlinear_arith)
                        requires
                            potential_from(mid, 0, w) == potential_from(rems, 0, w) + (
                            mid[ptr].len() - rems[ptr].len()) * pow(w, ptr as nat),
                            potential_from(after, 0, w) == potential_from(mid, 0, w) + (prod.len()
                                - mid[ptr - 1].len()) * pow(w, (ptr - 1) as nat),
                            mid[ptr].len() == rems[ptr].len() - 1,
                            mid[ptr - 1].len() >= 0,
                            pow(w, ptr as nat) == w * pow(w, (ptr - 1) as nat),
                            prod.len() <= wd,
                            w == wd + 1,
                            pow(w, (ptr - 1) as nat) > 0,
                    ;
                },
            }
        }
    }
}

/// The layers' weighted measure never grows along one pull, and strictly
/// shrinks when a symbol comes out.
proof fn lemma_spec_traverse_potential(
    g: Map<char, Seq<WeightedProduction>>,
    rems: Seq<Seq<char>>,
    ptr: int,
    state: u64,
    wd: int,
)
    requires
        0 <= ptr <= rems.len(),
        wd >= 1,
        grammar_widths_bounded(g, wd),
    ensures
        ({
            let o = spec_traverse(g, rems, ptr, state, wd);
            &&& potential_from(o.1, 0, wd + 1) <= potential_from(rems, 0, wd + 1)
            &&& (o.0 is Ok && o.0->Ok_0 is Some ==> potential_from(o.1, 0, wd + 1)
                < potential_from(rems, 0, wd + 1))
        }),
    decreases potential_from(rems, 0, wd + 1), rems.len() + 1 - ptr,
{
    let w = wd + 1;
    lemma_potential_nonneg(rems, 0, w);
    if ptr >= rems.len() {
    } else if rems[0].len() > 0 {
        lemma_potential_update(rems, 0, rems[0].drop_first(), 0, w);
        assert(pow(w, 0) == 1) by {
            reveal(pow);
        }
        let after = rems.update(0, rems[0].drop_first());
        assert(potential_from(after, 0, w) < potential_from(rems, 0, w)) by (nonlinear_arith)
            requires
                potential_from(after, 0, w) == potential_from(rems, 0, w) + (after[0].len()
                    - rems[0].len()) * pow(w, 0),
                after[0].len() == rems[0].len() - 1,
                pow(w, 0) == 1,
        ;
    } else if rems[ptr].len() > 0 {
        let c = rems[ptr][0];
        if !g.dom().contains(c) {
            let after = rems.update(ptr, rems[ptr].drop_first());
            lemma_potential_update(rems, ptr, rems[ptr].drop_first(), 0, w);
            vstd::arithmetic::power::lemma_pow_positive(w, ptr as nat);
            assert(potential_from(after, 0, w) < potential_from(rems, 0, w)) by (nonlinear_arith)
                requires
                    potential_from(after, 0, w) == potential_from(rems, 0, w) + (after[ptr].len()
                        - rems[ptr].len()) * pow(w, ptr as nat),
                    after[ptr].len() == rems[ptr].len() - 1,
                    pow(w, ptr as nat) > 0,
            ;
        } else {
            match spec_select_seeded(g[c], state) {
                Err(_) => {},
                Ok(pick) => {
                    let alts = g[c];
                    let draw = (crate::random::seeded_output(state) as int) % total_weight(alts);
                    assert(total_weight(alts) >= 1) by {
                        lemma_prefix_weight_monotone(alts, 1, alts.len() as int);
                        assert(prefix_weight(alts, 0) == 0);
                        assert(prefix_weight(alts, 1) == alts[0].weight as int);
                    }
                    lemma_spec_pick_interval(alts, draw);
                    let prod = alts[pick.0].symbols@;
                    let mid = rems.update(ptr, rems[ptr].drop_first());
                    let after = mid.update(ptr - 1, prod);
                    lemma_potential_update(rems, ptr, rems[ptr].drop_first(), 0, w);
                    lemma_potential_update(mid, ptr - 1, prod, 0, w);
                    vstd::arithmetic::power::lemma_pow_positive(w, (ptr - 1) as nat);
                    assert(pow(w, ptr as nat) == w * pow(w, (ptr - 1) as nat)) by {
                        reveal(pow);
                    }
                    assert(potential_from(after, 0, w) < potential_from(rems, 0, w))
                        by (nonlinear_arith)
                        requires
                            potential_from(mid, 0, w) == potential_from(rems, 0, w) + (
                            mid[ptr].len() - rems[ptr].len()) * pow(w, ptr as nat),
                            potential_from(after, 0, w) == potential_from(mid, 0, w) + (prod.len()
                                - mid[ptr - 1].len()) * pow(w, (ptr - 1) as nat),
                            mid[ptr].len() == rems[ptr].len() - 1,
                            mid[ptr - 1].len() >= 0,
                            pow(w, ptr as nat) == w * pow(w, (ptr - 1) as nat),
                            prod.len() <= wd,
                            w == wd + 1,
                            pow(w, (ptr - 1) as nat) > 0,
                    ;
                    lemma_potential_nonneg(after, 0, w);
                    lemma_spec_traverse_potential(g, after, ptr - 1, pick.1, wd);
                },
            }
        }
    } else {
        lemma_spec_traverse_potential(g, rems, ptr + 1, state, wd);
    }
}

/// A whole seeded drain of the lazy traversal, as a function of the layers
/// and the source state: everything emitted until exhaustion or a fault,
/// with the layers and state left behind.
pub open spec fn spec_drain(
    g: Map<char, Seq<WeightedProduction>>,
    rems: Seq<Seq<char>>,
    state: u64,
    wd: int,
) -> (Result<Seq<char>, ConfigurationError>, Seq<Seq<char>>, u64)
    decreases potential_from(rems, 0, wd + 1),
        when wd >= 1 && grammar_widths_bounded(g, wd)
    via spec_drain_decreases
{
    let step = spec_traverse(g, rems, 0, state, wd);
    match step.0 {
        Err(e) => (Err(e), step.1, step.2),
        Ok(opt) => match opt {
            None => (Ok(Seq::empty()), step.1, step.2),
            Some(c) => {
                let rest = spec_drain(g, step.1, step.2, wd);
                match rest.0 {
                    Ok(t) => (Ok(seq![c] + t), rest.1, rest.2),
                    Err(e) => (Err(e), rest.1, rest.2),
                }
            },
        },
    }
}

#[via_fn]
proof fn spec_drain_decreases(
    g: Map<char, Seq<WeightedProduction>>,
    rems: Seq<Seq<char>>,
    state: u64,
    wd: int,
) {
    lemma_potential_nonneg(rems, 0, wd + 1);
    lemma_spec_traverse_potential(g, rems, 0, state, wd);
    let o = spec_traverse(g, rems, 0, state, wd);
    lemma_potential_nonneg(o.1, 0, wd + 1);
}

/// One partially-consumed symbol buffer of the lazy stochastic generator.
struct StochLayer {
    syms: Vec<char>,
    at: usize,
}

/// The symbols a layer has not yet handed out.
spec fn stoch_layer_remaining(l: StochLayer) -> Seq<char> {
    l.syms@.skip(l.at as int)
}

/// The lazy stochastic generator.  Like the deterministic builder it keeps
/// one partially-consumed buffer per depth level; each expanded occurrence
/// draws its alternative at the moment of expansion, exactly once, and the
/// choice is never resampled.  Everything it has emitted is always a prefix
/// of some derivation the grammar allows, and at exhaustion the emitted
/// string is such a derivation in full.
pub struct LSystemBuilderStochastic {
    rules: StochasticGrammar,
    depth: usize,
    layers: Vec<StochLayer>,
    source: RandomSource,
    widest: Ghost<int>,
    start: Ghost<Seq<char>>,
    emitted: Ghost<Seq<char>>,
}

impl LSystemBuilderStochastic {
    /// The grammar this generator expands with.
    pub closed spec fn grammar(&self) -> Map<char, Seq<WeightedProduction>> {
        self.rules@
    }

    /// The string the generator started from.
    pub closed spec fn spec_start(&self) -> Seq<char> {
        self.start@
    }

    /// The depth the generator derives to.
    pub closed spec fn spec_depth(&self) -> nat {
        self.depth as nat
    }

    /// The symbols emitted so far.
    pub closed spec fn emitted(&self) -> Seq<char> {
        self.emitted@
    }

    /// The remaining content of each layer, outermost last.
    pub closed spec fn remainings(&self) -> Seq<Seq<char>> {
        Seq::new(self.layers@.len() as nat, |i: int| stoch_layer_remaining(self.layers@[i]))
    }

    /// The draw source, as a value.
    pub closed spec fn source_view(&self) -> RandomSource {
        self.source
    }

    /// The traversal's termination measure: layer contents weighted by level.
    pub closed spec fn measure(&self) -> int {
        potential_from(self.remainings(), 0, self.widest@ + 1)
    }

    /// The generator's internal consistency: bounded layers, a bound on
    /// every replacement's width, and the soundness invariant -- however the
    /// remaining layers may finish, the emitted symbols extended by that
    /// finish form a derivation of the start string at the full depth.
    pub closed spec fn wf(&self) -> bool {
        &&& self.layers@.len() == self.depth + 1
        &&& forall|i: int|
            0 <= i < self.layers@.len() ==> (#[trigger] self.layers@[i]).at
                <= self.layers@[i].syms@.len()
        &&& self.widest@ >= 1
        &&& forall|c: char, k: int|
            self.rules@.dom().contains(c) && 0 <= k < self.rules@[c].len() ==> (
            #[trigger] self.rules@[c][k]).symbols@.len() <= self.widest@
        &&& stoch_map_bounded(self.rules@)
        &&& forall|t: Seq<char>|
            completes_layers(self.rules@, self.remainings(), 0, t) ==> stoch_derives(
                self.rules@,
                self.start@,
                self.emitted@ + t,
                self.depth as nat,
            )
    }

    /// A generator that will emit one of the derivations of `start` at
    /// `depth`, drawing from `source`, without materialising it.
    #[verifier::loop_isolation(false)]
    pub fn new(
        start: Vec<char>,
        rules: StochasticGrammar,
        depth: usize,
        source: RandomSource,
    ) -> (b: LSystemBuilderStochastic)
        requires
            depth < usize::MAX,
            stoch_map_bounded(rules@),
        ensures
            b.wf(),
            b.grammar() == rules@,
            b.spec_start() == start@,
            b.spec_depth() == depth as nat,
            b.emitted() == Seq::<char>::empty(),
            b.source_view() == source,
            b.remainings() == Seq::new(
                (depth + 1) as nat,
                |i: int|
                    if i == depth {
                        start@
                    } else {
                        Seq::<char>::empty()
                    },
            ),
    {
        let mut layers: Vec<StochLayer> = Vec::new();
        let mut i: usize = 0;
        while i < depth
            invariant
                0 <= i <= depth,
                layers@.len() == i,
                forall|j: int| 0 <= j < i ==> (#[trigger] layers@[j]).at == 0,
                forall|j: int| 0 <= j < i ==> (#[trigger] layers@[j]).syms@.len() == 0,
            decreases depth - i,
        {
            layers.push(StochLayer { syms: Vec::new(), at: 0 });
            i += 1;
        }
        let ghost startv = start@;
        layers.push(StochLayer { syms: start, at: 0 });
        let w = rules.widest_production();
        let ghost wide = if w as int >= 1 {
            w as int
        } else {
            1
        };
        let b = LSystemBuilderStochastic {
            rules,
            depth,
            layers,
            source,
            widest: Ghost(wide),
            start: Ghost(startv),
            emitted: Ghost(Seq::empty()),
        };
        proof {
            let g = b.rules@;
            let rems = b.remainings();
            assert forall|j: int| 0 <= j < depth implies rems[j] == Seq::<char>::empty() by {
                assert(b.layers@[j].syms@.skip(0) =~= b.layers@[j].syms@);
                assert(rems[j] =~= Seq::<char>::empty());
            }
            assert(rems[depth as int] =~= startv) by {
                assert(b.layers@[depth as int].syms@.skip(0) =~= b.layers@[depth as int].syms@);
            }
            assert(rems =~= Seq::new(
                (depth + 1) as nat,
                |i: int|
                    if i == depth {
                        startv
                    } else {
                        Seq::<char>::empty()
                    },
            ));
            lemma_completes_skip_empty(g, rems, 0, depth as int);
            assert forall|t: Seq<char>| completes_layers(g, rems, 0, t) implies stoch_derives(
                g,
                startv,
                Seq::<char>::empty() + t,
                depth as nat,
            ) by {
                assert(completes_layers(g, rems, depth as int, t));
                let (u, v) = choose|u: Seq<char>, v: Seq<char>|
                    t == #[trigger] (u + v) && stoch_derives(g, rems[depth as int], u, depth as nat)
                        && completes_layers(g, rems, depth + 1, v);
                assert(v.len() == 0);
                assert(t =~= u);
                assert(Seq::<char>::empty() + t =~= t);
            }
        }
        b
    }

    /// One step of the depth-first traversal: emit the next fully-derived
    /// symbol, report exhaustion, or raise the configuration fault of an
    /// entry that cannot be selected from.  A fault leaves the generator as
    /// it stood.
    #[verifier::loop_isolation(false)]
    #[verifier::spinoff_prover]
    #[verifier::rlimit(100)]
    pub fn next_symbol(&mut self) -> (r: Result<Option<char>, ConfigurationError>)
        requires
            old(self).wf(),
        ensures
            final(self).wf(),
            final(self).grammar() == old(self).grammar(),
            final(self).spec_start() == old(self).spec_start(),
            final(self).spec_depth() == old(self).spec_depth(),
            final(self).measure() <= old(self).measure(),
            match r {
                Ok(Some(c)) => final(self).emitted() == old(self).emitted().push(c)
                    && final(self).measure() < old(self).measure(),
                Ok(None) => final(self).emitted() == old(self).emitted() && stoch_derives(
                    old(self).grammar(),
                    old(self).spec_start(),
                    final(self).emitted(),
                    old(self).spec_depth(),
                ),
                Err(e) => !stoch_map_wf(old(self).grammar()) && some_entry_faults(
                    old(self).grammar(),
                    e,
                ) && final(self).emitted() == old(self).emitted(),
            },
            old(self).source_view() is System ==> final(self).source_view() is System,
            old(self).source_view() is Seeded ==> final(self).source_view() is Seeded && (
            forall|wd: int|
                wd >= 1 && grammar_widths_bounded(old(self).grammar(), wd)
                    ==> #[trigger] spec_traverse(
                    old(self).grammar(),
                    old(self).remainings(),
                    0,
                    seeded_state(old(self).source_view()),
                    wd,
                ) == (r, final(self).remainings(), seeded_state(final(self).source_view()))),
    {
        let mut ptr: usize = 0;
        loop
            invariant
                self.wf(),
                self.rules == old(self).rules,
                self.depth == old(self).depth,
                self.widest == old(self).widest,
                self.start == old(self).start,
                self.emitted == old(self).emitted,
                ptr <= self.depth + 1,
                forall|k: int| 0 <= k < ptr ==> (#[trigger] self.remainings()[k]).len() == 0,
                potential_from(self.remainings(), 0, self.widest@ + 1) <= potential_from(
                    old(self).remainings(),
                    0,
                    old(self).widest@ + 1,
                ),
                old(self).source_view() is System ==> self.source is System,
                old(self).source_view() is Seeded ==> self.source is Seeded && (forall|wd: int|
                    wd >= 1 && grammar_widths_bounded(old(self).grammar(), wd)
                        ==> #[trigger] spec_traverse(
                        old(self).grammar(),
                        old(self).remainings(),
                        0,
                        seeded_state(old(self).source_view()),
                        wd,
                    ) == spec_traverse(
                        old(self).grammar(),
                        self.remainings(),
                        ptr as int,
                        seeded_state(self.source),
                        wd,
                    )),
            decreases potential_from(self.remainings(), 0, self.widest@ + 1), self.depth + 1 - ptr,
        {
            proof {
                lemma_potential_nonneg(self.remainings(), 0, self.widest@ + 1);
            }
            let n_layers = self.layers.len();
            if ptr >= n_layers {
                proof {
                    let g = self.rules@;
                    let rems = self.remainings();
                    lemma_completes_skip_empty(g, rems, 0, rems.len() as int);
                    assert(completes_layers(g, rems, rems.len() as int, Seq::<char>::empty()));
                    assert(self.emitted@ + Seq::<char>::empty() =~= self.emitted@);
                    if old(self).source_view() is Seeded {
                        let st = seeded_state(self.source);
                        assert forall|wd: int|
                            wd >= 1 && grammar_widths_bounded(g, wd) implies #[trigger] spec_traverse(
                            g,
                            rems,
                            ptr as int,
                            st,
                            wd,
                        ) == (
                            Ok::<Option<char>, ConfigurationError>(None),
                            rems,
                            st,
                        ) by {}
                    }
                }
                return Ok(None);
            }
            let l0_at = self.layers[0].at;
            if l0_at < self.layers[0].syms.len() {
                let c = self.layers[0].syms[l0_at];
                let ghost before = self.remainings();
                let ghost old_emitted = self.emitted@;
                let ghost g = self.rules@;
                let ghost w = self.widest@ + 1;
                self.layers[0].at = l0_at + 1;
                self.emitted = Ghost(old_emitted.push(c));
                proof {
                    let after = self.remainings();
                    assert(after =~= before.update(0, before[0].drop_first())) by {
                        assert(self.layers@[0].syms@.skip(l0_at + 1) =~= before[0].drop_first());
                    }
                    assert(before[0] =~= seq![c] + before[0].drop_first());
                    assert forall|t2: Seq<char>|
                        completes_layers(g, after, 0, t2) implies stoch_derives(
                        g,
                        self.start@,
                        old_emitted.push(c) + t2,
                        self.depth as nat,
                    ) by {
                        let (u0, v) = choose|u0: Seq<char>, v: Seq<char>|
                            t2 == #[trigger] (u0 + v) && stoch_derives(g, after[0], u0, 0)
                                && completes_layers(g, after, 1, v);
                        assert(u0 == after[0]);
                        lemma_completes_congruence(g, after, before, 1);
                        let u = before[0];
                        assert(stoch_derives(g, before[0], u, 0));
                        assert(u + v == #[trigger] (u + v) && stoch_derives(g, before[0], u, 0)
                            && completes_layers(g, before, 1, v));
                        assert(completes_layers(g, before, 0, seq![c] + t2)) by {
                            assert(seq![c] + t2 =~= u + v);
                        }
                        assert(old_emitted + (seq![c] + t2) =~= old_emitted.push(c) + t2);
                    }
                    lemma_potential_update(before, 0, before[0].drop_first(), 0, w);
                    assert(pow(w, 0) == 1) by {
                        reveal(pow);
                    }
                    lemma_potential_congruence(
                        after,
                        before.update(0, before[0].drop_first()),
                        0,
                        w,
                    );
                    assert(potential_from(after, 0, w) < potential_from(before, 0, w))
                        by (nonlinear_arith)
                        requires
                            potential_from(after, 0, w) == potential_from(before, 0, w) + (
                            after[0].len() - before[0].len()) * pow(w, 0),
                            after[0].len() == before[0].len() - 1,
                            pow(w, 0) == 1,
                    ;
                    if old(self).source_view() is Seeded {
                        let st = seeded_state(self.source);
                        assert(before[0][0] == c);
                        assert forall|wd: int|
                            wd >= 1 && grammar_widths_bounded(g, wd) implies #[trigger] spec_traverse(
                            g,
                            before,
                            ptr as int,
                            st,
                            wd,
                        ) == (Ok::<Option<char>, ConfigurationError>(Some(c)), after, st) by {
                            assert(after == before.update(0, before[0].drop_first()));
                        }
                    }
                }
                return Ok(Some(c));
            }
            let at = self.layers[ptr].at;
            if at < self.layers[ptr].syms.len() {
                let c = self.layers[ptr].syms[at];
                assert(ptr >= 1);
                let ghost g = self.rules@;
                let ghost w = self.widest@ + 1;
                let ghost rems_here = self.remainings();
                let ghost src_pre = self.source;
                // Choose the replacement before consuming anything, so a
                // selection fault leaves the generator untouched.
                let expansion: Option<Vec<char>> = match self.rules.lookup(c) {
                    Some(alts) => {
                        let k = match select_production(alts, &mut self.source) {
                            Ok(k) => k,
                            Err(e) => {
                                proof {
                                    assert(some_entry_faults(old(self).grammar(), e)) by {
                                        assert(entry_faults(old(self).grammar(), c, e));
                                    }
                                    assert(self.remainings() =~= rems_here);
                                    if old(self).source_view() is Seeded {
                                        let st = seeded_state(src_pre);
                                        assert(spec_select_seeded(g[c], st) == Err::<
                                            (int, u64),
                                            ConfigurationError,
                                        >(e));
                                        assert(rems_here[ptr as int][0] == c);
                                        assert forall|wd: int|
                                            wd >= 1 && grammar_widths_bounded(g, wd)
                                                implies #[trigger] spec_traverse(
                                            g,
                                            rems_here,
                                            ptr as int,
                                            st,
                                            wd,
                                        ) == (
                                            Err::<Option<char>, ConfigurationError>(e),
                                            rems_here,
                                            st,
                                        ) by {
                                            assert(rems_here[0].len() == 0);
                                        }
                                    }
                                }
                                return Err(e);
                            },
                        };
                        let p = clone_chars(&alts[k].symbols);
                        proof {
                            assert(stoch_expand_ok(g, c, p@)) by {
                                assert(0 <= k < g[c].len() && p@ == (
                                #[trigger] g[c][k as int]).symbols@);
                            }
                            if old(self).source_view() is Seeded {
                                assert(spec_select_seeded(g[c], seeded_state(src_pre)) == Ok::<
                                    (int, u64),
                                    ConfigurationError,
                                >((k as int, seeded_state(self.source))));
                                assert(g[c][k as int].symbols@ == p@);
                            }
                        }
                        Some(p)
                    },
                    None => None,
                };
                let ghost before = self.remainings();
                let ghost old_emitted = self.emitted@;
                match expansion {
                    None => {
                        self.layers[ptr].at = at + 1;
                        self.emitted = Ghost(old_emitted.push(c));
                        proof {
                            let mid = self.remainings();
                            assert(mid =~= before.update(
                                ptr as int,
                                before[ptr as int].drop_first(),
                            )) by {
                                assert(self.layers@[ptr as int].syms@.skip(at + 1)
                                    =~= before[ptr as int].drop_first());
                            }
                            assert(before[ptr as int] =~= seq![c] + mid[ptr as int]);
                            assert forall|t2: Seq<char>|
                                completes_layers(g, mid, 0, t2) implies stoch_derives(
                                g,
                                self.start@,
                                old_emitted.push(c) + t2,
                                self.depth as nat,
                            ) by {
                                lemma_completes_skip_empty(g, mid, 0, ptr as int);
                                let (b, v) = choose|b: Seq<char>, v: Seq<char>|
                                    t2 == #[trigger] (b + v) && stoch_derives(
                                        g,
                                        mid[ptr as int],
                                        b,
                                        ptr as nat,
                                    ) && completes_layers(g, mid, ptr + 1, v);
                                lemma_completes_congruence(g, mid, before, ptr + 1);
                                lemma_stoch_derives_terminal(g, c, ptr as nat);
                                lemma_stoch_derives_concat(
                                    g,
                                    seq![c],
                                    seq![c],
                                    mid[ptr as int],
                                    b,
                                    ptr as nat,
                                );
                                let u = seq![c] + b;
                                assert(u + v == #[trigger] (u + v) && stoch_derives(
                                    g,
                                    before[ptr as int],
                                    u,
                                    ptr as nat,
                                ) && completes_layers(g, before, ptr + 1, v));
                                assert(completes_layers(g, before, ptr as int, seq![c] + t2)) by {
                                    assert(seq![c] + t2 =~= u + v);
                                }
                                lemma_completes_skip_empty(g, before, 0, ptr as int);
                                assert(old_emitted + (seq![c] + t2) =~= old_emitted.push(c) + t2);
                            }
                            lemma_potential_update(
                                before,
                                ptr as int,
                                mid[ptr as int],
                                0,
                                w,
                            );
                            vstd::arithmetic::power::lemma_pow_positive(w, ptr as nat);
                            assert(potential_from(mid, 0, w) < potential_from(before, 0, w))
                                by (nonlinear_arith)
                                requires
                                    potential_from(mid, 0, w) == potential_from(before, 0, w) + (
                                    mid[ptr as int].len() - before[ptr as int].len()) * pow(
                                        w,
                                        ptr as nat,
                                    ),
                                    mid[ptr as int].len() == before[ptr as int].len() - 1,
                                    pow(w, ptr as nat) > 0,
                            ;
                            if old(self).source_view() is Seeded {
                                let st = seeded_state(self.source);
                                assert(before =~= rems_here);
                                assert(before[0].len() == 0);
                                assert(before[ptr as int][0] == c);
                                assert forall|wd: int|
                                    wd >= 1 && grammar_widths_bounded(g, wd)
                                        implies #[trigger] spec_traverse(
                                    g,
                                    before,
                                    ptr as int,
                                    st,
                                    wd,
                                ) == (Ok::<Option<char>, ConfigurationError>(Some(c)), mid, st) by {
                                    assert(mid == before.update(
                                        ptr as int,
                                        before[ptr as int].drop_first(),
                                    ));
                                }
                            }
                        }
                        return Ok(Some(c));
                    },
                    Some(production) => {
                        let ghost prodv = production@;
                        self.layers[ptr].at = at + 1;
                        let ghost mid = self.remainings();
                        self.layers[ptr - 1] = StochLayer { syms: production, at: 0 };
                        proof {
                            let after = self.remainings();
                            assert(mid =~= before.update(
                                ptr as int,
                                before[ptr as int].drop_first(),
                            )) by {
                                assert(self.layers@[ptr as int].syms@.skip(at + 1)
                                    =~= before[ptr as int].drop_first());
                            }
                            assert(after =~= mid.update(ptr - 1, prodv)) by {
                                assert(self.layers@[ptr - 1].syms@.skip(0) =~= prodv);
                            }
                            assert(before[ptr as int] =~= seq![c] + after[ptr as int]);
                            assert forall|t2: Seq<char>|
                                completes_layers(g, after, 0, t2) implies stoch_derives(
                                g,
                                self.start@,
                                old_emitted + t2,
                                self.depth as nat,
                            ) by {
                                lemma_completes_skip_empty(g, after, 0, ptr - 1);
                                let (up, wv) = choose|up: Seq<char>, wv: Seq<char>|
                                    t2 == #[trigger] (up + wv) && stoch_derives(
                                        g,
                                        after[ptr - 1],
                                        up,
                                        (ptr - 1) as nat,
                                    ) && completes_layers(g, after, ptr as int, wv);
                                let (b, v) = choose|b: Seq<char>, v: Seq<char>|
                                    wv == #[trigger] (b + v) && stoch_derives(
                                        g,
                                        after[ptr as int],
                                        b,
                                        ptr as nat,
                                    ) && completes_layers(g, after, ptr + 1, v);
                                lemma_completes_congruence(g, after, before, ptr + 1);
                                lemma_stoch_derives_symbol_step(
                                    g,
                                    c,
                                    prodv,
                                    up,
                                    (ptr - 1) as nat,
                                );
                                lemma_stoch_derives_concat(
                                    g,
                                    seq![c],
                                    up,
                                    after[ptr as int],
                                    b,
                                    ptr as nat,
                                );
                                let u = up + b;
                                assert(u + v == #[trigger] (u + v) && stoch_derives(
                                    g,
                                    before[ptr as int],
                                    u,
                                    ptr as nat,
                                ) && completes_layers(g, before, ptr + 1, v));
                                assert(completes_layers(g, before, ptr as int, t2)) by {
                                    assert(t2 =~= u + v);
                                }
                                lemma_completes_skip_empty(g, before, 0, ptr as int);
                            }
                            // The weighted measure shrinks: the replacement
                            // is at most `widest` long, one level down.
                            lemma_potential_nonneg(after, 0, w);
                            lemma_potential_update(before, ptr as int, mid[ptr as int], 0, w);
                            lemma_potential_update(mid, ptr - 1, prodv, 0, w);
                            assert(mid[ptr - 1].len() == 0);
                            vstd::arithmetic::power::lemma_pow_positive(w, (ptr - 1) as nat);
                            assert(prodv.len() < w);
                            assert(pow(w, ptr as nat) == w * pow(w, (ptr - 1) as nat)) by {
                                reveal(pow);
                            }
                            assert(potential_from(after, 0, w) < potential_from(before, 0, w))
                                by (nonlinear_arith)
                                requires
                                    potential_from(mid, 0, w) == potential_from(before, 0, w) + (
                                    mid[ptr as int].len() - before[ptr as int].len()) * pow(
                                        w,
                                        ptr as nat,
                                    ),
                                    potential_from(after, 0, w) == potential_from(mid, 0, w) + (
                                    prodv.len() - mid[ptr - 1].len()) * pow(w, (ptr - 1) as nat),
                                    mid[ptr as int].len() == before[ptr as int].len() - 1,
                                    mid[ptr - 1].len() == 0,
                                    pow(w, ptr as nat) == w * pow(w, (ptr - 1) as nat),
                                    prodv.len() < w,
                                    pow(w, (ptr - 1) as nat) > 0,
                            ;
                            if old(self).source_view() is Seeded {
                                let st_pre = seeded_state(src_pre);
                                let st_post = seeded_state(self.source);
                                assert(before =~= rems_here);
                                assert(before[0].len() == 0);
                                assert(before[ptr as int][0] == c);
                                assert forall|wd: int|
                                    wd >= 1 && grammar_widths_bounded(g, wd)
                                        implies #[trigger] spec_traverse(
                                    g,
                                    before,
                                    ptr as int,
                                    st_pre,
                                    wd,
                                ) == spec_traverse(g, after, ptr as int - 1, st_post, wd) by {
                                    assert(after == before.update(
                                        ptr as int,
                                        before[ptr as int].drop_first(),
                                    ).update(ptr as int - 1, g[c][spec_select_seeded(
                                        g[c],
                                        st_pre,
                                    )->Ok_0.0].symbols@));
                                }
                            }
                        }
                        ptr = ptr - 1;
                    },
                }
            } else {
                proof {
                    if old(self).source_view() is Seeded {
                        let g = self.rules@;
                        let st = seeded_state(self.source);
                        let rems = self.remainings();
                        assert forall|wd: int|
                            wd >= 1 && grammar_widths_bounded(g, wd) implies #[trigger] spec_traverse(
                            g,
                            rems,
                            ptr as int,
                            st,
                            wd,
                        ) == spec_traverse(g, rems, ptr as int + 1, st, wd) by {
                            assert(rems[0].len() == 0);
                            assert(rems[ptr as int].len() == 0);
                        }
                    }
                }
                ptr = ptr + 1;
            }
        }
    }

    /// The replacement drawn for `c` right now: one of its weighted
    /// alternatives, selected by the source, or `c` itself when `c` is
    /// terminal.  The layers and the emitted symbols are untouched.
    pub fn chars_from_rules(&mut self, c: char) -> (r: Result<Vec<char>, ConfigurationError>)
        requires
            old(self).wf(),
        ensures
            final(self).wf(),
            final(self).grammar() == old(self).grammar(),
            final(self).spec_start() == old(self).spec_start(),
            final(self).spec_depth() == old(self).spec_depth(),
            final(self).emitted() == old(self).emitted(),
            final(self).measure() == old(self).measure(),
            match r {
                Ok(p) => stoch_expand_ok(old(self).grammar(), c, p@) && (old(self)
                    .grammar().dom().contains(c) ==> old(self).grammar()[c].len() > 0
                    && all_weights_positive(old(self).grammar()[c])),
                Err(e) => entry_faults(old(self).grammar(), c, e),
            },
            (!old(self).grammar().dom().contains(c) || (old(self).grammar()[c].len() > 0
                && all_weights_positive(old(self).grammar()[c]))) ==> r is Ok,
            old(self).source_view() is System ==> final(self).source_view() is System,
            old(self).source_view() is Seeded ==> ({
                let st = seeded_state(old(self).source_view());
                let g = old(self).grammar();
                if !g.dom().contains(c) {
                    r is Ok && r->Ok_0@ == seq![c]
                        && final(self).source_view() == old(self).source_view()
                } else {
                    match (r, spec_select_seeded(g[c], st)) {
                        (Ok(p), Ok(pick)) => p@ == g[c][pick.0].symbols@
                            && final(self).source_view() == (RandomSource::Seeded {
                            state: pick.1,
                        }),
                        (Err(e1), Err(e2)) => e1 == e2
                            && final(self).source_view() == old(self).source_view(),
                        _ => false,
                    }
                }
            }),
    {
        let ghost g = self.rules@;
        match self.rules.lookup(c) {
            Some(alts) => {
                let k = match select_production(alts, &mut self.source) {
                    Ok(k) => k,
                    Err(e) => {
                        proof {
                            assert(self.remainings() =~= old(self).remainings());
                        }
                        return Err(e);
                    },
                };
                let p = clone_chars(&alts[k].symbols);
                proof {
                    assert(stoch_expand_ok(g, c, p@)) by {
                        assert(0 <= k < g[c].len() && p@ == (#[trigger] g[c][k as int]).symbols@);
                    }
                    assert(self.remainings() =~= old(self).remainings());
                }
                Ok(p)
            },
            None => {
                let mut p: Vec<char> = Vec::new();
                p.push(c);
                proof {
                    assert(p@ =~= seq![c]);
                }
                Ok(p)
            },
        }
    }

    /// Pull every remaining symbol.  What has then been emitted, as one
    /// string, is a derivation of the start string at the full depth.
    #[verifier::loop_isolation(false)]
    pub fn collect(&mut self) -> (r: Result<Vec<char>, ConfigurationError>)
        requires
            old(self).wf(),
        ensures
            final(self).wf(),
            final(self).grammar() == old(self).grammar(),
            final(self).spec_start() == old(self).spec_start(),
            final(self).spec_depth() == old(self).spec_depth(),
            match r {
                Ok(v) => final(self).emitted() == old(self).emitted() + v@ && stoch_derives(
                    old(self).grammar(),
                    old(self).spec_start(),
                    final(self).emitted(),
                    old(self).spec_depth(),
                ),
                Err(e) => !stoch_map_wf(old(self).grammar()) && some_entry_faults(
                    old(self).grammar(),
                    e,
                ),
            },
            old(self).source_view() is System ==> final(self).source_view() is System,
            old(self).source_view() is Seeded ==> final(self).source_view() is Seeded && (
            forall|wd: int|
                wd >= 1 && grammar_widths_bounded(old(self).grammar(), wd)
                    ==> #[trigger] spec_drain(
                    old(self).grammar(),
                    old(self).remainings(),
                    seeded_state(old(self).source_view()),
                    wd,
                ) == (
                    match r {
                        Ok(v) => Ok::<Seq<char>, ConfigurationError>(v@),
                        Err(e) => Err::<Seq<char>, ConfigurationError>(e),
                    },
                    final(self).remainings(),
                    seeded_state(final(self).source_view()),
                )),
    {
        let mut v: Vec<char> = Vec::new();
        proof {
            assert(old(self).emitted@ + v@ =~= old(self).emitted@);
            if old(self).source_view() is Seeded {
                assert forall|wd: int|
                    wd >= 1 && grammar_widths_bounded(old(self).grammar(), wd) implies ({
                        let d = #[trigger] spec_drain(
                            old(self).grammar(),
                            old(self).remainings(),
                            seeded_state(old(self).source_view()),
                            wd,
                        );
                        d.0 is Ok ==> Seq::<char>::empty() + d.0->Ok_0 == d.0->Ok_0
                    }) by {
                    let d = spec_drain(
                        old(self).grammar(),
                        old(self).remainings(),
                        seeded_state(old(self).source_view()),
                        wd,
                    );
                    if d.0 is Ok {
                        assert(Seq::<char>::empty() + d.0->Ok_0 =~= d.0->Ok_0);
                    }
                }
            }
        }
        loop
            invariant
                self.wf(),
                self.grammar() == old(self).grammar(),
                self.spec_start() == old(self).spec_start(),
                self.spec_depth() == old(self).spec_depth(),
                self.emitted@ == old(self).emitted@ + v@,
                old(self).source_view() is System ==> self.source_view() is System,
                old(self).source_view() is Seeded ==> self.source_view() is Seeded && (
                forall|wd: int|
                    wd >= 1 && grammar_widths_bounded(old(self).grammar(), wd) ==> ({
                        let d = #[trigger] spec_drain(
                            old(self).grammar(),
                            self.remainings(),
                            seeded_state(self.source_view()),
                            wd,
                        );
                        let d0 = spec_drain(
                            old(self).grammar(),
                            old(self).remainings(),
                            seeded_state(old(self).source_view()),
                            wd,
                        );
                        &&& (d.0 is Ok ==> d0 == (
                            Ok::<Seq<char>, ConfigurationError>(v@ + d.0->Ok_0),
                            d.1,
                            d.2,
                        ))
                        &&& (d.0 is Err ==> d0 == d)
                    })),
            decreases self.measure(),
        {
            proof {
                lemma_potential_nonneg(self.remainings(), 0, self.widest@ + 1);
            }
            let ghost rems_prev = self.remainings();
            let ghost src_prev = self.source_view();
            let ghost v_prev = v@;
            match self.next_symbol() {
                Ok(Some(c)) => {
                    v.push(c);
                    proof {
                        assert(self.emitted@ =~= old(self).emitted@ + v@);
                        lemma_potential_nonneg(self.remainings(), 0, self.widest@ + 1);
                        if old(self).source_view() is Seeded {
                            let g0 = old(self).grammar();
                            assert forall|wd: int|
                                wd >= 1 && grammar_widths_bounded(g0, wd) implies ({
                                    let d = #[trigger] spec_drain(
                                        g0,
                                        self.remainings(),
                                        seeded_state(self.source_view()),
                                        wd,
                                    );
                                    let d0 = spec_drain(
                                        g0,
                                        old(self).remainings(),
                                        seeded_state(old(self).source_view()),
                                        wd,
                                    );
                                    &&& (d.0 is Ok ==> d0 == (
                                        Ok::<Seq<char>, ConfigurationError>(v@ + d.0->Ok_0),
                                        d.1,
                                        d.2,
                                    ))
                                    &&& (d.0 is Err ==> d0 == d)
                                }) by {
                                let d = spec_drain(
                                    g0,
                                    self.remainings(),
                                    seeded_state(self.source_view()),
                                    wd,
                                );
                                let dp = spec_drain(g0, rems_prev, seeded_state(src_prev), wd);
                                assert(spec_traverse(g0, rems_prev, 0, seeded_state(src_prev), wd)
                                    == (
                                    Ok::<Option<char>, ConfigurationError>(Some(c)),
                                    self.remainings(),
                                    seeded_state(self.source_view()),
                                ));
                                if d.0 is Ok {
                                    assert(dp.0 == Ok::<Seq<char>, ConfigurationError>(
                                        seq![c] + d.0->Ok_0,
                                    ) && dp.1 == d.1 && dp.2 == d.2);
                                    assert(v_prev + (seq![c] + d.0->Ok_0) =~= v@ + d.0->Ok_0);
                                } else {
                                    assert(dp == d);
                                }
                            }
                        }
                    }
                },
                Ok(None) => {
                    proof {
                        if old(self).source_view() is Seeded {
                            let g0 = old(self).grammar();
                            assert forall|wd: int|
                                wd >= 1 && grammar_widths_bounded(g0, wd)
                                    implies #[trigger] spec_drain(
                                    g0,
                                    old(self).remainings(),
                                    seeded_state(old(self).source_view()),
                                    wd,
                                ) == (
                                    Ok::<Seq<char>, ConfigurationError>(v@),
                                    self.remainings(),
                                    seeded_state(self.source_view()),
                                ) by {
                                let dp = spec_drain(g0, rems_prev, seeded_state(src_prev), wd);
                                assert(spec_traverse(g0, rems_prev, 0, seeded_state(src_prev), wd)
                                    == (
                                    Ok::<Option<char>, ConfigurationError>(None),
                                    self.remainings(),
                                    seeded_state(self.source_view()),
                                ));
                                assert(dp == (
                                    Ok::<Seq<char>, ConfigurationError>(Seq::<char>::empty()),
                                    self.remainings(),
                                    seeded_state(self.source_view()),
                                ));
                                assert(v_prev + Seq::<char>::empty() =~= v@);
                            }
                        }
                    }
                    return Ok(v);
                },
                Err(e) => {
                    proof {
                        if old(self).source_view() is Seeded {
                            let g0 = old(self).grammar();
                            assert forall|wd: int|
                                wd >= 1 && grammar_widths_bounded(g0, wd)
                                    implies #[trigger] spec_drain(
                                    g0,
                                    old(self).remainings(),
                                    seeded_state(old(self).source_view()),
                                    wd,
                                ) == (
                                    Err::<Seq<char>, ConfigurationError>(e),
                                    self.remainings(),
                                    seeded_state(self.source_view()),
                                ) by {
                                let dp = spec_drain(g0, rems_prev, seeded_state(src_prev), wd);
                                assert(spec_traverse(g0, rems_prev, 0, seeded_state(src_prev), wd)
                                    == (
                                    Err::<Option<char>, ConfigurationError>(e),
                                    self.remainings(),
                                    seeded_state(self.source_view()),
                                ));
                                assert(dp == (
                                    Err::<Seq<char>, ConfigurationError>(e),
                                    self.remainings(),
                                    seeded_state(self.source_view()),
                                ));
                            }
                        }
                    }
                    return Err(e);
                },
            }
        }
    }
}

/// A fully materialised stochastic derivation, consumed from the front.
pub struct LSystemStringStochastic {
    chars: Vec<char>,
    at: usize,
}

impl LSystemStringStochastic {
    /// Expand `start` to `depth` eagerly, drawing from `source`, and stream
    /// the result.
    pub fn new(
        start: Vec<char>,
        rules: &StochasticGrammar,
        depth: usize,
        source: &mut RandomSource,
    ) -> (r: Result<LSystemStringStochastic, ConfigurationError>)
        requires
            stoch_map_bounded(rules@),
        ensures
            match r {
                Ok(s) => s.wf() && stoch_derives(rules@, start@, s.remaining(), depth as nat),
                Err(e) => !stoch_map_wf(rules@) && some_entry_faults(rules@, e),
            },
            stoch_map_wf(rules@) ==> r is Ok,
            *old(source) is System ==> *final(source) is System,
            *old(source) is Seeded ==> (match (
                r,
                spec_rewrite_seeded(rules@, start@, depth as nat, seeded_state(*old(source))),
            ) {
                (Ok(s), Ok(pair)) => s.remaining() == pair.0 && *final(source) == (
                RandomSource::Seeded { state: pair.1 }),
                (Err(e1), Err(e2)) => e1 == e2,
                _ => false,
            }),
    {
        let chars = match write_expression_stochastic(start, rules, depth, source) {
            Ok(chars) => chars,
            Err(e) => {
                return Err(e);
            },
        };
        let s = LSystemStringStochastic { chars, at: 0 };
        proof {
            assert(s.chars@.skip(0) =~= s.chars@);
        }
        Ok(s)
    }
}

impl SymbolSource for LSystemStringStochastic {
    closed spec fn wf(&self) -> bool {
        self.at <= self.chars@.len()
    }

    closed spec fn remaining(&self) -> Seq<char> {
        self.chars@.skip(self.at as int)
    }

    fn next_symbol(&mut self) -> (r: Option<char>) {
        if self.at < self.chars.len() {
            let c = self.chars[self.at];
            self.at += 1;
            proof {
                assert(old(self).remaining()[0] == c);
                assert(self.chars@.skip(self.at as int) =~= old(self).remaining().drop_first());
            }
            Some(c)
        } else {
            None
        }
    }
}

} // verus!

