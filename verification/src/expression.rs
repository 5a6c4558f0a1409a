//! Symbol stream generators for a deterministic grammar.
//!
//! [`write_expression`] materialises the whole derivation; [`LSystemString`]
//! wraps that result as a stream.  [`LSystemBuilder`] emits the identical
//! sequence lazily: it keeps one partially-consumed symbol buffer per depth
//! level ("layers") and walks the derivation tree depth-first, so its memory
//! stays proportional to `depth` times the widest production instead of the
//! expanded length.

use vstd::arithmetic::power::pow;
use vstd::prelude::*;

use crate::grammar::Grammar;
use crate::rewriting::{
    expand_symbol, lemma_rewrite_n_concat, lemma_rewrite_n_empty, lemma_rewrite_n_terminal,
    lemma_rewrite_n_unfold_symbol, lemma_rewrite_once_concat, lemma_rewrite_once_singleton,
    rewrite_n, rewrite_once,
};

verus! {

/// A pull-based stream of symbols.  `next_symbol` hands out the head of
/// `remaining` until the stream is exhausted; an exhausted stream stays
/// exhausted.
pub trait SymbolSource {
    /// The internal consistency the stream keeps between pulls.
    spec fn wf(&self) -> bool;

    /// The symbols this stream has yet to emit, in order.
    spec fn remaining(&self) -> Seq<char>;

    /// Pull one symbol.
    fn next_symbol(&mut self) -> (r: Option<char>)
        requires
            old(self).wf(),
        ensures
            final(self).wf(),
            match r {
                Some(c) => old(self).remaining().len() > 0 && c == old(self).remaining()[0]
                    && final(self).remaining() == old(self).remaining().drop_first(),
                None => old(self).remaining().len() == 0 && final(self).remaining().len() == 0,
            },
    ;
}

/// Pull every symbol a stream has left, in order.
pub fn collect_symbols<S: SymbolSource>(source: &mut S) -> (v: Vec<char>)
    requires
        old(source).wf(),
    ensures
        final(source).wf(),
        v@ == old(source).remaining(),
        final(source).remaining().len() == 0,
{
    let mut v: Vec<char> = Vec::new();
    loop
        invariant
            source.wf(),
            v@ + source.remaining() == old(source).remaining(),
        decreases source.remaining().len(),
    {
        match source.next_symbol() {
            Some(c) => {
                v.push(c);
                proof {
                    assert(v@ + source.remaining() =~= old(source).remaining());
                }
            },
            None => {
                proof {
                    assert(v@ =~= old(source).remaining());
                }
                return v;
            },
        }
    }
}

/// A copy of a character vector.
pub(crate) fn clone_chars(v: &Vec<char>) -> (r: Vec<char>)
    ensures
        r@ == v@,
{
    let mut r: Vec<char> = Vec::new();
    let n = v.len();
    let mut i: usize = 0;
    while i < n
        invariant
            0 <= i <= n,
            n == v.len(),
            r@ == v@.take(i as int),
        decreases n - i,
    {
        r.push(v[i]);
        i += 1;
        proof {
            assert(v@.take(i as int) =~= v@.take(i - 1) + seq![v@[i - 1]]);
        }
    }
    proof {
        assert(v@.take(n as int) =~= v@);
    }
    r
}

/// Rewrite `start` through `depth` full passes, materialising every
/// intermediate string.  The result is the complete derivation at that depth.
#[verifier::loop_isolation(false)]
pub fn write_expression(start: Vec<char>, rules: &Grammar, depth: usize) -> (r: Vec<char>)
    ensures
        r@ == rewrite_n(rules@, start@, depth as nat),
{
    let ghost startv = start@;
    let mut expression = start;
    let mut pass: usize = 0;
    while pass < depth
        invariant
            0 <= pass <= depth,
            rewrite_n(rules@, expression@, (depth - pass) as nat) == rewrite_n(
                rules@,
                startv,
                depth as nat,
            ),
        decreases depth - pass,
    {
        let mut new: Vec<char> = Vec::new();
        let n = expression.len();
        let mut i: usize = 0;
        while i < n
            invariant
                0 <= i <= n,
                n == expression.len(),
                new@ == rewrite_once(rules@, expression@.take(i as int)),
            decreases n - i,
        {
            let c = expression[i];
            match rules.lookup(c) {
                Some(p) => {
                    let mut copy = clone_chars(p);
                    new.append(&mut copy);
                },
                None => {
                    new.push(c);
                },
            }
            proof {
                assert(expression@.take(i + 1) =~= expression@.take(i as int) + seq![expression@[i as int]]);
                lemma_rewrite_once_concat(
                    rules@,
                    expression@.take(i as int),
                    seq![expression@[i as int]],
                );
                lemma_rewrite_once_singleton(rules@, expression@[i as int]);
            }
            i += 1;
        }
        proof {
            assert(expression@.take(n as int) =~= expression@);
        }
        expression = new;
        pass += 1;
    }
    expression
}

/// The derivation of `start` at `depth`, as a vector of symbols.  This is
/// `write_expression` under the name the space-filling sketches use.
pub fn l_system(start: Vec<char>, rules: &Grammar, depth: usize) -> (r: Vec<char>)
    ensures
        r@ == rewrite_n(rules@, start@, depth as nat),
{
    write_expression(start, rules, depth)
}

/// The fully materialised derivation, consumed from the front.
pub struct LSystemString {
    chars: Vec<char>,
    at: usize,
}

impl LSystemString {
    /// Expand `start` to `depth` eagerly and stream the result.
    pub fn new(start: Vec<char>, rules: &Grammar, depth: usize) -> (s: LSystemString)
        ensures
            s.wf(),
            s.remaining() == rewrite_n(rules@, start@, depth as nat),
    {
        let chars = write_expression(start, rules, depth);
        let s = LSystemString { chars, at: 0 };
        proof {
            assert(s.chars@.skip(0) =~= s.chars@);
        }
        s
    }
}

impl SymbolSource for LSystemString {
    closed spec fn wf(&self) -> bool {
        self.at <= self.chars@.len()
    }

    closed spec fn remaining(&self) -> Seq<char> {
        self.chars@.skip(self.at as int)
    }

    fn next_symbol(&mut self) -> (r: Option<char>) {
        if self.at < self.chars.len() {
            let c = self.chars[self.at];
            self.at += 1;
            proof {
                assert(old(self).remaining()[0] == c);
                assert(self.chars@.skip(self.at as int) =~= old(self).remaining().drop_first());
            }
            Some(c)
        } else {
            None
        }
    }
}

/// One partially-consumed symbol buffer of the lazy generator.
struct Layer {
    syms: Vec<char>,
    at: usize,
}

/// The symbols a layer has not yet handed out.
spec fn layer_remaining(l: Layer) -> Seq<char> {
    l.syms@.skip(l.at as int)
}

/// The symbols still owed by layers `i..`, where the content of layer `k`
/// has `k` rewriting passes left to undergo.
pub open spec fn pending_from(g: Map<char, Seq<char>>, rems: Seq<Seq<char>>, i: int) -> Seq<char>
    decreases rems.len() - i,
{
    if 0 <= i < rems.len() {
        rewrite_n(g, rems[i], i as nat) + pending_from(g, rems, i + 1)
    } else {
        Seq::empty()
    }
}

/// The termination measure of the generator's traversal: layer contents
/// weighted by `w` to the power of their level.
pub open spec fn potential_from(rems: Seq<Seq<char>>, i: int, w: int) -> int
    decreases rems.len() - i,
{
    if 0 <= i < rems.len() {
        rems[i].len() * pow(w, i as nat) + potential_from(rems, i + 1, w)
    } else {
        0
    }
}

/// Layer suffixes that agree element by element owe the same symbols.
proof fn lemma_pending_congruence(
    g: Map<char, Seq<char>>,
    r1: Seq<Seq<char>>,
    r2: Seq<Seq<char>>,
    i: int,
)
    requires
        r1.len() == r2.len(),
        forall|k: int| i <= k < r1.len() ==> r1[k] == r2[k],
    ensures
        pending_from(g, r1, i) == pending_from(g, r2, i),
    decreases r1.len() - i,
{
    if 0 <= i < r1.len() {
        lemma_pending_congruence(g, r1, r2, i + 1);
    }
}

pub(crate) proof fn lemma_potential_congruence(r1: Seq<Seq<char>>, r2: Seq<Seq<char>>, i: int, w: int)
    requires
        r1.len() == r2.len(),
        forall|k: int| i <= k < r1.len() ==> r1[k] == r2[k],
    ensures
        potential_from(r1, i, w) == potential_from(r2, i, w),
    decreases r1.len() - i,
{
    if 0 <= i < r1.len() {
        lemma_potential_congruence(r1, r2, i + 1, w);
    }
}

/// Empty layers below `i` owe nothing.
proof fn lemma_pending_skip_empty(g: Map<char, Seq<char>>, rems: Seq<Seq<char>>, j: int, i: int)
    requires
        0 <= j <= i <= rems.len(),
        forall|k: int| j <= k < i ==> (#[trigger] rems[k]).len() == 0,
    ensures
        pending_from(g, rems, j) == pending_from(g, rems, i),
    decreases i - j,
{
    if j < i {
        assert(rems[j] =~= Seq::<char>::empty());
        lemma_rewrite_n_empty(g, j as nat);
        lemma_pending_skip_empty(g, rems, j + 1, i);
        assert(Seq::<char>::empty() + pending_from(g, rems, j + 1) =~= pending_from(
            g,
            rems,
            j + 1,
        ));
    }
}

/// Replacing the layer at `j` shifts the measure by the weighted change in
/// that layer's length.
pub(crate) proof fn lemma_potential_update(rems: Seq<Seq<char>>, j: int, v: Seq<char>, i: int, w: int)
    requires
        0 <= i <= j < rems.len(),
    ensures
        potential_from(rems.update(j, v), i, w) == potential_from(rems, i, w) + (v.len()
            - rems[j].len()) * pow(w, j as nat),
    decreases j - i,
{
    let r2 = rems.update(j, v);
    if i == j {
        lemma_potential_congruence(r2, rems, i + 1, w);
        assert((v.len() - rems[j].len()) * pow(w, j as nat) == v.len() * pow(w, j as nat)
            - rems[j].len() * pow(w, j as nat)) by (nonlinear_arith);
    } else {
        lemma_potential_update(rems, j, v, i + 1, w);
    }
}

/// The measure is never negative when the weight is positive.
pub(crate) proof fn lemma_potential_nonneg(rems: Seq<Seq<char>>, i: int, w: int)
    requires
        w >= 1,
    ensures
        potential_from(rems, i, w) >= 0,
    decreases rems.len() - i,
{
    if 0 <= i < rems.len() {
        lemma_potential_nonneg(rems, i + 1, w);
        vstd::arithmetic::power::lemma_pow_positive(w, i as nat);
        assert(rems[i].len() * pow(w, i as nat) >= 0) by (nonlinear_arith)
            requires pow(w, i as nat) > 0;
    }
}

/// The lazy generator of spec-accurate symbol streams.  The outermost layer
/// starts with the start string; taking a symbol with a production pushes
/// that production one layer inward; symbols leaving layer 0 (or having no
/// production) are fully derived and are emitted.
pub struct LSystemBuilder {
    rules: Grammar,
    depth: usize,
    layers: Vec<Layer>,
    widest: Ghost<int>,
}

impl LSystemBuilder {
    /// The grammar this generator expands with.
    pub closed spec fn grammar(&self) -> Map<char, Seq<char>> {
        self.rules@
    }

    /// The remaining content of each layer.
    closed spec fn remainings(&self) -> Seq<Seq<char>> {
        Seq::new(self.layers@.len() as nat, |i: int| layer_remaining(self.layers@[i]))
    }

    /// The symbols this generator has yet to emit.
    pub closed spec fn pending(&self) -> Seq<char> {
        pending_from(self.rules@, self.remainings(), 0)
    }

    /// The generator's internal consistency.
    pub closed spec fn wf(&self) -> bool {
        &&& self.layers@.len() == self.depth + 1
        &&& forall|i: int|
            0 <= i < self.layers@.len() ==> (#[trigger] self.layers@[i]).at
                <= self.layers@[i].syms@.len()
        &&& self.widest@ >= 1
        &&& forall|c: char|
            self.rules@.dom().contains(c) ==> (#[trigger] self.rules@[c]).len() <= self.widest@
    }

    /// A generator that will emit exactly the derivation of `start` at
    /// `depth`, without materialising it.
    #[verifier::loop_isolation(false)]
    pub fn new(start: Vec<char>, rules: Grammar, depth: usize) -> (b: LSystemBuilder)
        requires
            depth < usize::MAX,
        ensures
            b.wf(),
            b.grammar() == rules@,
            b.pending() == rewrite_n(rules@, start@, depth as nat),
    {
        let mut layers: Vec<Layer> = Vec::new();
        let mut i: usize = 0;
        while i < depth
            invariant
                0 <= i <= depth,
                layers@.len() == i,
                forall|j: int| 0 <= j < i ==> (#[trigger] layers@[j]).at == 0,
                forall|j: int| 0 <= j < i ==> (#[trigger] layers@[j]).syms@.len() == 0,
            decreases depth - i,
        {
            layers.push(Layer { syms: Vec::new(), at: 0 });
            i += 1;
        }
        let ghost startv = start@;
        layers.push(Layer { syms: start, at: 0 });
        let w = rules.widest_production();
        let ghost wide = if w as int >= 1 { w as int } else { 1 };
        let b = LSystemBuilder { rules, depth, layers, widest: Ghost(wide) };
        proof {
            let rems = b.remainings();
            assert forall|j: int| 0 <= j < depth implies (#[trigger] rems[j]).len() == 0 by {
                assert(b.layers@[j].syms@.skip(0) =~= b.layers@[j].syms@);
            }
            assert(rems[depth as int] =~= startv) by {
                assert(b.layers@[depth as int].syms@.skip(0) =~= b.layers@[depth as int].syms@);
            }
            lemma_pending_skip_empty(b.rules@, rems, 0, depth as int);
            assert(pending_from(b.rules@, rems, depth as int) == rewrite_n(
                b.rules@,
                startv,
                depth as nat,
            )) by {
                assert(pending_from(b.rules@, rems, depth + 1) =~= Seq::<char>::empty());
                assert(rewrite_n(b.rules@, rems[depth as int], depth as nat) + Seq::<char>::empty()
                    =~= rewrite_n(b.rules@, rems[depth as int], depth as nat));
            }
        }
        b
    }

    /// The replacement sequence for `c`: its production when one exists,
    /// otherwise `c` itself.
    pub fn chars_from_rules(&self, c: char) -> (p: Vec<char>)
        ensures
            p@ == expand_symbol(self.grammar(), c),
    {
        match self.rules.lookup(c) {
            Some(production) => clone_chars(production),
            None => {
                let mut p: Vec<char> = Vec::new();
                p.push(c);
                proof {
                    assert(p@ =~= seq![c]);
                }
                p
            },
        }
    }
}

impl SymbolSource for LSystemBuilder {
    open spec fn wf(&self) -> bool {
        LSystemBuilder::wf(self)
    }

    open spec fn remaining(&self) -> Seq<char> {
        self.pending()
    }

    /// One step of the depth-first traversal of the derivation tree: emit the
    /// next fully-derived symbol, or report exhaustion.
    #[verifier::loop_isolation(false)]
    fn next_symbol(&mut self) -> (r: Option<char>) {
        let mut ptr: usize = 0;
        loop
            invariant
                self.wf(),
                self.rules == old(self).rules,
                self.depth == old(self).depth,
                self.widest == old(self).widest,
                ptr <= self.depth + 1,
                forall|k: int| 0 <= k < ptr ==> (#[trigger] self.remainings()[k]).len() == 0,
                self.pending() == old(self).pending(),
            decreases potential_from(self.remainings(), 0, self.widest@ + 1), self.depth + 1 - ptr,
        {
            proof {
                lemma_potential_nonneg(self.remainings(), 0, self.widest@ + 1);
            }
            let n_layers = self.layers.len();
            if ptr >= n_layers {
                proof {
                    lemma_pending_skip_empty(
                        self.rules@,
                        self.remainings(),
                        0,
                        self.remainings().len() as int,
                    );
                }
                return None;
            }
            let l0_at = self.layers[0].at;
            if l0_at < self.layers[0].syms.len() {
                let c = self.layers[0].syms[l0_at];
                let ghost before = self.remainings();
                self.layers[0].at = l0_at + 1;
                proof {
                    let after = self.remainings();
                    assert(after =~= before.update(0, before[0].drop_first())) by {
                        assert(self.layers@[0].syms@.skip(l0_at + 1) =~= before[0].drop_first());
                    }
                    lemma_pending_congruence(self.rules@, after, before.update(0, before[0].drop_first()), 0);
                    lemma_pending_congruence(self.rules@, after, before, 1);
                    assert(before[0] =~= seq![c] + before[0].drop_first());
                    lemma_rewrite_n_concat(self.rules@, seq![c], before[0].drop_first(), 0);
                    assert(pending_from(self.rules@, before, 0) == seq![c] + pending_from(
                        self.rules@,
                        after,
                        0,
                    ));
                    assert(old(self).pending()[0] == c);
                    assert(self.pending() =~= old(self).pending().drop_first());
                }
                return Some(c);
            }
            let at = self.layers[ptr].at;
            if at < self.layers[ptr].syms.len() {
                let c = self.layers[ptr].syms[at];
                assert(ptr >= 1);
                let ghost before = self.remainings();
                self.layers[ptr].at = at + 1;
                let ghost mid = self.remainings();
                proof {
                    assert(mid =~= before.update(ptr as int, before[ptr as int].drop_first())) by {
                        assert(self.layers@[ptr as int].syms@.skip(at + 1) =~= before[ptr as int].drop_first());
                    }
                    assert(before[ptr as int] =~= seq![c] + before[ptr as int].drop_first());
                }
                let is_terminal = match self.rules.lookup(c) {
                    Some(_) => false,
                    None => true,
                };
                if is_terminal {
                    proof {
                        let g = self.rules@;
                        lemma_pending_skip_empty(g, before, 0, ptr as int);
                        lemma_pending_skip_empty(g, mid, 0, ptr as int);
                        lemma_pending_congruence(g, mid, before, ptr + 1);
                        lemma_rewrite_n_concat(
                            g,
                            seq![c],
                            before[ptr as int].drop_first(),
                            ptr as nat,
                        );
                        lemma_rewrite_n_terminal(g, c, ptr as nat);
                        assert(pending_from(g, before, ptr as int) == seq![c] + pending_from(
                            g,
                            mid,
                            ptr as int,
                        ));
                        assert(old(self).pending()[0] == c);
                        assert(self.pending() =~= old(self).pending().drop_first());
                    }
                    return Some(c);
                }
                let production = self.chars_from_rules(c);
                let ghost prodv = production@;
                self.layers[ptr - 1] = Layer { syms: production, at: 0 };
                proof {
                    let g = self.rules@;
                    let after = self.remainings();
                    assert(after =~= mid.update(ptr - 1, prodv)) by {
                        assert(self.layers@[ptr - 1].syms@.skip(0) =~= prodv);
                    }
                    // The owed symbols are unchanged: expanding one symbol one
                    // layer inward trades `ptr` passes of `c` for `ptr - 1`
                    // passes of its production.
                    lemma_pending_skip_empty(g, before, 0, ptr as int);
                    lemma_pending_skip_empty(g, after, 0, ptr - 1);
                    lemma_pending_congruence(g, mid, before, ptr + 1);
                    lemma_pending_congruence(g, after, mid, ptr + 1);
                    lemma_rewrite_n_concat(g, seq![c], before[ptr as int].drop_first(), ptr as nat);
                    lemma_rewrite_n_unfold_symbol(g, c, ptr as nat);
                    assert(mid[ptr as int] == before[ptr as int].drop_first());
                    assert(after[ptr as int] == before[ptr as int].drop_first());
                    assert(after[ptr - 1] == prodv);
                    assert(pending_from(g, after, ptr - 1) == rewrite_n(g, prodv, (ptr - 1) as nat)
                        + pending_from(g, after, ptr as int));
                    assert(pending_from(g, before, ptr as int) == rewrite_n(g, seq![c], ptr as nat)
                        + rewrite_n(g, before[ptr as int].drop_first(), ptr as nat)
                        + pending_from(g, before, ptr + 1));
                    assert(self.pending() == old(self).pending());
                    // The weighted measure shrinks: the production is at most
                    // `widest` long, one level down.
                    let w = self.widest@ + 1;
                    lemma_potential_nonneg(after, 0, w);
                    lemma_potential_update(before, ptr as int, mid[ptr as int], 0, w);
                    lemma_potential_update(mid, ptr - 1, prodv, 0, w);
                    assert(mid[ptr - 1].len() == 0);
                    vstd::arithmetic::power::lemma_pow_positive(w, (ptr - 1) as nat);
                    assert(prodv.len() < w);
                    assert(pow(w, ptr as nat) == w * pow(w, (ptr - 1) as nat)) by {
                        reveal(pow);
                    }
                    assert(potential_from(after, 0, w) < potential_from(before, 0, w))
                        by (nonlinear_arith)
                        requires
                            potential_from(mid, 0, w) == potential_from(before, 0, w) + (
                            mid[ptr as int].len() - before[ptr as int].len()) * pow(w, ptr as nat),
                            potential_from(after, 0, w) == potential_from(mid, 0, w) + (prodv.len()
                                - mid[ptr - 1].len()) * pow(w, (ptr - 1) as nat),
                            mid[ptr as int].len() == before[ptr as int].len() - 1,
                            mid[ptr - 1].len() == 0,
                            pow(w, ptr as nat) == w * pow(w, (ptr - 1) as nat),
                            prodv.len() < w,
                            pow(w, (ptr - 1) as nat) > 0,
                    ;
                }
                ptr = ptr - 1;
            } else {
                ptr = ptr + 1;
            }
        }
    }
}

} // verus!

