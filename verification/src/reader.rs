//! The symbol interpreter: a turtle state machine that pulls symbols from a
//! generator, looks each one up in an action table, and executes the action
//! against a live cursor, three snapshot stacks and an append-only segment
//! buffer.  Every `step` does one symbol's worth of work; its whole effect is
//! pinned down by the spec function [`apply_action`].

use vstd::prelude::*;

use crate::actions::{Action, ActionTable};
use crate::cursor::{
    cursor_wf, spec_forward, spec_normalize, spec_rotate, Cursor, Point, POS_LIMIT, SCALE,
};
use crate::expression::SymbolSource;
use crate::grammar::ConfigurationError;
use crate::segment::Segment;

verus! {

/// Which snapshot stack an underflow names.
#[derive(Clone, Copy, Debug, PartialEq, Eq, Structural)]
pub enum StackKind {
    /// The stack of whole poses.
    Cursors,
    /// The stack of positions.
    Positions,
    /// The stack of headings.
    Angles,
}

/// A fault that ends the run: the interpreter will not step past it.
#[derive(Clone, Copy, Debug, PartialEq, Eq, Structural)]
pub enum RunError {
    /// A pop action found its stack empty: the grammar's push and pop
    /// symbols are unbalanced.
    StackUnderflow(StackKind),
    /// A configuration fault surfaced while executing an action.
    Configuration(ConfigurationError),
}

/// What one `step` did.
#[derive(Clone, Copy, Debug, PartialEq, Eq, Structural)]
pub enum StepResult {
    /// The symbol's action was executed.
    Executed(Action),
    /// The symbol has no entry in the action table; nothing was changed.
    Unknown(char),
    /// The generator is exhausted; nothing more will happen.
    Finished,
}

/// The interpreter's phase.
#[derive(Clone, Copy, Debug, PartialEq, Eq, Structural)]
pub enum ReaderState {
    /// Symbols are still being consumed.
    Running,
    /// The generator was exhausted; terminal.
    Finished,
    /// A fatal fault was met; terminal.
    Failed(RunError),
}

/// The interpreter's mutable state, as mathematical values: the live cursor,
/// the three snapshot stacks and the segments drawn so far.
pub struct ReaderModel {
    /// The live cursor.
    pub cursor: Cursor,
    /// The stack of saved poses.
    pub cursors: Seq<Cursor>,
    /// The stack of saved positions.
    pub positions: Seq<Point>,
    /// The stack of saved headings.
    pub angles: Seq<Point>,
    /// The segments drawn so far.
    pub segments: Seq<Segment>,
}

/// The full effect of one action on the interpreter's state, or the fault it
/// raises.  Pop on an empty stack and a zero `SetAngle` vector are the only
/// faults; everything else is total.
pub open spec fn apply_action(m: ReaderModel, a: Action) -> Result<ReaderModel, RunError> {
    match a {
        Action::NoOp => Ok(m),
        Action::MoveForward(d) => Ok(
            ReaderModel { cursor: spec_forward(m.cursor, d as int), ..m },
        ),
        Action::DrawForward(d) => {
            let c2 = spec_forward(m.cursor, d as int);
            Ok(
                ReaderModel {
                    cursor: c2,
                    segments: m.segments.push(
                        Segment { start: m.cursor.position, end: c2.position },
                    ),
                    ..m
                },
            )
        },
        Action::MoveTo(p) => Ok(
            ReaderModel { cursor: Cursor { position: p, heading: m.cursor.heading }, ..m },
        ),
        Action::DrawTo(p) => Ok(
            ReaderModel {
                cursor: Cursor { position: p, heading: m.cursor.heading },
                segments: m.segments.push(Segment { start: m.cursor.position, end: p }),
                ..m
            },
        ),
        Action::Rotate(r) => Ok(ReaderModel { cursor: spec_rotate(m.cursor, r), ..m }),
        Action::SetAngle(v) => {
            if v.x == 0 && v.y == 0 {
                Err(RunError::Configuration(ConfigurationError::ZeroHeading))
            } else {
                let h = spec_normalize(v.x as int, v.y as int);
                Ok(
                    ReaderModel {
                        cursor: Cursor {
                            position: m.cursor.position,
                            heading: Point { x: h.0 as i64, y: h.1 as i64 },
                        },
                        ..m
                    },
                )
            }
        },
        Action::PushCursor => Ok(ReaderModel { cursors: m.cursors.push(m.cursor), ..m }),
        Action::PopCursor => {
            if m.cursors.len() == 0 {
                Err(RunError::StackUnderflow(StackKind::Cursors))
            } else {
                Ok(ReaderModel { cursor: m.cursors.last(), cursors: m.cursors.drop_last(), ..m })
            }
        },
        Action::PushPosition => Ok(
            ReaderModel { positions: m.positions.push(m.cursor.position), ..m },
        ),
        Action::PopPosition => {
            if m.positions.len() == 0 {
                Err(RunError::StackUnderflow(StackKind::Positions))
            } else {
                Ok(
                    ReaderModel {
                        cursor: Cursor { position: m.positions.last(), heading: m.cursor.heading },
                        positions: m.positions.drop_last(),
                        ..m
                    },
                )
            }
        },
        Action::PushAngle => Ok(ReaderModel { angles: m.angles.push(m.cursor.heading), ..m }),
        Action::PopAngle => {
            if m.angles.len() == 0 {
                Err(RunError::StackUnderflow(StackKind::Angles))
            } else {
                Ok(
                    ReaderModel {
                        cursor: Cursor { position: m.cursor.position, heading: m.angles.last() },
                        angles: m.angles.drop_last(),
                        ..m
                    },
                )
            }
        },
    }
}

/// The effect of one symbol: its action's effect, or nothing at all when the
/// table does not know the symbol.
pub open spec fn exec_symbol(t: Map<char, Action>, m: ReaderModel, c: char) -> Result<
    ReaderModel,
    RunError,
> {
    if t.dom().contains(c) {
        apply_action(m, t[c])
    } else {
        Ok(m)
    }
}

/// The effect of a whole symbol sequence, stopping at the first fault.
pub open spec fn run_symbols(t: Map<char, Action>, m: ReaderModel, syms: Seq<char>) -> Result<
    ReaderModel,
    RunError,
>
    decreases syms.len(),
{
    if syms.len() == 0 {
        Ok(m)
    } else {
        match exec_symbol(t, m, syms[0]) {
            Ok(m2) => run_symbols(t, m2, syms.drop_first()),
            Err(e) => Err(e),
        }
    }
}

/// The effect of stepping until the next `DrawForward`: the result of the
/// stopping step, the state reached, and the symbols left.  Unknown symbols
/// and every other action -- a `DrawTo` included -- are passed over; only a
/// `DrawForward`, exhaustion or a fault stops.
pub open spec fn run_until_draw(t: Map<char, Action>, m: ReaderModel, syms: Seq<char>) -> (
    Result<StepResult, RunError>,
    ReaderModel,
    Seq<char>,
)
    decreases syms.len(),
{
    if syms.len() == 0 {
        (Ok(StepResult::Finished), m, syms)
    } else {
        let c = syms[0];
        let rest = syms.drop_first();
        if !t.dom().contains(c) {
            run_until_draw(t, m, rest)
        } else {
            match apply_action(m, t[c]) {
                Err(e) => (Err(e), m, rest),
                Ok(m2) => if t[c] is DrawForward {
                    (Ok(StepResult::Executed(t[c])), m2, rest)
                } else {
                    run_until_draw(t, m2, rest)
                },
            }
        }
    }
}

/// The effect of a whole action sequence, stopping at the first fault.
pub open spec fn run_actions(m: ReaderModel, s: Seq<Action>) -> Result<ReaderModel, RunError>
    decreases s.len(),
{
    if s.len() == 0 {
        Ok(m)
    } else {
        match apply_action(m, s[0]) {
            Ok(m2) => run_actions(m2, s.drop_first()),
            Err(e) => Err(e),
        }
    }
}

/// `a` saves a snapshot on the stack `k`.
pub open spec fn is_push(k: StackKind, a: Action) -> bool {
    match k {
        StackKind::Cursors => a is PushCursor,
        StackKind::Positions => a is PushPosition,
        StackKind::Angles => a is PushAngle,
    }
}

/// `a` takes a snapshot off the stack `k`.
pub open spec fn is_pop(k: StackKind, a: Action) -> bool {
    match k {
        StackKind::Cursors => a is PopCursor,
        StackKind::Positions => a is PopPosition,
        StackKind::Angles => a is PopAngle,
    }
}

/// `a` is the one non-stack action that can fault: setting a zero heading.
pub open spec fn is_zero_set_angle(a: Action) -> bool {
    match a {
        Action::SetAngle(v) => v.x == 0 && v.y == 0,
        _ => false,
    }
}

/// How many actions in `s` push on the stack `k`.
pub open spec fn push_count(k: StackKind, s: Seq<Action>) -> int
    decreases s.len(),
{
    if s.len() == 0 {
        0
    } else {
        (if is_push(k, s[0]) {
            1int
        } else {
            0int
        }) + push_count(k, s.drop_first())
    }
}

/// How many actions in `s` pop from the stack `k`.
pub open spec fn pop_count(k: StackKind, s: Seq<Action>) -> int
    decreases s.len(),
{
    if s.len() == 0 {
        0
    } else {
        (if is_pop(k, s[0]) {
            1int
        } else {
            0int
        }) + pop_count(k, s.drop_first())
    }
}

/// The depth of the stack `k` in the state `m`.
pub open spec fn stack_size(k: StackKind, m: ReaderModel) -> int {
    match k {
        StackKind::Cursors => m.cursors.len() as int,
        StackKind::Positions => m.positions.len() as int,
        StackKind::Angles => m.angles.len() as int,
    }
}

/// Counting over `s.take(i + 1)` is counting the first action and then over
/// the rest's prefix.
proof fn lemma_count_take_succ(k: StackKind, s: Seq<Action>, i: int)
    requires
        0 <= i < s.len(),
    ensures
        push_count(k, s.take(i + 1)) == (if is_push(k, s[0]) {
            1int
        } else {
            0int
        }) + push_count(k, s.drop_first().take(i)),
        pop_count(k, s.take(i + 1)) == (if is_pop(k, s[0]) {
            1int
        } else {
            0int
        }) + pop_count(k, s.drop_first().take(i)),
{
    assert(s.take(i + 1)[0] == s[0]);
    assert(s.take(i + 1).drop_first() =~= s.drop_first().take(i));
}

/// The counts over a one-action prefix are that action's own push and pop.
proof fn lemma_counts_first(k: StackKind, s: Seq<Action>)
    requires
        s.len() > 0,
    ensures
        pop_count(k, s.take(1)) == (if is_pop(k, s[0]) {
            1int
        } else {
            0int
        }),
        push_count(k, s.take(1)) == (if is_push(k, s[0]) {
            1int
        } else {
            0int
        }),
{
    lemma_count_take_succ(k, s, 0);
    assert(s.drop_first().take(0) =~= Seq::<Action>::empty());
    assert(pop_count(k, Seq::<Action>::empty()) == 0);
    assert(push_count(k, Seq::<Action>::empty()) == 0);
}

/// A successful action changes each stack's depth by its push or pop on
/// that stack.
proof fn lemma_apply_action_stacks(m: ReaderModel, a: Action, k: StackKind)
    requires
        apply_action(m, a) is Ok,
    ensures
        stack_size(k, apply_action(m, a)->Ok_0) == stack_size(k, m) + (if is_push(k, a) {
            1int
        } else {
            0int
        }) - (if is_pop(k, a) {
            1int
        } else {
            0int
        }),
{
}

/// An action sequence in which, at every point, no stack has been popped
/// more often than it was filled -- counting what the starting state already
/// holds -- and which never sets a zero heading, runs to completion without
/// a fault.
pub proof fn lemma_balanced_run_ok(m: ReaderModel, s: Seq<Action>)
    requires
        forall|k: StackKind, i: int|
            0 <= i <= s.len() ==> #[trigger] pop_count(k, s.take(i)) <= stack_size(k, m)
                + push_count(k, s.take(i)),
        forall|i: int| 0 <= i < s.len() ==> !is_zero_set_angle(#[trigger] s[i]),
    ensures
        run_actions(m, s) is Ok,
    decreases s.len(),
{
    if s.len() > 0 {
        let a = s[0];
        let rest = s.drop_first();
        lemma_counts_first(StackKind::Cursors, s);
        lemma_counts_first(StackKind::Positions, s);
        lemma_counts_first(StackKind::Angles, s);
        assert(pop_count(StackKind::Cursors, s.take(1)) <= stack_size(StackKind::Cursors, m)
            + push_count(StackKind::Cursors, s.take(1)));
        assert(pop_count(StackKind::Positions, s.take(1)) <= stack_size(StackKind::Positions, m)
            + push_count(StackKind::Positions, s.take(1)));
        assert(pop_count(StackKind::Angles, s.take(1)) <= stack_size(StackKind::Angles, m)
            + push_count(StackKind::Angles, s.take(1)));
        assert(!is_zero_set_angle(a));
        assert(apply_action(m, a) is Ok);
        let m2 = apply_action(m, a)->Ok_0;
        assert forall|k: StackKind, i: int|
            0 <= i <= rest.len() implies #[trigger] pop_count(k, rest.take(i)) <= stack_size(
            k,
            m2,
        ) + push_count(k, rest.take(i)) by {
            lemma_count_take_succ(k, s, i);
            lemma_apply_action_stacks(m, a, k);
            assert(pop_count(k, s.take(i + 1)) <= stack_size(k, m) + push_count(k, s.take(i + 1)));
        }
        assert forall|i: int| 0 <= i < rest.len() implies !is_zero_set_angle(
            #[trigger] rest[i],
        ) by {
            assert(rest[i] == s[i + 1]);
        }
        lemma_balanced_run_ok(m2, rest);
    }
}

/// The first pop beyond what its stack holds faults the run with an
/// underflow on exactly that stack: if position `i` pops stack `k` when the
/// pushes and pops so far have emptied it, and nothing before `i` faulted,
/// the whole run is that underflow.
pub proof fn lemma_unbalanced_run_underflows(m: ReaderModel, s: Seq<Action>, k: StackKind, i: int)
    requires
        0 <= i < s.len(),
        is_pop(k, s[i]),
        stack_size(k, m) + push_count(k, s.take(i)) - pop_count(k, s.take(i)) == 0,
        forall|k2: StackKind, j: int|
            0 <= j <= i ==> #[trigger] pop_count(k2, s.take(j)) <= stack_size(k2, m) + push_count(
                k2,
                s.take(j),
            ),
        forall|j: int| 0 <= j <= i ==> !is_zero_set_angle(#[trigger] s[j]),
    ensures
        run_actions(m, s) == Err::<ReaderModel, RunError>(RunError::StackUnderflow(k)),
    decreases i,
{
    let a = s[0];
    let rest = s.drop_first();
    if i == 0 {
        assert(s.take(0) =~= Seq::<Action>::empty());
        assert(stack_size(k, m) == 0);
    } else {
        lemma_counts_first(StackKind::Cursors, s);
        lemma_counts_first(StackKind::Positions, s);
        lemma_counts_first(StackKind::Angles, s);
        assert(pop_count(StackKind::Cursors, s.take(1)) <= stack_size(StackKind::Cursors, m)
            + push_count(StackKind::Cursors, s.take(1)));
        assert(pop_count(StackKind::Positions, s.take(1)) <= stack_size(StackKind::Positions, m)
            + push_count(StackKind::Positions, s.take(1)));
        assert(pop_count(StackKind::Angles, s.take(1)) <= stack_size(StackKind::Angles, m)
            + push_count(StackKind::Angles, s.take(1)));
        assert(!is_zero_set_angle(a));
        assert(apply_action(m, a) is Ok);
        let m2 = apply_action(m, a)->Ok_0;
        assert(rest[i - 1] == s[i]);
        lemma_count_take_succ(k, s, i - 1);
        lemma_apply_action_stacks(m, a, k);
        assert(stack_size(k, m2) + push_count(k, rest.take(i - 1)) - pop_count(
            k,
            rest.take(i - 1),
        ) == 0);
        assert forall|k2: StackKind, j: int|
            0 <= j <= i - 1 implies #[trigger] pop_count(k2, rest.take(j)) <= stack_size(k2, m2)
            + push_count(k2, rest.take(j)) by {
            lemma_count_take_succ(k2, s, j);
            lemma_apply_action_stacks(m, a, k2);
            assert(pop_count(k2, s.take(j + 1)) <= stack_size(k2, m) + push_count(
                k2,
                s.take(j + 1),
            ));
        }
        assert forall|j: int| 0 <= j <= i - 1 implies !is_zero_set_angle(#[trigger] rest[j]) by {
            assert(rest[j] == s[j + 1]);
        }
        lemma_unbalanced_run_underflows(m2, rest, k, i - 1);
    }
}

/// Interpret a stream of symbols as turtle actions in 2D space.
pub struct SymbolReader<S: SymbolSource> {
    expression: S,
    actions: ActionTable,
    /// The segments drawn so far, in drawing order.
    pub segments: Vec<Segment>,
    /// The stack of saved poses.
    pub cursors: Vec<Cursor>,
    /// The stack of saved positions.
    pub positions: Vec<Point>,
    /// The stack of saved headings.
    pub angles: Vec<Point>,
    /// The live cursor.
    pub cursor: Cursor,
    state: ReaderState,
}

impl<S: SymbolSource> SymbolReader<S> {
    /// The symbols the generator has yet to deliver.
    pub closed spec fn remaining(&self) -> Seq<char> {
        self.expression.remaining()
    }

    /// The action table, as a map.
    pub closed spec fn table(&self) -> Map<char, Action> {
        self.actions@
    }

    /// The interpreter's phase.
    pub closed spec fn spec_state(&self) -> ReaderState {
        self.state
    }

    /// The mutable state, as mathematical values.
    pub closed spec fn model(&self) -> ReaderModel {
        ReaderModel {
            cursor: self.cursor,
            cursors: self.cursors@,
            positions: self.positions@,
            angles: self.angles@,
            segments: self.segments@,
        }
    }

    /// The bounds the interpreter keeps: a consistent generator, a cursor
    /// and snapshots within coordinate bounds, and a table of bounded
    /// actions.
    pub closed spec fn wf(&self) -> bool {
        &&& self.expression.wf()
        &&& self.actions.wf()
        &&& cursor_wf(self.cursor)
        &&& forall|i: int| 0 <= i < self.cursors@.len() ==> cursor_wf(#[trigger] self.cursors@[i])
        &&& forall|i: int|
            0 <= i < self.positions@.len() ==> -POS_LIMIT <= (#[trigger] self.positions@[i]).x
                <= POS_LIMIT && -POS_LIMIT <= self.positions@[i].y <= POS_LIMIT
        &&& forall|i: int|
            0 <= i < self.angles@.len() ==> -SCALE <= (#[trigger] self.angles@[i]).x <= SCALE
                && -SCALE <= self.angles@[i].y <= SCALE
    }

    /// A fresh interpreter over `expression`, with empty stacks and buffers.
    pub fn new(expression: S, actions: ActionTable, cursor: Cursor) -> (r: SymbolReader<S>)
        requires
            expression.wf(),
            actions.wf(),
            cursor_wf(cursor),
        ensures
            r.wf(),
            r.remaining() == expression.remaining(),
            r.table() == actions@,
            r.spec_state() == ReaderState::Running,
            r.model().cursor == cursor,
            r.model().cursors.len() == 0,
            r.model().positions.len() == 0,
            r.model().angles.len() == 0,
            r.model().segments.len() == 0,
    {
        SymbolReader {
            expression,
            actions,
            segments: Vec::new(),
            cursors: Vec::new(),
            positions: Vec::new(),
            angles: Vec::new(),
            cursor,
            state: ReaderState::Running,
        }
    }

    /// The interpreter's phase: running, finished, or failed.
    pub fn state(&self) -> (s: ReaderState)
        ensures
            s == self.spec_state(),
    {
        self.state
    }

    /// Read the next symbol and perform its action.  Returns what was done;
    /// a fault is returned and freezes the interpreter, and a finished or
    /// failed interpreter never mutates anything again.
    pub fn step(&mut self) -> (r: Result<StepResult, RunError>)
        requires
            old(self).wf(),
        ensures
            final(self).wf(),
            final(self).table() == old(self).table(),
            match old(self).spec_state() {
                ReaderState::Finished => r == Ok::<StepResult, RunError>(StepResult::Finished)
                    && *final(self) == *old(self),
                ReaderState::Failed(e) => r == Err::<StepResult, RunError>(e) && *final(self)
                    == *old(self),
                ReaderState::Running => {
                    if old(self).remaining().len() == 0 {
                        &&& r == Ok::<StepResult, RunError>(StepResult::Finished)
                        &&& final(self).spec_state() == ReaderState::Finished
                        &&& final(self).model() == old(self).model()
                        &&& final(self).remaining().len() == 0
                    } else {
                        let c = old(self).remaining()[0];
                        &&& final(self).remaining() == old(self).remaining().drop_first()
                        &&& if !old(self).table().dom().contains(c) {
                            &&& r == Ok::<StepResult, RunError>(StepResult::Unknown(c))
                            &&& final(self).model() == old(self).model()
                            &&& final(self).spec_state() == ReaderState::Running
                        } else {
                            match apply_action(old(self).model(), old(self).table()[c]) {
                                Ok(m2) => r == Ok::<StepResult, RunError>(
                                    StepResult::Executed(old(self).table()[c]),
                                ) && final(self).model() == m2 && final(self).spec_state()
                                    == ReaderState::Running,
                                Err(e) => r == Err::<StepResult, RunError>(e)
                                    && final(self).model() == old(self).model()
                                    && final(self).spec_state() == ReaderState::Failed(e),
                            }
                        }
                    }
                },
            },
    {
        match self.state {
            ReaderState::Finished => {
                return Ok(StepResult::Finished);
            },
            ReaderState::Failed(e) => {
                return Err(e);
            },
            ReaderState::Running => {},
        }
        let c = match self.expression.next_symbol() {
            None => {
                self.state = ReaderState::Finished;
                return Ok(StepResult::Finished);
            },
            Some(c) => c,
        };
        let a = match self.actions.lookup(c) {
            None => {
                return Ok(StepResult::Unknown(c));
            },
            Some(a) => a,
        };
        match a {
            Action::NoOp => {},
            Action::MoveForward(d) => {
                self.cursor.forward(d);
            },
            Action::DrawForward(d) => {
                let start = self.cursor.position();
                self.cursor.forward(d);
                self.segments.push(Segment { start, end: self.cursor.position() });
            },
            Action::MoveTo(p) => {
                self.cursor.set_position(p);
            },
            Action::DrawTo(p) => {
                let start = self.cursor.position();
                self.cursor.set_position(p);
                self.segments.push(Segment { start, end: p });
            },
            Action::Rotate(rot) => {
                self.cursor.rotate(rot);
            },
            Action::SetAngle(v) => {
                match self.cursor.set_angle(v.x, v.y) {
                    Ok(_) => {},
                    Err(ce) => {
                        let e = RunError::Configuration(ce);
                        self.state = ReaderState::Failed(e);
                        return Err(e);
                    },
                }
            },
            Action::PushCursor => {
                self.cursors.push(self.cursor);
            },
            Action::PopCursor => {
                match self.cursors.pop() {
                    Some(saved) => {
                        self.cursor = saved;
                    },
                    None => {
                        let e = RunError::StackUnderflow(StackKind::Cursors);
                        self.state = ReaderState::Failed(e);
                        return Err(e);
                    },
                }
            },
            Action::PushPosition => {
                self.positions.push(self.cursor.position());
            },
            Action::PopPosition => {
                match self.positions.pop() {
                    Some(saved) => {
                        self.cursor.set_position(saved);
                    },
                    None => {
                        let e = RunError::StackUnderflow(StackKind::Positions);
                        self.state = ReaderState::Failed(e);
                        return Err(e);
                    },
                }
            },
            Action::PushAngle => {
                self.angles.push(self.cursor.angle());
            },
            Action::PopAngle => {
                match self.angles.pop() {
                    Some(saved) => {
                        self.cursor.restore_angle(saved);
                    },
                    None => {
                        let e = RunError::StackUnderflow(StackKind::Angles);
                        self.state = ReaderState::Failed(e);
                        return Err(e);
                    },
                }
            },
        }
        Ok(StepResult::Executed(a))
    }

    /// Drain the generator completely, executing every action.  On success
    /// the whole run equals the spec fold [`run_symbols`] over the symbols
    /// that were left; the first fault stops the run and is returned.
    #[verifier::loop_isolation(false)]
    pub fn draw(&mut self) -> (r: Result<(), RunError>)
        requires
            old(self).wf(),
        ensures
            final(self).wf(),
            final(self).table() == old(self).table(),
            match old(self).spec_state() {
                ReaderState::Finished => r == Ok::<(), RunError>(()) && *final(self) == *old(self),
                ReaderState::Failed(e) => r == Err::<(), RunError>(e) && *final(self)
                    == *old(self),
                ReaderState::Running => match run_symbols(
                    old(self).table(),
                    old(self).model(),
                    old(self).remaining(),
                ) {
                    Ok(m) => r == Ok::<(), RunError>(()) && final(self).model() == m
                        && final(self).spec_state() == ReaderState::Finished
                        && final(self).remaining().len() == 0,
                    Err(e) => r == Err::<(), RunError>(e) && final(self).spec_state()
                        == ReaderState::Failed(e),
                },
            },
    {
        match self.state() {
            ReaderState::Finished => {
                return Ok(());
            },
            ReaderState::Failed(e) => {
                return Err(e);
            },
            ReaderState::Running => {},
        }
        loop
            invariant
                self.wf(),
                self.table() == old(self).table(),
                self.spec_state() == ReaderState::Running,
                run_symbols(self.table(), self.model(), self.remaining()) == run_symbols(
                    old(self).table(),
                    old(self).model(),
                    old(self).remaining(),
                ),
            decreases self.remaining().len(),
        {
            let ghost m_it = self.model();
            let ghost syms_it = self.remaining();
            match self.step() {
                Ok(StepResult::Finished) => {
                    return Ok(());
                },
                Ok(_) => {
                    proof {
                        assert(run_symbols(self.table(), self.model(), self.remaining())
                            == run_symbols(self.table(), m_it, syms_it));
                    }
                },
                Err(e) => {
                    return Err(e);
                },
            }
        }
    }

    /// Step until the next `DrawForward` stroke: stops after executing one,
    /// at exhaustion, or at a fault, passing over unknown symbols and every
    /// other action (a `DrawTo` does not stop the run, though it also
    /// appends a segment).
    #[verifier::loop_isolation(false)]
    pub fn steps(&mut self) -> (r: Result<StepResult, RunError>)
        requires
            old(self).wf(),
        ensures
            final(self).wf(),
            final(self).table() == old(self).table(),
            match old(self).spec_state() {
                ReaderState::Finished => r == Ok::<StepResult, RunError>(StepResult::Finished)
                    && *final(self) == *old(self),
                ReaderState::Failed(e) => r == Err::<StepResult, RunError>(e) && *final(self)
                    == *old(self),
                ReaderState::Running => {
                    let outcome = run_until_draw(
                        old(self).table(),
                        old(self).model(),
                        old(self).remaining(),
                    );
                    &&& r == outcome.0
                    &&& final(self).model() == outcome.1
                    &&& final(self).remaining() == outcome.2
                    &&& final(self).spec_state() == (match outcome.0 {
                        Ok(StepResult::Finished) => ReaderState::Finished,
                        Err(e) => ReaderState::Failed(e),
                        _ => ReaderState::Running,
                    })
                },
            },
    {
        match self.state() {
            ReaderState::Finished => {
                return Ok(StepResult::Finished);
            },
            ReaderState::Failed(e) => {
                return Err(e);
            },
            ReaderState::Running => {},
        }
        loop
            invariant
                self.wf(),
                self.table() == old(self).table(),
                self.spec_state() == ReaderState::Running,
                run_until_draw(self.table(), self.model(), self.remaining()) == run_until_draw(
                    old(self).table(),
                    old(self).model(),
                    old(self).remaining(),
                ),
            decreases self.remaining().len(),
        {
            let ghost m_it = self.model();
            let ghost syms_it = self.remaining();
            match self.step() {
                Ok(StepResult::Finished) => {
                    return Ok(StepResult::Finished);
                },
                Ok(StepResult::Executed(a)) => {
                    match a {
                        Action::DrawForward(_) => {
                            return Ok(StepResult::Executed(a));
                        },
                        _ => {
                            proof {
                                assert(run_until_draw(self.table(), self.model(), self.remaining())
                                    == run_until_draw(self.table(), m_it, syms_it));
                            }
                        },
                    }
                },
                Ok(StepResult::Unknown(_)) => {
                    proof {
                        assert(run_until_draw(self.table(), self.model(), self.remaining())
                            == run_until_draw(self.table(), m_it, syms_it));
                    }
                },
                Err(e) => {
                    return Err(e);
                },
            }
        }
    }
}

} // verus!

