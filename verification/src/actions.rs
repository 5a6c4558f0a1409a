//! The action table: a pure mapping from symbols to turtle operations.

use vstd::prelude::*;

use crate::cursor::{rotation_wf, Point, Rotation, POS_LIMIT, VEC_LIMIT};

verus! {

/// One turtle operation, the meaning a symbol can carry.
#[derive(Clone, Copy, Debug, PartialEq, Eq, Structural)]
pub enum Action {
    /// Do nothing.
    NoOp,
    /// Move the cursor forward the given distance, drawing nothing.
    MoveForward(i64),
    /// Move the cursor forward and record the segment it passed over.
    DrawForward(i64),
    /// Move the cursor to the given position, drawing nothing.
    MoveTo(Point),
    /// Move the cursor to the given position and record the segment.
    DrawTo(Point),
    /// Turn the cursor.
    Rotate(Rotation),
    /// Face the cursor along the given vector, normalised; a zero vector is
    /// a configuration error.
    SetAngle(Point),
    /// Save a copy of the whole pose on the cursor stack.
    PushCursor,
    /// Restore the pose saved last; fatal when the stack is empty.
    PopCursor,
    /// Save the position alone on its own stack.
    PushPosition,
    /// Restore the position saved last; fatal when the stack is empty.
    PopPosition,
    /// Save the heading alone on its own stack.
    PushAngle,
    /// Restore the heading saved last; fatal when the stack is empty.
    PopAngle,
}

/// The action's parameters are within the coordinate bounds the cursor
/// accepts.
pub open spec fn action_wf(a: Action) -> bool {
    match a {
        Action::MoveForward(d) => -POS_LIMIT <= d <= POS_LIMIT,
        Action::DrawForward(d) => -POS_LIMIT <= d <= POS_LIMIT,
        Action::MoveTo(p) => -POS_LIMIT <= p.x <= POS_LIMIT && -POS_LIMIT <= p.y <= POS_LIMIT,
        Action::DrawTo(p) => -POS_LIMIT <= p.x <= POS_LIMIT && -POS_LIMIT <= p.y <= POS_LIMIT,
        Action::Rotate(r) => rotation_wf(r),
        Action::SetAngle(v) => -VEC_LIMIT <= v.x <= VEC_LIMIT && -VEC_LIMIT <= v.y <= VEC_LIMIT,
        _ => true,
    }
}

/// One table entry: a symbol and the action it triggers.
struct ActionEntry {
    symbol: char,
    action: Action,
}

/// The first action listed for `c`, scanning from the front.
spec fn spec_action_lookup(entries: Seq<ActionEntry>, c: char) -> Option<Action>
    decreases entries.len(),
{
    if entries.len() == 0 {
        None
    } else if entries[0].symbol == c {
        Some(entries[0].action)
    } else {
        spec_action_lookup(entries.drop_first(), c)
    }
}

/// The static mapping from symbols to actions.  A symbol without an entry is
/// simply unknown to the interpreter, which is not an error.
pub struct ActionTable {
    entries: Vec<ActionEntry>,
}

impl View for ActionTable {
    type V = Map<char, Action>;

    closed spec fn view(&self) -> Map<char, Action> {
        Map::new(
            |c: char| spec_action_lookup(self.entries@, c) is Some,
            |c: char| spec_action_lookup(self.entries@, c)->Some_0,
        )
    }
}

proof fn lemma_action_lookup_skip(entries: Seq<ActionEntry>, c: char, i: int)
    requires
        0 <= i <= entries.len(),
        forall|j: int| 0 <= j < i ==> (#[trigger] entries[j]).symbol != c,
    ensures
        spec_action_lookup(entries.skip(i), c) == spec_action_lookup(entries, c),
    decreases i,
{
    if i == 0 {
        assert(entries.skip(0) =~= entries);
    } else {
        lemma_action_lookup_skip(entries, c, i - 1);
        assert(entries.skip(i - 1).drop_first() =~= entries.skip(i));
        assert(entries.skip(i - 1)[0] == entries[i - 1]);
    }
}

proof fn lemma_action_lookup_update(entries: Seq<ActionEntry>, c: char, i: int, r: ActionEntry, x: char)
    requires
        0 <= i < entries.len(),
        entries[i].symbol == c,
        r.symbol == c,
        forall|j: int| 0 <= j < i ==> (#[trigger] entries[j]).symbol != c,
    ensures
        spec_action_lookup(entries.update(i, r), x) == if x == c {
            Some(r.action)
        } else {
            spec_action_lookup(entries, x)
        },
    decreases i,
{
    if i == 0 {
        if x != c {
            assert(entries.update(0, r).drop_first() =~= entries.drop_first());
        }
    } else {
        assert(entries.update(i, r).drop_first() =~= entries.drop_first().update(i - 1, r));
        lemma_action_lookup_update(entries.drop_first(), c, i - 1, r, x);
    }
}

proof fn lemma_action_lookup_push(entries: Seq<ActionEntry>, c: char, r: ActionEntry, x: char)
    requires
        r.symbol == c,
        forall|j: int| 0 <= j < entries.len() ==> (#[trigger] entries[j]).symbol != c,
    ensures
        spec_action_lookup(entries.push(r), x) == if x == c {
            Some(r.action)
        } else {
            spec_action_lookup(entries, x)
        },
    decreases entries.len(),
{
    if entries.len() == 0 {
        assert(entries.push(r)[0] == r);
        if x != c {
            assert(entries.push(r).drop_first() =~= Seq::<ActionEntry>::empty());
            assert(spec_action_lookup(Seq::<ActionEntry>::empty(), x) is None);
        }
    } else {
        assert(entries.push(r)[0] == entries[0]);
        assert(entries.push(r).drop_first() =~= entries.drop_first().push(r));
        lemma_action_lookup_push(entries.drop_first(), c, r, x);
    }
}

impl ActionTable {
    /// Every stored action is within the cursor's bounds.
    pub open spec fn wf(&self) -> bool {
        forall|c: char| self@.dom().contains(c) ==> action_wf(#[trigger] self@[c])
    }

    /// An empty table: every symbol is unknown.
    pub fn new() -> (t: ActionTable)
        ensures
            t@ == Map::<char, Action>::empty(),
            t.wf(),
    {
        let t = ActionTable { entries: Vec::new() };
        proof {
            assert(t@ =~= Map::<char, Action>::empty());
        }
        t
    }

    /// Bind `symbol` to `action`, replacing an earlier binding if present.
    #[verifier::loop_isolation(false)]
    pub fn insert(&mut self, symbol: char, action: Action)
        requires
            old(self).wf(),
            action_wf(action),
        ensures
            final(self)@ == old(self)@.insert(symbol, action),
            final(self).wf(),
    {
        let ghost orig = self.entries@;
        let r = ActionEntry { symbol, action };
        let ghost rr = r;
        let n = self.entries.len();
        let mut i: usize = 0;
        while i < n
            invariant
                0 <= i <= n,
                n == self.entries.len(),
                self.entries@ == orig,
                forall|j: int| 0 <= j < i ==> (#[trigger] orig[j]).symbol != symbol,
            decreases n - i,
        {
            if self.entries[i].symbol == symbol {
                self.entries[i] = r;
                proof {
                    assert forall|x: char|
                        spec_action_lookup(self.entries@, x) == if x == symbol {
                            Some(action)
                        } else {
                            spec_action_lookup(orig, x)
                        } by {
                        lemma_action_lookup_update(orig, symbol, i as int, rr, x);
                    }
                    assert(self@ =~= old(self)@.insert(symbol, action));
                }
                return ;
            }
            i += 1;
        }
        self.entries.push(r);
        proof {
            assert forall|x: char|
                spec_action_lookup(self.entries@, x) == if x == symbol {
                    Some(action)
                } else {
                    spec_action_lookup(orig, x)
                } by {
                lemma_action_lookup_push(orig, symbol, rr, x);
            }
            assert(self@ =~= old(self)@.insert(symbol, action));
        }
    }

    /// The action bound to `c`, or `None` when `c` is unknown.
    #[verifier::loop_isolation(false)]
    pub fn lookup(&self, c: char) -> (r: Option<Action>)
        ensures
            match r {
                Some(a) => self@.dom().contains(c) && a == self@[c],
                None => !self@.dom().contains(c),
            },
    {
        let n = self.entries.len();
        let mut i: usize = 0;
        while i < n
            invariant
                0 <= i <= n,
                n == self.entries.len(),
                forall|j: int| 0 <= j < i ==> (#[trigger] self.entries@[j]).symbol != c,
            decreases n - i,
        {
            if self.entries[i].symbol == c {
                proof {
                    lemma_action_lookup_skip(self.entries@, c, i as int);
                    assert(self.entries@.skip(i as int)[0] == self.entries@[i as int]);
                }
                return Some(self.entries[i].action);
            }
            i += 1;
        }
        proof {
            lemma_action_lookup_skip(self.entries@, c, n as int);
        }
        None
    }
}

} // verus!
