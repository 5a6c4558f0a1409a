//! Line segments, the interpreter's output geometry.  Coordinates are the
//! cursor's fixed-point units.

use vstd::arithmetic::div_mod::{
    lemma_div_is_ordered, lemma_div_multiples_vanish, lemma_div_pos_is_pos,
};
use vstd::prelude::*;

use crate::cursor::{sym_div, Point, POS_LIMIT, SCALE, VEC_LIMIT};

verus! {

/// One drawn line, from `start` to `end`.
#[derive(Clone, Copy, Debug, PartialEq, Eq, Structural)]
pub struct Segment {
    pub start: Point,
    pub end: Point,
}

/// Both endpoints are within the position bounds.
pub open spec fn segment_wf(s: Segment) -> bool {
    &&& -POS_LIMIT <= s.start.x <= POS_LIMIT
    &&& -POS_LIMIT <= s.start.y <= POS_LIMIT
    &&& -POS_LIMIT <= s.end.x <= POS_LIMIT
    &&& -POS_LIMIT <= s.end.y <= POS_LIMIT
}

/// `a * b / SCALE` truncating toward zero, for a position times a fixed-point
/// factor.
fn mul_div_factor(a: i64, b: i64) -> (r: i64)
    requires
        -POS_LIMIT <= a <= POS_LIMIT,
        -VEC_LIMIT <= b <= VEC_LIMIT,
    ensures
        r as int == sym_div(a as int * b as int, SCALE as int),
{
    proof {
        assert(-(POS_LIMIT as int) * (VEC_LIMIT as int) <= a as int * b as int <= (
        POS_LIMIT as int) * (VEC_LIMIT as int)) by (nonlinear_arith)
            requires
                -POS_LIMIT <= a <= POS_LIMIT,
                -VEC_LIMIT <= b <= VEC_LIMIT,
        ;
        assert((POS_LIMIT as int) * (VEC_LIMIT as int) <= (i64::MAX as int) * (SCALE as int))
            by (nonlinear_arith);
    }
    let p: i128 = (a as i128) * (b as i128);
    if p >= 0 {
        let q = (p as u128) / (SCALE as u128);
        proof {
            lemma_div_is_ordered(p as int, (i64::MAX as int) * (SCALE as int), SCALE as int);
            lemma_div_multiples_vanish(i64::MAX as int, SCALE as int);
            lemma_div_pos_is_pos(p as int, SCALE as int);
        }
        q as i64
    } else {
        let m = (-p) as u128;
        let q = m / (SCALE as u128);
        proof {
            lemma_div_is_ordered(m as int, (i64::MAX as int) * (SCALE as int), SCALE as int);
            lemma_div_multiples_vanish(i64::MAX as int, SCALE as int);
            lemma_div_pos_is_pos(m as int, SCALE as int);
        }
        -(q as i64)
    }
}

impl Segment {
    /// The segment from `start` to `end`.
    pub fn new(start: Point, end: Point) -> (s: Segment)
        ensures
            s.start == start,
            s.end == end,
    {
        Segment { start, end }
    }

    /// Every coordinate multiplied by the fixed-point factor `scale`
    /// (`SCALE` is the identity), truncating toward zero.
    pub fn scaled(self, scale: i64) -> (s: Segment)
        requires
            segment_wf(self),
            -VEC_LIMIT <= scale <= VEC_LIMIT,
        ensures
            s.start.x as int == sym_div(self.start.x as int * scale as int, SCALE as int),
            s.start.y as int == sym_div(self.start.y as int * scale as int, SCALE as int),
            s.end.x as int == sym_div(self.end.x as int * scale as int, SCALE as int),
            s.end.y as int == sym_div(self.end.y as int * scale as int, SCALE as int),
    {
        Segment {
            start: Point {
                x: mul_div_factor(self.start.x, scale),
                y: mul_div_factor(self.start.y, scale),
            },
            end: Point {
                x: mul_div_factor(self.end.x, scale),
                y: mul_div_factor(self.end.y, scale),
            },
        }
    }

    /// The segment translated by `-offset`.
    pub fn offset(self, offset: Point) -> (s: Segment)
        requires
            segment_wf(self),
            -POS_LIMIT <= offset.x <= POS_LIMIT,
            -POS_LIMIT <= offset.y <= POS_LIMIT,
        ensures
            s.start.x == self.start.x - offset.x,
            s.start.y == self.start.y - offset.y,
            s.end.x == self.end.x - offset.x,
            s.end.y == self.end.y - offset.y,
    {
        Segment {
            start: Point { x: self.start.x - offset.x, y: self.start.y - offset.y },
            end: Point { x: self.end.x - offset.x, y: self.end.y - offset.y },
        }
    }

    /// The midpoint of the segment, truncating toward zero.
    pub fn center(&self) -> (p: Point)
        requires
            segment_wf(*self),
        ensures
            p.x as int == sym_div(self.start.x as int + self.end.x as int, 2),
            p.y as int == sym_div(self.start.y as int + self.end.y as int, 2),
            -POS_LIMIT <= p.x <= POS_LIMIT,
            -POS_LIMIT <= p.y <= POS_LIMIT,
    {
        proof {
            lemma_half_bound(self.start.x as int + self.end.x as int, POS_LIMIT as int);
            lemma_half_bound(self.start.y as int + self.end.y as int, POS_LIMIT as int);
        }
        Point {
            x: half(self.start.x + self.end.x),
            y: half(self.start.y + self.end.y),
        }
    }
}

/// Halving keeps a value within a symmetric bound on twice that bound.
proof fn lemma_half_bound(v: int, b: int)
    requires
        b > 0,
        -2 * b <= v <= 2 * b,
    ensures
        -b <= sym_div(v, 2) <= b,
{
    lemma_div_multiples_vanish(b, 2);
    if v >= 0 {
        lemma_div_is_ordered(v, 2 * b, 2);
        lemma_div_pos_is_pos(v, 2);
    } else {
        lemma_div_is_ordered(-v, 2 * b, 2);
        lemma_div_pos_is_pos(-v, 2);
    }
}

/// The midpoint of a segment, in spec.
pub open spec fn spec_center_x(s: Segment) -> int {
    sym_div(s.start.x as int + s.end.x as int, 2)
}

/// The midpoint of a segment, in spec.
pub open spec fn spec_center_y(s: Segment) -> int {
    sym_div(s.start.y as int + s.end.y as int, 2)
}

/// The smaller of two integers.
pub open spec fn min2(a: int, b: int) -> int {
    if a <= b {
        a
    } else {
        b
    }
}

/// The larger of two integers.
pub open spec fn max2(a: int, b: int) -> int {
    if a >= b {
        a
    } else {
        b
    }
}

/// The least center abscissa among the segments.
pub open spec fn min_center_x(ss: Seq<Segment>) -> int
    recommends
        ss.len() > 0,
    decreases ss.len(),
{
    if ss.len() <= 1 {
        spec_center_x(ss[0])
    } else {
        min2(spec_center_x(ss[0]), min_center_x(ss.drop_first()))
    }
}

/// The greatest center abscissa among the segments.
pub open spec fn max_center_x(ss: Seq<Segment>) -> int
    recommends
        ss.len() > 0,
    decreases ss.len(),
{
    if ss.len() <= 1 {
        spec_center_x(ss[0])
    } else {
        max2(spec_center_x(ss[0]), max_center_x(ss.drop_first()))
    }
}

/// The least center ordinate among the segments.
pub open spec fn min_center_y(ss: Seq<Segment>) -> int
    recommends
        ss.len() > 0,
    decreases ss.len(),
{
    if ss.len() <= 1 {
        spec_center_y(ss[0])
    } else {
        min2(spec_center_y(ss[0]), min_center_y(ss.drop_first()))
    }
}

/// The greatest center ordinate among the segments.
pub open spec fn max_center_y(ss: Seq<Segment>) -> int
    recommends
        ss.len() > 0,
    decreases ss.len(),
{
    if ss.len() <= 1 {
        spec_center_y(ss[0])
    } else {
        max2(spec_center_y(ss[0]), max_center_y(ss.drop_first()))
    }
}

/// Appending a segment folds its center into each bound.
proof fn lemma_center_bounds_push(ss: Seq<Segment>, e: Segment)
    requires
        ss.len() > 0,
    ensures
        min_center_x(ss.push(e)) == min2(min_center_x(ss), spec_center_x(e)),
        max_center_x(ss.push(e)) == max2(max_center_x(ss), spec_center_x(e)),
        min_center_y(ss.push(e)) == min2(min_center_y(ss), spec_center_y(e)),
        max_center_y(ss.push(e)) == max2(max_center_y(ss), spec_center_y(e)),
    decreases ss.len(),
{
    assert(ss.push(e)[0] == ss[0]);
    if ss.len() == 1 {
        assert(ss.push(e).drop_first() =~= seq![e]);
        assert(min_center_x(seq![e]) == spec_center_x(e));
        assert(max_center_x(seq![e]) == spec_center_x(e));
        assert(min_center_y(seq![e]) == spec_center_y(e));
        assert(max_center_y(seq![e]) == spec_center_y(e));
    } else {
        assert(ss.push(e).drop_first() =~= ss.drop_first().push(e));
        lemma_center_bounds_push(ss.drop_first(), e);
    }
}

/// The center of the bounding box of the segments' midpoints, or `None`
/// when nothing was drawn.
#[verifier::loop_isolation(false)]
pub fn segments_center(segments: &Vec<Segment>) -> (r: Option<Point>)
    requires
        forall|i: int| 0 <= i < segments@.len() ==> segment_wf(#[trigger] segments@[i]),
    ensures
        match r {
            Some(p) => segments@.len() > 0 && p.x as int == sym_div(
                min_center_x(segments@) + max_center_x(segments@),
                2,
            ) && p.y as int == sym_div(min_center_y(segments@) + max_center_y(segments@), 2),
            None => segments@.len() == 0,
        },
{
    let n = segments.len();
    if n == 0 {
        return None;
    }
    let c0 = segments[0].center();
    let mut lo_x = c0.x;
    let mut hi_x = c0.x;
    let mut lo_y = c0.y;
    let mut hi_y = c0.y;
    proof {
        assert(segments@.take(1).len() == 1);
        assert(segments@.take(1)[0] == segments@[0]);
    }
    let mut i: usize = 1;
    while i < n
        invariant
            1 <= i <= n,
            lo_x as int == min_center_x(segments@.take(i as int)),
            hi_x as int == max_center_x(segments@.take(i as int)),
            lo_y as int == min_center_y(segments@.take(i as int)),
            hi_y as int == max_center_y(segments@.take(i as int)),
            -POS_LIMIT <= lo_x <= POS_LIMIT,
            -POS_LIMIT <= hi_x <= POS_LIMIT,
            -POS_LIMIT <= lo_y <= POS_LIMIT,
            -POS_LIMIT <= hi_y <= POS_LIMIT,
        decreases n - i,
    {
        let c = segments[i].center();
        if c.x < lo_x {
            lo_x = c.x;
        }
        if c.x > hi_x {
            hi_x = c.x;
        }
        if c.y < lo_y {
            lo_y = c.y;
        }
        if c.y > hi_y {
            hi_y = c.y;
        }
        i += 1;
        proof {
            assert(segments@.take(i as int) =~= segments@.take(i - 1).push(segments@[i - 1]));
            lemma_center_bounds_push(segments@.take(i - 1), segments@[i - 1]);
        }
    }
    proof {
        assert(segments@.take(n as int) =~= segments@);
    }
    Some(Point { x: half(lo_x + hi_x), y: half(lo_y + hi_y) })
}

/// `v / 2`, truncating toward zero.
fn half(v: i64) -> (r: i64)
    ensures
        r as int == sym_div(v as int, 2),
{
    if v >= 0 {
        let q = (v as u64) / 2;
        proof {
            lemma_div_is_ordered(v as int, i64::MAX as int, 2);
            lemma_div_pos_is_pos(v as int, 2);
            vstd::arithmetic::div_mod::lemma_div_nonincreasing(v as int, 2);
        }
        q as i64
    } else {
        let a = (-(v as i128)) as u64;
        let q = a / 2;
        proof {
            lemma_div_pos_is_pos(a as int, 2);
            vstd::arithmetic::div_mod::lemma_div_nonincreasing(a as int, 2);
        }
        -(q as i64)
    }
}

} // verus!
