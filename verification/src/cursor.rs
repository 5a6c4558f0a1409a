//! The turtle cursor: a 2D position and a heading vector, in fixed-point
//! integer coordinates.  A unit heading has length [`SCALE`]; a rotation is
//! given as a precomputed unit vector (its cosine and sine in the same scale),
//! so right-angle turns are exact.  Every operation's result is pinned down by
//! an integer formula; positions saturate at [`POS_LIMIT`] and heading
//! components at [`SCALE`].

use vstd::arithmetic::div_mod::{
    lemma_div_is_ordered, lemma_div_multiples_vanish, lemma_div_nonincreasing,
    lemma_div_pos_is_pos,
};
use vstd::prelude::*;

use crate::grammar::ConfigurationError;

verus! {

/// The number of coordinate units in one drawing unit: the length of a unit
/// heading vector.
pub const SCALE: i64 = 1_000_000;

/// Positions and move distances saturate at this magnitude.
pub const POS_LIMIT: i64 = 0x4000_0000_0000;

/// The largest component magnitude accepted for a heading vector before
/// normalisation.
pub const VEC_LIMIT: i64 = 0x4000_0000;

/// A 2D point or vector in fixed-point coordinates.
#[derive(Clone, Copy, Debug, PartialEq, Eq, Structural)]
pub struct Point {
    pub x: i64,
    pub y: i64,
}

/// A rotation, stored as the unit vector it turns `(SCALE, 0)` into:
/// `cos` and `sin` scaled by [`SCALE`].
#[derive(Clone, Copy, Debug, PartialEq, Eq, Structural)]
pub struct Rotation {
    pub cos: i64,
    pub sin: i64,
}

/// `v` clamped to `[-b, b]`.
pub open spec fn clip(v: int, b: int) -> int {
    if v > b {
        b
    } else if v < -b {
        -b
    } else {
        v
    }
}

/// Division that truncates toward zero (for a positive divisor).
pub open spec fn sym_div(a: int, b: int) -> int
    recommends
        b > 0,
{
    if a >= 0 {
        a / b
    } else {
        -((-a) / b)
    }
}

/// `r` is the integer square root of `n`.
pub open spec fn is_sqrt(n: int, r: int) -> bool {
    r >= 0 && r * r <= n && (r + 1) * (r + 1) > n
}

/// The integer square root, as a function.
pub open spec fn spec_isqrt(n: nat) -> nat
    decreases n,
{
    if n == 0 {
        0
    } else {
        let r = spec_isqrt((n - 1) as nat);
        if (r + 1) * (r + 1) <= n {
            r + 1
        } else {
            r
        }
    }
}

/// `spec_isqrt` computes an integer square root.
pub proof fn lemma_spec_isqrt_is_sqrt(n: nat)
    ensures
        is_sqrt(n as int, spec_isqrt(n) as int),
    decreases n,
{
    if n != 0 {
        lemma_spec_isqrt_is_sqrt((n - 1) as nat);
        let r = spec_isqrt((n - 1) as nat) as int;
        if (r + 1) * (r + 1) <= n {
            assert((r + 2) * (r + 2) > (r + 1) * (r + 1)) by (nonlinear_arith)
                requires
                    r >= 0,
            ;
        }
    }
}

/// Integer square roots are unique.
pub proof fn lemma_sqrt_unique(n: int, r1: int, r2: int)
    requires
        is_sqrt(n, r1),
        is_sqrt(n, r2),
    ensures
        r1 == r2,
{
    assert(r1 < r2 ==> (r1 + 1) * (r1 + 1) <= r2 * r2) by (nonlinear_arith)
        requires
            r1 >= 0,
            r2 >= 0,
    ;
    assert(r2 < r1 ==> (r2 + 1) * (r2 + 1) <= r1 * r1) by (nonlinear_arith)
        requires
            r1 >= 0,
            r2 >= 0,
    ;
}

/// The normalised heading for the vector `(x, y)`: each component scaled so
/// the vector's length becomes [`SCALE`], truncating toward zero.
pub open spec fn spec_normalize(x: int, y: int) -> (int, int)
    recommends
        x != 0 || y != 0,
{
    let len = spec_isqrt((x * x + y * y) as nat) as int;
    (sym_div(x * SCALE, len), sym_div(y * SCALE, len))
}

/// The integer square root of `n`, by bisection.
#[verifier::loop_isolation(false)]
pub fn isqrt(n: u64) -> (r: u64)
    ensures
        is_sqrt(n as int, r as int),
        r == spec_isqrt(n as nat),
{
    let mut lo: u64 = 0;
    let mut hi: u64 = 0xFFFF_FFFF;
    proof {
        assert((hi + 1) * (hi + 1) > n as int) by (nonlinear_arith)
            requires
                hi == 0xFFFF_FFFFu64,
                n <= u64::MAX,
        ;
    }
    while lo < hi
        invariant
            lo <= hi,
            hi <= 0xFFFF_FFFF,
            (lo * lo) as int <= n as int,
            ((hi + 1) * (hi + 1)) as int > n as int,
        decreases hi - lo,
    {
        proof {
            let d: int = hi as int - lo as int;
            lemma_div_is_ordered(2, d + 1, 2);
            lemma_div_is_ordered(d + 1, 2 * d, 2);
            lemma_div_multiples_vanish(d, 2);
            assert(2int / 2int == 1int);
            assert(1 <= (d + 1) / 2 <= d);
        }
        let mid = lo + (hi - lo + 1) / 2;
        proof {
            assert(mid as int * mid as int <= 0xFFFF_FFFFint * 0xFFFF_FFFFint)
                by (nonlinear_arith)
                requires
                    0 <= mid <= 0xFFFF_FFFFu64,
            ;
        }
        if mid * mid <= n {
            lo = mid;
        } else {
            hi = mid - 1;
        }
    }
    proof {
        lemma_spec_isqrt_is_sqrt(n as nat);
        lemma_sqrt_unique(n as int, lo as int, spec_isqrt(n as nat) as int);
    }
    lo
}

/// Truncate-toward-zero division of `v` by [`SCALE`].
fn sym_div_scale(v: i64) -> (r: i64)
    ensures
        r as int == sym_div(v as int, SCALE as int),
{
    if v >= 0 {
        let q = (v as u64) / (SCALE as u64);
        proof {
            lemma_div_nonincreasing(v as int, SCALE as int);
            lemma_div_pos_is_pos(v as int, SCALE as int);
        }
        q as i64
    } else {
        let a = (-(v as i128)) as u64;
        let q = a / (SCALE as u64);
        proof {
            lemma_div_nonincreasing(a as int, SCALE as int);
            lemma_div_pos_is_pos(a as int, SCALE as int);
        }
        -(q as i64)
    }
}

/// `a * b / SCALE`, truncating toward zero, computed without overflow.
fn mul_div_scale(a: i64, b: i64) -> (r: i64)
    requires
        -POS_LIMIT <= a <= POS_LIMIT,
        -SCALE <= b <= SCALE,
    ensures
        r as int == sym_div(a as int * b as int, SCALE as int),
        -POS_LIMIT <= r <= POS_LIMIT,
{
    proof {
        assert(-(POS_LIMIT as int) * (SCALE as int) <= a as int * b as int <= (POS_LIMIT as int)
            * (SCALE as int)) by (nonlinear_arith)
            requires
                -POS_LIMIT <= a <= POS_LIMIT,
                -SCALE <= b <= SCALE,
        ;
    }
    let p: i128 = (a as i128) * (b as i128);
    if p >= 0 {
        let q = (p as u128) / (SCALE as u128);
        proof {
            lemma_div_is_ordered(p as int, (POS_LIMIT as int) * (SCALE as int), SCALE as int);
            lemma_div_multiples_vanish(POS_LIMIT as int, SCALE as int);
            lemma_div_pos_is_pos(p as int, SCALE as int);
        }
        q as i64
    } else {
        let m = (-p) as u128;
        let q = m / (SCALE as u128);
        proof {
            lemma_div_is_ordered(m as int, (POS_LIMIT as int) * (SCALE as int), SCALE as int);
            lemma_div_multiples_vanish(POS_LIMIT as int, SCALE as int);
            lemma_div_pos_is_pos(m as int, SCALE as int);
        }
        -(q as i64)
    }
}

/// `v` clamped to `[-b, b]`.
fn clip_i64(v: i64, b: i64) -> (r: i64)
    requires
        b > 0,
    ensures
        r as int == clip(v as int, b as int),
{
    if v > b {
        b
    } else if v < -b {
        -b
    } else {
        v
    }
}

/// Moving forward, making a half turn, and moving forward by the same
/// distance reverses the heading exactly, and puts the cursor back on its
/// starting position exactly whenever the first move does not saturate at
/// the coordinate bound (a saturated move forgets distance, so no round
/// trip can restore it).
pub proof fn lemma_forward_half_turn_forward(c: Cursor, d: i64)
    requires
        cursor_wf(c),
        -POS_LIMIT <= d <= POS_LIMIT,
    ensures
        ({
            let half = Rotation { cos: (-SCALE as int) as i64, sin: 0 };
            let back = spec_forward(spec_rotate(spec_forward(c, d as int), half), d as int);
            &&& back.heading.x == -c.heading.x
            &&& back.heading.y == -c.heading.y
            &&& (-POS_LIMIT <= c.position.x + sym_div(d as int * c.heading.x as int, SCALE as int)
                <= POS_LIMIT && -POS_LIMIT <= c.position.y + sym_div(
                d as int * c.heading.y as int,
                SCALE as int,
            ) <= POS_LIMIT) ==> back.position == c.position
        }),
{
    let half = Rotation { cos: (-SCALE as int) as i64, sin: 0 };
    let c1 = spec_forward(c, d as int);
    let c2 = spec_rotate(c1, half);
    assert(sym_div(c.heading.x as int * (-SCALE as int), SCALE as int) == -c.heading.x as int) by {
        lemma_neg_scale_div(c.heading.x as int);
    }
    assert(sym_div(c.heading.y as int * (-SCALE as int), SCALE as int) == -c.heading.y as int) by {
        lemma_neg_scale_div(c.heading.y as int);
    }
    assert(c2.heading.x == -c.heading.x && c2.heading.y == -c.heading.y);
    assert(d as int * c2.heading.x as int == -(d as int * c.heading.x as int)) by (nonlinear_arith)
        requires
            c2.heading.x == -c.heading.x,
    ;
    assert(d as int * c2.heading.y as int == -(d as int * c.heading.y as int)) by (nonlinear_arith)
        requires
            c2.heading.y == -c.heading.y,
    ;
    lemma_sym_div_neg(d as int * c.heading.x as int, SCALE as int);
    lemma_sym_div_neg(d as int * c.heading.y as int, SCALE as int);
}

/// `h * (-SCALE) / SCALE == -h`, truncating toward zero.
proof fn lemma_neg_scale_div(h: int)
    ensures
        sym_div(h * (-SCALE as int), SCALE as int) == -h,
{
    assert(h * (-SCALE as int) == -(h * SCALE as int)) by (nonlinear_arith);
    assert(h * SCALE as int == SCALE as int * h) by (nonlinear_arith);
    lemma_div_multiples_vanish(h, SCALE as int);
    if h > 0 {
        lemma_div_multiples_vanish(-h, SCALE as int);
        assert(-(h * SCALE as int) == SCALE as int * (-h)) by (nonlinear_arith);
    }
}

/// Negating the dividend negates the truncating quotient.
proof fn lemma_sym_div_neg(a: int, b: int)
    requires
        b > 0,
    ensures
        sym_div(-a, b) == -sym_div(a, b),
{
    if a == 0 {
        assert(0int / b == 0) by {
            vstd::arithmetic::div_mod::lemma_div_of0(b);
        }
    }
}

/// The turtle's pose.
#[derive(Clone, Copy, Debug, PartialEq, Eq, Structural)]
pub struct Cursor {
    pub position: Point,
    pub heading: Point,
}

/// The pose bounds every operation preserves.
pub open spec fn cursor_wf(c: Cursor) -> bool {
    &&& -POS_LIMIT <= c.position.x <= POS_LIMIT
    &&& -POS_LIMIT <= c.position.y <= POS_LIMIT
    &&& -SCALE <= c.heading.x <= SCALE
    &&& -SCALE <= c.heading.y <= SCALE
}

/// The rotation's components are within the unit scale.
pub open spec fn rotation_wf(r: Rotation) -> bool {
    &&& -SCALE <= r.cos <= SCALE
    &&& -SCALE <= r.sin <= SCALE
}

/// The cursor after moving `d` units along its heading.
pub open spec fn spec_forward(c: Cursor, d: int) -> Cursor {
    Cursor {
        position: Point {
            x: clip(c.position.x + sym_div(d * c.heading.x, SCALE as int), POS_LIMIT as int) as i64,
            y: clip(c.position.y + sym_div(d * c.heading.y, SCALE as int), POS_LIMIT as int) as i64,
        },
        heading: c.heading,
    }
}

/// The cursor after turning by `r`: its heading multiplied by the rotation
/// matrix `[cos -sin; sin cos]`, rescaled.
pub open spec fn spec_rotate(c: Cursor, r: Rotation) -> Cursor {
    Cursor {
        position: c.position,
        heading: Point {
            x: clip(
                sym_div(c.heading.x * r.cos - c.heading.y * r.sin, SCALE as int),
                SCALE as int,
            ) as i64,
            y: clip(
                sym_div(c.heading.x * r.sin + c.heading.y * r.cos, SCALE as int),
                SCALE as int,
            ) as i64,
        },
    }
}

impl Rotation {
    /// No turn.
    pub fn identity() -> (r: Rotation)
        ensures
            r == (Rotation { cos: SCALE, sin: 0i64 }),
    {
        Rotation { cos: SCALE, sin: 0 }
    }

    /// A quarter turn counterclockwise (90 degrees).
    pub fn quarter_left() -> (r: Rotation)
        ensures
            r == (Rotation { cos: 0i64, sin: SCALE }),
    {
        Rotation { cos: 0, sin: SCALE }
    }

    /// A quarter turn clockwise (minus 90 degrees).
    pub fn quarter_right() -> (r: Rotation)
        ensures
            r.cos == 0 && r.sin == -SCALE,
    {
        Rotation { cos: 0, sin: -SCALE }
    }

    /// A half turn (180 degrees).
    pub fn half_turn() -> (r: Rotation)
        ensures
            r.cos == -SCALE && r.sin == 0,
    {
        Rotation { cos: -SCALE, sin: 0 }
    }
}

impl Cursor {
    /// A cursor at `position` heading along `(angle_x, angle_y)`, which is
    /// normalised; a zero vector is a configuration error.
    pub fn new(position: Point, angle_x: i64, angle_y: i64) -> (r: Result<
        Cursor,
        ConfigurationError,
    >)
        requires
            -POS_LIMIT <= position.x <= POS_LIMIT,
            -POS_LIMIT <= position.y <= POS_LIMIT,
            -VEC_LIMIT <= angle_x <= VEC_LIMIT,
            -VEC_LIMIT <= angle_y <= VEC_LIMIT,
        ensures
            match r {
                Ok(c) => (angle_x != 0 || angle_y != 0) && cursor_wf(c) && c.position == position
                    && (c.heading.x as int, c.heading.y as int) == spec_normalize(
                    angle_x as int,
                    angle_y as int,
                ),
                Err(e) => angle_x == 0 && angle_y == 0 && e == ConfigurationError::ZeroHeading,
            },
    {
        let mut c = Cursor { position, heading: Point { x: SCALE, y: 0 } };
        match c.set_angle(angle_x, angle_y) {
            Ok(_) => Ok(c),
            Err(e) => Err(e),
        }
    }

    /// Where the cursor stands.
    pub fn position(&self) -> (p: Point)
        ensures
            p == self.position,
    {
        self.position
    }

    /// The direction the cursor faces, as a vector of length [`SCALE`].
    pub fn angle(&self) -> (h: Point)
        ensures
            h == self.heading,
    {
        self.heading
    }

    /// The position, in spec.
    pub closed spec fn spec_position(&self) -> Point {
        self.position
    }

    /// The heading, in spec.
    pub closed spec fn spec_heading(&self) -> Point {
        self.heading
    }

    /// Teleport to `position` without turning.
    pub fn set_position(&mut self, position: Point)
        requires
            -POS_LIMIT <= position.x <= POS_LIMIT,
            -POS_LIMIT <= position.y <= POS_LIMIT,
        ensures
            final(self).position == position,
            final(self).heading == old(self).heading,
    {
        self.position = position;
    }

    /// Restore a previously read heading, as popped from an angle stack.
    pub fn restore_angle(&mut self, heading: Point)
        requires
            -SCALE <= heading.x <= SCALE,
            -SCALE <= heading.y <= SCALE,
        ensures
            final(self).heading == heading,
            final(self).position == old(self).position,
    {
        self.heading = heading;
    }

    /// Face along `(angle_x, angle_y)`, normalised to length [`SCALE`]; a
    /// zero vector is a configuration error and leaves the cursor unchanged.
    pub fn set_angle(&mut self, angle_x: i64, angle_y: i64) -> (r: Result<(), ConfigurationError>)
        requires
            -VEC_LIMIT <= angle_x <= VEC_LIMIT,
            -VEC_LIMIT <= angle_y <= VEC_LIMIT,
        ensures
            final(self).position == old(self).position,
            match r {
                Ok(_) => (angle_x != 0 || angle_y != 0) && (
                final(self).heading.x as int,
                final(self).heading.y as int,
                ) == spec_normalize(angle_x as int, angle_y as int) && -SCALE
                    <= final(self).heading.x <= SCALE && -SCALE <= final(self).heading.y <= SCALE,
                Err(e) => angle_x == 0 && angle_y == 0 && e == ConfigurationError::ZeroHeading
                    && final(self).heading == old(self).heading,
            },
    {
        if angle_x == 0 && angle_y == 0 {
            return Err(ConfigurationError::ZeroHeading);
        }
        proof {
            assert(0 <= angle_x as int * angle_x as int <= (VEC_LIMIT as int) * (VEC_LIMIT as int)
                && 0 <= angle_y as int * angle_y as int <= (VEC_LIMIT as int) * (VEC_LIMIT as int)
                && ((angle_x != 0 || angle_y != 0) ==> angle_x as int * angle_x as int
                + angle_y as int * angle_y as int > 0)) by (nonlinear_arith)
                requires
                    -VEC_LIMIT <= angle_x <= VEC_LIMIT,
                    -VEC_LIMIT <= angle_y <= VEC_LIMIT,
            ;
        }
        let xx = (angle_x as i128) * (angle_x as i128);
        let yy = (angle_y as i128) * (angle_y as i128);
        let n = (xx + yy) as u64;
        let len = isqrt(n);
        proof {
            // The root is positive and no component exceeds it.
            assert(len > 0) by (nonlinear_arith)
                requires
                    is_sqrt(n as int, len as int),
                    n > 0,
            ;
            assert(angle_x <= len as int && -(len as int) <= angle_x && angle_y <= len as int && -(
            len as int) <= angle_y) by (nonlinear_arith)
                requires
                    is_sqrt(n as int, len as int),
                    n == angle_x as int * angle_x as int + angle_y as int * angle_y as int,
                    len >= 0,
            ;
        }
        let hx = Self::norm_component(angle_x, len);
        let hy = Self::norm_component(angle_y, len);
        self.heading = Point { x: hx, y: hy };
        Ok(())
    }

    /// One normalised component: `v * SCALE / len`, truncating toward zero.
    #[verifier::spinoff_prover]
    fn norm_component(v: i64, len: u64) -> (r: i64)
        requires
            len > 0,
            -VEC_LIMIT <= v <= VEC_LIMIT,
            -(len as int) <= v as int <= len as int,
        ensures
            r as int == sym_div(v as int * SCALE as int, len as int),
            -SCALE <= r <= SCALE,
    {
        proof {
            assert(0 <= (if v >= 0 { v as int } else { -(v as int) }) * (SCALE as int)
                <= (VEC_LIMIT as int) * (SCALE as int)) by (nonlinear_arith)
                requires
                    -VEC_LIMIT <= v <= VEC_LIMIT,
            ;
        }
        let m = if v >= 0 {
            (v as u64) * (SCALE as u64)
        } else {
            ((-(v as i128)) as u64) * (SCALE as u64)
        };
        let q = m / len;
        proof {
            assert(m == (if v >= 0 { v as int } else { -(v as int) }) * (SCALE as int)
                && m <= (len as int) * (SCALE as int)) by (nonlinear_arith)
                requires
                    m == (if v >= 0 { v as int } else { -(v as int) }) * (SCALE as int),
                    -(len as int) <= v as int <= len as int,
                    len > 0,
            ;
            lemma_div_is_ordered(m as int, (len as int) * (SCALE as int), len as int);
            lemma_div_multiples_vanish(SCALE as int, len as int);
            lemma_div_pos_is_pos(m as int, len as int);
            assert((len as int) * (SCALE as int) == (SCALE as int) * (len as int))
                by (nonlinear_arith);
        }
        if v >= 0 {
            q as i64
        } else {
            -(q as i64)
        }
    }

    /// Turn by `r`.
    pub fn rotate(&mut self, r: Rotation)
        requires
            cursor_wf(*old(self)),
            rotation_wf(r),
        ensures
            *final(self) == spec_rotate(*old(self), r),
            cursor_wf(*final(self)),
    {
        let hx = self.heading.x;
        let hy = self.heading.y;
        proof {
            assert(-(SCALE as int) * (SCALE as int) <= hx as int * r.cos as int <= (SCALE as int)
                * (SCALE as int)) by (nonlinear_arith)
                requires
                    -SCALE <= hx <= SCALE,
                    -SCALE <= r.cos <= SCALE,
            ;
            assert(-(SCALE as int) * (SCALE as int) <= hy as int * r.sin as int <= (SCALE as int)
                * (SCALE as int)) by (nonlinear_arith)
                requires
                    -SCALE <= hy <= SCALE,
                    -SCALE <= r.sin <= SCALE,
            ;
            assert(-(SCALE as int) * (SCALE as int) <= hx as int * r.sin as int <= (SCALE as int)
                * (SCALE as int)) by (nonlinear_arith)
                requires
                    -SCALE <= hx <= SCALE,
                    -SCALE <= r.sin <= SCALE,
            ;
            assert(-(SCALE as int) * (SCALE as int) <= hy as int * r.cos as int <= (SCALE as int)
                * (SCALE as int)) by (nonlinear_arith)
                requires
                    -SCALE <= hy <= SCALE,
                    -SCALE <= r.cos <= SCALE,
            ;
        }
        let nx = sym_div_scale(hx * r.cos - hy * r.sin);
        let ny = sym_div_scale(hx * r.sin + hy * r.cos);
        let cx = clip_i64(nx, SCALE);
        let cy = clip_i64(ny, SCALE);
        self.heading = Point { x: cx, y: cy };
    }

    /// Move `d` units along the heading, saturating at [`POS_LIMIT`].
    pub fn forward(&mut self, d: i64)
        requires
            cursor_wf(*old(self)),
            -POS_LIMIT <= d <= POS_LIMIT,
        ensures
            *final(self) == spec_forward(*old(self), d as int),
            cursor_wf(*final(self)),
    {
        let dx = mul_div_scale(d, self.heading.x);
        let dy = mul_div_scale(d, self.heading.y);
        let px = clip_i64(self.position.x + dx, POS_LIMIT);
        let py = clip_i64(self.position.y + dy, POS_LIMIT);
        self.position = Point { x: px, y: py };
    }
}

} // verus!
