use lsystem::cursor::{isqrt, Cursor, Point, Rotation, SCALE};
use lsystem::segment::Segment;

/// Moving forward, turning half round, and moving forward again returns the
/// position to its start exactly, in fixed-point coordinates.
#[test]
fn forward_half_turn_forward_returns() {
    let mut c = Cursor::new(Point { x: 123, y: -456 }, 3, 4).unwrap();
    let start = c.position();
    c.forward(5 * SCALE);
    assert_ne!((c.position.x, c.position.y), (start.x, start.y));
    c.rotate(Rotation::half_turn());
    c.forward(5 * SCALE);
    assert_eq!((c.position.x, c.position.y), (start.x, start.y));
}

/// Normalisation scales a 3-4-5 vector exactly.
#[test]
fn set_angle_normalizes() {
    let mut c = Cursor::new(Point { x: 0, y: 0 }, 0, 1).unwrap();
    c.set_angle(3, 4).unwrap();
    assert_eq!((c.heading.x, c.heading.y), (600_000, 800_000));
    c.set_angle(-5, 0).unwrap();
    assert_eq!((c.heading.x, c.heading.y), (-SCALE, 0));
    assert!(c.set_angle(0, 0).is_err());
    // The failed call left the heading alone.
    assert_eq!((c.heading.x, c.heading.y), (-SCALE, 0));
}

/// Four quarter turns come back round; two quarters make a half.
#[test]
fn quarter_turns_compose() {
    let mut c = Cursor::new(Point { x: 0, y: 0 }, 0, 1).unwrap();
    let h0 = c.angle();
    for _ in 0..4 {
        c.rotate(Rotation::quarter_left());
    }
    assert_eq!((c.heading.x, c.heading.y), (h0.x, h0.y));
    c.rotate(Rotation::quarter_right());
    c.rotate(Rotation::quarter_right());
    assert_eq!((c.heading.x, c.heading.y), (0, -SCALE));
}

/// Forward moves by the distance along an axis-aligned heading.
#[test]
fn forward_moves_along_heading() {
    let mut c = Cursor::new(Point { x: 10, y: 20 }, 1, 0).unwrap();
    c.forward(7 * SCALE);
    assert_eq!((c.position.x, c.position.y), (10 + 7 * SCALE, 20));
    c.forward(-7 * SCALE);
    assert_eq!((c.position.x, c.position.y), (10, 20));
}

/// The integer square root brackets its argument.
#[test]
fn isqrt_exact_values() {
    assert_eq!(isqrt(0), 0);
    assert_eq!(isqrt(1), 1);
    assert_eq!(isqrt(2), 1);
    assert_eq!(isqrt(3), 1);
    assert_eq!(isqrt(4), 2);
    assert_eq!(isqrt(63), 7);
    assert_eq!(isqrt(64), 8);
    assert_eq!(isqrt(65), 8);
    assert_eq!(isqrt(1_000_000_000_000), 1_000_000);
    assert_eq!(isqrt(u64::MAX), 0xFFFF_FFFF);
}

/// Segment transforms follow their integer formulas.
#[test]
fn segment_transforms() {
    let s = Segment::new(Point { x: 2 * SCALE, y: -4 * SCALE }, Point { x: 6 * SCALE, y: 0 });
    let half = s.scaled(SCALE / 2);
    assert_eq!((half.start.x, half.start.y), (SCALE, -2 * SCALE));
    assert_eq!((half.end.x, half.end.y), (3 * SCALE, 0));
    let moved = s.offset(Point { x: SCALE, y: SCALE });
    assert_eq!((moved.start.x, moved.start.y), (SCALE, -5 * SCALE));
    assert_eq!((moved.end.x, moved.end.y), (5 * SCALE, -SCALE));
    let c = s.center();
    assert_eq!((c.x, c.y), (4 * SCALE, -2 * SCALE));
}
