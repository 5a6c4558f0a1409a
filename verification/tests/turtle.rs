use std::collections::HashMap;

use lsystem::actions::{Action, ActionTable};
use lsystem::cursor::{Cursor, Point, Rotation, SCALE};
use lsystem::expression::{LSystemBuilder, LSystemString};
use lsystem::grammar::{ConfigurationError, Grammar};
use lsystem::reader::{ReaderState, RunError, StackKind, StepResult, SymbolReader};
use lsystem::segment::{segments_center, Segment};

fn chars(s: &str) -> Vec<char> {
    s.chars().collect()
}

fn grammar_from(rules: &HashMap<char, &str>) -> Grammar {
    let mut g = Grammar::new();
    for (c, p) in rules.iter() {
        g.insert(*c, chars(p));
    }
    g
}

fn unit_length(s: &Segment) -> bool {
    let dx = s.end.x - s.start.x;
    let dy = s.end.y - s.start.y;
    dx * dx + dy * dy == SCALE * SCALE
}

/// The one-step curve of the two-rule system, drained completely: the drawn
/// segments are exactly the hand-computed unit strokes.
#[test]
fn scenario_two_rule_curve_depth_one() {
    let rules = HashMap::from([('A', "+BF-AFA-FB+"), ('B', "-AF+BFB+FA-")]);
    let builder = LSystemBuilder::new(chars("A"), grammar_from(&rules), 1);

    let mut table = ActionTable::new();
    table.insert('F', Action::DrawForward(SCALE));
    table.insert('+', Action::Rotate(Rotation::quarter_right()));
    table.insert('-', Action::Rotate(Rotation::quarter_left()));

    let cursor = Cursor::new(Point { x: 0, y: 0 }, 0, 1).unwrap();
    let mut reader = SymbolReader::new(builder, table, cursor);
    reader.draw().unwrap();

    // "+BF-AFA-FB+" holds three F symbols: three strokes, each of unit
    // length, tracing east, north, west.
    assert_eq!(reader.segments.len(), 3);
    for s in reader.segments.iter() {
        assert!(unit_length(s));
    }
    let s0 = &reader.segments[0];
    assert_eq!((s0.start.x, s0.start.y), (0, 0));
    assert_eq!((s0.end.x, s0.end.y), (SCALE, 0));
    let s1 = &reader.segments[1];
    assert_eq!((s1.start.x, s1.start.y), (SCALE, 0));
    assert_eq!((s1.end.x, s1.end.y), (SCALE, SCALE));
    let s2 = &reader.segments[2];
    assert_eq!((s2.start.x, s2.start.y), (SCALE, SCALE));
    assert_eq!((s2.end.x, s2.end.y), (0, SCALE));
    // The final heading has turned back to north.
    assert_eq!((reader.cursor.heading.x, reader.cursor.heading.y), (0, SCALE));
    assert!(matches!(reader.state(), ReaderState::Finished));
}

/// An unknown symbol is reported, mutates nothing, and the following step
/// proceeds normally.
#[test]
fn unknown_symbol_reports_and_skips() {
    let rules: HashMap<char, &str> = HashMap::new();
    let builder = LSystemBuilder::new(chars("QF"), grammar_from(&rules), 0);
    let mut table = ActionTable::new();
    table.insert('F', Action::DrawForward(SCALE));
    let cursor = Cursor::new(Point { x: 0, y: 0 }, 0, 1).unwrap();
    let mut reader = SymbolReader::new(builder, table, cursor);

    let before = reader.cursor;
    assert_eq!(reader.step(), Ok(StepResult::Unknown('Q')));
    assert_eq!(reader.cursor, before);
    assert_eq!(reader.segments.len(), 0);

    assert_eq!(reader.step(), Ok(StepResult::Executed(Action::DrawForward(SCALE))));
    assert_eq!(reader.segments.len(), 1);
    assert_eq!(reader.step(), Ok(StepResult::Finished));
    // Exhaustion is idempotent.
    assert_eq!(reader.step(), Ok(StepResult::Finished));
}

/// Balanced pushes and pops raise nothing; the first pop beyond the pushes
/// is a stack underflow that freezes the run.
#[test]
fn stack_balance_and_underflow() {
    let rules: HashMap<char, &str> = HashMap::new();
    let mut table = ActionTable::new();
    table.insert('[', Action::PushCursor);
    table.insert(']', Action::PopCursor);
    table.insert('F', Action::DrawForward(SCALE));

    // Every push matched by a later pop: no fault.
    let builder = LSystemBuilder::new(chars("[F[F]]F"), grammar_from(&rules), 0);
    let cursor = Cursor::new(Point { x: 0, y: 0 }, 0, 1).unwrap();
    let mut reader = SymbolReader::new(builder, table, cursor);
    assert_eq!(reader.draw(), Ok(()));
    assert!(matches!(reader.state(), ReaderState::Finished));

    // One pop too many: the run fails on exactly that pop and stays failed.
    let mut table = ActionTable::new();
    table.insert('[', Action::PushCursor);
    table.insert(']', Action::PopCursor);
    let builder = LSystemBuilder::new(chars("[]]"), grammar_from(&rules), 0);
    let cursor = Cursor::new(Point { x: 0, y: 0 }, 0, 1).unwrap();
    let mut reader = SymbolReader::new(builder, table, cursor);
    assert_eq!(reader.step(), Ok(StepResult::Executed(Action::PushCursor)));
    assert_eq!(reader.step(), Ok(StepResult::Executed(Action::PopCursor)));
    let e = RunError::StackUnderflow(StackKind::Cursors);
    assert_eq!(reader.step(), Err(e));
    assert!(matches!(reader.state(), ReaderState::Failed(_)));
    assert_eq!(reader.step(), Err(e));
}

/// Pushed snapshots are copies: mutating the live cursor afterwards must not
/// change what a pop restores.
#[test]
fn push_copies_pop_restores() {
    let rules: HashMap<char, &str> = HashMap::new();
    let mut table = ActionTable::new();
    table.insert('[', Action::PushCursor);
    table.insert(']', Action::PopCursor);
    table.insert('F', Action::MoveForward(7 * SCALE));
    table.insert('+', Action::Rotate(Rotation::quarter_left()));
    let builder = LSystemBuilder::new(chars("[F+F]"), grammar_from(&rules), 0);
    let cursor = Cursor::new(Point { x: 11, y: 22 }, 0, 1).unwrap();
    let mut reader = SymbolReader::new(builder, table, cursor);
    reader.draw().unwrap();
    assert_eq!((reader.cursor.position.x, reader.cursor.position.y), (11, 22));
    assert_eq!((reader.cursor.heading.x, reader.cursor.heading.y), (0, SCALE));
}

/// The three stacks are independent.
#[test]
fn position_and_angle_stacks_are_independent() {
    let rules: HashMap<char, &str> = HashMap::new();
    let mut table = ActionTable::new();
    table.insert('p', Action::PushPosition);
    table.insert('q', Action::PopPosition);
    table.insert('a', Action::PushAngle);
    table.insert('b', Action::PopAngle);
    table.insert('F', Action::MoveForward(3 * SCALE));
    table.insert('+', Action::Rotate(Rotation::quarter_left()));

    // Save the position, move and turn, restore only the position: the
    // heading keeps the turn.
    let builder = LSystemBuilder::new(chars("pF+q"), grammar_from(&rules), 0);
    let cursor = Cursor::new(Point { x: 0, y: 0 }, 0, 1).unwrap();
    let mut reader = SymbolReader::new(builder, table, cursor);
    reader.draw().unwrap();
    assert_eq!((reader.cursor.position.x, reader.cursor.position.y), (0, 0));
    assert_eq!((reader.cursor.heading.x, reader.cursor.heading.y), (-SCALE, 0));

    // Popping the angle stack while empty names that stack.
    let mut table = ActionTable::new();
    table.insert('b', Action::PopAngle);
    let builder = LSystemBuilder::new(chars("b"), grammar_from(&rules), 0);
    let cursor = Cursor::new(Point { x: 0, y: 0 }, 0, 1).unwrap();
    let mut reader = SymbolReader::new(builder, table, cursor);
    assert_eq!(reader.step(), Err(RunError::StackUnderflow(StackKind::Angles)));
}

/// A zero vector handed to SetAngle is a configuration fault at execution.
#[test]
fn zero_heading_is_configuration_error() {
    assert_eq!(
        Cursor::new(Point { x: 0, y: 0 }, 0, 0).unwrap_err(),
        ConfigurationError::ZeroHeading
    );

    let rules: HashMap<char, &str> = HashMap::new();
    let mut table = ActionTable::new();
    table.insert('z', Action::SetAngle(Point { x: 0, y: 0 }));
    let builder = LSystemBuilder::new(chars("z"), grammar_from(&rules), 0);
    let cursor = Cursor::new(Point { x: 0, y: 0 }, 0, 1).unwrap();
    let mut reader = SymbolReader::new(builder, table, cursor);
    assert_eq!(
        reader.step(),
        Err(RunError::Configuration(ConfigurationError::ZeroHeading))
    );
}

/// `steps` stops right after the next drawing action.
#[test]
fn steps_advances_to_next_draw() {
    let rules: HashMap<char, &str> = HashMap::new();
    let mut table = ActionTable::new();
    table.insert('F', Action::DrawForward(SCALE));
    table.insert('+', Action::Rotate(Rotation::quarter_left()));
    let builder = LSystemBuilder::new(chars("++F+F"), grammar_from(&rules), 0);
    let cursor = Cursor::new(Point { x: 0, y: 0 }, 0, 1).unwrap();
    let mut reader = SymbolReader::new(builder, table, cursor);

    assert_eq!(reader.steps(), Ok(StepResult::Executed(Action::DrawForward(SCALE))));
    assert_eq!(reader.segments.len(), 1);
    assert_eq!(reader.steps(), Ok(StepResult::Executed(Action::DrawForward(SCALE))));
    assert_eq!(reader.segments.len(), 2);
    assert_eq!(reader.steps(), Ok(StepResult::Finished));
}

/// Draining the hand-rotated square returns to the start: four unit strokes
/// that close.
#[test]
fn drawn_square_closes() {
    let rules: HashMap<char, &str> = HashMap::new();
    let mut table = ActionTable::new();
    table.insert('F', Action::DrawForward(SCALE));
    table.insert('+', Action::Rotate(Rotation::quarter_left()));
    let builder = LSystemBuilder::new(chars("F+F+F+F"), grammar_from(&rules), 0);
    let cursor = Cursor::new(Point { x: 0, y: 0 }, 0, 1).unwrap();
    let mut reader = SymbolReader::new(builder, table, cursor);
    reader.draw().unwrap();
    assert_eq!(reader.segments.len(), 4);
    assert_eq!((reader.cursor.position.x, reader.cursor.position.y), (0, 0));
    let c = segments_center(&reader.segments).unwrap();
    assert_eq!((c.x, c.y), (-SCALE / 2, SCALE / 2));
}

/// The interpreter using the eager stream matches the lazy one.
#[test]
fn reader_agrees_across_generators() {
    let rules = HashMap::from([('X', "F[X][+DX]-DX"), ('D', "F")]);
    let mut table_a = ActionTable::new();
    let mut table_b = ActionTable::new();
    for t in [&mut table_a, &mut table_b] {
        t.insert('F', Action::DrawForward(SCALE));
        t.insert('+', Action::Rotate(Rotation::quarter_right()));
        t.insert('-', Action::Rotate(Rotation::quarter_left()));
        t.insert('[', Action::PushCursor);
        t.insert(']', Action::PopCursor);
        t.insert('D', Action::PushPosition);
    }
    let cursor = Cursor::new(Point { x: 0, y: 0 }, 0, 1).unwrap();

    let lazy = LSystemBuilder::new(chars("X"), grammar_from(&rules), 4);
    let mut ra = SymbolReader::new(lazy, table_a, cursor);
    ra.draw().unwrap();

    let eager = LSystemString::new(chars("X"), &grammar_from(&rules), 4);
    let mut rb = SymbolReader::new(eager, table_b, cursor);
    rb.draw().unwrap();

    assert_eq!(ra.segments, rb.segments);
    assert_eq!(ra.positions, rb.positions);
    assert_eq!(ra.cursor, rb.cursor);
}
