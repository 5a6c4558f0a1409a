use std::collections::HashMap;
use std::time::Instant;

use lsystem::actions::{Action, ActionTable};
use lsystem::cursor::{Cursor, Point, Rotation, SCALE};
use lsystem::expression::{
    collect_symbols, l_system, write_expression, LSystemBuilder, LSystemString, SymbolSource,
};
use lsystem::grammar::Grammar;
use lsystem::reader::SymbolReader;

fn chars(s: &str) -> Vec<char> {
    s.chars().collect()
}

fn grammar_from(rules: &HashMap<char, &str>) -> Grammar {
    let mut g = Grammar::new();
    for (c, p) in rules.iter() {
        g.insert(*c, chars(p));
    }
    g
}

fn drain_builder(b: &mut LSystemBuilder) -> String {
    collect_symbols(b).into_iter().collect()
}

#[test]
fn expr_test() {
    let rules = HashMap::from([('X', "F[X][+DX]-DX"), ('D', "F")]);
    let mut e = LSystemBuilder::new(chars("X"), grammar_from(&rules), 4);

    let s: String = write_expression(chars("X"), &grammar_from(&rules), 4)
        .into_iter()
        .collect();

    println!("{s}\n");
    let mut lazy = String::new();
    loop {
        if let Some(c) = e.next_symbol() {
            lazy.push(c)
        } else {
            break;
        }
    }
    println!("{lazy}");
    assert_eq!(s, lazy);
}

#[test]
fn string_model() {
    let axiom_str = "X";
    let rules = HashMap::from([
        ('X', "F[X][+DX]-DX"),
        ('D', "F"),
        ('F', "F"),
        ('+', "+"),
        ('-', "-"),
        ('[', "["),
        (']', "]"),
    ]);
    let depth = 13_usize;

    let expression_string = LSystemString::new(chars(axiom_str), &grammar_from(&rules), depth);

    let bytes_used = write_expression(chars(axiom_str), &grammar_from(&rules), depth).len() * 4;

    let expression_struct = LSystemBuilder::new(chars(axiom_str), grammar_from(&rules), depth);

    let actions = [
        ('F', Action::DrawForward(15 * SCALE)),
        ('X', Action::NoOp),
        ('D', Action::PushPosition),
        ('+', Action::Rotate(rotation_rad(-1.04))),
        ('-', Action::Rotate(rotation_rad(1.04))),
        ('[', Action::PushCursor),
        (']', Action::PopCursor),
    ];
    let mut table = ActionTable::new();
    for (c, a) in actions.iter() {
        table.insert(*c, *a);
    }
    let mut table2 = ActionTable::new();
    for (c, a) in actions.iter() {
        table2.insert(*c, *a);
    }

    let cursor = Cursor::new(Point { x: 0, y: 0 }, 0, 1).unwrap();
    let mut system = SymbolReader::new(expression_string, table, cursor);
    let t0 = Instant::now();
    loop {
        match system.step() {
            Ok(lsystem::reader::StepResult::Finished) => break,
            Ok(_) => (),
            Err(e) => panic!("unexpected fault: {:?}", e),
        }
    }
    println!("Vec<char>: {:?}", Instant::now() - t0);
    println!("using {} bytes", bytes_used);

    let cursor = Cursor::new(Point { x: 0, y: 0 }, 0, 1).unwrap();
    let mut system = SymbolReader::new(expression_struct, table2, cursor);
    let t0 = Instant::now();
    loop {
        match system.step() {
            Ok(lsystem::reader::StepResult::Finished) => break,
            Ok(_) => (),
            Err(e) => panic!("unexpected fault: {:?}", e),
        }
    }
    println!("Memory Efficient Struct: {:?}", Instant::now() - t0);
    println!("using ~200 bytes (roughly k*n where k is the widest replacement and n in the recursion depth)");
}

fn rotation_rad(theta: f64) -> Rotation {
    Rotation {
        cos: (theta.cos() * SCALE as f64).round() as i64,
        sin: (theta.sin() * SCALE as f64).round() as i64,
    }
}

#[test]
fn scenario_single_rule_depth_two() {
    // The generator's concatenated output at depth 2 equals the start string
    // rewritten twice by the naive reference, character for character.
    let rules = HashMap::from([('X', "F[X][+DX]-DX")]);
    let naive: String = write_expression(chars("X"), &grammar_from(&rules), 2)
        .into_iter()
        .collect();
    let mut b = LSystemBuilder::new(chars("X"), grammar_from(&rules), 2);
    assert_eq!(drain_builder(&mut b), naive);

    // One pass expands the single X; two passes expand the three X's of the
    // first pass, leaving other symbols in place.
    let once = "F[X][+DX]-DX";
    let expected: String = once
        .chars()
        .map(|c| if c == 'X' { once.to_string() } else { c.to_string() })
        .collect();
    assert_eq!(naive, expected);
}

#[test]
fn generator_matches_naive_rewrite_on_many_grammars() {
    let cases: Vec<(&str, HashMap<char, &str>)> = vec![
        ("F", HashMap::from([('F', "F+F-F")])),
        ("A", HashMap::from([('A', "AB"), ('B', "A")])),
        ("X", HashMap::from([('X', "F[X][+DX]-DX"), ('D', "F")])),
        ("FAF", HashMap::from([('A', ""), ('F', "FF")])),
        ("A", HashMap::from([('A', "B"), ('B', "AB")])),
    ];
    for (axiom_str, rules) in cases {
        for depth in 0..=6usize {
            let naive = write_expression(chars(axiom_str), &grammar_from(&rules), depth);
            let mut b = LSystemBuilder::new(chars(axiom_str), grammar_from(&rules), depth);
            let lazy = collect_symbols(&mut b);
            assert_eq!(naive, lazy, "depth {depth} start {axiom_str}");
        }
    }
}

#[test]
fn algae_lengths_follow_fibonacci() {
    let rules = HashMap::from([('A', "AB"), ('B', "A")]);
    let expect = [1usize, 2, 3, 5, 8, 13, 21];
    for depth in 0..=6usize {
        let out = write_expression(chars("A"), &grammar_from(&rules), depth);
        assert_eq!(out.len(), expect[depth]);
    }
    let two = write_expression(chars("A"), &grammar_from(&rules), 2);
    let two: String = two.into_iter().collect();
    assert_eq!(two, "ABA");
}

#[test]
fn depth_zero_yields_start_then_finished() {
    let rules = HashMap::from([('X', "F[X][+DX]-DX")]);
    let mut b = LSystemBuilder::new(chars("XDX"), grammar_from(&rules), 0);
    assert_eq!(b.next_symbol(), Some('X'));
    assert_eq!(b.next_symbol(), Some('D'));
    assert_eq!(b.next_symbol(), Some('X'));
    assert_eq!(b.next_symbol(), None);
}

#[test]
fn exhausted_generator_stays_exhausted() {
    let rules = HashMap::from([('F', "FF")]);
    let mut b = LSystemBuilder::new(chars("F"), grammar_from(&rules), 2);
    let out = collect_symbols(&mut b);
    assert_eq!(out.len(), 4);
    for _ in 0..5 {
        assert_eq!(b.next_symbol(), None);
    }
    let mut s = LSystemString::new(chars("F"), &grammar_from(&rules), 2);
    assert_eq!(collect_symbols(&mut s).len(), 4);
    for _ in 0..5 {
        assert_eq!(s.next_symbol(), None);
    }
}

#[test]
fn l_system_matches_write_expression() {
    let rules = HashMap::from([('F', "F+F-F-F+F")]);
    let a = l_system(chars("F"), &grammar_from(&rules), 3);
    let b = write_expression(chars("F"), &grammar_from(&rules), 3);
    assert_eq!(a, b);
    assert_eq!(a.len(), 249);
}

#[test]
fn chars_from_rules_expands_or_echoes() {
    let rules = HashMap::from([('X', "AB")]);
    let b = LSystemBuilder::new(chars("X"), grammar_from(&rules), 1);
    assert_eq!(b.chars_from_rules('X'), vec!['A', 'B']);
    assert_eq!(b.chars_from_rules('Q'), vec!['Q']);
}

#[test]
fn grammar_insert_replaces_and_lookup_finds() {
    let mut g = Grammar::new();
    assert!(g.lookup('A').is_none());
    g.insert('A', chars("BB"));
    assert_eq!(g.lookup('A').unwrap(), &vec!['B', 'B']);
    g.insert('A', chars("C"));
    assert_eq!(g.lookup('A').unwrap(), &vec!['C']);
    g.insert('B', chars("AA"));
    assert_eq!(g.widest_production() >= 2, true);
}
