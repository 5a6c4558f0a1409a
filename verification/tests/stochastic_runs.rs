use lsystem::expression::{collect_symbols, SymbolSource};
use lsystem::grammar::ConfigurationError;
use lsystem::random::RandomSource;
use lsystem::stochastic::{
    write_expression_stochastic, LSystemBuilderStochastic, LSystemStringStochastic,
    StochasticGrammar, WeightedProduction,
};

fn chars(s: &str) -> Vec<char> {
    s.chars().collect()
}

fn alt(s: &str, weight: u32) -> WeightedProduction {
    WeightedProduction { symbols: chars(s), weight }
}

/// With alternatives weighted 1:3 and a deterministic seeded source, the
/// empirical split over ten thousand expansions approaches one quarter to
/// three quarters.
#[test]
fn weighted_selection_split() {
    let mut g = StochasticGrammar::new();
    g.insert('A', vec![alt("B", 1), alt("C", 3)]);

    let mut source = RandomSource::seeded(0xD1CE);
    let mut b_count = 0usize;
    let mut c_count = 0usize;
    for _ in 0..10_000 {
        let out = write_expression_stochastic(chars("A"), &g, 1, &mut source).unwrap();
        match out[..] {
            ['B'] => b_count += 1,
            ['C'] => c_count += 1,
            _ => panic!("unexpected expansion {:?}", out),
        }
    }
    assert_eq!(b_count + c_count, 10_000);
    // Expected 2500 with a standard deviation near 43.
    assert!(
        (2200..=2800).contains(&b_count),
        "split was {b_count}:{c_count}"
    );
}

/// Equal seeds give equal runs; the eager stochastic stream replays them.
#[test]
fn seeded_runs_are_reproducible() {
    let mut g = StochasticGrammar::new();
    g.insert('F', vec![alt("F+F", 2), alt("F-F", 2), alt("FF", 1)]);

    let mut s1 = RandomSource::seeded(42);
    let mut s2 = RandomSource::seeded(42);
    let a = write_expression_stochastic(chars("F"), &g, 5, &mut s1).unwrap();
    let b = write_expression_stochastic(chars("F"), &g, 5, &mut s2).unwrap();
    assert_eq!(a, b);

    let mut s3 = RandomSource::seeded(42);
    let mut stream = LSystemStringStochastic::new(chars("F"), &g, 5, &mut s3).unwrap();
    assert_eq!(collect_symbols(&mut stream), a);
    assert_eq!(stream.next_symbol(), None);
}

/// A symbol with no listed alternative faults when first expanded.
#[test]
fn empty_alternatives_fault() {
    let mut g = StochasticGrammar::new();
    g.insert('A', vec![]);
    let mut source = RandomSource::seeded(1);
    assert_eq!(
        write_expression_stochastic(chars("A"), &g, 1, &mut source).unwrap_err(),
        ConfigurationError::NoAlternatives
    );
    // The fault is raised at selection time: an unreached bad entry is no
    // fault.
    let mut g = StochasticGrammar::new();
    g.insert('A', vec![]);
    g.insert('B', vec![alt("BB", 1)]);
    let mut source = RandomSource::seeded(1);
    assert!(write_expression_stochastic(chars("B"), &g, 3, &mut source).is_ok());
}

/// A zero weight faults when its symbol is first expanded.
#[test]
fn zero_weight_faults() {
    let mut g = StochasticGrammar::new();
    g.insert('A', vec![alt("B", 1), alt("C", 0)]);
    let mut source = RandomSource::seeded(1);
    assert_eq!(
        write_expression_stochastic(chars("A"), &g, 1, &mut source).unwrap_err(),
        ConfigurationError::NonPositiveWeight
    );
}

/// Terminal symbols pass through a stochastic rewrite unchanged, and every
/// output is one of the derivable strings.
#[test]
fn stochastic_outputs_are_derivable() {
    let mut g = StochasticGrammar::new();
    g.insert('F', vec![alt("FL", 1), alt("FR", 1)]);
    let mut source = RandomSource::seeded(7);
    for _ in 0..100 {
        let out: String = write_expression_stochastic(chars("xFx"), &g, 1, &mut source)
            .unwrap()
            .into_iter()
            .collect();
        assert!(out == "xFLx" || out == "xFRx", "got {out}");
    }
}

/// The lazy stochastic generator is reproducible under a seed, emits only
/// derivable strings, and agrees with the deterministic rewrite when every
/// symbol has a single alternative.
#[test]
fn lazy_stochastic_builder_emits_derivations() {
    // One alternative each: the only derivation is the deterministic one.
    let mut g = StochasticGrammar::new();
    g.insert('X', vec![alt("F[X]X", 1)]);
    let mut b = LSystemBuilderStochastic::new(chars("X"), g, 3, RandomSource::seeded(5));
    let out: String = b.collect().unwrap().into_iter().collect();
    assert_eq!(out, "F[F[F[X]X]F[X]X]F[F[X]X]F[X]X");
    // Exhaustion is idempotent and adds nothing.
    assert_eq!(b.next_symbol(), Ok(None));
    assert_eq!(b.collect().unwrap(), Vec::<char>::new());

    // Two alternatives: every emission is one of the two replacements, and
    // equal seeds replay the same run.
    let mut g = StochasticGrammar::new();
    g.insert('F', vec![alt("FL", 1), alt("FR", 1)]);
    let mut g2 = StochasticGrammar::new();
    g2.insert('F', vec![alt("FL", 1), alt("FR", 1)]);
    let mut b1 = LSystemBuilderStochastic::new(chars("F"), g, 4, RandomSource::seeded(11));
    let mut b2 = LSystemBuilderStochastic::new(chars("F"), g2, 4, RandomSource::seeded(11));
    let o1 = b1.collect().unwrap();
    let o2 = b2.collect().unwrap();
    assert_eq!(o1, o2);
    assert_eq!(o1[0], 'F');
    assert_eq!(o1.len(), 5);
    for c in o1.iter().skip(1) {
        assert!(*c == 'L' || *c == 'R');
    }
}

/// The lazy generator faults on the entry it cannot select from, and stays
/// usable for what was already emitted.
#[test]
fn lazy_stochastic_builder_faults_on_bad_weights() {
    let mut g = StochasticGrammar::new();
    g.insert('A', vec![alt("B", 0)]);
    let mut b = LSystemBuilderStochastic::new(chars("A"), g, 1, RandomSource::seeded(3));
    assert_eq!(b.next_symbol(), Err(ConfigurationError::NonPositiveWeight));

    let mut g = StochasticGrammar::new();
    g.insert('A', vec![]);
    let mut b = LSystemBuilderStochastic::new(chars("A"), g, 1, RandomSource::seeded(3));
    assert_eq!(b.collect(), Err(ConfigurationError::NoAlternatives));
}

/// One drawn replacement is one of the listed alternatives, or the symbol
/// itself when it has none.
#[test]
fn drawn_replacement_is_an_alternative() {
    let mut g = StochasticGrammar::new();
    g.insert('F', vec![alt("FL", 1), alt("FR", 1)]);
    let mut b = LSystemBuilderStochastic::new(chars("F"), g, 1, RandomSource::seeded(8));
    for _ in 0..20 {
        let p: String = b.chars_from_rules('F').unwrap().into_iter().collect();
        assert!(p == "FL" || p == "FR");
        assert_eq!(b.chars_from_rules('Q').unwrap(), vec!['Q']);
    }
}

/// The seeded source draws below its bound and steps deterministically.
#[test]
fn seeded_source_draws_in_range() {
    let mut a = RandomSource::seeded(9);
    let mut b = RandomSource::seeded(9);
    for n in 1..200u64 {
        let x = a.next_below(n);
        assert!(x < n);
        assert_eq!(x, b.next_below(n));
    }
}
