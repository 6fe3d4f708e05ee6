use lsystem::errors::LsysError;
use lsystem::rule::{Rule, StochasticSuccessor};
use lsystem::rule::select_alternative;
use lsystem::system::LSystem;
use lsystem::turtle::{interpret, Primitive};

fn simple(p: char, s: &str) -> Rule {
    Rule::Simple { predecessor: p, successor: String::from(s) }
}

fn right_angle_table() -> Vec<(i64, i64)> {
    let mut table = vec![(0i64, 0i64); 360];
    table[0] = (1, 0);
    table[90] = (0, 1);
    table[180] = (-1, 0);
    table[270] = (0, -1);
    table
}

#[test]
fn create_lsystem() {
    let system = LSystem::new("Test", "A", 90);
    assert_eq!(system.seed, "A");
    assert_eq!(system.turn_angle, 90);
    assert_eq!(system.rules.is_empty(), true);
}

#[test]
fn test_apply_rule() {
    let mut system = LSystem::new("Test", "A", 90);
    system.rules.push(simple('A', "AB"));

    let output = system.apply_rule(&'A');
    assert_eq!(output, Ok(String::from("AB")));
}

#[test]
fn test_apply_stochactic_rule() {
    let mut system = LSystem::new("Test", "A", 90);
    system.rules.push(Rule::Stochastic {
        predecessor: 'A',
        successors: vec![StochasticSuccessor { weight: 1, successor: "AB".to_string() }],
    });

    let output = system.apply_rule(&'A');
    assert_eq!(output, Ok(String::from("AB")));
}

#[test]
fn test_process_string() {
    let mut system = LSystem::new("Test", "A", 90);
    system.rules.push(simple('A', "AB"));
    system.rules.push(simple('B', "BA"));

    let input = String::from("AB");
    let output = system.process_string(&input);
    assert_eq!(output, Ok(String::from("ABBA")));
}

#[test]
fn test_generate_system() {
    let mut system = LSystem::new("Test", "AB", 90);
    system.rules.push(simple('A', "AB"));
    system.rules.push(simple('B', "BA"));

    assert_eq!(system.generate_system(3), Ok(()));
    assert_eq!(system.endstring, "ABBABAABBAABABBA");
}

#[test]
fn algae_three_and_five_generations() {
    let mut system = LSystem::new("algae", "A", 90);
    system.rules.push(simple('A', "AB"));
    system.rules.push(simple('B', "A"));

    assert_eq!(system.generate_system(4), Ok(()));
    assert_eq!(system.endstring, "ABAABABA");
    assert_eq!(system.generate_system(6), Ok(()));
    assert_eq!(system.endstring, "ABAABABAABAABABAABABA");
}

#[test]
fn sierpinski_arrowhead_generations() {
    let mut system = LSystem::new("sierpinski", "A", 60);
    system.rules.push(simple('A', "+B\u{2212}A\u{2212}B+"));
    system.rules.push(simple('B', "\u{2212}A+B+A\u{2212}"));

    assert_eq!(system.generate_system(1), Ok(()));
    assert_eq!(system.endstring, "+B\u{2212}A\u{2212}B+");
    assert_eq!(system.generate_system(2), Ok(()));
    assert_eq!(
        system.endstring,
        "+\u{2212}A+B+A\u{2212}\u{2212}+B\u{2212}A\u{2212}B+\u{2212}\u{2212}A+B+A\u{2212}+"
    );
}

#[test]
fn stochastic_degenerate_copies_through() {
    let mut system = LSystem::new("degenerate", "X", 90);
    system.rules.push(Rule::Stochastic {
        predecessor: 'X',
        successors: vec![StochasticSuccessor { weight: 1, successor: "Y".to_string() }],
    });

    assert_eq!(system.generate_system(4), Ok(()));
    assert_eq!(system.endstring, "Y");
}

#[test]
fn generate_zero_keeps_seed() {
    let mut system = LSystem::new("zero", "AB", 90);
    system.rules.push(simple('A', "AAAA"));

    assert_eq!(system.generate_system(0), Ok(()));
    assert_eq!(system.endstring, "AB");
}

#[test]
fn generate_restarts_from_seed() {
    let mut system = LSystem::new("algae", "A", 90);
    system.rules.push(simple('A', "AB"));
    system.rules.push(simple('B', "A"));

    assert_eq!(system.generate_system(2), Ok(()));
    assert_eq!(system.endstring, "ABA");
    // the second call starts over from the seed, not from "ABA"
    assert_eq!(system.generate_system(4), Ok(()));
    assert_eq!(system.endstring, "ABAABABA");
}

#[test]
fn empty_seed_stays_empty() {
    let mut system = LSystem::new("empty", "", 90);
    system.rules.push(simple('A', "AB"));

    assert_eq!(system.generate_system(5), Ok(()));
    assert_eq!(system.endstring, "");
}

#[test]
fn no_rules_keeps_seed() {
    let mut system = LSystem::new("norules", "AB", 90);

    assert_eq!(system.generate_system(4), Ok(()));
    assert_eq!(system.endstring, "AB");
}

#[test]
fn singleton_stochastic_matches_simple_rule() {
    let mut det = LSystem::new("det", "A", 90);
    det.rules.push(simple('A', "AB"));
    let mut sto = LSystem::new("sto", "A", 90);
    sto.rules.push(Rule::Stochastic {
        predecessor: 'A',
        successors: vec![StochasticSuccessor { weight: 1, successor: "AB".to_string() }],
    });

    assert_eq!(det.generate_system(3), Ok(()));
    assert_eq!(sto.generate_system(3), Ok(()));
    assert_eq!(det.endstring, sto.endstring);
}

#[test]
fn zero_weight_alternative_never_chosen() {
    let mut system = LSystem::new("weights", "A", 90);
    system.rules.push(Rule::Stochastic {
        predecessor: 'A',
        successors: vec![
            StochasticSuccessor { weight: 0, successor: "N".to_string() },
            StochasticSuccessor { weight: 5, successor: "Y".to_string() },
        ],
    });

    for _ in 0..20 {
        assert_eq!(system.apply_rule(&'A'), Ok(String::from("Y")));
    }
}

#[test]
fn select_alternative_respects_prefix_sums() {
    let alts = vec![
        StochasticSuccessor { weight: 2, successor: "a".to_string() },
        StochasticSuccessor { weight: 3, successor: "b".to_string() },
    ];
    assert_eq!(select_alternative(&alts, 0), 0);
    assert_eq!(select_alternative(&alts, 1), 0);
    assert_eq!(select_alternative(&alts, 2), 1);
    assert_eq!(select_alternative(&alts, 4), 1);
}

#[test]
fn empty_alternatives_is_an_error() {
    let mut system = LSystem::new("bad", "A", 90);
    system.rules.push(Rule::Stochastic { predecessor: 'A', successors: vec![] });

    assert_eq!(
        system.apply_rule(&'A'),
        Err(LsysError::EmptyAlternatives { predecessor: 'A' })
    );
    assert_eq!(
        system.generate_system(1),
        Err(LsysError::EmptyAlternatives { predecessor: 'A' })
    );
}

#[test]
fn zero_total_weight_is_an_error() {
    let mut system = LSystem::new("bad", "A", 90);
    system.rules.push(Rule::Stochastic {
        predecessor: 'A',
        successors: vec![StochasticSuccessor { weight: 0, successor: "B".to_string() }],
    });

    assert_eq!(
        system.apply_rule(&'A'),
        Err(LsysError::EmptyAlternatives { predecessor: 'A' })
    );
}

#[test]
fn negative_iterations_is_an_error() {
    let mut system = LSystem::new("neg", "A", 90);
    system.rules.push(simple('A', "AB"));

    assert_eq!(system.generate_system(-1), Err(LsysError::BadArgument));
    // the system is left untouched
    assert_eq!(system.endstring, "");
}

#[test]
fn unmatched_symbol_copies_through() {
    let mut system = LSystem::new("id", "A", 90);
    system.rules.push(simple('A', "AB"));

    assert_eq!(system.apply_rule(&'Z'), Ok(String::from("Z")));
    assert_eq!(system.process_string("Z+Z"), Ok(String::from("Z+Z")));
}

#[test]
fn duplicate_predecessor_first_rule_wins() {
    let mut system = LSystem::new("dup", "A", 90);
    system.rules.push(simple('A', "X"));
    system.rules.push(simple('A', "Y"));

    assert_eq!(system.apply_rule(&'A'), Ok(String::from("X")));
    assert_eq!(system.process_string("AA"), Ok(String::from("XX")));
}

#[test]
fn turtle_balance_scenario() {
    let table = right_angle_table();
    let prims = interpret("F[+F]F", &table, 90, 90);
    assert_eq!(
        prims,
        Ok(vec![
            Primitive::MoveTo { x: 0, y: 0 },
            Primitive::LineTo { x: 0, y: 1 },
            Primitive::LineTo { x: -1, y: 1 },
            Primitive::MoveTo { x: 0, y: 1 },
            Primitive::LineTo { x: 0, y: 2 },
        ])
    );
}

#[test]
fn turtle_unbalanced_bracket_reports_offset() {
    let table = right_angle_table();
    let prims = interpret("F]", &table, 90, 90);
    assert_eq!(prims, Err(LsysError::UnbalancedBracket { offset: 1 }));
}

#[test]
fn turtle_both_minus_forms_rotate() {
    let table = right_angle_table();
    // ASCII '-' and U+2212 both rotate clockwise: heading 90 -> 0 -> 270
    let prims = interpret("-\u{2212}F", &table, 90, 90);
    assert_eq!(
        prims,
        Ok(vec![Primitive::MoveTo { x: 0, y: 0 }, Primitive::LineTo { x: 0, y: -1 }])
    );
}

#[test]
fn turtle_unknown_symbols_are_noops() {
    let table = right_angle_table();
    let prims = interpret("AFB", &table, 90, 0);
    assert_eq!(
        prims,
        Ok(vec![Primitive::MoveTo { x: 0, y: 0 }, Primitive::LineTo { x: 1, y: 0 }])
    );
}

#[test]
fn turtle_pop_restores_heading_too() {
    let table = right_angle_table();
    // inside the branch the heading turns; after `]` it is restored
    let prims = interpret("[+]F", &table, 90, 0);
    assert_eq!(
        prims,
        Ok(vec![
            Primitive::MoveTo { x: 0, y: 0 },
            Primitive::MoveTo { x: 0, y: 0 },
            Primitive::LineTo { x: 1, y: 0 },
        ])
    );
}

#[test]
fn error_descriptions_are_nonempty() {
    assert!(!LsysError::BadArgument.describe().is_empty());
    assert!(!LsysError::EmptyAlternatives { predecessor: 'A' }.describe().is_empty());
    assert!(!LsysError::UnbalancedBracket { offset: 3 }.describe().is_empty());
}
