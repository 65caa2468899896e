use seeker::fixed::PROB_ONE;
use seeker::rules::{HumanRules, RulesParseError};

fn conway() -> HumanRules {
    HumanRules {
        kernel: vec!["111".to_string(), "1X1".to_string(), "111".to_string()],
        spawn: vec![(3, PROB_ONE)],
        keep: vec![(2, PROB_ONE), (3, PROB_ONE)],
    }
}

#[test]
fn missing_center_marker_is_reported() {
    let hr = HumanRules {
        kernel: vec!["111".to_string(), "111".to_string()],
        spawn: Vec::new(),
        keep: Vec::new(),
    };
    assert_eq!(hr.parse().unwrap_err(), RulesParseError::MissingKernelCenter);
}

#[test]
fn unknown_kernel_symbol_is_reported() {
    let hr = HumanRules {
        kernel: vec!["1X?".to_string()],
        spawn: Vec::new(),
        keep: Vec::new(),
    };
    assert_eq!(hr.parse().unwrap_err(), RulesParseError::UnknownSymbol('?'));
}

#[test]
fn spawn_key_beyond_max_score_is_reported() {
    let mut hr = conway();
    // the eight weight-1 neighbors make 8 the largest score
    hr.spawn = vec![(9, PROB_ONE)];
    assert_eq!(hr.parse().unwrap_err(), RulesParseError::WeightOutOfBounds(9));
}

#[test]
fn keep_key_beyond_max_score_is_reported() {
    let mut hr = conway();
    hr.keep = vec![(200, PROB_ONE / 2)];
    assert_eq!(hr.parse().unwrap_err(), RulesParseError::WeightOutOfBounds(200));
}

#[test]
fn keys_at_the_max_score_are_accepted() {
    let mut hr = conway();
    hr.spawn = vec![(8, PROB_ONE)];
    assert!(hr.parse().is_ok());
}

#[test]
fn parsed_tables_are_dense_and_keyed_by_score() {
    let rules = conway().parse().expect("classic rules parse");
    assert!(rules.are_valid());
    // write the rules back: the diagram and every nonzero score reappear
    let hr = HumanRules::unparse(&rules);
    assert_eq!(
        hr.kernel,
        vec!["111".to_string(), "1X1".to_string(), "111".to_string()]
    );
    assert_eq!(hr.spawn.len(), 8);
    assert_eq!(hr.keep.len(), 8);
    assert_eq!(hr.spawn[2], (3, PROB_ONE));
    assert_eq!(hr.spawn[0], (1, 0));
    assert_eq!(hr.keep[1], (2, PROB_ONE));
    assert_eq!(hr.keep[2], (3, PROB_ONE));
}

#[test]
fn human_rules_round_trip_through_parse_and_unparse() {
    let hr = conway();
    let rules = hr.parse().unwrap();
    let written = HumanRules::unparse(&rules);
    let reparsed = written.parse().expect("written rules parse again");
    let rewritten = HumanRules::unparse(&reparsed);
    assert_eq!(written.kernel, rewritten.kernel);
    assert_eq!(written.spawn, rewritten.spawn);
    assert_eq!(written.keep, rewritten.keep);
}

#[test]
fn weight_zero_entries_are_kept_in_the_diagram() {
    let hr = HumanRules {
        kernel: vec!["0X2".to_string()],
        spawn: vec![(1, PROB_ONE)],
        keep: Vec::new(),
    };
    let rules = hr.parse().unwrap();
    let written = HumanRules::unparse(&rules);
    assert_eq!(written.kernel, vec!["0X2".to_string()]);
    // the weight sum is 2, so both tables carry scores 1 and 2
    assert_eq!(written.spawn, vec![(1, PROB_ONE), (2, 0)]);
}

#[test]
fn duplicate_table_keys_apply_in_order_so_the_last_wins() {
    let mut hr = conway();
    hr.spawn = vec![(3, PROB_ONE / 4), (3, PROB_ONE / 2)];
    let rules = hr.parse().unwrap();
    let written = HumanRules::unparse(&rules);
    assert_eq!(written.spawn[2], (3, PROB_ONE / 2));
}

#[test]
fn probabilities_above_one_fail_validation_only() {
    let mut hr = conway();
    hr.spawn = vec![(3, PROB_ONE + 1)];
    let rules = hr.parse().expect("a too-large probability still parses");
    assert!(!rules.are_valid());
}

#[test]
fn a_second_center_marker_is_an_unknown_symbol() {
    // the diagram must hold exactly one center
    let hr = HumanRules {
        kernel: vec!["1X1".to_string(), "1X1".to_string()],
        spawn: Vec::new(),
        keep: Vec::new(),
    };
    assert_eq!(hr.parse().unwrap_err(), RulesParseError::UnknownSymbol('X'));
}

#[test]
fn the_reported_unknown_symbol_is_the_first_in_scan_order() {
    let hr = HumanRules {
        kernel: vec!["1X?".to_string(), "!11".to_string()],
        spawn: Vec::new(),
        keep: Vec::new(),
    };
    assert_eq!(hr.parse().unwrap_err(), RulesParseError::UnknownSymbol('?'));
}
