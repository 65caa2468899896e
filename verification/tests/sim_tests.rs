use seeker::data::Data;
use seeker::fixed::PROB_ONE;
use seeker::grid::GridAnalysis;
use seeker::data::DataParseError;
use seeker::rules::{HumanRules, RulesParseError};
use seeker::sim::SnapError;
use seeker::sim::{Conclusion, Limits, Simulation, Snap, Statistics};

fn conway_rules() -> HumanRules {
    HumanRules {
        kernel: vec!["111".to_string(), "1X1".to_string(), "111".to_string()],
        spawn: vec![(3, PROB_ONE)],
        keep: vec![(2, PROB_ONE), (3, PROB_ONE)],
    }
}

/// The glider at (1,3),(2,3),(3,3),(3,2),(2,1) on an 8x8 board, packed.
fn glider_lines() -> Vec<String> {
    vec![
        "00".to_string(),
        "40".to_string(),
        "80".to_string(),
        "e0".to_string(),
        "00".to_string(),
        "00".to_string(),
        "00".to_string(),
        "00".to_string(),
    ]
}

fn glider_snap() -> Snap {
    Snap::new(
        Data::Grid(glider_lines()),
        conway_rules(),
        7,
        Limits { max_steps: 100_000, update_weight: PROB_ONE / 10 },
    )
}

fn alive_set(sim: &Simulation) -> Vec<(i32, i32)> {
    let size = sim.grid().size();
    let mut cells = Vec::new();
    for y in 0..size.y {
        for x in 0..size.x {
            if sim.grid().get(x, y).is_some() {
                cells.push((x, y));
            }
        }
    }
    cells
}

#[test]
fn glider_translates_diagonally() {
    let snap = glider_snap();
    let mut sim = Simulation::new(&snap).unwrap();
    let start = alive_set(&sim);
    assert_eq!(start.len(), 5);
    for step in 1..=20usize {
        match sim.advance() {
            Ok(_) => {}
            Err(_) => panic!("the glider must neither die out nor saturate"),
        }
        if step % 4 == 0 {
            let shift = (step / 4) as i32;
            let now = alive_set(&sim);
            let mut expected: Vec<(i32, i32)> = start
                .iter()
                .map(|&(x, y)| ((x + shift).rem_euclid(8), (y + shift).rem_euclid(8)))
                .collect();
            expected.sort();
            let mut got = now.clone();
            got.sort();
            assert_eq!(got, expected, "shape mismatch after {} steps", step);
        }
    }
}

#[test]
fn empty_board_concludes_extinct_regardless_of_step_count() {
    // all probabilities zero: every cell dies immediately; max_steps 0
    // would otherwise conclude Done, but extinction takes priority
    let rules = HumanRules {
        kernel: vec!["1X1".to_string()],
        spawn: Vec::new(),
        keep: Vec::new(),
    };
    let snap = Snap::new(
        Data::Grid(vec!["e0".to_string()]),
        rules,
        1,
        Limits { max_steps: 0, update_weight: PROB_ONE / 10 },
    );
    let mut sim = Simulation::new(&snap).unwrap();
    match sim.advance() {
        Err(Conclusion::Extinct) => {}
        _ => panic!("an empty board must conclude Extinct"),
    }
}

#[test]
fn exceeding_max_steps_concludes_done_with_snapshot() {
    let mut snap = glider_snap();
    snap.limits.max_steps = 2;
    let mut sim = Simulation::new(&snap).unwrap();
    assert!(sim.advance().is_ok());
    assert!(sim.advance().is_ok());
    match sim.advance() {
        Err(Conclusion::Done(_, resumed)) => {
            // the snapshot must itself load
            assert!(Simulation::new(&resumed).is_ok());
            assert_eq!(resumed.random_seed, 7);
            assert_eq!(resumed.limits.max_steps, 2);
        }
        _ => panic!("the step ceiling must conclude Done"),
    }
}

#[test]
fn smoothing_converges_monotonically_to_constant_ratio() {
    let limits = Limits { max_steps: 1000, update_weight: PROB_ONE / 4 };
    let mut stats = Statistics { alive_ratio_average: 0, alive_ratio_variance: 0 };
    let r = PROB_ONE / 2;
    let mut prev = 0u32;
    for _ in 0..200 {
        let res = stats.update(GridAnalysis { alive_ratio: r }, &limits);
        assert!(res.is_ok());
        assert!(stats.alive_ratio_average >= prev, "average never falls back");
        assert!(stats.alive_ratio_average <= r, "average never overshoots");
        prev = stats.alive_ratio_average;
    }
    // within a bounded number of steps it is essentially at r
    assert!(stats.alive_ratio_average >= r - 4);
    // once at the fixed point the variance decays toward zero
    for _ in 0..400 {
        let _ = stats.update(GridAnalysis { alive_ratio: stats.alive_ratio_average }, &limits);
    }
    assert!(stats.alive_ratio_variance <= 1);
}

#[test]
fn saturation_concludes_saturate() {
    // spawn on every score: the board fills up immediately
    let rules = HumanRules {
        kernel: vec!["111".to_string(), "1X1".to_string(), "111".to_string()],
        spawn: vec![
            (0, PROB_ONE),
            (1, PROB_ONE),
            (2, PROB_ONE),
            (3, PROB_ONE),
            (4, PROB_ONE),
            (5, PROB_ONE),
            (6, PROB_ONE),
            (7, PROB_ONE),
            (8, PROB_ONE),
        ],
        keep: vec![
            (0, PROB_ONE),
            (1, PROB_ONE),
            (2, PROB_ONE),
            (3, PROB_ONE),
            (4, PROB_ONE),
            (5, PROB_ONE),
            (6, PROB_ONE),
            (7, PROB_ONE),
            (8, PROB_ONE),
        ],
    };
    let snap = Snap::new(
        Data::Grid(vec!["10".to_string(), "00".to_string()]),
        rules,
        3,
        Limits { max_steps: 100_000, update_weight: PROB_ONE },
    );
    let mut sim = Simulation::new(&snap).unwrap();
    let mut saturated = false;
    for _ in 0..10 {
        match sim.advance() {
            Ok(_) => {}
            Err(Conclusion::Saturate) => {
                saturated = true;
                break;
            }
            Err(_) => panic!("a filling board must saturate"),
        }
    }
    assert!(saturated);
}

#[test]
fn identical_seeds_reproduce_identical_trajectories() {
    let snap = glider_snap();
    let mut a = Simulation::new(&snap).unwrap();
    let mut b = Simulation::new(&snap).unwrap();
    for _ in 0..8 {
        let _ = a.advance();
        let _ = b.advance();
    }
    assert_eq!(alive_set(&a), alive_set(&b));
    assert_eq!(a.random_seed(), b.random_seed());
}

#[test]
fn save_snap_reproduces_the_initial_board() {
    let snap = glider_snap();
    let sim = Simulation::new(&snap).unwrap();
    let saved = sim.save_snap();
    match saved.data {
        Data::Grid(lines) => assert_eq!(lines, glider_lines()),
        Data::Random { .. } => panic!("a saved board is explicit"),
    }
    assert_eq!(saved.rules.kernel, conway_rules().kernel);
    assert_eq!(saved.random_seed, 7);
}

#[test]
fn invalid_limits_are_rejected_before_simulating() {
    let snap = Snap::new(
        Data::Grid(glider_lines()),
        conway_rules(),
        7,
        Limits { max_steps: 10, update_weight: PROB_ONE + 1 },
    );
    match Simulation::new(&snap) {
        Err(seeker::sim::SnapError::InvalidLimits) => {}
        _ => panic!("a smoothing weight above 1 is a fatal configuration defect"),
    }
}

#[test]
fn probabilities_above_one_are_rejected() {
    let mut rules = conway_rules();
    rules.spawn = vec![(3, PROB_ONE + 5)];
    let snap = Snap::new(
        Data::Grid(glider_lines()),
        rules,
        7,
        Limits { max_steps: 10, update_weight: PROB_ONE / 2 },
    );
    match Simulation::new(&snap) {
        Err(seeker::sim::SnapError::InvalidRules) => {}
        _ => panic!("a probability above 1 is invalid"),
    }
}

#[test]
fn parse_errors_surface_through_snap_loading() {
    let mut no_center = glider_snap();
    no_center.rules.kernel = vec!["111".to_string()];
    match Simulation::new(&no_center) {
        Err(SnapError::RulesParse(RulesParseError::MissingKernelCenter)) => {}
        _ => panic!("a centerless kernel is a rules parse error"),
    }

    let mut bad_board = glider_snap();
    bad_board.data = Data::Random { width: 6, height: 8, alive_ratio: PROB_ONE / 2 };
    match Simulation::new(&bad_board) {
        Err(SnapError::DataParse(DataParseError::WrongSize)) => {}
        _ => panic!("an unpackable board width is a data parse error"),
    }
}

#[test]
fn conclusion_labels_name_the_variants() {
    assert_eq!(Conclusion::Extinct.label(), "Extinct");
    assert_eq!(Conclusion::Saturate.label(), "Saturate");
    assert_eq!(Conclusion::Crash.label(), "Crash");
}

#[test]
fn random_boards_respect_the_requested_size() {
    let snap = Snap::new(
        Data::Random { width: 16, height: 8, alive_ratio: PROB_ONE / 4 },
        conway_rules(),
        99,
        Limits { max_steps: 10, update_weight: PROB_ONE / 10 },
    );
    let sim = Simulation::new(&snap).unwrap();
    let size = sim.grid().size();
    assert_eq!((size.x, size.y), (16, 8));
    // the average starts at the requested target ratio
    assert_eq!(sim.stats().alive_ratio_average, PROB_ONE / 4);
}

#[test]
fn smoothing_variance_decays_once_the_average_settles() {
    // a deviation below the floored denominator injects nothing, so the
    // variance strictly shrinks to zero
    let limits = Limits { max_steps: 1000, update_weight: PROB_ONE / 4 };
    let r = PROB_ONE / 2;
    let mut stats = Statistics { alive_ratio_average: r - 3, alive_ratio_variance: 1000 };
    let mut prev = 1000u64;
    while stats.alive_ratio_variance > 0 {
        let _ = stats.update(GridAnalysis { alive_ratio: r }, &limits);
        assert!(stats.alive_ratio_variance < prev);
        prev = stats.alive_ratio_variance;
    }
}
