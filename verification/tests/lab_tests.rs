use seeker::data::Data;
use seeker::fixed::PROB_ONE;
use seeker::lab::{
    fitness, mutate_kernel_digit, mutate_probabilities, mutate_size, Configuration, Laboratory,
    TaskStatus,
};
use seeker::rules::HumanRules;
use seeker::sim::{Conclusion, Limits, Simulation, Snap, Statistics};

fn conway() -> HumanRules {
    HumanRules {
        kernel: vec!["111".to_string(), "1X1".to_string(), "111".to_string()],
        spawn: vec![(3, PROB_ONE)],
        keep: vec![(2, PROB_ONE), (3, PROB_ONE)],
    }
}

fn loadable_snap(seed: u64) -> Snap {
    Snap::new(
        Data::Random { width: 8, height: 8, alive_ratio: PROB_ONE / 4 },
        conway(),
        seed,
        Limits { max_steps: 1000, update_weight: PROB_ONE / 10 },
    )
}

fn config(max_active: usize, max_in_flight: usize) -> Configuration {
    Configuration::new(max_active, max_in_flight, 2, 5, PROB_ONE / 100, 8)
}

/// A statistics record whose Done fitness is exactly `100 - d`.
fn done_with_fitness(template: &Snap, d: u32) -> Conclusion {
    // pick the smallest average with floor(60 * avg / PROB_ONE) == d
    let avg = (d as u64 * PROB_ONE as u64 + 59) / 60;
    Conclusion::Done(
        Statistics { alive_ratio_average: avg as u32, alive_ratio_variance: 0 },
        template.clone(),
    )
}

#[test]
fn fitness_rewards_longevity_and_low_occupancy() {
    assert_eq!(fitness(&Conclusion::Extinct, 0), 0);
    assert_eq!(fitness(&Conclusion::Extinct, 1), 1);
    assert_eq!(fitness(&Conclusion::Extinct, 512), 10);
    assert_eq!(fitness(&Conclusion::Saturate, 1023), 10);
    assert_eq!(fitness(&Conclusion::Crash, 1 << 40), 0);
    let snap = loadable_snap(1);
    assert_eq!(fitness(&done_with_fitness(&snap, 20), 7), 80);
    assert_eq!(fitness(&done_with_fitness(&snap, 0), 7), 100);
}

#[test]
fn update_retains_top_fitness_and_running_experiments() {
    let mut lab = Laboratory::new(config(3, 1), 5);
    let template = loadable_snap(0);
    for seed in 0..5u64 {
        let spawned = lab.add_experiment(loadable_snap(seed), 0);
        assert!(spawned.sim.is_some(), "a valid snapshot must register");
        assert_eq!(spawned.id, seed as usize);
    }
    // conclude the five experiments with fitness 10, 50, 30, 80, 20
    let statuses = vec![
        TaskStatus { experiment_id: 0, step: 512, conclusion: Some(Conclusion::Extinct) },
        TaskStatus { experiment_id: 1, step: 1 << 49, conclusion: Some(Conclusion::Extinct) },
        TaskStatus { experiment_id: 2, step: 1 << 29, conclusion: Some(Conclusion::Extinct) },
        TaskStatus {
            experiment_id: 3,
            step: 977,
            conclusion: Some(done_with_fitness(&template, 20)),
        },
        TaskStatus { experiment_id: 4, step: 1 << 19, conclusion: Some(Conclusion::Extinct) },
    ];
    let outcome = lab.update(statuses);
    // population of 3 with an in-flight target of 1: nothing is bred
    assert!(outcome.spawned.is_none());
    let fits: Vec<usize> = lab.experiments().iter().map(|e| e.fit).collect();
    assert_eq!(fits, vec![80, 50, 30], "exactly the top three survive, in rank order");
    let ids: Vec<usize> = lab.experiments().iter().map(|e| e.id).collect();
    assert_eq!(ids, vec![3, 1, 2]);
}

#[test]
fn update_always_retains_the_best_even_with_no_active_slots() {
    let mut lab = Laboratory::new(config(0, 1), 5);
    let template = loadable_snap(0);
    for seed in 0..3u64 {
        assert!(lab.add_experiment(loadable_snap(seed), 0).sim.is_some());
    }
    let statuses = vec![
        TaskStatus { experiment_id: 0, step: 512, conclusion: Some(Conclusion::Extinct) },
        TaskStatus {
            experiment_id: 1,
            step: 977,
            conclusion: Some(done_with_fitness(&template, 20)),
        },
        TaskStatus { experiment_id: 2, step: 1 << 29, conclusion: Some(Conclusion::Extinct) },
    ];
    let _ = lab.update(statuses);
    let fits: Vec<usize> = lab.experiments().iter().map(|e| e.fit).collect();
    assert_eq!(fits, vec![80], "the best-ranked experiment is always retained");
}

#[test]
fn running_experiments_survive_pruning() {
    let mut lab = Laboratory::new(config(0, 1), 5);
    for seed in 0..3u64 {
        assert!(lab.add_experiment(loadable_snap(seed), 0).sim.is_some());
    }
    // only one concludes; the running two must survive a zero-slot cap
    let statuses = vec![
        TaskStatus { experiment_id: 1, step: 512, conclusion: Some(Conclusion::Extinct) },
    ];
    let _ = lab.update(statuses);
    let mut ids: Vec<usize> = lab.experiments().iter().map(|e| e.id).collect();
    ids.sort();
    assert!(ids.contains(&0) && ids.contains(&2), "running experiments are never dropped");
}

#[test]
fn update_breeds_a_child_when_below_the_in_flight_target() {
    let mut lab = Laboratory::new(config(3, 4), 5);
    assert!(lab.add_experiment(loadable_snap(1), 0).sim.is_some());
    let outcome = lab.update(Vec::new());
    let spawned = outcome.spawned.expect("one experiment, room for more");
    assert_eq!(spawned.parent_id, 0);
    assert_eq!(spawned.id, 1);
    // seed and limits are inherited by the mutated child
    assert_eq!(spawned.snap.random_seed, 1);
    assert_eq!(spawned.snap.limits.max_steps, 1000);
}

#[test]
fn unloadable_candidates_are_discarded_but_numbered() {
    let mut lab = Laboratory::new(config(3, 4), 5);
    let mut bad = loadable_snap(1);
    bad.rules.kernel = vec!["111".to_string()];  // no center marker
    let spawned = lab.add_experiment(bad, 7);
    assert_eq!(spawned.id, 0);
    assert_eq!(spawned.parent_id, 7);
    assert!(spawned.sim.is_none());
    assert_eq!(lab.experiments().len(), 0);
    assert_eq!(lab.iteration(), 1, "the id is consumed all the same");
}

#[test]
fn progress_reports_update_the_recorded_steps() {
    let mut lab = Laboratory::new(config(3, 1), 5);
    assert!(lab.add_experiment(loadable_snap(1), 0).sim.is_some());
    let statuses = vec![TaskStatus { experiment_id: 0, step: 128, conclusion: None }];
    let _ = lab.update(statuses);
    assert_eq!(lab.experiments()[0].steps, 128);
    assert!(lab.experiments()[0].conclusion.is_none());
    assert_eq!(lab.experiments()[0].fit, 0, "a running experiment is unscored");
}

#[test]
fn status_for_a_retired_id_is_a_harmless_no_op() {
    let mut lab = Laboratory::new(config(3, 1), 5);
    assert!(lab.add_experiment(loadable_snap(1), 0).sim.is_some());
    let statuses = vec![
        TaskStatus { experiment_id: 99, step: 100, conclusion: Some(Conclusion::Crash) },
    ];
    let _ = lab.update(statuses);
    assert_eq!(lab.experiments().len(), 1);
    assert_eq!(lab.experiments()[0].steps, 0);
}

#[test]
fn new_best_done_snapshots_are_reported_as_artifacts() {
    let mut lab = Laboratory::new(config(3, 1), 5);
    let template = loadable_snap(0);
    for seed in 0..2u64 {
        assert!(lab.add_experiment(loadable_snap(seed), 0).sim.is_some());
    }
    let statuses = vec![
        TaskStatus {
            experiment_id: 0,
            step: 640,
            conclusion: Some(done_with_fitness(&template, 30)),
        },
        // a second Done that does not beat the first: no artifact
        TaskStatus {
            experiment_id: 1,
            step: 641,
            conclusion: Some(done_with_fitness(&template, 40)),
        },
    ];
    let outcome = lab.update(statuses);
    assert_eq!(outcome.artifacts.len(), 1);
    assert_eq!(outcome.artifacts[0].id, 0);
    assert_eq!(outcome.artifacts[0].step, 640);
}

#[test]
fn perturbation_moves_away_from_exhausted_bounds() {
    let step = PROB_ONE / 10;
    // at zero, stepping left is impossible: it moves right
    let mut t = vec![(2u32, 0u32)];
    mutate_probabilities(&mut t, 2, false, step);
    assert_eq!(t, vec![(2, step)]);
    // at one, stepping right is impossible: it moves left
    let mut t2 = vec![(4u32, PROB_ONE)];
    mutate_probabilities(&mut t2, 4, true, step);
    assert_eq!(t2, vec![(4, PROB_ONE - step)]);
    // in the middle the pick decides
    let mut t3 = vec![(1u32, PROB_ONE / 2)];
    mutate_probabilities(&mut t3, 1, true, step);
    assert_eq!(t3, vec![(1, PROB_ONE / 2 + step)]);
    // an absent key first appears as zero
    let mut t4 = Vec::new();
    mutate_probabilities(&mut t4, 7, false, step);
    assert_eq!(t4, vec![(7, step)]);
}

#[test]
fn kernel_digit_mutation_respects_the_forced_directions() {
    let mut k = vec!["1X1".to_string()];
    mutate_kernel_digit(&mut k, 0, 0, true);
    assert_eq!(k, vec!["2X1".to_string()]);
    let mut k2 = vec!["0X5".to_string()];
    mutate_kernel_digit(&mut k2, 0, 0, false);
    assert_eq!(k2, vec!["1X5".to_string()], "weight 0 can only grow");
    mutate_kernel_digit(&mut k2, 0, 1, true);
    assert_eq!(k2, vec!["1X4".to_string()], "weight 5 can only shrink");
}

#[test]
fn size_mutation_only_touches_random_boards() {
    let mut d = Data::Random { width: 8, height: 8, alive_ratio: PROB_ONE / 4 };
    assert!(mutate_size(&mut d, 4));
    match d {
        Data::Random { width, height, .. } => assert_eq!((width, height), (16, 16)),
        Data::Grid(_) => unreachable!(),
    }
    let mut g = Data::Grid(vec!["00".to_string()]);
    assert!(!mutate_size(&mut g, 4), "an explicit board cannot be resized");
}

#[test]
fn bred_children_still_load_or_are_skipped_cleanly() {
    let mut lab = Laboratory::new(config(4, 8), 11);
    assert!(lab.add_experiment(loadable_snap(3), 0).sim.is_some());
    // several breeding rounds: the population never exceeds the target
    for _ in 0..16 {
        let outcome = lab.update(Vec::new());
        if let Some(sp) = &outcome.spawned {
            if let Some(sim) = &sp.sim {
                // a registered child is a consistent simulation
                let _ = sim.grid().size();
            }
        }
        assert!(lab.experiments().len() <= 8);
    }
}

#[test]
fn loaded_experiment_simulation_matches_its_snapshot() {
    let mut lab = Laboratory::new(config(3, 4), 5);
    let spawned = lab.add_experiment(loadable_snap(21), 0);
    let sim = spawned.sim.expect("valid snapshot");
    assert_eq!(sim.random_seed(), 21);
    assert_eq!(sim.last_step(), 0);
    let size = sim.grid().size();
    assert_eq!((size.x, size.y), (8, 8));
    // the registered copy carries the same snapshot content
    assert_eq!(spawned.snap.random_seed, 21);
    match Simulation::new(&spawned.snap) {
        Ok(_) => {}
        Err(_) => panic!("the reported snapshot copy loads as well"),
    }
}
