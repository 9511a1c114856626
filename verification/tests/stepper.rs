use kynex::body::Mobility;
use kynex::pipeline::{Action, Outcome};
use kynex::stepper::Stepper;

const DYNAMIC: Mobility = Mobility { is_static: false, infinite_mass: false };
const FIXED: Mobility = Mobility { is_static: true, infinite_mass: true };
const INERT: Mobility = Mobility { is_static: false, infinite_mass: true };

/// Drives a stepper to the end, reporting a contact for the pairs in `hits`.
fn run(bodies: Vec<Mobility>, iterations: u32, hits: &[(usize, usize)]) -> Vec<Action> {
    let mut stepper = Stepper::new(bodies, iterations);
    let mut trace = Vec::new();
    let mut outcome = Outcome::Applied;
    loop {
        let action = stepper.next(outcome);
        outcome = match action {
            Action::Narrowphase { a, b } => {
                if hits.contains(&(a, b)) {
                    Outcome::Contact
                } else {
                    Outcome::Clear
                }
            }
            Action::Finished => break,
            _ => Outcome::Applied,
        };
        trace.push(action);
        assert!(trace.len() < 10_000);
    }
    trace
}

#[test]
fn empty_world_finishes_at_once() {
    let mut stepper = Stepper::new(Vec::new(), 12);
    assert_eq!(stepper.next(Outcome::Applied), Action::Finished);
    assert_eq!(stepper.next(Outcome::Applied), Action::Finished);
}

#[test]
fn finished_is_repeated_after_the_end() {
    let mut stepper = Stepper::new(vec![DYNAMIC], 3);
    assert_eq!(stepper.next(Outcome::Applied), Action::IntegrateForces { body: 0 });
    assert_eq!(stepper.next(Outcome::Applied), Action::IntegratePosition { body: 0 });
    assert_eq!(stepper.next(Outcome::Applied), Action::Finished);
    assert_eq!(stepper.next(Outcome::Contact), Action::Finished);
    assert_eq!(stepper.next(Outcome::Clear), Action::Finished);
}

#[test]
fn single_dynamic_body_is_integrated_twice() {
    assert_eq!(
        run(vec![DYNAMIC], 12, &[]),
        vec![
            Action::IntegrateForces { body: 0 },
            Action::IntegratePosition { body: 0 },
        ]
    );
}

#[test]
fn single_static_body_gets_no_action() {
    assert_eq!(run(vec![FIXED], 12, &[]), Vec::<Action>::new());
}

#[test]
fn static_body_with_a_mass_set_afterwards_is_still_left_out() {
    let tampered = Mobility { is_static: true, infinite_mass: false };
    let trace = run(vec![tampered, DYNAMIC], 4, &[(0, 1)]);
    for action in &trace {
        assert_ne!(*action, Action::IntegrateForces { body: 0 });
        assert_ne!(*action, Action::IntegratePosition { body: 0 });
    }
    assert!(trace.contains(&Action::IntegrateForces { body: 1 }));
    assert!(trace.contains(&Action::IntegratePosition { body: 1 }));
}

#[test]
fn body_of_infinite_mass_takes_no_forces_but_is_moved() {
    assert_eq!(
        run(vec![INERT], 1, &[]),
        vec![Action::IntegratePosition { body: 0 }]
    );
}

#[test]
fn two_static_bodies_are_never_tested_against_each_other() {
    let trace = run(vec![FIXED, DYNAMIC, FIXED], 1, &[]);
    assert_eq!(
        trace,
        vec![
            Action::IntegrateForces { body: 1 },
            Action::Narrowphase { a: 0, b: 1 },
            Action::Narrowphase { a: 1, b: 2 },
            Action::IntegratePosition { body: 1 },
        ]
    );
}

#[test]
fn pairs_come_by_first_body_then_second() {
    let trace = run(vec![DYNAMIC, DYNAMIC, DYNAMIC, DYNAMIC], 0, &[]);
    let pairs: Vec<(usize, usize)> = trace
        .iter()
        .filter_map(|action| match action {
            Action::Narrowphase { a, b } => Some((*a, *b)),
            _ => None,
        })
        .collect();
    assert_eq!(pairs, vec![(0, 1), (0, 2), (0, 3), (1, 2), (1, 3), (2, 3)]);
}

#[test]
fn a_contact_is_solved_in_every_round_and_corrected_once() {
    assert_eq!(
        run(vec![FIXED, DYNAMIC], 3, &[(0, 1)]),
        vec![
            Action::IntegrateForces { body: 1 },
            Action::Narrowphase { a: 0, b: 1 },
            Action::SolveContact { contact: 0, a: 0, b: 1 },
            Action::SolveContact { contact: 0, a: 0, b: 1 },
            Action::SolveContact { contact: 0, a: 0, b: 1 },
            Action::IntegratePosition { body: 1 },
            Action::CorrectPosition { contact: 0, a: 0, b: 1, move_a: false, move_b: true },
        ]
    );
}

#[test]
fn every_round_visits_the_contacts_in_the_order_found() {
    let trace = run(vec![DYNAMIC, DYNAMIC, DYNAMIC], 2, &[(0, 2), (1, 2)]);
    assert_eq!(
        trace,
        vec![
            Action::IntegrateForces { body: 0 },
            Action::IntegrateForces { body: 1 },
            Action::IntegrateForces { body: 2 },
            Action::Narrowphase { a: 0, b: 1 },
            Action::Narrowphase { a: 0, b: 2 },
            Action::Narrowphase { a: 1, b: 2 },
            Action::SolveContact { contact: 0, a: 0, b: 2 },
            Action::SolveContact { contact: 1, a: 1, b: 2 },
            Action::SolveContact { contact: 0, a: 0, b: 2 },
            Action::SolveContact { contact: 1, a: 1, b: 2 },
            Action::IntegratePosition { body: 0 },
            Action::IntegratePosition { body: 1 },
            Action::IntegratePosition { body: 2 },
            Action::CorrectPosition { contact: 0, a: 0, b: 2, move_a: true, move_b: true },
            Action::CorrectPosition { contact: 1, a: 1, b: 2, move_a: true, move_b: true },
        ]
    );
}

#[test]
fn zero_iterations_skip_the_solver_but_not_the_correction() {
    assert_eq!(
        run(vec![DYNAMIC, DYNAMIC], 0, &[(0, 1)]),
        vec![
            Action::IntegrateForces { body: 0 },
            Action::IntegrateForces { body: 1 },
            Action::Narrowphase { a: 0, b: 1 },
            Action::IntegratePosition { body: 0 },
            Action::IntegratePosition { body: 1 },
            Action::CorrectPosition { contact: 0, a: 0, b: 1, move_a: true, move_b: true },
        ]
    );
}

#[test]
fn no_contact_means_no_solver_and_no_correction() {
    let trace = run(vec![DYNAMIC, DYNAMIC], 12, &[]);
    assert_eq!(
        trace,
        vec![
            Action::IntegrateForces { body: 0 },
            Action::IntegrateForces { body: 1 },
            Action::Narrowphase { a: 0, b: 1 },
            Action::IntegratePosition { body: 0 },
            Action::IntegratePosition { body: 1 },
        ]
    );
}

#[test]
fn an_outcome_is_ignored_when_no_test_is_awaited() {
    let mut stepper = Stepper::new(vec![DYNAMIC, DYNAMIC], 1);
    assert_eq!(stepper.next(Outcome::Contact), Action::IntegrateForces { body: 0 });
    assert_eq!(stepper.next(Outcome::Contact), Action::IntegrateForces { body: 1 });
    assert_eq!(stepper.next(Outcome::Contact), Action::Narrowphase { a: 0, b: 1 });
    assert_eq!(stepper.next(Outcome::Clear), Action::IntegratePosition { body: 0 });
    assert_eq!(stepper.next(Outcome::Contact), Action::IntegratePosition { body: 1 });
    assert_eq!(stepper.next(Outcome::Contact), Action::Finished);
}

#[test]
fn applied_after_a_test_counts_as_no_contact() {
    let mut stepper = Stepper::new(vec![DYNAMIC, DYNAMIC], 1);
    assert_eq!(stepper.next(Outcome::Applied), Action::IntegrateForces { body: 0 });
    assert_eq!(stepper.next(Outcome::Applied), Action::IntegrateForces { body: 1 });
    assert_eq!(stepper.next(Outcome::Applied), Action::Narrowphase { a: 0, b: 1 });
    assert_eq!(stepper.next(Outcome::Applied), Action::IntegratePosition { body: 0 });
}

#[test]
fn correction_moves_only_the_bodies_that_are_not_static() {
    let trace = run(vec![DYNAMIC, FIXED, INERT], 1, &[(0, 1), (1, 2), (0, 2)]);
    let corrections: Vec<Action> = trace
        .into_iter()
        .filter(|action| matches!(action, Action::CorrectPosition { .. }))
        .collect();
    assert_eq!(
        corrections,
        vec![
            Action::CorrectPosition { contact: 0, a: 0, b: 1, move_a: true, move_b: false },
            Action::CorrectPosition { contact: 1, a: 0, b: 2, move_a: true, move_b: true },
            Action::CorrectPosition { contact: 2, a: 1, b: 2, move_a: false, move_b: true },
        ]
    );
}

#[test]
fn contact_actions_name_two_different_bodies_in_range() {
    let bodies = vec![FIXED, DYNAMIC, DYNAMIC, INERT, FIXED];
    let hits = [(0, 1), (1, 2), (2, 4), (3, 4)];
    for action in run(bodies, 5, &hits) {
        match action {
            Action::SolveContact { contact, a, b }
            | Action::CorrectPosition { contact, a, b, .. } => {
                assert!(contact < hits.len());
                assert_eq!(hits[contact], (a, b));
                assert!(a < b && b < 5);
            }
            _ => {}
        }
    }
}

#[test]
fn floor_and_five_circles_with_twelve_rounds() {
    let mut bodies = vec![FIXED];
    for _ in 0..5 {
        bodies.push(DYNAMIC);
    }
    bodies.push(FIXED);
    let hits = [(0, 1), (1, 2), (1, 6)];
    let trace = run(bodies, 12, &hits);
    let forces = trace.iter().filter(|a| matches!(a, Action::IntegrateForces { .. })).count();
    let tests = trace.iter().filter(|a| matches!(a, Action::Narrowphase { .. })).count();
    let solves = trace.iter().filter(|a| matches!(a, Action::SolveContact { .. })).count();
    let moves = trace.iter().filter(|a| matches!(a, Action::IntegratePosition { .. })).count();
    let fixes = trace.iter().filter(|a| matches!(a, Action::CorrectPosition { .. })).count();
    assert_eq!(forces, 5);
    assert_eq!(tests, 7 * 6 / 2 - 1);
    assert_eq!(solves, 12 * 3);
    assert_eq!(moves, 5);
    assert_eq!(fixes, 3);
    assert_eq!(trace.len(), 5 + 20 + 36 + 5 + 3);
}

#[test]
fn phases_never_interleave() {
    let trace = run(vec![DYNAMIC, FIXED, DYNAMIC], 2, &[(0, 1), (0, 2)]);
    let rank = |action: &Action| match action {
        Action::IntegrateForces { .. } => 0,
        Action::Narrowphase { .. } => 1,
        Action::SolveContact { .. } => 2,
        Action::IntegratePosition { .. } => 3,
        Action::CorrectPosition { .. } => 4,
        Action::Finished => 5,
    };
    for pair in trace.windows(2) {
        assert!(rank(&pair[0]) <= rank(&pair[1]));
    }
}

#[test]
fn longest_step_has_every_candidate_pair_in_contact() {
    let bodies = vec![DYNAMIC, DYNAMIC, FIXED, FIXED];
    let all = [(0, 1), (0, 2), (0, 3), (1, 2), (1, 3)];
    let longest = run(bodies.clone(), 3, &all).len();
    assert_eq!(longest, 2 + 5 + 3 * 5 + 2 + 5);
    assert!(run(bodies.clone(), 3, &[]).len() <= longest);
    assert!(run(bodies, 3, &[(0, 3)]).len() <= longest);
}

#[test]
fn contacts_grow_only_when_a_pair_is_reported_in_contact() {
    let mut stepper = Stepper::new(vec![DYNAMIC, DYNAMIC, DYNAMIC], 1);
    assert!(stepper.contacts().is_empty());
    for _ in 0..3 {
        stepper.next(Outcome::Applied);
    }
    assert_eq!(stepper.next(Outcome::Applied), Action::Narrowphase { a: 0, b: 1 });
    assert!(stepper.contacts().is_empty());
    assert_eq!(stepper.next(Outcome::Clear), Action::Narrowphase { a: 0, b: 2 });
    assert!(stepper.contacts().is_empty());
    assert_eq!(stepper.next(Outcome::Contact), Action::Narrowphase { a: 1, b: 2 });
    assert_eq!(stepper.contacts(), &vec![(0, 2)]);
    assert_eq!(stepper.next(Outcome::Contact), Action::SolveContact { contact: 0, a: 0, b: 2 });
    assert_eq!(stepper.contacts(), &vec![(0, 2), (1, 2)]);
    assert_eq!(stepper.next(Outcome::Contact), Action::SolveContact { contact: 1, a: 1, b: 2 });
    assert_eq!(stepper.contacts(), &vec![(0, 2), (1, 2)]);
}

#[test]
fn a_world_starts_with_twelve_solver_rounds() {
    assert_eq!(kynex::pipeline::DEFAULT_ITERATIONS, 12);
    let trace = run(vec![DYNAMIC, DYNAMIC], kynex::pipeline::DEFAULT_ITERATIONS, &[(0, 1)]);
    let solves = trace.iter().filter(|a| matches!(a, Action::SolveContact { .. })).count();
    assert_eq!(solves, 12);
}

/// The actions of a step written as five plain loops.
fn by_loops(bodies: &[Mobility], iterations: u32, hits: &[(usize, usize)]) -> Vec<Action> {
    let n = bodies.len();
    let mut trace = Vec::new();
    for (body, flags) in bodies.iter().enumerate() {
        if flags.is_static || flags.infinite_mass {
            continue;
        }
        trace.push(Action::IntegrateForces { body });
    }
    let mut contacts = Vec::new();
    for a in 0..n {
        for b in (a + 1)..n {
            if bodies[a].is_static && bodies[b].is_static {
                continue;
            }
            trace.push(Action::Narrowphase { a, b });
            if hits.contains(&(a, b)) {
                contacts.push((a, b));
            }
        }
    }
    for _ in 0..iterations {
        for (contact, &(a, b)) in contacts.iter().enumerate() {
            trace.push(Action::SolveContact { contact, a, b });
        }
    }
    for (body, flags) in bodies.iter().enumerate() {
        if flags.is_static {
            continue;
        }
        trace.push(Action::IntegratePosition { body });
    }
    for (contact, &(a, b)) in contacts.iter().enumerate() {
        trace.push(Action::CorrectPosition {
            contact,
            a,
            b,
            move_a: !bodies[a].is_static,
            move_b: !bodies[b].is_static,
        });
    }
    trace
}

#[test]
fn every_small_world_is_stepped_as_by_five_loops() {
    let kinds = [
        DYNAMIC,
        FIXED,
        INERT,
        Mobility { is_static: true, infinite_mass: false },
    ];
    let mut worlds = 0;
    for n in 0..=4usize {
        let mut pairs = Vec::new();
        for a in 0..n {
            for b in (a + 1)..n {
                pairs.push((a, b));
            }
        }
        for code in 0..kinds.len().pow(n as u32) {
            let mut bodies = Vec::new();
            let mut rest = code;
            for _ in 0..n {
                bodies.push(kinds[rest % kinds.len()]);
                rest /= kinds.len();
            }
            for mask in 0..(1usize << pairs.len()) {
                let hits: Vec<(usize, usize)> = pairs
                    .iter()
                    .enumerate()
                    .filter(|(bit, _)| mask & (1 << bit) != 0)
                    .map(|(_, pair)| *pair)
                    .collect();
                for iterations in [0u32, 1, 3] {
                    assert_eq!(
                        run(bodies.clone(), iterations, &hits),
                        by_loops(&bodies, iterations, &hits)
                    );
                    worlds += 1;
                }
            }
        }
    }
    assert_eq!(worlds, 3 * (1 + 4 + 16 * 2 + 64 * 8 + 256 * 64));
}
