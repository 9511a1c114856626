use vstd::prelude::*;
use crate::body::Mobility;

verus! {

/// The number of solver rounds per step that a world starts with.
pub const DEFAULT_ITERATIONS: u32 = 12;

/// One unit of numeric work that a step asks of its caller.
#[derive(Clone, Copy, Debug, PartialEq, Eq)]
pub enum Action {
    /// Update the velocities of `body` from its accumulated force and
    /// torque and from gravity, then clear the accumulators.
    IntegrateForces { body: usize },
    /// Test bodies `a` and `b` for overlap and report the outcome.
    Narrowphase { a: usize, b: usize },
    /// Run contact resolution on the contact with index `contact`, which
    /// lies between bodies `a` and `b`.
    SolveContact { contact: usize, a: usize, b: usize },
    /// Advance the pose of `body` by its velocities.
    IntegratePosition { body: usize },
    /// Apply positional correction for the contact with index `contact`
    /// between bodies `a` and `b`; only a body whose flag is set is moved.
    CorrectPosition { contact: usize, a: usize, b: usize, move_a: bool, move_b: bool },
    /// The step is complete.
    Finished,
}

/// What the caller reports back after performing an action.
#[derive(Clone, Copy, Debug, PartialEq, Eq)]
pub enum Outcome {
    /// The action was carried out and has nothing to report.
    Applied,
    /// The narrowphase test found the two bodies overlapping.
    Contact,
    /// The narrowphase test found no overlap.
    Clear,
}

/// The force-integration actions for the first `upto` bodies: one for each
/// body that takes forces, by ascending index.
pub open spec fn force_pass(bodies: Seq<Mobility>, upto: int) -> Seq<Action>
    decreases upto,
{
    if upto <= 0 {
        Seq::empty()
    } else {
        let before = force_pass(bodies, upto - 1);
        if bodies[upto - 1].takes_forces() {
            before.push(Action::IntegrateForces { body: (upto - 1) as usize })
        } else {
            before
        }
    }
}

/// Whether the broadphase hands the pair `(a, b)` to the narrowphase: `a`
/// comes before `b`, and the two are not both static.
pub open spec fn candidate(bodies: Seq<Mobility>, a: int, b: int) -> bool {
    &&& 0 <= a < b < bodies.len()
    &&& !(bodies[a].is_static && bodies[b].is_static)
}

/// The narrowphase actions that pair body `a` with the bodies after it and
/// before `upto`, by ascending index of the second body.
pub open spec fn detect_row(bodies: Seq<Mobility>, a: int, upto: int) -> Seq<Action>
    decreases upto - a,
{
    if upto <= a + 1 {
        Seq::empty()
    } else {
        let before = detect_row(bodies, a, upto - 1);
        if candidate(bodies, a, upto - 1) {
            before.push(Action::Narrowphase { a: a as usize, b: (upto - 1) as usize })
        } else {
            before
        }
    }
}

/// The narrowphase actions whose first body is among the first `upto`
/// bodies: every candidate pair once, ordered by first body, then by second.
pub open spec fn detect_pass(bodies: Seq<Mobility>, upto: int) -> Seq<Action>
    decreases upto,
{
    if upto <= 0 {
        Seq::empty()
    } else {
        detect_pass(bodies, upto - 1) + detect_row(bodies, upto - 1, bodies.len() as int)
    }
}

/// One solver iteration: contact resolution on every contact, in the order
/// in which the contacts were found.
pub open spec fn solve_round(contacts: Seq<(usize, usize)>) -> Seq<Action> {
    Seq::new(
        contacts.len(),
        |k: int| Action::SolveContact { contact: k as usize, a: contacts[k].0, b: contacts[k].1 },
    )
}

/// `rounds` solver iterations, one after the other.
pub open spec fn solve_pass(contacts: Seq<(usize, usize)>, rounds: nat) -> Seq<Action>
    decreases rounds,
{
    if rounds == 0 {
        Seq::empty()
    } else {
        solve_pass(contacts, (rounds - 1) as nat) + solve_round(contacts)
    }
}

/// The position-integration actions for the first `upto` bodies: one for
/// each body that is not static, by ascending index.
pub open spec fn position_pass(bodies: Seq<Mobility>, upto: int) -> Seq<Action>
    decreases upto,
{
    if upto <= 0 {
        Seq::empty()
    } else {
        let before = position_pass(bodies, upto - 1);
        if bodies[upto - 1].moves() {
            before.push(Action::IntegratePosition { body: (upto - 1) as usize })
        } else {
            before
        }
    }
}

/// Positional correction on every contact, in the order in which the
/// contacts were found. A body is moved only if it is not static.
pub open spec fn correct_pass(bodies: Seq<Mobility>, contacts: Seq<(usize, usize)>) -> Seq<Action> {
    Seq::new(
        contacts.len(),
        |k: int|
            Action::CorrectPosition {
                contact: k as usize,
                a: contacts[k].0,
                b: contacts[k].1,
                move_a: bodies[contacts[k].0 as int].moves(),
                move_b: bodies[contacts[k].1 as int].moves(),
            },
    )
}

/// Everything one step does, in order: force integration, collision
/// detection, `iterations` solver rounds over the contacts found, position
/// integration, and positional correction over the same contacts.
pub open spec fn plan(bodies: Seq<Mobility>, contacts: Seq<(usize, usize)>, iterations: nat) -> Seq<
    Action,
> {
    force_pass(bodies, bodies.len() as int) + detect_pass(bodies, bodies.len() as int) + solve_pass(
        contacts,
        iterations,
    ) + position_pass(bodies, bodies.len() as int) + correct_pass(bodies, contacts)
}

/// The entry of a plan at position `at`, and `Finished` past its end.
pub open spec fn action_at(actions: Seq<Action>, at: nat) -> Action {
    if at < actions.len() {
        actions[at as int]
    } else {
        Action::Finished
    }
}

/// Every contact joins two different bodies of a collection of `n`, the
/// one with the smaller index first.
pub open spec fn contacts_in_range(contacts: Seq<(usize, usize)>, n: nat) -> bool {
    forall|k: int| 0 <= k < contacts.len() ==> (#[trigger] contacts[k]).0 < contacts[k].1 < n
}

/// What holds of an action that a step may ask for: its indices are in
/// range, a contact action names the bodies of its contact, and no static
/// body is integrated or moved. `Finished` asks for nothing and is no such
/// action.
pub open spec fn admissible(bodies: Seq<Mobility>, contacts: Seq<(usize, usize)>, action: Action) -> bool {
    match action {
        Action::IntegrateForces { body } => body < bodies.len() && bodies[body as int].takes_forces(),
        Action::Narrowphase { a, b } => candidate(bodies, a as int, b as int),
        Action::SolveContact { contact, a, b } => {
            &&& contact < contacts.len()
            &&& contacts[contact as int] == (a, b)
            &&& a < b < bodies.len()
        },
        Action::IntegratePosition { body } => body < bodies.len() && bodies[body as int].moves(),
        Action::CorrectPosition { contact, a, b, move_a, move_b } => {
            &&& contact < contacts.len()
            &&& contacts[contact as int] == (a, b)
            &&& a < b < bodies.len()
            &&& move_a == !bodies[a as int].is_static
            &&& move_b == !bodies[b as int].is_static
        },
        Action::Finished => false,
    }
}

/// The longest plan that a step over `bodies` can have: the one in which
/// every candidate pair is in contact.
pub open spec fn longest_plan(bodies: Seq<Mobility>, iterations: nat) -> nat {
    let pairs = detect_pass(bodies, bodies.len() as int).len();
    force_pass(bodies, bodies.len() as int).len() + pairs + iterations * pairs + position_pass(
        bodies,
        bodies.len() as int,
    ).len() + pairs
}

/// The force pass names exactly the bodies that take forces, each once, by
/// ascending index.
pub proof fn lemma_force_pass_exact(bodies: Seq<Mobility>, upto: int)
    requires
        0 <= upto <= bodies.len() <= usize::MAX,
    ensures
        forall|k: int|
            0 <= k < force_pass(bodies, upto).len() ==> (#[trigger] force_pass(bodies, upto)[k]
                matches Action::IntegrateForces { body } && body < upto
                && bodies[body as int].takes_forces()),
        forall|p: int, q: int|
            0 <= p < q < force_pass(bodies, upto).len() ==> (#[trigger] force_pass(
                bodies,
                upto,
            )[p])->IntegrateForces_body < (#[trigger] force_pass(bodies, upto)[q])->IntegrateForces_body,
        forall|body: int|
            #![trigger bodies[body]]
            0 <= body < upto && bodies[body].takes_forces() ==> force_pass(bodies, upto).contains(
                Action::IntegrateForces { body: body as usize },
            ),
    decreases upto,
{
    if upto > 0 {
        lemma_force_pass_exact(bodies, upto - 1);
        let before = force_pass(bodies, upto - 1);
        let pass = force_pass(bodies, upto);
        assert forall|body: int|
            #![trigger bodies[body]]
            0 <= body < upto && bodies[body].takes_forces() implies pass.contains(
            Action::IntegrateForces { body: body as usize },
        ) by {
            let wanted = Action::IntegrateForces { body: body as usize };
            if body < upto - 1 {
                let k = choose|k: int| 0 <= k < before.len() && before[k] == wanted;
                assert(pass[k] == wanted);
            } else {
                assert(pass[before.len() as int] == wanted);
            }
        }
    }
}

/// The position pass names exactly the bodies that are not static, each
/// once, by ascending index.
pub proof fn lemma_position_pass_exact(bodies: Seq<Mobility>, upto: int)
    requires
        0 <= upto <= bodies.len() <= usize::MAX,
    ensures
        forall|k: int|
            0 <= k < position_pass(bodies, upto).len() ==> (#[trigger] position_pass(bodies, upto)[k]
                matches Action::IntegratePosition { body } && body < upto
                && !bodies[body as int].is_static),
        forall|p: int, q: int|
            0 <= p < q < position_pass(bodies, upto).len() ==> (#[trigger] position_pass(
                bodies,
                upto,
            )[p])->IntegratePosition_body < (#[trigger] position_pass(
                bodies,
                upto,
            )[q])->IntegratePosition_body,
        forall|body: int|
            #![trigger bodies[body]]
            0 <= body < upto && !bodies[body].is_static ==> position_pass(bodies, upto).contains(
                Action::IntegratePosition { body: body as usize },
            ),
    decreases upto,
{
    if upto > 0 {
        lemma_position_pass_exact(bodies, upto - 1);
        let before = position_pass(bodies, upto - 1);
        let pass = position_pass(bodies, upto);
        assert forall|body: int|
            #![trigger bodies[body]]
            0 <= body < upto && !bodies[body].is_static implies pass.contains(
            Action::IntegratePosition { body: body as usize },
        ) by {
            let wanted = Action::IntegratePosition { body: body as usize };
            if body < upto - 1 {
                let k = choose|k: int| 0 <= k < before.len() && before[k] == wanted;
                assert(pass[k] == wanted);
            } else {
                assert(pass[before.len() as int] == wanted);
            }
        }
    }
}

/// The order in which the broadphase visits pairs: by first body, then by
/// second.
pub open spec fn pair_before(p: (usize, usize), q: (usize, usize)) -> bool {
    p.0 < q.0 || (p.0 == q.0 && p.1 < q.1)
}

/// The contacts are candidate pairs of `bodies`, no pair twice, in the
/// order in which the broadphase visits pairs.
pub open spec fn detected(bodies: Seq<Mobility>, contacts: Seq<(usize, usize)>) -> bool {
    &&& forall|k: int|
        0 <= k < contacts.len() ==> candidate(
            bodies,
            (#[trigger] contacts[k]).0 as int,
            contacts[k].1 as int,
        )
    &&& forall|p: int, q: int|
        0 <= p < q < contacts.len() ==> pair_before(#[trigger] contacts[p], #[trigger] contacts[q])
}

proof fn lemma_detect_row_exact(bodies: Seq<Mobility>, a: int, upto: int)
    requires
        0 <= a,
        upto <= bodies.len() <= usize::MAX,
    ensures
        forall|k: int|
            0 <= k < detect_row(bodies, a, upto).len() ==> (#[trigger] detect_row(bodies, a, upto)[k]
                matches Action::Narrowphase { a: x, b: y } && x == a && y < upto && candidate(
                bodies,
                a,
                y as int,
            )),
        forall|p: int, q: int|
            0 <= p < q < detect_row(bodies, a, upto).len() ==> (#[trigger] detect_row(
                bodies,
                a,
                upto,
            )[p])->Narrowphase_b < (#[trigger] detect_row(bodies, a, upto)[q])->Narrowphase_b,
        forall|b: int|
            b < upto && #[trigger] candidate(bodies, a, b) ==> detect_row(bodies, a, upto).contains(
                Action::Narrowphase { a: a as usize, b: b as usize },
            ),
    decreases upto - a,
{
    if upto > a + 1 {
        lemma_detect_row_exact(bodies, a, upto - 1);
        let before = detect_row(bodies, a, upto - 1);
        let row = detect_row(bodies, a, upto);
        assert forall|b: int| b < upto && #[trigger] candidate(bodies, a, b) implies row.contains(
            Action::Narrowphase { a: a as usize, b: b as usize },
        ) by {
            let wanted = Action::Narrowphase { a: a as usize, b: b as usize };
            if b < upto - 1 {
                let k = choose|k: int| 0 <= k < before.len() && before[k] == wanted;
                assert(row[k] == wanted);
            } else {
                assert(row[before.len() as int] == wanted);
            }
        }
    }
}

/// The detection pass tests exactly the candidate pairs, each once, ordered
/// by first body and then by second.
pub proof fn lemma_detect_pass_exact(bodies: Seq<Mobility>, upto: int)
    requires
        0 <= upto <= bodies.len() <= usize::MAX,
    ensures
        forall|k: int|
            0 <= k < detect_pass(bodies, upto).len() ==> (#[trigger] detect_pass(bodies, upto)[k]
                matches Action::Narrowphase { a, b } && a < upto && candidate(
                bodies,
                a as int,
                b as int,
            )),
        forall|p: int, q: int|
            0 <= p < q < detect_pass(bodies, upto).len() ==> pair_before(
                (
                    (#[trigger] detect_pass(bodies, upto)[p])->Narrowphase_a,
                    detect_pass(bodies, upto)[p]->Narrowphase_b,
                ),
                (
                    (#[trigger] detect_pass(bodies, upto)[q])->Narrowphase_a,
                    detect_pass(bodies, upto)[q]->Narrowphase_b,
                ),
            ),
        forall|a: int, b: int|
            a < upto && #[trigger] candidate(bodies, a, b) ==> detect_pass(bodies, upto).contains(
                Action::Narrowphase { a: a as usize, b: b as usize },
            ),
    decreases upto,
{
    if upto > 0 {
        let n = bodies.len() as int;
        lemma_detect_pass_exact(bodies, upto - 1);
        lemma_detect_row_exact(bodies, upto - 1, n);
        let before = detect_pass(bodies, upto - 1);
        let row = detect_row(bodies, upto - 1, n);
        let pass = detect_pass(bodies, upto);
        assert forall|k: int| 0 <= k < pass.len() implies (#[trigger] pass[k] matches Action::Narrowphase {
            a,
            b,
        } && a < upto && candidate(bodies, a as int, b as int)) by {
            if k >= before.len() {
                assert(pass[k] == row[k - before.len()]);
            }
        }
        assert forall|p: int, q: int| 0 <= p < q < pass.len() implies pair_before(
            ((#[trigger] pass[p])->Narrowphase_a, pass[p]->Narrowphase_b),
            ((#[trigger] pass[q])->Narrowphase_a, pass[q]->Narrowphase_b),
        ) by {
            if p >= before.len() {
                assert(pass[p] == row[p - before.len()]);
            }
            if q >= before.len() {
                assert(pass[q] == row[q - before.len()]);
            }
        }
        assert forall|a: int, b: int| a < upto && #[trigger] candidate(bodies, a, b) implies pass.contains(
            Action::Narrowphase { a: a as usize, b: b as usize },
        ) by {
            let wanted = Action::Narrowphase { a: a as usize, b: b as usize };
            if a < upto - 1 {
                let k = choose|k: int| 0 <= k < before.len() && before[k] == wanted;
                assert(pass[k] == wanted);
            } else {
                let k = choose|k: int| 0 <= k < row.len() && row[k] == wanted;
                assert(pass[before.len() + k] == wanted);
            }
        }
    }
}

/// The position in the solve pass of the resolution of contact `contact`
/// in round `round`, where every round holds `per_round` contacts.
pub open spec fn solve_slot(round: int, contact: int, per_round: int) -> int {
    round * per_round + contact
}

/// The solve pass runs `rounds` rounds of equal length, and every round
/// resolves every contact, in the order of the contacts.
pub proof fn lemma_solve_pass_exact(contacts: Seq<(usize, usize)>, rounds: nat)
    ensures
        solve_pass(contacts, rounds).len() == rounds * contacts.len(),
        forall|round: int, k: int|
            0 <= round < rounds && 0 <= k < contacts.len() ==> {
                &&& 0 <= #[trigger] solve_slot(round, k, contacts.len() as int) < solve_pass(
                    contacts,
                    rounds,
                ).len()
                &&& solve_pass(contacts, rounds)[solve_slot(round, k, contacts.len() as int)] == (
                Action::SolveContact { contact: k as usize, a: contacts[k].0, b: contacts[k].1 })
            },
    decreases rounds,
{
    let m = contacts.len() as int;
    if rounds > 0 {
        let earlier = (rounds - 1) as nat;
        lemma_solve_pass_exact(contacts, earlier);
        let before = solve_pass(contacts, earlier);
        let pass = solve_pass(contacts, rounds);
        assert(rounds * m == earlier * m + m) by (nonlinear_arith)
            requires
                rounds == earlier + 1,
        ;
        assert forall|round: int, k: int| 0 <= round < rounds && 0 <= k < m implies {
            &&& 0 <= #[trigger] solve_slot(round, k, m) < pass.len()
            &&& pass[solve_slot(round, k, m)] == (Action::SolveContact {
                contact: k as usize,
                a: contacts[k].0,
                b: contacts[k].1,
            })
        } by {
            if round < earlier {
                assert(0 <= solve_slot(round, k, m) < before.len());
                assert(pass[solve_slot(round, k, m)] == before[solve_slot(round, k, m)]);
            } else {
                assert(solve_slot(round, k, m) == before.len() + k);
                assert(pass[before.len() + k] == solve_round(contacts)[k]);
            }
        }
    } else {
        assert(rounds * m == 0) by (nonlinear_arith)
            requires
                rounds == 0,
        ;
    }
}

proof fn lemma_solve_pass_entries(contacts: Seq<(usize, usize)>, rounds: nat)
    requires
        contacts.len() <= usize::MAX,
    ensures
        forall|at: int|
            0 <= at < solve_pass(contacts, rounds).len() ==> (#[trigger] solve_pass(contacts, rounds)[at]
                matches Action::SolveContact { contact, a, b } && contact < contacts.len()
                && contacts[contact as int] == (a, b)),
    decreases rounds,
{
    if rounds > 0 {
        lemma_solve_pass_entries(contacts, (rounds - 1) as nat);
        let before = solve_pass(contacts, (rounds - 1) as nat);
        let pass = solve_pass(contacts, rounds);
        assert forall|at: int| 0 <= at < pass.len() implies (#[trigger] pass[at] matches Action::SolveContact {
            contact,
            a,
            b,
        } && contact < contacts.len() && contacts[contact as int] == (a, b)) by {
            if at >= before.len() {
                assert(pass[at] == solve_round(contacts)[at - before.len()]);
            }
        }
    }
}

/// The integration actions of a plan name only bodies that the phase
/// applies to, and every other entry is of the kind that its phase hands out.
spec fn integrates_rightly(bodies: Seq<Mobility>, action: Action) -> bool {
    match action {
        Action::IntegrateForces { body } => body < bodies.len() && bodies[body as int].takes_forces(),
        Action::IntegratePosition { body } => body < bodies.len() && bodies[body as int].moves(),
        _ => true,
    }
}

proof fn lemma_plan_integrates_rightly(
    bodies: Seq<Mobility>,
    contacts: Seq<(usize, usize)>,
    iterations: nat,
)
    requires
        bodies.len() <= usize::MAX,
        contacts.len() <= usize::MAX,
    ensures
        forall|at: int|
            0 <= at < plan(bodies, contacts, iterations).len() ==> integrates_rightly(
                bodies,
                #[trigger] plan(bodies, contacts, iterations)[at],
            ),
{
    let n = bodies.len() as int;
    let forces = force_pass(bodies, n);
    let detects = detect_pass(bodies, n);
    let solves = solve_pass(contacts, iterations);
    let positions = position_pass(bodies, n);
    let corrects = correct_pass(bodies, contacts);
    let all = plan(bodies, contacts, iterations);
    lemma_force_pass_exact(bodies, n);
    lemma_detect_pass_exact(bodies, n);
    lemma_solve_pass_entries(contacts, iterations);
    lemma_position_pass_exact(bodies, n);
    assert forall|at: int| 0 <= at < all.len() implies integrates_rightly(bodies, #[trigger] all[at]) by {
        let f = forces.len() as int;
        let d = detects.len() as int;
        let s = solves.len() as int;
        let p = positions.len() as int;
        if at < f {
            assert(all[at] == forces[at]);
        } else if at < f + d {
            assert(all[at] == detects[at - f]);
        } else if at < f + d + s {
            assert(all[at] == solves[at - f - d]);
        } else if at < f + d + s + p {
            assert(all[at] == positions[at - f - d - s]);
        } else {
            assert(all[at] == corrects[at - f - d - s - p]);
        }
    }
}

/// Every entry of a plan is admissible: none is `Finished`, all indices
/// are in range, every contact action names the two different bodies of its
/// contact, force integration reaches only bodies that are neither static
/// nor of infinite mass, and position integration and positional correction move
/// no static body.
pub proof fn lemma_plan_admissible(
    bodies: Seq<Mobility>,
    contacts: Seq<(usize, usize)>,
    iterations: nat,
)
    requires
        bodies.len() <= usize::MAX,
        contacts.len() <= usize::MAX,
        contacts_in_range(contacts, bodies.len()),
    ensures
        forall|at: int|
            0 <= at < plan(bodies, contacts, iterations).len() ==> admissible(
                bodies,
                contacts,
                #[trigger] plan(bodies, contacts, iterations)[at],
            ),
{
    let n = bodies.len() as int;
    let forces = force_pass(bodies, n);
    let detects = detect_pass(bodies, n);
    let solves = solve_pass(contacts, iterations);
    let positions = position_pass(bodies, n);
    let corrects = correct_pass(bodies, contacts);
    let all = plan(bodies, contacts, iterations);
    lemma_force_pass_exact(bodies, n);
    lemma_detect_pass_exact(bodies, n);
    lemma_solve_pass_entries(contacts, iterations);
    lemma_position_pass_exact(bodies, n);
    assert forall|at: int| 0 <= at < all.len() implies admissible(bodies, contacts, #[trigger] all[at]) by {
        let f = forces.len() as int;
        let d = detects.len() as int;
        let s = solves.len() as int;
        let p = positions.len() as int;
        if at < f {
            assert(all[at] == forces[at]);
        } else if at < f + d {
            assert(all[at] == detects[at - f]);
        } else if at < f + d + s {
            assert(all[at] == solves[at - f - d]);
        } else if at < f + d + s + p {
            assert(all[at] == positions[at - f - d - s]);
        } else {
            assert(all[at] == corrects[at - f - d - s - p]);
        }
    }
}

/// A static body is left out of force integration and of position
/// integration, whatever its mass flag says.
pub proof fn lemma_static_body_is_never_integrated(
    bodies: Seq<Mobility>,
    contacts: Seq<(usize, usize)>,
    iterations: nat,
    body: usize,
)
    requires
        body < bodies.len() <= usize::MAX,
        contacts.len() <= usize::MAX,
        bodies[body as int].is_static,
    ensures
        !plan(bodies, contacts, iterations).contains(Action::IntegrateForces { body }),
        !plan(bodies, contacts, iterations).contains(Action::IntegratePosition { body }),
{
    lemma_plan_integrates_rightly(bodies, contacts, iterations);
}

/// A body whose inverse mass is zero is left out of force integration, so
/// no accumulated force and no gravity reaches its velocity.
pub proof fn lemma_infinite_mass_takes_no_forces(
    bodies: Seq<Mobility>,
    contacts: Seq<(usize, usize)>,
    iterations: nat,
    body: usize,
)
    requires
        body < bodies.len() <= usize::MAX,
        contacts.len() <= usize::MAX,
        bodies[body as int].infinite_mass,
    ensures
        !plan(bodies, contacts, iterations).contains(Action::IntegrateForces { body }),
{
    lemma_plan_integrates_rightly(bodies, contacts, iterations);
}

/// The length of a plan: its five passes one after the other, of which the
/// solve pass holds every contact once for each round and the correction
/// pass holds every contact once.
pub proof fn lemma_plan_len(bodies: Seq<Mobility>, contacts: Seq<(usize, usize)>, iterations: nat)
    ensures
        solve_pass(contacts, iterations).len() == iterations * contacts.len(),
        plan(bodies, contacts, iterations).len() == force_pass(bodies, bodies.len() as int).len()
            + detect_pass(bodies, bodies.len() as int).len() + iterations * contacts.len()
            + position_pass(bodies, bodies.len() as int).len() + contacts.len(),
{
    lemma_solve_pass_exact(contacts, iterations);
}

/// A plan over contacts that are no more than the candidate pairs is no
/// longer than the longest plan.
pub proof fn lemma_plan_is_bounded(bodies: Seq<Mobility>, contacts: Seq<(usize, usize)>, iterations: nat)
    requires
        contacts.len() <= detect_pass(bodies, bodies.len() as int).len(),
    ensures
        plan(bodies, contacts, iterations).len() <= longest_plan(bodies, iterations),
{
    let pairs = detect_pass(bodies, bodies.len() as int).len();
    lemma_solve_pass_exact(contacts, iterations);
    assert(iterations * contacts.len() <= iterations * pairs) by (nonlinear_arith)
        requires
            contacts.len() <= pairs,
    ;
}

/// The entries of a plan up to the end of collision detection are the same
/// whatever the contacts are: what was handed out while contacts were still
/// being found stays part of the plan.
pub proof fn lemma_plan_head_is_fixed(
    bodies: Seq<Mobility>,
    contacts: Seq<(usize, usize)>,
    others: Seq<(usize, usize)>,
    iterations: nat,
    at: int,
)
    requires
        0 <= at < force_pass(bodies, bodies.len() as int).len() + detect_pass(
            bodies,
            bodies.len() as int,
        ).len(),
    ensures
        plan(bodies, contacts, iterations)[at] == plan(bodies, others, iterations)[at],
{
}

} // verus!
