use vstd::prelude::*;
use crate::body::Mobility;
use crate::pipeline::{
    action_at, admissible, candidate, correct_pass, detect_pass, detect_row, detected, force_pass,
    lemma_plan_admissible, lemma_plan_is_bounded, lemma_plan_len, longest_plan, pair_before, plan,
    position_pass, solve_pass, solve_round, Action, Outcome,
};

verus! {

/// The phase from which the next action will come.
#[derive(Clone, Copy, Debug)]
enum Phase {
    Forces,
    Detect,
    Solve,
    Positions,
    Correct,
    Done,
}

/// Walks through one simulation step, one action at a time.
///
/// The caller performs each action that [`Stepper::next`] returns and hands
/// the outcome to the following call, until `Finished` comes back. The
/// stepper itself does no arithmetic on the bodies: it decides what is done
/// to which body, and when.
pub struct Stepper {
    bodies: Vec<Mobility>,
    iterations: u32,
    contacts: Vec<(usize, usize)>,
    phase: Phase,
    /// Forces, Positions: the next body to look at. Detect: the first body
    /// of the next pair. Solve, Correct: the next contact.
    i: usize,
    /// Detect: the second body of the next pair.
    j: usize,
    /// Solve: the number of complete rounds.
    round: u32,
    awaited: Option<(usize, usize)>,
}

/// What a stepper stands for: the bodies and solver rounds of the step, the
/// contacts found so far, the pair whose narrowphase outcome is awaited, and
/// the number of actions handed out.
pub struct StepperView {
    pub bodies: Seq<Mobility>,
    pub iterations: nat,
    pub contacts: Seq<(usize, usize)>,
    pub awaited: Option<(usize, usize)>,
    pub issued: nat,
}

impl StepperView {
    /// The state at the start of a step.
    pub open spec fn start(bodies: Seq<Mobility>, iterations: nat) -> StepperView {
        StepperView { bodies, iterations, contacts: Seq::empty(), awaited: None, issued: 0 }
    }

    /// The plan of the step, as far as the contacts are known.
    pub open spec fn plan(self) -> Seq<Action> {
        plan(self.bodies, self.contacts, self.iterations)
    }

    /// The contacts once `outcome` is taken in: the awaited pair joins them
    /// if it was reported to overlap.
    pub open spec fn record(self, outcome: Outcome) -> Seq<(usize, usize)> {
        match (self.awaited, outcome) {
            (Some(pair), Outcome::Contact) => self.contacts.push(pair),
            _ => self.contacts,
        }
    }

    /// The transition of the step: from a state and the outcome of the
    /// previous action to the next state and the next action. The action is
    /// the entry of the plan at the number of actions handed out before,
    /// and `Finished` once the plan is exhausted.
    pub open spec fn step(self, outcome: Outcome) -> (StepperView, Action) {
        let contacts = self.record(outcome);
        let action = action_at(plan(self.bodies, contacts, self.iterations), self.issued);
        (
            StepperView {
                bodies: self.bodies,
                iterations: self.iterations,
                contacts,
                awaited: match action {
                    Action::Narrowphase { a, b } => Some((a, b)),
                    _ => None,
                },
                issued: if action is Finished {
                    self.issued
                } else {
                    self.issued + 1
                },
            },
            action,
        )
    }
}

proof fn lemma_force_pass_prefix(bodies: Seq<Mobility>, k1: int, k2: int)
    requires
        k1 <= k2,
    ensures
        force_pass(bodies, k1).is_prefix_of(force_pass(bodies, k2)),
    decreases k2 - k1,
{
    if k1 < k2 {
        lemma_force_pass_prefix(bodies, k1, k2 - 1);
    }
}

proof fn lemma_position_pass_prefix(bodies: Seq<Mobility>, k1: int, k2: int)
    requires
        k1 <= k2,
    ensures
        position_pass(bodies, k1).is_prefix_of(position_pass(bodies, k2)),
    decreases k2 - k1,
{
    if k1 < k2 {
        lemma_position_pass_prefix(bodies, k1, k2 - 1);
    }
}

proof fn lemma_detect_row_prefix(bodies: Seq<Mobility>, a: int, k1: int, k2: int)
    requires
        k1 <= k2,
    ensures
        detect_row(bodies, a, k1).is_prefix_of(detect_row(bodies, a, k2)),
    decreases k2 - k1,
{
    if k1 < k2 {
        lemma_detect_row_prefix(bodies, a, k1, k2 - 1);
    }
}

proof fn lemma_detect_pass_prefix(bodies: Seq<Mobility>, k1: int, k2: int)
    requires
        k1 <= k2,
    ensures
        detect_pass(bodies, k1).is_prefix_of(detect_pass(bodies, k2)),
    decreases k2 - k1,
{
    if k1 < k2 {
        lemma_detect_pass_prefix(bodies, k1, k2 - 1);
    }
}

proof fn lemma_solve_pass_prefix(contacts: Seq<(usize, usize)>, r1: nat, r2: nat)
    requires
        r1 <= r2,
    ensures
        solve_pass(contacts, r1).is_prefix_of(solve_pass(contacts, r2)),
    decreases r2 - r1,
{
    if r1 < r2 {
        lemma_solve_pass_prefix(contacts, r1, (r2 - 1) as nat);
    }
}

proof fn lemma_solve_pass_empty(contacts: Seq<(usize, usize)>, rounds: nat)
    requires
        contacts.len() == 0,
    ensures
        solve_pass(contacts, rounds).len() == 0,
    decreases rounds,
{
    if rounds > 0 {
        lemma_solve_pass_empty(contacts, (rounds - 1) as nat);
    }
}

proof fn lemma_plan_at_force(
    bodies: Seq<Mobility>,
    contacts: Seq<(usize, usize)>,
    iterations: nat,
    upto: int,
)
    requires
        0 <= upto < bodies.len(),
        bodies[upto].takes_forces(),
    ensures
        action_at(plan(bodies, contacts, iterations), force_pass(bodies, upto).len())
            == (Action::IntegrateForces { body: upto as usize }),
{
    let n = bodies.len() as int;
    lemma_force_pass_prefix(bodies, upto + 1, n);
    let k = force_pass(bodies, upto).len() as int;
    assert(force_pass(bodies, upto + 1)[k] == (Action::IntegrateForces { body: upto as usize }));
    assert(force_pass(bodies, n).subrange(0, k + 1)[k] == force_pass(bodies, n)[k]);
}

proof fn lemma_plan_at_detect(
    bodies: Seq<Mobility>,
    contacts: Seq<(usize, usize)>,
    iterations: nat,
    a: int,
    b: int,
)
    requires
        candidate(bodies, a, b),
    ensures
        action_at(
            plan(bodies, contacts, iterations),
            (force_pass(bodies, bodies.len() as int).len() + detect_pass(bodies, a).len()
                + detect_row(bodies, a, b).len()) as nat,
        ) == (Action::Narrowphase { a: a as usize, b: b as usize }),
{
    let n = bodies.len() as int;
    let row = detect_row(bodies, a, n);
    let k = detect_row(bodies, a, b).len() as int;
    lemma_detect_row_prefix(bodies, a, b + 1, n);
    assert(detect_row(bodies, a, b + 1)[k] == (Action::Narrowphase { a: a as usize, b: b as usize }));
    assert(row.subrange(0, k + 1)[k] == row[k]);
    lemma_detect_pass_prefix(bodies, a + 1, n);
    let base = detect_pass(bodies, a).len() as int;
    assert(detect_pass(bodies, a + 1)[base + k] == row[k]);
    assert(detect_pass(bodies, n).subrange(0, detect_pass(bodies, a + 1).len() as int)[base + k]
        == detect_pass(bodies, n)[base + k]);
}

proof fn lemma_plan_at_solve(
    bodies: Seq<Mobility>,
    contacts: Seq<(usize, usize)>,
    iterations: nat,
    round: nat,
    k: int,
)
    requires
        round < iterations,
        0 <= k < contacts.len(),
    ensures
        action_at(
            plan(bodies, contacts, iterations),
            (force_pass(bodies, bodies.len() as int).len() + detect_pass(
                bodies,
                bodies.len() as int,
            ).len() + solve_pass(contacts, round).len() + k) as nat,
        ) == (Action::SolveContact { contact: k as usize, a: contacts[k].0, b: contacts[k].1 }),
{
    let all = solve_pass(contacts, iterations);
    let base = solve_pass(contacts, round).len() as int;
    lemma_solve_pass_prefix(contacts, round + 1, iterations);
    assert(solve_pass(contacts, round + 1)[base + k] == solve_round(contacts)[k]);
    assert(all.subrange(0, solve_pass(contacts, round + 1).len() as int)[base + k] == all[base + k]);
}

proof fn lemma_plan_at_position(
    bodies: Seq<Mobility>,
    contacts: Seq<(usize, usize)>,
    iterations: nat,
    upto: int,
)
    requires
        0 <= upto < bodies.len(),
        bodies[upto].moves(),
    ensures
        action_at(
            plan(bodies, contacts, iterations),
            (force_pass(bodies, bodies.len() as int).len() + detect_pass(
                bodies,
                bodies.len() as int,
            ).len() + solve_pass(contacts, iterations).len() + position_pass(bodies, upto).len()) as nat,
        ) == (Action::IntegratePosition { body: upto as usize }),
{
    let n = bodies.len() as int;
    lemma_position_pass_prefix(bodies, upto + 1, n);
    let k = position_pass(bodies, upto).len() as int;
    assert(position_pass(bodies, upto + 1)[k] == (Action::IntegratePosition { body: upto as usize }));
    assert(position_pass(bodies, n).subrange(0, k + 1)[k] == position_pass(bodies, n)[k]);
}

proof fn lemma_plan_at_correct(
    bodies: Seq<Mobility>,
    contacts: Seq<(usize, usize)>,
    iterations: nat,
    k: int,
)
    requires
        0 <= k < contacts.len(),
    ensures
        action_at(
            plan(bodies, contacts, iterations),
            (force_pass(bodies, bodies.len() as int).len() + detect_pass(
                bodies,
                bodies.len() as int,
            ).len() + solve_pass(contacts, iterations).len() + position_pass(
                bodies,
                bodies.len() as int,
            ).len() + k) as nat,
        ) == correct_pass(bodies, contacts)[k],
{
}

/// The first body at or after `from` that takes forces, or the number of
/// bodies if there is none.
fn scan_forces(bodies: &Vec<Mobility>, from: usize) -> (at: usize)
    requires
        from <= bodies@.len(),
    ensures
        from <= at <= bodies@.len(),
        at < bodies@.len() ==> bodies@[at as int].takes_forces(),
        force_pass(bodies@, at as int) == force_pass(bodies@, from as int),
{
    let mut at = from;
    while at < bodies.len() && !bodies[at].integrates_forces()
        invariant
            from <= at <= bodies@.len(),
            force_pass(bodies@, at as int) == force_pass(bodies@, from as int),
        decreases bodies@.len() - at,
    {
        at += 1;
    }
    at
}

/// The first body at or after `from` that is not static, or the number of
/// bodies if there is none.
fn scan_positions(bodies: &Vec<Mobility>, from: usize) -> (at: usize)
    requires
        from <= bodies@.len(),
    ensures
        from <= at <= bodies@.len(),
        at < bodies@.len() ==> bodies@[at as int].moves(),
        position_pass(bodies@, at as int) == position_pass(bodies@, from as int),
{
    let mut at = from;
    while at < bodies.len() && !bodies[at].integrates_position()
        invariant
            from <= at <= bodies@.len(),
            position_pass(bodies@, at as int) == position_pass(bodies@, from as int),
        decreases bodies@.len() - at,
    {
        at += 1;
    }
    at
}

/// The narrowphase actions that come before the pair `(i, j)`; all of them
/// once the first index has reached the number of bodies.
spec fn detected_before(bodies: Seq<Mobility>, i: int, j: int) -> Seq<Action> {
    if i < bodies.len() {
        detect_pass(bodies, i) + detect_row(bodies, i, j)
    } else {
        detect_pass(bodies, bodies.len() as int)
    }
}

/// The first candidate pair at or after `(i, j)`, or a first index equal to
/// the number of bodies if there is none.
fn scan_pairs(bodies: &Vec<Mobility>, i: usize, j: usize) -> (pair: (usize, usize))
    requires
        i <= bodies@.len(),
        i < bodies@.len() ==> i < j <= bodies@.len(),
    ensures
        pair.0 <= bodies@.len(),
        pair.0 < bodies@.len() ==> candidate(bodies@, pair.0 as int, pair.1 as int),
        pair == (i, j) || pair_before((i, j), pair),
        detected_before(bodies@, pair.0 as int, pair.1 as int) == detected_before(
            bodies@,
            i as int,
            j as int,
        ),
{
    let n = bodies.len();
    let mut a = i;
    let mut b = j;
    while a < n
        invariant
            n == bodies@.len(),
            a <= n,
            a < n ==> a < b <= n,
            (a, b) == (i, j) || pair_before((i, j), (a, b)),
            detected_before(bodies@, a as int, b as int) == detected_before(bodies@, i as int, j as int),
        decreases n - a, n - b,
    {
        if b < n {
            if !(bodies[a].is_static && bodies[b].is_static) {
                return (a, b);
            }
            b += 1;
        } else {
            proof {
                assert(detect_pass(bodies@, a + 1) == detect_pass(bodies@, a as int) + detect_row(
                    bodies@,
                    a as int,
                    n as int,
                ));
            }
            a += 1;
            if a < n {
                b = a + 1;
                assert(detect_row(bodies@, a as int, b as int) == Seq::<Action>::empty());
                assert(detect_pass(bodies@, a as int) + Seq::<Action>::empty() == detect_pass(
                    bodies@,
                    a as int,
                ));
            }
        }
    }
    (a, b)
}

impl View for Stepper {
    type V = StepperView;

    closed spec fn view(&self) -> StepperView {
        StepperView {
            bodies: self.bodies@,
            iterations: self.iterations as nat,
            contacts: self.contacts@,
            awaited: self.awaited,
            issued: self.issued(),
        }
    }
}

impl Stepper {
    /// The number of actions handed out so far, `Finished` not counted.
    spec fn issued(&self) -> nat {
        let n = self.bodies@.len() as int;
        let f = force_pass(self.bodies@, n).len();
        let d = detect_pass(self.bodies@, n).len();
        let s = solve_pass(self.contacts@, self.iterations as nat).len();
        let p = position_pass(self.bodies@, n).len();
        match self.phase {
            Phase::Forces => force_pass(self.bodies@, self.i as int).len(),
            Phase::Detect => f + detected_before(self.bodies@, self.i as int, self.j as int).len(),
            Phase::Solve => f + d + solve_pass(self.contacts@, self.round as nat).len() + self.i as nat,
            Phase::Positions => f + d + s + position_pass(self.bodies@, self.i as int).len(),
            Phase::Correct => f + d + s + p + self.i as nat,
            Phase::Done => f + d + s + p + self.contacts@.len(),
        }
    }

    /// The stepper's cursors are consistent with its bodies and contacts.
    pub closed spec fn wf(&self) -> bool {
        let n = self.bodies@.len();
        let m = self.contacts@.len();
        let pairs = detect_pass(self.bodies@, n as int).len();
        &&& detected(self.bodies@, self.contacts@)
        &&& self.awaited matches Some(pair) ==> {
            &&& self.phase is Detect
            &&& candidate(self.bodies@, pair.0 as int, pair.1 as int)
            &&& pair_before(pair, (self.i, self.j))
            &&& forall|k: int| 0 <= k < m ==> pair_before(#[trigger] self.contacts@[k], pair)
        }
        &&& match self.phase {
            Phase::Forces => self.i <= n && m == 0,
            Phase::Detect => {
                &&& self.i <= n
                &&& self.i < n ==> self.i < self.j <= n
                &&& m + (if self.awaited is Some { 1nat } else { 0nat }) <= detected_before(
                    self.bodies@,
                    self.i as int,
                    self.j as int,
                ).len()
                &&& forall|k: int|
                    0 <= k < m ==> pair_before(#[trigger] self.contacts@[k], (self.i, self.j))
            },
            Phase::Solve => {
                &&& m <= pairs
                &&& self.round <= self.iterations
                &&& self.i == 0 || (self.i < m && self.round < self.iterations)
            },
            Phase::Positions => m <= pairs && self.i <= n,
            Phase::Correct => self.i <= m <= pairs,
            Phase::Done => m <= pairs,
        }
    }

    /// A step ends: the actions handed out never outnumber the plan, and
    /// the plan never outgrows the longest plan of the stepper's bodies.
    pub proof fn lemma_step_is_bounded(&self)
        requires
            self.wf(),
        ensures
            self@.issued <= self@.plan().len() <= longest_plan(self@.bodies, self@.iterations),
    {
        let n = self.bodies@.len() as int;
        let rounds = self.iterations as nat;
        lemma_plan_len(self.bodies@, self.contacts@, rounds);
        match self.phase {
            Phase::Forces => {
                lemma_force_pass_prefix(self.bodies@, self.i as int, n);
            },
            Phase::Detect => {
                if self.i < n {
                    lemma_detect_row_prefix(self.bodies@, self.i as int, self.j as int, n);
                    lemma_detect_pass_prefix(self.bodies@, self.i + 1, n);
                }
            },
            Phase::Solve => {
                if self.i == 0 {
                    lemma_solve_pass_prefix(self.contacts@, self.round as nat, rounds);
                } else {
                    lemma_solve_pass_prefix(self.contacts@, (self.round + 1) as nat, rounds);
                }
            },
            Phase::Positions => {
                lemma_position_pass_prefix(self.bodies@, self.i as int, n);
            },
            Phase::Correct | Phase::Done => {},
        }
        lemma_plan_is_bounded(self.bodies@, self.contacts@, rounds);
    }

    /// Contacts are found during collision detection only: once an action
    /// past the detection pass has been handed out, no pair is awaited, so no
    /// outcome changes the contacts or the plan any more.
    pub proof fn lemma_contacts_settle(&self, outcome: Outcome)
        requires
            self.wf(),
            self@.issued > force_pass(self@.bodies, self@.bodies.len() as int).len() + detect_pass(
                self@.bodies,
                self@.bodies.len() as int,
            ).len(),
        ensures
            self@.awaited is None,
            self@.record(outcome) == self@.contacts,
    {
        let n = self.bodies@.len() as int;
        match self.phase {
            Phase::Forces => {
                lemma_force_pass_prefix(self.bodies@, self.i as int, n);
            },
            Phase::Detect => {
                if self.i < n {
                    lemma_detect_row_prefix(self.bodies@, self.i as int, self.j as int, n);
                    lemma_detect_pass_prefix(self.bodies@, self.i + 1, n);
                }
            },
            _ => {},
        }
    }

    /// A stepper at the start of a step over `bodies`, with `iterations`
    /// solver rounds.
    pub fn new(bodies: Vec<Mobility>, iterations: u32) -> (stepper: Stepper)
        ensures
            stepper.wf(),
            stepper@ == StepperView::start(bodies@, iterations as nat),
    {
        Stepper {
            bodies,
            iterations,
            contacts: Vec::new(),
            phase: Phase::Forces,
            i: 0,
            j: 0,
            round: 0,
            awaited: None,
        }
    }

    /// The contacts found so far, each as the indices of its two bodies, in
    /// the order in which they were found.
    pub fn contacts(&self) -> (pairs: &Vec<(usize, usize)>)
        ensures
            pairs@ == self@.contacts,
    {
        &self.contacts
    }

    /// The stepper handed out `action` and moved from `self` to `after`.
    spec fn hands_out(&self, after: &Stepper, action: Action) -> bool {
        &&& after.wf()
        &&& after.bodies@ == self.bodies@
        &&& after.iterations == self.iterations
        &&& after.contacts@ == self.contacts@
        &&& action !is Finished
        &&& action == action_at(
            plan(self.bodies@, self.contacts@, self.iterations as nat),
            self.issued(),
        )
        &&& after.issued() == self.issued() + 1
        &&& after.awaited == (match action {
            Action::Narrowphase { a, b } => Some((a, b)),
            _ => None,
        })
    }

    /// The stepper left a phase that had nothing more to hand out.
    spec fn passes_to(&self, after: &Stepper) -> bool {
        &&& after.wf()
        &&& after.bodies@ == self.bodies@
        &&& after.iterations == self.iterations
        &&& after.contacts@ == self.contacts@
        &&& after.issued() == self.issued()
        &&& after.awaited is None
    }

    /// Adds the awaited pair to the contacts if it was reported to overlap.
    fn record(&mut self, outcome: Outcome)
        requires
            old(self).wf(),
        ensures
            final(self).wf(),
            final(self).bodies@ == old(self).bodies@,
            final(self).iterations == old(self).iterations,
            final(self).phase == old(self).phase,
            final(self).contacts@ == (match (old(self).awaited, outcome) {
                (Some(pair), Outcome::Contact) => old(self).contacts@.push(pair),
                _ => old(self).contacts@,
            }),
            final(self).awaited is None,
            final(self).issued() == old(self).issued(),
    {
        if let Some(pair) = self.awaited {
            if let Outcome::Contact = outcome {
                self.contacts.push(pair);
            }
        }
        self.awaited = None;
    }

    fn next_force(&mut self) -> (found: Option<Action>)
        requires
            old(self).wf(),
            old(self).phase is Forces,
            old(self).awaited is None,
        ensures
            match found {
                Some(action) => old(self).hands_out(final(self), action),
                None => old(self).passes_to(final(self)) && final(self).phase is Detect,
            },
    {
        let n = self.bodies.len();
        let at = scan_forces(&self.bodies, self.i);
        if at < n {
            proof {
                lemma_plan_at_force(self.bodies@, self.contacts@, self.iterations as nat, at as int);
            }
            self.i = at + 1;
            return Some(Action::IntegrateForces { body: at });
        }
        self.phase = Phase::Detect;
        self.i = 0;
        self.j = 1;
        proof {
            assert(detected_before(self.bodies@, 0, 1) == Seq::<Action>::empty());
        }
        None
    }

    fn next_pair(&mut self) -> (found: Option<Action>)
        requires
            old(self).wf(),
            old(self).phase is Detect,
            old(self).awaited is None,
        ensures
            match found {
                Some(action) => old(self).hands_out(final(self), action),
                None => old(self).passes_to(final(self)) && final(self).phase is Solve,
            },
    {
        let n = self.bodies.len();
        let (a, b) = scan_pairs(&self.bodies, self.i, self.j);
        if a < n {
            proof {
                lemma_plan_at_detect(
                    self.bodies@,
                    self.contacts@,
                    self.iterations as nat,
                    a as int,
                    b as int,
                );
            }
            self.i = a;
            self.j = b + 1;
            self.awaited = Some((a, b));
            return Some(Action::Narrowphase { a, b });
        }
        self.phase = Phase::Solve;
        self.i = 0;
        self.round = 0;
        None
    }

    fn next_solve(&mut self) -> (found: Option<Action>)
        requires
            old(self).wf(),
            old(self).phase is Solve,
            old(self).awaited is None,
        ensures
            match found {
                Some(action) => old(self).hands_out(final(self), action),
                None => old(self).passes_to(final(self)) && final(self).phase is Positions,
            },
    {
        let m = self.contacts.len();
        if self.round < self.iterations && self.i < m {
            let k = self.i;
            let (a, b) = self.contacts[k];
            proof {
                lemma_plan_at_solve(
                    self.bodies@,
                    self.contacts@,
                    self.iterations as nat,
                    self.round as nat,
                    k as int,
                );
            }
            if k + 1 < m {
                self.i = k + 1;
            } else {
                self.i = 0;
                self.round = self.round + 1;
            }
            return Some(Action::SolveContact { contact: k, a, b });
        }
        proof {
            if m == 0 {
                lemma_solve_pass_empty(self.contacts@, self.round as nat);
                lemma_solve_pass_empty(self.contacts@, self.iterations as nat);
            }
        }
        self.phase = Phase::Positions;
        self.i = 0;
        None
    }

    fn next_position(&mut self) -> (found: Option<Action>)
        requires
            old(self).wf(),
            old(self).phase is Positions,
            old(self).awaited is None,
        ensures
            match found {
                Some(action) => old(self).hands_out(final(self), action),
                None => old(self).passes_to(final(self)) && final(self).phase is Correct,
            },
    {
        let n = self.bodies.len();
        let at = scan_positions(&self.bodies, self.i);
        if at < n {
            proof {
                lemma_plan_at_position(
                    self.bodies@,
                    self.contacts@,
                    self.iterations as nat,
                    at as int,
                );
            }
            self.i = at + 1;
            return Some(Action::IntegratePosition { body: at });
        }
        self.phase = Phase::Correct;
        self.i = 0;
        None
    }

    fn next_correction(&mut self) -> (found: Option<Action>)
        requires
            old(self).wf(),
            old(self).phase is Correct,
            old(self).awaited is None,
        ensures
            match found {
                Some(action) => old(self).hands_out(final(self), action),
                None => old(self).passes_to(final(self)) && final(self).phase is Done,
            },
    {
        let m = self.contacts.len();
        if self.i < m {
            let k = self.i;
            let (a, b) = self.contacts[k];
            proof {
                lemma_plan_at_correct(
                    self.bodies@,
                    self.contacts@,
                    self.iterations as nat,
                    k as int,
                );
            }
            self.i = k + 1;
            return Some(
                Action::CorrectPosition {
                    contact: k,
                    a,
                    b,
                    move_a: self.bodies[a].integrates_position(),
                    move_b: self.bodies[b].integrates_position(),
                },
            );
        }
        self.phase = Phase::Done;
        None
    }

    /// Takes the outcome of the previous action and returns the next one.
    ///
    /// If the previous action was a narrowphase test and `outcome` is
    /// `Contact`, the tested pair becomes the newest contact; after any
    /// other action the outcome is not looked at. The action returned is
    /// the entry of the step's plan at the number of actions already
    /// handed out, and `Finished` once the plan is exhausted.
    pub fn next(&mut self, outcome: Outcome) -> (action: Action)
        requires
            old(self).wf(),
        ensures
            final(self).wf(),
            (final(self)@, action) == old(self)@.step(outcome),
            detected(final(self)@.bodies, final(self)@.contacts),
            action !is Finished ==> admissible(final(self)@.bodies, final(self)@.contacts, action),
            action is Finished <==> old(self)@.issued >= final(self)@.plan().len(),
    {
        self.record(outcome);
        proof {
            assert(self.bodies@.len() == self.bodies.len());
            assert(self.contacts@.len() == self.contacts.len());
            lemma_plan_admissible(self.bodies@, self.contacts@, self.iterations as nat);
        }
        if let Phase::Forces = self.phase {
            if let Some(action) = self.next_force() {
                return action;
            }
        }
        if let Phase::Detect = self.phase {
            if let Some(action) = self.next_pair() {
                return action;
            }
        }
        if let Phase::Solve = self.phase {
            if let Some(action) = self.next_solve() {
                return action;
            }
        }
        if let Phase::Positions = self.phase {
            if let Some(action) = self.next_position() {
                return action;
            }
        }
        if let Phase::Correct = self.phase {
            if let Some(action) = self.next_correction() {
                return action;
            }
        }
        proof {
            lemma_plan_len(self.bodies@, self.contacts@, self.iterations as nat);
        }
        Action::Finished
    }
}

} // verus!
