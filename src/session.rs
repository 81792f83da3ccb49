//! The decisions of a validation run.
//!
//! A session is driven one event at a time: it is told what happened (a test
//! case was read, a solver answered, a stream ended) and answers with the next
//! thing to do (send a request, read the next case, report, abort). The loop
//! that performs those actions lives outside; every choice it makes is taken
//! here.
use crate::calculation::Calculation;
use crate::maximum::{
    fold_from, fold_step, folded, lemma_fold_from_append, lemma_folded_is_fold_from,
    RunningMaximum,
};
use vstd::prelude::*;

verus! {

/// Which calculations a run performs.
#[derive(Debug, Clone, Copy, PartialEq, Eq, Structural)]
pub struct Plan {
    pub direct_p1_to_p2: bool,
    pub direct_p2_to_p1: bool,
    pub inverse: bool,
}

impl Plan {
    pub open spec fn includes(self, c: Calculation) -> bool {
        match c {
            Calculation::DirectP1ToP2 => self.direct_p1_to_p2,
            Calculation::DirectP2ToP1 => self.direct_p2_to_p1,
            Calculation::Inverse => self.inverse,
        }
    }

    /// The plan that performs exactly the listed calculations.
    pub fn from_calculations(calcs: &Vec<Calculation>) -> (r: Plan)
        ensures
            forall|c: Calculation| r.includes(c) <==> calcs@.contains(c),
    {
        let mut r = Plan { direct_p1_to_p2: false, direct_p2_to_p1: false, inverse: false };
        let mut i: usize = 0;
        while i < calcs.len()
            invariant
                i <= calcs@.len(),
                forall|c: Calculation| r.includes(c) <==> calcs@.take(i as int).contains(c),
            decreases calcs@.len() - i,
        {
            let c = calcs[i];
            let ghost r0 = r;
            match c {
                Calculation::DirectP1ToP2 => r.direct_p1_to_p2 = true,
                Calculation::DirectP2ToP1 => r.direct_p2_to_p1 = true,
                Calculation::Inverse => r.inverse = true,
            }
            proof {
                let before = calcs@.take(i as int);
                let after = calcs@.take(i + 1);
                assert(after =~= before.push(c));
                assert forall|d: Calculation| r.includes(d) <==> after.contains(d) by {
                    assert(d != c ==> r.includes(d) == r0.includes(d));
                    assert(r.includes(c));
                    if after.contains(d) && d != c {
                        let k = choose|k: int| 0 <= k < after.len() && after[k] == d;
                        assert(before[k] == d);
                    }
                    if before.contains(d) {
                        let k = choose|k: int| 0 <= k < before.len() && before[k] == d;
                        assert(after[k] == d);
                    }
                    if d == c {
                        assert(after[i as int] == d);
                    }
                }
            }
            i = i + 1;
        }
        assert(calcs@.take(i as int) =~= calcs@);
        r
    }
}

/// The place of a calculation in the fixed order in which each test case is
/// sent out: direct from point 1, direct from point 2, then inverse.
pub open spec fn rank(c: Calculation) -> nat {
    match c {
        Calculation::DirectP1ToP2 => 0,
        Calculation::DirectP2ToP1 => 1,
        Calculation::Inverse => 2,
    }
}

/// The first calculation of `plan` whose rank is at least `from`.
pub open spec fn first_from(plan: Plan, from: nat) -> Option<Calculation> {
    if from <= 0 && plan.direct_p1_to_p2 {
        Some(Calculation::DirectP1ToP2)
    } else if from <= 1 && plan.direct_p2_to_p1 {
        Some(Calculation::DirectP2ToP1)
    } else if from <= 2 && plan.inverse {
        Some(Calculation::Inverse)
    } else {
        None
    }
}

/// Where a session stands.
#[derive(Debug, Clone, Copy, PartialEq, Eq, Structural)]
pub enum Phase {
    /// Waiting for the next test case.
    Ready,
    /// A request of this calculation was sent; its response is awaited.
    Awaiting(Calculation),
    /// The run has reported or aborted.
    Finished,
}

/// The test case and calculation that produced an error record.
#[derive(Debug, Clone, Copy, PartialEq, Eq, Structural)]
pub struct Origin {
    /// The 0-based index of the test case in the feed.
    pub line_number: u64,
    pub calculation: Calculation,
}

/// What the driver of a session observed.
///
/// Error metrics are ordering keys: a larger key is a larger error. `None`
/// stands for an undefined error (one that is not a number, or whose input
/// was absent), which never becomes a maximum.
#[derive(Debug, Clone, Copy, PartialEq, Eq, Structural)]
pub enum Event {
    /// A test case was read from the feed.
    TestCase,
    /// A line of the feed is not a test case.
    BadTestCase,
    /// The feed is exhausted.
    FeedEnd,
    /// The awaited answer to a direct calculation, measured.
    DirectResponse { position: Option<u64>, azimuth: Option<u64>, reduced_length: Option<u64> },
    /// The awaited answer to the inverse calculation, measured.
    InverseResponse { distance: Option<u64> },
    /// The solver's line is not a response.
    BadResponse,
    /// The solver's output ended while a response was awaited.
    SolverClosed,
    /// A request could not be written to the solver.
    WriteFailed,
}

/// Why a run stops without a report.
#[derive(Debug, Clone, Copy, PartialEq, Eq, Structural)]
pub enum Failure {
    /// A line of the feed is not a test case.
    InputParse,
    /// The solver's output ended while a response was awaited.
    EndOfStream,
    /// The solver's response line is not a response.
    MalformedResponse,
    /// A request could not be written to the solver.
    WriteFailed,
    /// The feed ended before any test case was read.
    NoTestCases,
    /// An event came that the session was not waiting for.
    OutOfTurn,
}

/// What the driver of a session does next.
#[derive(Debug, Clone, Copy, PartialEq, Eq, Structural)]
pub enum Action {
    /// Write the request of this calculation for the current test case to
    /// its solver, then read exactly one response line.
    Send(Calculation),
    /// Read the next test case from the feed.
    ReadCase,
    /// Print the report lines and end the run.
    Report,
    /// End the run with this failure, printing no report.
    Abort(Failure),
    /// The run is over: nothing is left to do.
    Halt,
}

/// The error dimensions that a run tracks, in report order.
pub const POSITION: usize = 0;
pub const AZIMUTH: usize = 1;
pub const REDUCED_LENGTH: usize = 2;
pub const DISTANCE: usize = 3;

/// One line of the report: the worst metric of a dimension and the test case
/// that produced it.
#[derive(Debug, Clone, Copy, PartialEq, Eq, Structural)]
pub struct ReportLine {
    pub dimension: usize,
    pub metric: u64,
    pub line_number: u64,
}

/// Everything a session knows.
pub struct Snapshot {
    pub plan: Plan,
    pub phase: Phase,
    /// The index of the current test case: the number of cases finished.
    pub line_number: u64,
    pub position: Option<(Origin, u64)>,
    pub azimuth: Option<(Origin, u64)>,
    pub reduced_length: Option<(Origin, u64)>,
    pub distance: Option<(Origin, u64)>,
}

/// A session that starts a run with `plan`.
pub open spec fn start(plan: Plan) -> Snapshot {
    Snapshot {
        plan,
        phase: Phase::Ready,
        line_number: 0,
        position: None,
        azimuth: None,
        reduced_length: None,
        distance: None,
    }
}

/// The session stops, answering `a`.
pub open spec fn ended(s: Snapshot, a: Action) -> (Snapshot, Action) {
    (Snapshot { phase: Phase::Finished, ..s }, a)
}

/// After the response of `c` was folded in: send the next calculation of the
/// plan for the same test case, or move on to the next test case.
pub open spec fn advance(s: Snapshot, c: Calculation) -> (Snapshot, Action) {
    match first_from(s.plan, rank(c) + 1) {
        Some(d) => (Snapshot { phase: Phase::Awaiting(d), ..s }, Action::Send(d)),
        None => (
            Snapshot { phase: Phase::Ready, line_number: (s.line_number + 1) as u64, ..s },
            Action::ReadCase,
        ),
    }
}

pub open spec fn is_direct(c: Calculation) -> bool {
    c != Calculation::Inverse
}

/// The session's next state and action on event `e`.
pub open spec fn next(s: Snapshot, e: Event) -> (Snapshot, Action) {
    match s.phase {
        Phase::Finished => (s, Action::Halt),
        Phase::Ready => match e {
            Event::TestCase => match first_from(s.plan, 0) {
                Some(c) => (Snapshot { phase: Phase::Awaiting(c), ..s }, Action::Send(c)),
                None => (
                    Snapshot { line_number: (s.line_number + 1) as u64, ..s },
                    Action::ReadCase,
                ),
            },
            Event::BadTestCase => ended(s, Action::Abort(Failure::InputParse)),
            Event::FeedEnd => if s.line_number == 0 {
                ended(s, Action::Abort(Failure::NoTestCases))
            } else {
                ended(s, Action::Report)
            },
            _ => ended(s, Action::Abort(Failure::OutOfTurn)),
        },
        Phase::Awaiting(c) => {
            let origin = Origin { line_number: s.line_number, calculation: c };
            match e {
                Event::DirectResponse { position, azimuth, reduced_length } => if is_direct(c) {
                    advance(
                        Snapshot {
                            position: fold_step(s.position, origin, position),
                            azimuth: fold_step(s.azimuth, origin, azimuth),
                            reduced_length: fold_step(s.reduced_length, origin, reduced_length),
                            ..s
                        },
                        c,
                    )
                } else {
                    ended(s, Action::Abort(Failure::OutOfTurn))
                },
                Event::InverseResponse { distance } => if !is_direct(c) {
                    advance(Snapshot { distance: fold_step(s.distance, origin, distance), ..s }, c)
                } else {
                    ended(s, Action::Abort(Failure::OutOfTurn))
                },
                Event::SolverClosed => ended(s, Action::Abort(Failure::EndOfStream)),
                Event::BadResponse => ended(s, Action::Abort(Failure::MalformedResponse)),
                Event::WriteFailed => ended(s, Action::Abort(Failure::WriteFailed)),
                _ => ended(s, Action::Abort(Failure::OutOfTurn)),
            }
        },
    }
}

pub open spec fn line_of(dimension: usize, held: Option<(Origin, u64)>) -> Seq<ReportLine> {
    match held {
        Some((o, m)) => seq![ReportLine { dimension, metric: m, line_number: o.line_number }],
        None => Seq::empty(),
    }
}

/// The report: one line for each dimension that holds a record, in
/// dimension order.
pub open spec fn report_lines(s: Snapshot) -> Seq<ReportLine> {
    line_of(POSITION, s.position) + line_of(AZIMUTH, s.azimuth) + line_of(
        REDUCED_LENGTH,
        s.reduced_length,
    ) + line_of(DISTANCE, s.distance)
}

/// The state and the actions of a session fed `events` in order.
pub open spec fn run(s: Snapshot, events: Seq<Event>) -> (Snapshot, Seq<Action>)
    decreases events.len(),
{
    if events.len() == 0 {
        (s, Seq::empty())
    } else {
        let (s1, a) = next(s, events[0]);
        let (s2, rest) = run(s1, events.skip(1));
        (s2, seq![a] + rest)
    }
}

/// A validation run in progress.
pub struct Session {
    plan: Plan,
    phase: Phase,
    line_number: u64,
    position: RunningMaximum<Origin>,
    azimuth: RunningMaximum<Origin>,
    reduced_length: RunningMaximum<Origin>,
    distance: RunningMaximum<Origin>,
}

impl View for Session {
    type V = Snapshot;

    closed spec fn view(&self) -> Snapshot {
        Snapshot {
            plan: self.plan,
            phase: self.phase,
            line_number: self.line_number,
            position: self.position@,
            azimuth: self.azimuth@,
            reduced_length: self.reduced_length@,
            distance: self.distance@,
        }
    }
}

fn first_from_exec(plan: Plan, from: u8) -> (r: Option<Calculation>)
    ensures
        r == first_from(plan, from as nat),
{
    if from <= 0 && plan.direct_p1_to_p2 {
        Some(Calculation::DirectP1ToP2)
    } else if from <= 1 && plan.direct_p2_to_p1 {
        Some(Calculation::DirectP2ToP1)
    } else if from <= 2 && plan.inverse {
        Some(Calculation::Inverse)
    } else {
        None
    }
}

fn rank_exec(c: Calculation) -> (r: u8)
    ensures
        r as nat == rank(c),
{
    match c {
        Calculation::DirectP1ToP2 => 0,
        Calculation::DirectP2ToP1 => 1,
        Calculation::Inverse => 2,
    }
}

fn push_line(lines: &mut Vec<ReportLine>, dimension: usize, held: &RunningMaximum<Origin>)
    ensures
        final(lines)@ == old(lines)@ + line_of(dimension, held@),
{
    match held.record() {
        Some(o) => {
            let metric = held.metric().unwrap();
            lines.push(ReportLine { dimension, metric, line_number: o.line_number });
            assert(final(lines)@ =~= old(lines)@ + line_of(dimension, held@));
        },
        None => {
            assert(final(lines)@ =~= old(lines)@ + line_of(dimension, held@));
        },
    }
}

impl Session {
    /// A session that starts a run with `plan`.
    pub fn new(plan: Plan) -> (r: Session)
        ensures
            r@ == start(plan),
    {
        Session {
            plan,
            phase: Phase::Ready,
            line_number: 0,
            position: RunningMaximum::new(),
            azimuth: RunningMaximum::new(),
            reduced_length: RunningMaximum::new(),
            distance: RunningMaximum::new(),
        }
    }

    /// The index of the current test case.
    pub fn line_number(&self) -> (r: u64)
        ensures
            r == self@.line_number,
    {
        self.line_number
    }

    /// Where the session stands.
    pub fn phase(&self) -> (r: Phase)
        ensures
            r == self@.phase,
    {
        self.phase
    }

    fn end(&mut self, last: Action) -> (r: Action)
        ensures
            (final(self)@, r) == ended(old(self)@, last),
    {
        self.phase = Phase::Finished;
        last
    }

    fn advance(&mut self, c: Calculation) -> (r: Action)
        requires
            old(self)@.line_number < u64::MAX,
        ensures
            (final(self)@, r) == advance(old(self)@, c),
    {
        match first_from_exec(self.plan, rank_exec(c) + 1) {
            Some(d) => {
                self.phase = Phase::Awaiting(d);
                Action::Send(d)
            },
            None => {
                self.phase = Phase::Ready;
                self.line_number = self.line_number + 1;
                Action::ReadCase
            },
        }
    }

    /// Takes in one event and returns what to do next.
    pub fn step(&mut self, e: Event) -> (r: Action)
        requires
            old(self)@.line_number < u64::MAX,
        ensures
            (final(self)@, r) == next(old(self)@, e),
    {
        match self.phase {
            Phase::Finished => Action::Halt,
            Phase::Ready => match e {
                Event::TestCase => match first_from_exec(self.plan, 0) {
                    Some(c) => {
                        self.phase = Phase::Awaiting(c);
                        Action::Send(c)
                    },
                    None => {
                        self.line_number = self.line_number + 1;
                        Action::ReadCase
                    },
                },
                Event::BadTestCase => self.end(Action::Abort(Failure::InputParse)),
                Event::FeedEnd => if self.line_number == 0 {
                    self.end(Action::Abort(Failure::NoTestCases))
                } else {
                    self.end(Action::Report)
                },
                _ => self.end(Action::Abort(Failure::OutOfTurn)),
            },
            Phase::Awaiting(c) => {
                let origin = Origin { line_number: self.line_number, calculation: c };
                match e {
                    Event::DirectResponse { position, azimuth, reduced_length } => {
                        if c != Calculation::Inverse {
                            self.position.fold(origin, position);
                            self.azimuth.fold(origin, azimuth);
                            self.reduced_length.fold(origin, reduced_length);
                            self.advance(c)
                        } else {
                            self.end(Action::Abort(Failure::OutOfTurn))
                        }
                    },
                    Event::InverseResponse { distance } => {
                        if c == Calculation::Inverse {
                            self.distance.fold(origin, distance);
                            self.advance(c)
                        } else {
                            self.end(Action::Abort(Failure::OutOfTurn))
                        }
                    },
                    Event::SolverClosed => self.end(Action::Abort(Failure::EndOfStream)),
                    Event::BadResponse => self.end(Action::Abort(Failure::MalformedResponse)),
                    Event::WriteFailed => self.end(Action::Abort(Failure::WriteFailed)),
                    _ => self.end(Action::Abort(Failure::OutOfTurn)),
                }
            },
        }
    }

    /// The report lines: for each dimension that holds a record, its worst
    /// metric and the test case that produced it.
    pub fn report(&self) -> (r: Vec<ReportLine>)
        ensures
            r@ == report_lines(self@),
    {
        let mut lines: Vec<ReportLine> = Vec::new();
        push_line(&mut lines, POSITION, &self.position);
        push_line(&mut lines, AZIMUTH, &self.azimuth);
        push_line(&mut lines, REDUCED_LENGTH, &self.reduced_length);
        push_line(&mut lines, DISTANCE, &self.distance);
        assert(lines@ =~= report_lines(self@));
        lines
    }
}


/// A session takes one action per event.
pub proof fn lemma_run_length(s: Snapshot, events: Seq<Event>)
    ensures
        run(s, events).1.len() == events.len(),
    decreases events.len(),
{
    if events.len() > 0 {
        lemma_run_length(next(s, events[0]).0, events.skip(1));
    }
}

/// Once a session has finished, it stays as it is and every further event
/// gets `Halt`.
pub proof fn lemma_finished_stays_finished(s: Snapshot, events: Seq<Event>)
    requires
        s.phase is Finished,
    ensures
        run(s, events).0 == s,
        forall|k: int| 0 <= k < events.len() ==> #[trigger] run(s, events).1[k] == Action::Halt,
    decreases events.len(),
{
    lemma_run_length(s, events);
    if events.len() > 0 {
        lemma_run_length(s, events.skip(1));
        lemma_finished_stays_finished(s, events.skip(1));
        let rest = run(s, events.skip(1)).1;
        assert forall|k: int| 0 <= k < events.len() implies #[trigger] run(s, events).1[k] == Action::Halt by {
            if k > 0 {
                assert(run(s, events).1[k] == rest[k - 1]);
            }
        }
    }
}

/// When the solver's output ends while a response is awaited, the run aborts
/// with `EndOfStream` at once and never reports afterwards.
pub proof fn lemma_closed_solver_aborts(s: Snapshot, events: Seq<Event>)
    requires
        s.phase is Awaiting,
        events.len() > 0,
        events[0] == Event::SolverClosed,
    ensures
        run(s, events).1[0] == Action::Abort(Failure::EndOfStream),
        forall|k: int| 0 <= k < events.len() ==> #[trigger] run(s, events).1[k] != Action::Report,
{
    let s1 = next(s, events[0]).0;
    lemma_run_length(s, events);
    lemma_run_length(s1, events.skip(1));
    lemma_finished_stays_finished(s1, events.skip(1));
    let rest = run(s1, events.skip(1)).1;
    assert forall|k: int| 0 <= k < events.len() implies #[trigger] run(s, events).1[k] != Action::Report by {
        if k > 0 {
            assert(run(s, events).1[k] == rest[k - 1]);
        }
    }
}

/// A solver that closes its output before its first answer makes the run
/// abort with `EndOfStream` on that answer, and no report is ever made.
pub proof fn lemma_silent_solver_aborts_unreported(plan: Plan, events: Seq<Event>)
    requires
        first_from(plan, 0) is Some,
        events.len() >= 2,
        events[0] == Event::TestCase,
        events[1] == Event::SolverClosed,
    ensures
        run(start(plan), events).1[0] == Action::Send(first_from(plan, 0).unwrap()),
        run(start(plan), events).1[1] == Action::Abort(Failure::EndOfStream),
        forall|k: int| 0 <= k < events.len() ==> #[trigger] run(start(plan), events).1[k] != Action::Report,
{
    let s1 = next(start(plan), events[0]).0;
    let tail = events.skip(1);
    assert(tail[0] == Event::SolverClosed);
    lemma_run_length(start(plan), events);
    lemma_run_length(s1, tail);
    lemma_closed_solver_aborts(s1, tail);
    let rest = run(s1, tail).1;
    assert forall|k: int| 0 <= k < events.len() implies #[trigger] run(start(plan), events).1[k] != Action::Report by {
        if k > 0 {
            assert(run(start(plan), events).1[k] == rest[k - 1]);
        }
    }
}

/// The event that answers a request of calculation `c`.
pub open spec fn answers(e: Event, c: Calculation) -> bool {
    match e {
        Event::DirectResponse { .. } => is_direct(c),
        Event::InverseResponse { .. } => !is_direct(c),
        _ => false,
    }
}

/// A request is sent only for a fresh test case or right after the answer to
/// the previous request, never while another one is outstanding; within a
/// test case the calculations go out in rank order; and after sending, the
/// session awaits exactly that answer.
pub proof fn lemma_lock_step(s: Snapshot, e: Event)
    ensures
        next(s, e).1 matches Action::Send(c) ==> {
            &&& next(s, e).0.phase == Phase::Awaiting(c)
            &&& s.plan.includes(c)
            &&& match s.phase {
                Phase::Ready => e == Event::TestCase,
                Phase::Awaiting(prev) => answers(e, prev) && rank(prev) < rank(c),
                Phase::Finished => false,
            }
        },
{
}

/// Two sessions in the same state that are fed the same events take the
/// same actions and end with the same report: a run depends on nothing but
/// its plan and what it observed.
pub proof fn lemma_replay_is_identical(s: Snapshot, t: Snapshot, events: Seq<Event>)
    requires
        s == t,
    ensures
        run(s, events).1 == run(t, events).1,
        report_lines(run(s, events).0) == report_lines(run(t, events).0),
{
}


/// What dimension `dim` of `s` holds.
pub open spec fn held(s: Snapshot, dim: usize) -> Option<(Origin, u64)> {
    if dim == POSITION {
        s.position
    } else if dim == AZIMUTH {
        s.azimuth
    } else if dim == REDUCED_LENGTH {
        s.reduced_length
    } else {
        s.distance
    }
}

/// The records that event `e` folds into dimension `dim` of `s`: the
/// answer's metric for that dimension, tagged with the current test case and
/// the calculation that was awaited.
pub open spec fn contribution(s: Snapshot, e: Event, dim: usize) -> Seq<(Origin, Option<u64>)> {
    match s.phase {
        Phase::Awaiting(c) => {
            let o = Origin { line_number: s.line_number, calculation: c };
            match e {
                Event::DirectResponse { position, azimuth, reduced_length } => if !is_direct(c) {
                    Seq::empty()
                } else if dim == POSITION {
                    seq![(o, position)]
                } else if dim == AZIMUTH {
                    seq![(o, azimuth)]
                } else if dim == REDUCED_LENGTH {
                    seq![(o, reduced_length)]
                } else {
                    Seq::empty()
                },
                Event::InverseResponse { distance } => if !is_direct(c) && dim == DISTANCE {
                    seq![(o, distance)]
                } else {
                    Seq::empty()
                },
                _ => Seq::empty(),
            }
        },
        _ => Seq::empty(),
    }
}

/// The records that a run from `s` on `events` folds into dimension `dim`,
/// in the order in which it folds them.
pub open spec fn folded_items(s: Snapshot, events: Seq<Event>, dim: usize) -> Seq<(Origin, Option<u64>)>
    decreases events.len(),
{
    if events.len() == 0 {
        Seq::empty()
    } else {
        contribution(s, events[0], dim) + folded_items(next(s, events[0]).0, events.skip(1), dim)
    }
}

proof fn lemma_step_folds(s: Snapshot, e: Event, dim: usize)
    requires
        dim <= DISTANCE,
    ensures
        held(next(s, e).0, dim) == fold_from(held(s, dim), contribution(s, e, dim)),
{
    let items = contribution(s, e, dim);
    reveal_with_fuel(fold_from, 2);
    if items.len() == 1 {
        assert(items.skip(1) =~= Seq::<(Origin, Option<u64>)>::empty());
    }
}

proof fn lemma_run_folds(s: Snapshot, events: Seq<Event>, dim: usize)
    requires
        dim <= DISTANCE,
    ensures
        held(run(s, events).0, dim) == fold_from(held(s, dim), folded_items(s, events, dim)),
    decreases events.len(),
{
    if events.len() > 0 {
        let s1 = next(s, events[0]).0;
        lemma_step_folds(s, events[0], dim);
        lemma_run_folds(s1, events.skip(1), dim);
        lemma_fold_from_append(
            held(s, dim),
            contribution(s, events[0], dim),
            folded_items(s1, events.skip(1), dim),
        );
    }
}

proof fn lemma_items_in_line_order(s: Snapshot, events: Seq<Event>, dim: usize)
    requires
        s.line_number + events.len() < u64::MAX,
    ensures
        forall|i: int|
            0 <= i < folded_items(s, events, dim).len() ==> (#[trigger] folded_items(
                s,
                events,
                dim,
            )[i]).0.line_number >= s.line_number,
        forall|i: int, j: int|
            0 <= i < j < folded_items(s, events, dim).len() ==> (#[trigger] folded_items(
                s,
                events,
                dim,
            )[i]).0.line_number <= (#[trigger] folded_items(s, events, dim)[j]).0.line_number,
    decreases events.len(),
{
    if events.len() > 0 {
        let s1 = next(s, events[0]).0;
        let head = contribution(s, events[0], dim);
        let tail = folded_items(s1, events.skip(1), dim);
        let all = folded_items(s, events, dim);
        assert(s1.line_number >= s.line_number);
        assert(s1.line_number <= s.line_number + 1);
        lemma_items_in_line_order(s1, events.skip(1), dim);
        assert(all == head + tail);
        assert forall|i: int| 0 <= i < head.len() implies (#[trigger] head[i]).0.line_number == s.line_number by {}
        assert forall|i: int| 0 <= i < all.len() implies (#[trigger] all[i]).0.line_number >= s.line_number by {
            if i >= head.len() {
                assert(all[i] == tail[i - head.len()]);
            }
        }
        assert forall|i: int, j: int| 0 <= i < j < all.len() implies (#[trigger] all[i]).0.line_number <= (#[trigger] all[j]).0.line_number by {
            if i >= head.len() {
                assert(all[i] == tail[i - head.len()]);
                assert(all[j] == tail[j - head.len()]);
            } else if j >= head.len() {
                assert(all[i] == head[i]);
                assert(all[j] == tail[j - head.len()]);
            } else {
                assert(all[i] == head[i]);
                assert(all[j] == head[j]);
            }
        }
    }
}

/// What a run reports for a dimension is the running maximum of the records
/// that the run folded into it, and those records come in test-case order.
/// With `lemma_folded_is_first_largest`, the reported line number is that of
/// the first test case with the largest error.
pub proof fn lemma_report_is_first_worst(plan: Plan, events: Seq<Event>, dim: usize)
    requires
        dim <= DISTANCE,
        events.len() < u64::MAX,
    ensures
        held(run(start(plan), events).0, dim) == folded(folded_items(start(plan), events, dim)),
        forall|i: int, j: int|
            0 <= i < j < folded_items(start(plan), events, dim).len() ==> (#[trigger] folded_items(
                start(plan),
                events,
                dim,
            )[i]).0.line_number <= (#[trigger] folded_items(start(plan), events, dim)[j]).0.line_number,
{
    lemma_run_folds(start(plan), events, dim);
    lemma_folded_is_fold_from(folded_items(start(plan), events, dim));
    lemma_items_in_line_order(start(plan), events, dim);
}

} // verus!
