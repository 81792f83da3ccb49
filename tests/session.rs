use validate_geodsolve::calculation::Calculation;
use validate_geodsolve::session::{
    Action, Event, Failure, Phase, Plan, ReportLine, Session, AZIMUTH, DISTANCE, POSITION,
    REDUCED_LENGTH,
};

fn all() -> Plan {
    Plan::from_calculations(&vec![
        Calculation::DirectP1ToP2,
        Calculation::DirectP2ToP1,
        Calculation::Inverse,
    ])
}

fn key(x: f64) -> Option<u64> {
    Some(x.to_bits())
}

fn direct(position: f64, azimuth: f64, reduced_length: f64) -> Event {
    Event::DirectResponse {
        position: key(position),
        azimuth: key(azimuth),
        reduced_length: key(reduced_length),
    }
}

fn inverse(distance: f64) -> Event {
    Event::InverseResponse { distance: key(distance) }
}

#[test]
fn plan_from_calculations() {
    let p = Plan::from_calculations(&vec![Calculation::Inverse]);
    assert_eq!(p, Plan { direct_p1_to_p2: false, direct_p2_to_p1: false, inverse: true });
    let p = Plan::from_calculations(&vec![]);
    assert_eq!(p, Plan { direct_p1_to_p2: false, direct_p2_to_p1: false, inverse: false });
    assert_eq!(all(), Plan { direct_p1_to_p2: true, direct_p2_to_p1: true, inverse: true });
}

#[test]
fn each_case_goes_out_in_order() {
    let mut s = Session::new(all());
    assert_eq!(s.step(Event::TestCase), Action::Send(Calculation::DirectP1ToP2));
    assert_eq!(s.phase(), Phase::Awaiting(Calculation::DirectP1ToP2));
    assert_eq!(s.step(direct(0.0, 0.0, 0.0)), Action::Send(Calculation::DirectP2ToP1));
    assert_eq!(s.step(direct(0.0, 0.0, 0.0)), Action::Send(Calculation::Inverse));
    assert_eq!(s.step(inverse(0.0)), Action::ReadCase);
    assert_eq!(s.line_number(), 1);
    assert_eq!(s.phase(), Phase::Ready);
}

#[test]
fn skipped_calculations_are_not_sent() {
    let plan = Plan::from_calculations(&vec![Calculation::Inverse, Calculation::DirectP2ToP1]);
    let mut s = Session::new(plan);
    assert_eq!(s.step(Event::TestCase), Action::Send(Calculation::DirectP2ToP1));
    assert_eq!(s.step(direct(1.0, 1.0, 1.0)), Action::Send(Calculation::Inverse));
    assert_eq!(s.step(inverse(1.0)), Action::ReadCase);
}

fn run_cases(s: &mut Session, cases: &[(f64, f64, f64, f64, f64, f64, f64)]) {
    for c in cases {
        assert_eq!(s.step(Event::TestCase), Action::Send(Calculation::DirectP1ToP2));
        assert_eq!(s.step(direct(c.0, c.1, c.2)), Action::Send(Calculation::DirectP2ToP1));
        assert_eq!(s.step(direct(c.3, c.4, c.5)), Action::Send(Calculation::Inverse));
        assert_eq!(s.step(inverse(c.6)), Action::ReadCase);
    }
}

#[test]
fn report_names_the_worst_case_of_each_dimension() {
    let mut s = Session::new(all());
    run_cases(
        &mut s,
        &[
            (1e-9, 2e-9, 0.0, 5e-9, 0.0, 1e-9, 3e-9),
            (4e-9, 1e-9, 7e-9, 0.0, 0.0, 0.0, 1e-9),
            (0.0, 0.0, 0.0, 0.0, 9e-9, 0.0, 3e-9),
        ],
    );
    assert_eq!(s.step(Event::FeedEnd), Action::Report);
    let r = s.report();
    assert_eq!(
        r,
        vec![
            ReportLine { dimension: POSITION, metric: (5e-9f64).to_bits(), line_number: 0 },
            ReportLine { dimension: AZIMUTH, metric: (9e-9f64).to_bits(), line_number: 2 },
            ReportLine { dimension: REDUCED_LENGTH, metric: (7e-9f64).to_bits(), line_number: 1 },
            ReportLine { dimension: DISTANCE, metric: (3e-9f64).to_bits(), line_number: 0 },
        ]
    );
    assert_eq!(s.step(Event::TestCase), Action::Halt);
}

#[test]
fn negated_azimuth_is_reported_at_its_first_case() {
    // A solver that turns every azimuth around is off by the same amount on
    // each equatorial case; the report names the first of them.
    let earth = 6378137.0f64;
    let mut s = Session::new(all());
    run_cases(
        &mut s,
        &[
            (0.0, 0.0, 0.0, 0.0, 0.0, 0.0, 0.0),
            (0.0, earth, 0.0, 0.0, earth, 0.0, 0.0),
            (0.0, earth, 0.0, 0.0, earth, 0.0, 0.0),
        ],
    );
    assert_eq!(s.step(Event::FeedEnd), Action::Report);
    let r = s.report();
    assert_eq!(r[1], ReportLine { dimension: AZIMUTH, metric: earth.to_bits(), line_number: 1 });
}

#[test]
fn silent_solver_aborts_without_report() {
    let mut s = Session::new(all());
    assert_eq!(s.step(Event::TestCase), Action::Send(Calculation::DirectP1ToP2));
    assert_eq!(s.step(Event::SolverClosed), Action::Abort(Failure::EndOfStream));
    assert_eq!(s.phase(), Phase::Finished);
    assert_eq!(s.step(Event::FeedEnd), Action::Halt);
    assert_eq!(s.step(Event::TestCase), Action::Halt);
}

#[test]
fn empty_feed_is_a_failure() {
    let mut s = Session::new(all());
    assert_eq!(s.step(Event::FeedEnd), Action::Abort(Failure::NoTestCases));
}

#[test]
fn malformed_input_aborts() {
    let mut s = Session::new(all());
    assert_eq!(s.step(Event::BadTestCase), Action::Abort(Failure::InputParse));
}

#[test]
fn malformed_response_aborts() {
    let mut s = Session::new(all());
    s.step(Event::TestCase);
    assert_eq!(s.step(Event::BadResponse), Action::Abort(Failure::MalformedResponse));
}

#[test]
fn write_failure_aborts() {
    let mut s = Session::new(all());
    s.step(Event::TestCase);
    assert_eq!(s.step(Event::WriteFailed), Action::Abort(Failure::WriteFailed));
}

#[test]
fn answers_out_of_turn_abort() {
    let mut s = Session::new(all());
    s.step(Event::TestCase);
    assert_eq!(s.step(inverse(0.0)), Action::Abort(Failure::OutOfTurn));
    let mut s = Session::new(all());
    assert_eq!(s.step(direct(0.0, 0.0, 0.0)), Action::Abort(Failure::OutOfTurn));
}

#[test]
fn undefined_errors_are_left_out_of_the_report() {
    let plan = Plan::from_calculations(&vec![Calculation::DirectP1ToP2]);
    let mut s = Session::new(plan);
    s.step(Event::TestCase);
    let e = Event::DirectResponse { position: key(2.0), azimuth: key(1.0), reduced_length: None };
    assert_eq!(s.step(e), Action::ReadCase);
    assert_eq!(s.step(Event::FeedEnd), Action::Report);
    let r = s.report();
    assert_eq!(r.len(), 2);
    assert_eq!(r[1].dimension, AZIMUTH);
}

#[test]
fn replaying_the_same_events_gives_the_same_report() {
    let events = vec![
        Event::TestCase,
        direct(3.0, 1.0, 2.0),
        direct(1.0, 4.0, 1.0),
        inverse(2.5),
        Event::TestCase,
        direct(3.0, 1.0, 9.0),
        direct(1.0, 0.5, 1.0),
        inverse(2.5),
        Event::FeedEnd,
    ];
    let mut outputs = Vec::new();
    for _ in 0..2 {
        let mut s = Session::new(all());
        let actions: Vec<Action> = events.iter().map(|e| s.step(*e)).collect();
        outputs.push((actions, s.report()));
    }
    assert_eq!(outputs[0], outputs[1]);
    assert_eq!(outputs[0].0.last(), Some(&Action::Report));
}
