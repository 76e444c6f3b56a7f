use dos_actors::{
    Actor, ActorError, Client, Initiator, Logging, Model, OutputBuilder, Sampler, Terminator,
};
use std::sync::Arc;

/// Emits the given values one per step, then nothing.
struct Source {
    values: Vec<f64>,
    next: usize,
    current: Option<f64>,
}

impl Source {
    fn new(values: Vec<f64>) -> Self {
        Source { values, next: 0, current: None }
    }
}

/// Sums what it receives; emits the sum and starts over.
struct Accumulator {
    last: f64,
    sum: f64,
}

/// Subtracts its second input from its first.
struct Difference {
    a: f64,
    b: f64,
}

/// Integrates its input with a gain; starts at zero.
struct Integrator {
    gain: f64,
    input: f64,
    state: f64,
}

enum Node {
    Source(Source),
    Hold(Sampler<f64>),
    Acc(Accumulator),
    Diff(Difference),
    Int(Integrator),
    Log(Logging<f64>),
}

impl Client<f64> for Node {
    fn consume(&mut self, input: usize, payload: Arc<f64>) {
        let data = *payload;
        match self {
            Node::Hold(s) => s.consume(input, payload),
            Node::Acc(a) => a.last = data,
            Node::Diff(d) => {
                if input == 0 {
                    d.a = data
                } else {
                    d.b = data
                }
            }
            Node::Int(i) => i.input = data,
            Node::Log(l) => l.consume(input, payload),
            Node::Source(_) => {}
        }
    }
    fn update(&mut self) {
        match self {
            Node::Source(s) => {
                s.current = s.values.get(s.next).copied();
                s.next += 1;
            }
            Node::Acc(a) => a.sum += a.last,
            Node::Int(i) => i.state += i.gain * i.input,
            _ => {}
        }
    }
    fn produce(&mut self, output: usize) -> Option<Arc<f64>> {
        match self {
            Node::Source(s) => s.current.map(Arc::new),
            Node::Hold(s) => s.produce(output),
            Node::Acc(a) => {
                let s = a.sum;
                a.sum = 0.0;
                Some(Arc::new(s))
            }
            Node::Diff(d) => Some(Arc::new(d.a - d.b)),
            Node::Int(i) => Some(Arc::new(i.state)),
            Node::Log(_) => None,
        }
    }
}

fn log_of(node: &Node) -> Vec<f64> {
    match node {
        Node::Log(l) => l.data().iter().map(|x| **x).collect(),
        _ => panic!("not a logger"),
    }
}

fn chain(model: &mut Model, from: usize, to: usize) {
    let j = model.add_output(from, OutputBuilder::new())[0];
    model.into_input(from, j, to);
}

#[test]
fn simple_feed_forward() {
    let mut model = Model::new();
    let src = model.add_actor(Initiator::build("source".to_string(), 1));
    let mid = model.add_actor(Actor::new("identity".to_string(), 1, 1));
    let log = model.add_actor(Terminator::build("logger".to_string(), 1));
    chain(&mut model, src, mid);
    chain(&mut model, mid, log);
    let mut clients = vec![
        Node::Source(Source::new(vec![0.0, 1.0, 2.0, 3.0, 4.0])),
        Node::Hold(Sampler::new(1)),
        Node::Log(Logging::new()),
    ];
    let report = model.run(&mut clients, 1, 1000).unwrap();
    assert!(report.finished);
    assert_eq!(log_of(&clients[2]), vec![0.0, 1.0, 2.0, 3.0, 4.0]);
}

#[test]
fn decimation_by_two() {
    let mut model = Model::new();
    let src = model.add_actor(Initiator::build("source".to_string(), 1));
    let mid = model.add_actor(Actor::new("sum".to_string(), 1, 2));
    let log = model.add_actor(Terminator::build("logger".to_string(), 2));
    chain(&mut model, src, mid);
    chain(&mut model, mid, log);
    let mut clients = vec![
        Node::Source(Source::new(vec![10.0, 20.0, 30.0, 40.0])),
        Node::Acc(Accumulator { last: 0.0, sum: 0.0 }),
        Node::Log(Logging::new()),
    ];
    let report = model.run(&mut clients, 1, 1000).unwrap();
    assert!(report.finished);
    assert_eq!(log_of(&clients[2]), vec![30.0, 70.0]);
}

#[test]
fn upsampling_by_three() {
    let mut model = Model::new();
    let src = model.add_actor(Initiator::build("source".to_string(), 3));
    let mid = model.add_actor(Actor::new("hold".to_string(), 3, 1));
    let log = model.add_actor(Terminator::build("logger".to_string(), 1));
    chain(&mut model, src, mid);
    chain(&mut model, mid, log);
    let mut clients = vec![
        Node::Source(Source::new(vec![5.0, 8.0])),
        Node::Hold(Sampler::new(1)),
        Node::Log(Logging::new()),
    ];
    let report = model.run(&mut clients, 1, 1000).unwrap();
    assert!(report.finished);
    assert_eq!(log_of(&clients[2]), vec![5.0, 5.0, 5.0, 8.0, 8.0, 8.0]);
}

#[test]
fn feedback_loop() {
    let mut model = Model::new();
    let src = model.add_actor(Initiator::build("source".to_string(), 1));
    let diff = model.add_actor(Actor::new("difference".to_string(), 1, 1));
    let int = model.add_actor(Actor::new("integrator".to_string(), 1, 1));
    let log = model.add_actor(Terminator::build("logger".to_string(), 1));
    chain(&mut model, src, diff);
    let residual = model.add_output(diff, OutputBuilder::new())[0];
    model.into_input(diff, residual, int);
    model.into_input(diff, residual, log);
    let feedback = model.add_output(int, OutputBuilder::new().bootstrap().unbounded())[0];
    model.into_input(int, feedback, diff);
    let mut clients = vec![
        Node::Source(Source::new(vec![1.0, 1.0, 1.0, 1.0])),
        Node::Diff(Difference { a: 0.0, b: 0.0 }),
        Node::Int(Integrator { gain: 0.5, input: 0.0, state: 0.0 }),
        Node::Log(Logging::new()),
    ];
    let report = model.run(&mut clients, 1, 1000).unwrap();
    assert!(report.finished);
    assert_eq!(log_of(&clients[3]), vec![1.0, 0.5, 0.25, 0.125]);
}

#[test]
fn fan_out_multiplex() {
    let mut model = Model::new();
    let src = model.add_actor(Initiator::build("source".to_string(), 1));
    let log_a = model.add_actor(Terminator::build("logger a".to_string(), 1));
    let log_b = model.add_actor(Terminator::build("logger b".to_string(), 1));
    let outs = model.add_output(src, OutputBuilder::new().multiplex(2));
    assert_eq!(outs, vec![0, 1]);
    model.into_input(src, outs[0], log_a);
    model.into_input(src, outs[1], log_b);
    let mut clients = vec![
        Node::Source(Source::new(vec![3.0, 1.0, 4.0, 1.0, 5.0])),
        Node::Log(Logging::new()),
        Node::Log(Logging::new()),
    ];
    let report = model.run(&mut clients, 1, 1000).unwrap();
    assert!(report.finished);
    assert_eq!(log_of(&clients[1]), vec![3.0, 1.0, 4.0, 1.0, 5.0]);
    assert_eq!(log_of(&clients[1]), log_of(&clients[2]));
}

#[test]
fn graceful_shutdown() {
    let mut model = Model::new();
    let src = model.add_actor(Initiator::build("source".to_string(), 1));
    let mid = model.add_actor(Actor::new("hold".to_string(), 1, 1));
    let log = model.add_actor(Terminator::build("logger".to_string(), 1));
    chain(&mut model, src, mid);
    chain(&mut model, mid, log);
    let mut clients = vec![
        Node::Source(Source::new(vec![1.0, 2.0])),
        Node::Hold(Sampler::new(1)),
        Node::Log(Logging::new()),
    ];
    let report = model.run(&mut clients, 1, 1000).unwrap();
    assert!(report.finished);
    assert_eq!(report.exits[0], Some(ActorError::Disconnected("source".to_string())));
    assert_eq!(report.exits[1], Some(ActorError::DropRecv { who: "hold".to_string() }));
    assert_eq!(report.exits[2], Some(ActorError::DropRecv { who: "logger".to_string() }));
    assert!(report.exits.iter().all(|e| e.as_ref().map_or(false, |e| e.is_graceful())));
    assert_eq!(log_of(&clients[2]), vec![1.0, 2.0]);
}

#[test]
fn decimation_by_three_sums_blocks() {
    let mut model = Model::new();
    let src = model.add_actor(Initiator::build("source".to_string(), 1));
    let mid = model.add_actor(Actor::new("sum".to_string(), 1, 3));
    let log = model.add_actor(Terminator::build("logger".to_string(), 3));
    chain(&mut model, src, mid);
    chain(&mut model, mid, log);
    let mut clients = vec![
        Node::Source(Source::new(vec![1.0, 2.0, 3.0, 4.0, 5.0, 6.0])),
        Node::Acc(Accumulator { last: 0.0, sum: 0.0 }),
        Node::Log(Logging::new()),
    ];
    let report = model.run(&mut clients, 1, 1000).unwrap();
    assert!(report.finished);
    assert_eq!(log_of(&clients[2]), vec![6.0, 15.0]);
}

#[test]
fn upsampling_by_two_holds_each_payload() {
    let mut model = Model::new();
    let src = model.add_actor(Initiator::build("source".to_string(), 2));
    let mid = model.add_actor(Actor::new("hold".to_string(), 2, 1));
    let log = model.add_actor(Terminator::build("logger".to_string(), 1));
    chain(&mut model, src, mid);
    chain(&mut model, mid, log);
    let mut clients = vec![
        Node::Source(Source::new(vec![1.0, -2.0, 3.5])),
        Node::Hold(Sampler::new(1)),
        Node::Log(Logging::new()),
    ];
    let report = model.run(&mut clients, 1, 1000).unwrap();
    assert!(report.finished);
    assert_eq!(log_of(&clients[2]), vec![1.0, 1.0, -2.0, -2.0, 3.5, 3.5]);
}

#[test]
fn finite_source_ends_the_run() {
    let mut model = Model::new();
    let src = model.add_actor(Initiator::build("source".to_string(), 1));
    let log = model.add_actor(Terminator::build("logger".to_string(), 1));
    chain(&mut model, src, log);
    let values: Vec<f64> = (0..50).map(|k| k as f64).collect();
    let mut clients = vec![Node::Source(Source::new(values.clone())), Node::Log(Logging::new())];
    let report = model.run(&mut clients, 1, 10_000).unwrap();
    assert!(report.finished);
    assert!(report.rounds <= 2 * (values.len() + 1) + 2);
    assert_eq!(log_of(&clients[1]), values);
}

#[test]
fn run_stops_after_max_rounds() {
    let mut model = Model::new();
    let src = model.add_actor(Initiator::build("source".to_string(), 1));
    let log = model.add_actor(Terminator::build("logger".to_string(), 1));
    chain(&mut model, src, log);
    let values: Vec<f64> = (0..50).map(|k| k as f64).collect();
    let mut clients = vec![Node::Source(Source::new(values)), Node::Log(Logging::new())];
    let report = model.run(&mut clients, 1, 3).unwrap();
    assert!(!report.finished);
    assert!(!report.stalled);
    assert_eq!(report.rounds, 3);
    assert_eq!(report.exits, vec![None, None]);
}

#[test]
fn bootstrap_lets_first_receive_complete() {
    // a <-> b, b's output pre-sends
    let mut model = Model::new();
    let a = model.add_actor(Actor::new("a".to_string(), 1, 1));
    let b = model.add_actor(Actor::new("b".to_string(), 1, 1));
    chain(&mut model, a, b);
    let out = model.add_output(b, OutputBuilder::new().bootstrap().unbounded())[0];
    model.into_input(b, out, a);
    assert_eq!(model.check(), Ok(()));
    let mut clients = vec![
        Node::Int(Integrator { gain: 1.0, input: 0.0, state: 0.0 }),
        Node::Int(Integrator { gain: 1.0, input: 0.0, state: 7.0 }),
    ];
    let (mut sched, flags) = dos_actors::Scheduler::start(&model, &mut clients, 1);
    assert_eq!(flags, vec![vec![false], vec![true]]);
    // a's first operation is a receive on the pre-sent channel: it completes
    assert!(sched.turn(&model, &mut clients[0], a));
    match &clients[0] {
        Node::Int(i) => assert_eq!(i.input, 7.0),
        _ => unreachable!(),
    }
    // b has nothing to receive yet: it waits
    assert!(!sched.turn(&model, &mut clients[1], b));
}

#[test]
fn fan_out_of_one_output_to_two_inputs() {
    let mut model = Model::new();
    let src = model.add_actor(Initiator::build("source".to_string(), 1));
    let log_a = model.add_actor(Terminator::build("logger a".to_string(), 1));
    let log_b = model.add_actor(Terminator::build("logger b".to_string(), 1));
    let out = model.add_output(src, OutputBuilder::new())[0];
    assert_eq!(model.into_input(src, out, log_a), 0);
    assert_eq!(model.into_input(src, out, log_b), 0);
    assert_eq!(model.actor(src).output(out).len(), 2);
    let mut clients = vec![
        Node::Source(Source::new(vec![2.0, 4.0])),
        Node::Log(Logging::new()),
        Node::Log(Logging::new()),
    ];
    model.run(&mut clients, 1, 100).unwrap();
    assert_eq!(log_of(&clients[1]), vec![2.0, 4.0]);
    assert_eq!(log_of(&clients[2]), vec![2.0, 4.0]);
}

#[test]
fn cycle_without_bootstrap_stalls() {
    let mut model = Model::new();
    let a = model.add_actor(Actor::new("a".to_string(), 1, 1));
    let b = model.add_actor(Actor::new("b".to_string(), 1, 1));
    chain(&mut model, a, b);
    chain(&mut model, b, a);
    let mut clients = vec![
        Node::Int(Integrator { gain: 1.0, input: 0.0, state: 0.0 }),
        Node::Int(Integrator { gain: 1.0, input: 0.0, state: 0.0 }),
    ];
    let report = model.run(&mut clients, 1, 100).unwrap();
    assert!(report.stalled);
    assert!(!report.finished);
    assert_eq!(report.rounds, 1);
    assert_eq!(report.exits, vec![None, None]);
}

#[test]
fn distribute_by_what_was_produced() {
    let mut model = Model::new();
    let src = model.add_actor(Initiator::build("source".to_string(), 1));
    let log_a = model.add_actor(Terminator::build("logger a".to_string(), 1));
    let log_b = model.add_actor(Terminator::build("logger b".to_string(), 1));
    let out = model.add_output(src, OutputBuilder::new())[0];
    model.into_input(src, out, log_a);
    model.into_input(src, out, log_b);
    let mut clients = vec![
        Node::Source(Source::new(vec![])),
        Node::Log(Logging::new()),
        Node::Log(Logging::new()),
    ];
    let (mut sched, _) = dos_actors::Scheduler::start(&model, &mut clients, 1);
    sched.distribute(&model, src, out, Some(Arc::new(1.5)));
    assert!(sched.is_running(src));
    assert!(sched.turn(&model, &mut clients[log_a], log_a));
    assert!(sched.turn(&model, &mut clients[log_b], log_b));
    assert_eq!(log_of(&clients[log_a]), vec![1.5]);
    assert_eq!(log_of(&clients[log_b]), vec![1.5]);
    sched.distribute(&model, src, out, None);
    assert!(!sched.is_running(src));
    assert_eq!(
        sched.exits()[src],
        Some(ActorError::Disconnected("source".to_string()))
    );
}

#[test]
fn send_with_no_receiver_left_drops() {
    let mut model = Model::new();
    let src = model.add_actor(Initiator::build("source".to_string(), 1));
    let log = model.add_actor(Terminator::build("logger".to_string(), 1));
    chain(&mut model, src, log);
    let mut clients = vec![Node::Source(Source::new(vec![1.0])), Node::Log(Logging::new())];
    let (mut sched, _) = dos_actors::Scheduler::start(&model, &mut clients, 1);
    sched.stop(&model, log, ActorError::DropRecv { who: "logger".to_string() });
    sched.distribute(&model, src, 0, Some(Arc::new(2.0)));
    assert_eq!(
        sched.exits()[src],
        Some(ActorError::DropSend { who: "source".to_string() })
    );
}

#[test]
fn full_bounded_channel_makes_the_sender_wait() {
    let mut model = Model::new();
    let src = model.add_actor(Initiator::build("source".to_string(), 1));
    let log = model.add_actor(Terminator::build("logger".to_string(), 1));
    chain(&mut model, src, log);
    let mut clients = vec![Node::Source(Source::new(vec![1.0, 2.0])), Node::Log(Logging::new())];
    let (mut sched, _) = dos_actors::Scheduler::start(&model, &mut clients, 1);
    assert!(sched.turn(&model, &mut clients[src], src)); // update
    assert!(sched.turn(&model, &mut clients[src], src)); // send 1.0
    assert!(sched.turn(&model, &mut clients[src], src)); // update
    assert!(!sched.room(&model, src, 0));
    assert!(!sched.turn(&model, &mut clients[src], src)); // full: waits
    assert!(sched.turn(&model, &mut clients[log], log)); // receive 1.0
    assert!(sched.room(&model, src, 0));
    assert!(sched.turn(&model, &mut clients[src], src)); // send 2.0
    assert!(sched.turn(&model, &mut clients[log], log)); // update
    assert!(sched.turn(&model, &mut clients[log], log)); // receive 2.0
    assert_eq!(log_of(&clients[log]), vec![1.0, 2.0]);
}

#[test]
fn larger_capacity_gives_the_same_log() {
    let mut model = Model::new();
    let src = model.add_actor(Initiator::build("source".to_string(), 1));
    let mid = model.add_actor(Actor::new("identity".to_string(), 1, 1));
    let log = model.add_actor(Terminator::build("logger".to_string(), 1));
    chain(&mut model, src, mid);
    chain(&mut model, mid, log);
    let mut clients = vec![
        Node::Source(Source::new(vec![0.0, 1.0, 2.0, 3.0, 4.0])),
        Node::Hold(Sampler::new(1)),
        Node::Log(Logging::new()),
    ];
    let report = model.run(&mut clients, 8, 1000).unwrap();
    assert!(report.finished);
    assert_eq!(log_of(&clients[2]), vec![0.0, 1.0, 2.0, 3.0, 4.0]);
}
