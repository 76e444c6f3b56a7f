use dos_actors::windloads::WindLoads;
use dos_actors::{
    Actor, ActorError, Channel, Initiator, Model, Op, OutputBuilder, RecvError, SendError, StepLoop,
    Terminator,
};

fn pipeline(src_no: usize, mid: (usize, usize), log_ni: usize) -> Model {
    let mut model = Model::new();
    let src = model.add_actor(Initiator::build("source".to_string(), src_no));
    let m = model.add_actor(Actor::new("middle".to_string(), mid.0, mid.1));
    let log = model.add_actor(Terminator::build("logger".to_string(), log_ni));
    let j = model.add_output(src, OutputBuilder::new())[0];
    model.into_input(src, j, m);
    let j = model.add_output(m, OutputBuilder::new())[0];
    model.into_input(m, j, log);
    model
}

#[test]
fn check_accepts_consistent_rates() {
    assert_eq!(pipeline(1, (1, 1), 1).check(), Ok(()));
    assert_eq!(pipeline(1, (1, 10), 10).check(), Ok(()));
    assert_eq!(pipeline(10, (10, 1), 1).check(), Ok(()));
    assert_eq!(pipeline(2, (2, 10), 10).check(), Ok(()));
    assert_eq!(pipeline(10, (10, 2), 2).check(), Ok(()));
}

#[test]
fn check_some_inputs_zero_rate() {
    assert_eq!(
        pipeline(1, (0, 1), 1).check(),
        Err(ActorError::SomeInputsZeroRate("middle".to_string()))
    );
}

#[test]
fn check_some_outputs_zero_rate() {
    assert_eq!(
        pipeline(0, (1, 1), 1).check(),
        Err(ActorError::SomeOutputsZeroRate("source".to_string()))
    );
}

#[test]
fn check_no_inputs_positive_rate() {
    let mut model = Model::new();
    model.add_actor(Actor::new("lonely".to_string(), 1, 0));
    assert_eq!(
        model.check(),
        Err(ActorError::NoInputsPositiveRate("lonely".to_string()))
    );
}

#[test]
fn check_no_outputs_positive_rate() {
    let mut model = Model::new();
    let src = model.add_actor(Initiator::build("source".to_string(), 1));
    let sink = model.add_actor(Actor::new("sink".to_string(), 1, 1));
    let j = model.add_output(src, OutputBuilder::new())[0];
    model.into_input(src, j, sink);
    assert_eq!(
        model.check(),
        Err(ActorError::NoOutputsPositiveRate("sink".to_string()))
    );
}

#[test]
fn check_orphan_output() {
    let mut model = Model::new();
    let src = model.add_actor(Initiator::build("source".to_string(), 1));
    let log = model.add_actor(Terminator::build("logger".to_string(), 1));
    let outs = model.add_output(src, OutputBuilder::new().multiplex(2));
    model.into_input(src, outs[0], log);
    assert_eq!(
        model.check(),
        Err(ActorError::OrphanOutput("source".to_string()))
    );
}

#[test]
fn check_rate_mismatch_on_edge() {
    assert_eq!(
        pipeline(2, (1, 1), 1).check(),
        Err(ActorError::RateMismatch("middle".to_string()))
    );
}

#[test]
fn check_rate_mismatch_within_actor() {
    assert_eq!(
        pipeline(2, (2, 3), 3).check(),
        Err(ActorError::RateMismatch("middle".to_string()))
    );
}

#[test]
fn check_reports_first_faulty_actor() {
    let mut model = Model::new();
    model.add_actor(Actor::new("first".to_string(), 0, 1));
    model.add_actor(Actor::new("second".to_string(), 1, 0));
    assert_eq!(
        model.check(),
        Err(ActorError::NoOutputsPositiveRate("first".to_string()))
    );
}

#[test]
fn run_refuses_invalid_model() {
    let model = pipeline(1, (1, 1), 2);
    let mut clients: Vec<dos_actors::Logging<i64>> =
        vec![dos_actors::Logging::new(), dos_actors::Logging::new(), dos_actors::Logging::new()];
    assert_eq!(
        model.run(&mut clients, 1, 10).err(),
        Some(ActorError::RateMismatch("logger".to_string()))
    );
}

#[test]
fn connectivity_after_check() {
    let model = pipeline(1, (1, 1), 1);
    assert_eq!(model.check(), Ok(()));
    for a in 0..model.n_actors() {
        let actor = model.actor(a);
        for j in 0..actor.n_outputs() {
            assert!(actor.output(j).len() >= 1);
        }
        for i in 0..actor.n_inputs() {
            let (u, w) = actor.input(i);
            let out = model.actor(u).output(w);
            let hits = (0..out.len()).filter(|&k| out.target(k) == (a, i)).count();
            assert_eq!(hits, 1);
        }
    }
}

#[test]
fn rate_integrality_after_check() {
    let model = pipeline(10, (10, 2), 2);
    assert_eq!(model.check(), Ok(()));
    for d in 0..model.n_actors() {
        let down = model.actor(d);
        for i in 0..down.n_inputs() {
            let (u, _) = down.input(i);
            let no_up = model.actor(u).no();
            let ni_down = down.ni();
            assert_eq!(no_up.max(ni_down) % no_up.min(ni_down), 0);
        }
    }
}

#[test]
fn step_of_decimating_actor() {
    let ops = dos_actors::actor::step_ops(2, 10, 1, 1);
    let mut expected = Vec::new();
    for _ in 0..5 {
        expected.push(Op::Recv(0));
        expected.push(Op::Update);
    }
    expected.push(Op::Send(0));
    assert_eq!(ops, expected);
}

#[test]
fn step_of_upsampling_actor() {
    let ops = dos_actors::actor::step_ops(3, 1, 2, 2);
    let expected = vec![
        Op::Recv(0),
        Op::Recv(1),
        Op::Update,
        Op::Send(0),
        Op::Send(1),
        Op::Send(0),
        Op::Send(1),
        Op::Send(0),
        Op::Send(1),
    ];
    assert_eq!(ops, expected);
}

#[test]
fn step_of_initiator_and_terminator() {
    assert_eq!(
        dos_actors::actor::step_ops(0, 1, 0, 2),
        vec![Op::Update, Op::Send(0), Op::Send(1)]
    );
    assert_eq!(
        dos_actors::actor::step_ops(1, 0, 2, 0),
        vec![Op::Recv(0), Op::Recv(1), Op::Update]
    );
    assert_eq!(dos_actors::actor::step_ops(0, 0, 0, 0), Vec::<Op>::new());
}

#[test]
fn step_loop_wraps_and_stops() {
    let mut sl = StepLoop::new(1, 1, 1, 1);
    assert_eq!(sl.next_op(), Some(Op::Recv(0)));
    sl.advance();
    assert_eq!(sl.next_op(), Some(Op::Update));
    sl.advance();
    assert_eq!(sl.next_op(), Some(Op::Send(0)));
    sl.advance();
    assert_eq!(sl.next_op(), Some(Op::Recv(0)));
    sl.stop();
    assert_eq!(sl.next_op(), None);
    assert!(!StepLoop::new(0, 0, 0, 0).is_running());
}

#[test]
fn channel_is_fifo() {
    let mut ch: Channel<u32> = Channel::unbounded();
    for v in [3, 1, 4, 1, 5] {
        assert_eq!(ch.try_send(v), Ok(()));
    }
    let mut got = Vec::new();
    while let Ok(v) = ch.try_recv() {
        got.push(v);
    }
    assert_eq!(got, vec![3, 1, 4, 1, 5]);
    assert_eq!(ch.try_recv(), Err(RecvError::Empty));
    ch.close_sender();
    assert_eq!(ch.try_recv(), Err(RecvError::Closed));
}

#[test]
fn channel_drains_before_closing() {
    let mut ch: Channel<u32> = Channel::bounded(4);
    ch.try_send(7).unwrap();
    ch.close_sender();
    assert_eq!(ch.try_recv(), Ok(7));
    assert_eq!(ch.try_recv(), Err(RecvError::Closed));
}

#[test]
fn bounded_channel_fills_up() {
    let mut ch: Channel<u32> = Channel::bounded(2);
    assert_eq!(ch.try_send(1), Ok(()));
    assert_eq!(ch.try_send(2), Ok(()));
    assert!(ch.is_full());
    assert_eq!(ch.try_send(3), Err(SendError::Full));
    assert_eq!(ch.try_recv(), Ok(1));
    assert_eq!(ch.try_send(3), Ok(()));
    assert_eq!(ch.len(), 2);
}

#[test]
fn send_to_dropped_receiver() {
    let mut ch: Channel<u32> = Channel::unbounded();
    ch.close_receiver();
    assert_eq!(ch.try_send(1), Err(SendError::Disconnected));
    assert!(ch.is_empty());
}

#[test]
fn graceful_errors() {
    assert!(ActorError::NoData.is_graceful());
    assert!(ActorError::Disconnected("x".to_string()).is_graceful());
    assert!(ActorError::DropRecv { who: "x".to_string() }.is_graceful());
    assert!(ActorError::DropSend { who: "x".to_string() }.is_graceful());
    assert!(!ActorError::OrphanOutput("x".to_string()).is_graceful());
    assert!(!ActorError::NoInputs.is_graceful());
}

#[test]
fn windloads_keys() {
    assert_eq!(
        WindLoads::M1Segments.keys(),
        vec!["M1_1", "M1_2", "M1_3", "M1_4", "M1_5", "M1_6", "M1_7"]
    );
    assert_eq!(WindLoads::MirrorCovers.keys().len(), 12);
    assert_eq!(WindLoads::MirrorCovers.keys()[6], "M1covin1");
    assert_eq!(WindLoads::Trusses.keys()[3], "Tbot1");
    assert_eq!(WindLoads::TopEnd.keys(), vec!["Topend"]);
    assert_eq!(WindLoads::Platforms.keys(), vec!["platform"]);
}

#[test]
fn windloads_fem() {
    assert_eq!(WindLoads::M2Segments.fem()[0], "M2 cell 1.");
    assert_eq!(WindLoads::M2Segments.fem().len(), 7);
    assert_eq!(
        WindLoads::Trusses.fem(),
        vec!["Upper truss", "Lower truss", "Focus Assembly Arm"]
    );
    assert_eq!(WindLoads::CRings.fem()[5], "between C-Rings below M1 cell 1");
}

#[test]
fn outcome_decides_the_loop() {
    let name = "x".to_string();
    let mut sl = StepLoop::new(1, 1, 1, 1);
    assert_eq!(sl.on_outcome(&name, dos_actors::Outcome::Received), None);
    assert_eq!(sl.next_op(), Some(Op::Update));
    assert_eq!(sl.on_outcome(&name, dos_actors::Outcome::Updated), None);
    assert_eq!(sl.on_outcome(&name, dos_actors::Outcome::Sent(2)), None);
    assert_eq!(sl.next_op(), Some(Op::Recv(0)));
    assert_eq!(
        sl.on_outcome(&name, dos_actors::Outcome::Closed),
        Some(ActorError::DropRecv { who: "x".to_string() })
    );
    assert_eq!(sl.next_op(), None);
    let mut sl = StepLoop::new(0, 1, 0, 1);
    assert_eq!(sl.on_outcome(&name, dos_actors::Outcome::Updated), None);
    assert_eq!(
        sl.on_outcome(&name, dos_actors::Outcome::Sent(0)),
        Some(ActorError::DropSend { who: "x".to_string() })
    );
    let mut sl = StepLoop::new(0, 1, 0, 1);
    sl.on_outcome(&name, dos_actors::Outcome::Updated);
    assert_eq!(
        sl.on_outcome(&name, dos_actors::Outcome::Exhausted),
        Some(ActorError::Disconnected("x".to_string()))
    );
}

#[test]
fn pre_sends_lists_bootstrap_outputs() {
    let mut model = Model::new();
    let a = model.add_actor(Actor::new("a".to_string(), 1, 1));
    let b = model.add_actor(Actor::new("b".to_string(), 1, 1));
    let ab = model.add_output(a, OutputBuilder::new())[0];
    model.into_input(a, ab, b);
    let ba = model.add_output(b, OutputBuilder::new().bootstrap().unbounded())[0];
    model.into_input(b, ba, a);
    assert_eq!(model.pre_sends(), vec![(b, ba)]);
    assert!(model.actor(b).output(ba).unbounded());
}

#[test]
fn model_without_ports_finishes_at_once() {
    let mut model = Model::new();
    model.add_actor(Actor::new("idle".to_string(), 0, 0));
    let mut clients: Vec<dos_actors::Logging<i64>> = vec![dos_actors::Logging::new()];
    let report = model.run(&mut clients, 1, 10).unwrap();
    assert!(report.finished);
    assert!(!report.stalled);
    assert_eq!(report.rounds, 0);
    assert_eq!(report.exits, vec![None]);
}
