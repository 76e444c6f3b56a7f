//! Actors: their ports, their rates and the rate-aware step loop.
use crate::error::ActorError;
use vstd::prelude::*;

verus! {

/// One channel operation or client call of an actor's step.
#[derive(Debug, Clone, Copy, PartialEq, Eq, Structural)]
pub enum Op {
    /// Receive on the input of that index and hand the payload to the client.
    Recv(usize),
    /// Advance the client by one step.
    Update,
    /// Take a payload from the client for the output of that index and send it.
    Send(usize),
}

/// Receiving once on each of `n` inputs, in registration order.
pub open spec fn recvs(n: nat) -> Seq<Op> {
    Seq::new(n, |i: int| Op::Recv(i as usize))
}

/// Sending once on each of `n` outputs, in registration order.
pub open spec fn sends(n: nat) -> Seq<Op> {
    Seq::new(n, |i: int| Op::Send(i as usize))
}

/// `k` copies of `s`, one after the other.
pub open spec fn repeat(k: nat, s: Seq<Op>) -> Seq<Op>
    decreases k,
{
    if k == 0 {
        Seq::empty()
    } else {
        repeat((k - 1) as nat, s) + s
    }
}

/// Whether the rates of an actor agree with its ports: a rate is zero exactly
/// when the matching port list is empty, and two positive rates are integer
/// multiples of each other.
pub open spec fn rates_valid(ni: nat, no: nat, n_inputs: nat, n_outputs: nat) -> bool {
    &&& (ni == 0) == (n_inputs == 0)
    &&& (no == 0) == (n_outputs == 0)
    &&& (ni > 0 && no > 0 ==> (if no >= ni { no % ni == 0 } else { ni % no == 0 }))
}

/// What one step of the actor's loop does, by the shape of its ports.
///
/// An initiator updates then sends; a terminator receives then updates; an
/// actor with `NO >= NI` receives and updates `NO/NI` times before sending; an
/// actor with `NI > NO` receives and updates once, then sends `NI/NO` times.
pub open spec fn step_body(ni: nat, no: nat, n_inputs: nat, n_outputs: nat) -> Seq<Op> {
    if n_inputs == 0 && n_outputs == 0 {
        Seq::empty()
    } else if n_inputs == 0 {
        seq![Op::Update] + sends(n_outputs)
    } else if n_outputs == 0 {
        recvs(n_inputs).push(Op::Update)
    } else if no >= ni {
        repeat(no / ni, recvs(n_inputs).push(Op::Update)) + sends(n_outputs)
    } else {
        recvs(n_inputs).push(Op::Update) + repeat(ni / no, sends(n_outputs))
    }
}


/// Every receive in `s` names an input below `n_inputs`, every send an
/// output below `n_outputs`.
pub open spec fn ops_in_range(s: Seq<Op>, n_inputs: nat, n_outputs: nat) -> bool {
    forall|p: int|
        0 <= p < s.len() ==> match #[trigger] s[p] {
            Op::Recv(i) => i < n_inputs,
            Op::Send(j) => j < n_outputs,
            Op::Update => true,
        }
}

proof fn lemma_repeat_in_range(k: nat, s: Seq<Op>, n_inputs: nat, n_outputs: nat)
    requires
        ops_in_range(s, n_inputs, n_outputs),
    ensures
        ops_in_range(repeat(k, s), n_inputs, n_outputs),
    decreases k,
{
    if k > 0 {
        lemma_repeat_in_range((k - 1) as nat, s, n_inputs, n_outputs);
        let r = repeat((k - 1) as nat, s);
        assert forall|p: int| 0 <= p < repeat(k, s).len() implies match #[trigger] repeat(k, s)[p] {
            Op::Recv(i) => i < n_inputs,
            Op::Send(j) => j < n_outputs,
            Op::Update => true,
        } by {
            if p < r.len() {
                assert(repeat(k, s)[p] == r[p]);
            } else {
                assert(repeat(k, s)[p] == s[p - r.len()]);
            }
        }
    }
}

/// The operations of a step only name the actor's own ports.
pub proof fn lemma_step_in_range(ni: nat, no: nat, n_inputs: nat, n_outputs: nat)
    ensures
        ops_in_range(step_body(ni, no, n_inputs, n_outputs), n_inputs, n_outputs),
{
    let rv = recvs(n_inputs);
    let sd = sends(n_outputs);
    assert(ops_in_range(rv, n_inputs, n_outputs));
    assert(ops_in_range(sd, n_inputs, n_outputs));
    let unit = rv.push(Op::Update);
    assert(ops_in_range(unit, n_inputs, n_outputs)) by {
        assert forall|p: int| 0 <= p < unit.len() implies match #[trigger] unit[p] {
            Op::Recv(i) => i < n_inputs,
            Op::Send(j) => j < n_outputs,
            Op::Update => true,
        } by {
            if p < rv.len() {
                assert(unit[p] == rv[p]);
            }
        }
    }
    let b = step_body(ni, no, n_inputs, n_outputs);
    if n_inputs == 0 && n_outputs == 0 {
    } else if n_inputs == 0 {
        assert forall|p: int| 0 <= p < b.len() implies match #[trigger] b[p] {
            Op::Recv(i) => i < n_inputs,
            Op::Send(j) => j < n_outputs,
            Op::Update => true,
        } by {
            if p > 0 {
                assert(b[p] == sd[p - 1]);
            }
        }
    } else if n_outputs == 0 {
    } else if no >= ni {
        lemma_repeat_in_range(no / ni, unit, n_inputs, n_outputs);
        let r = repeat(no / ni, unit);
        assert forall|p: int| 0 <= p < b.len() implies match #[trigger] b[p] {
            Op::Recv(i) => i < n_inputs,
            Op::Send(j) => j < n_outputs,
            Op::Update => true,
        } by {
            if p < r.len() {
                assert(b[p] == r[p]);
            } else {
                assert(b[p] == sd[p - r.len()]);
            }
        }
    } else {
        lemma_repeat_in_range(ni / no, sd, n_inputs, n_outputs);
        let r = repeat(ni / no, sd);
        assert forall|p: int| 0 <= p < b.len() implies match #[trigger] b[p] {
            Op::Recv(i) => i < n_inputs,
            Op::Send(j) => j < n_outputs,
            Op::Update => true,
        } by {
            if p < unit.len() {
                assert(b[p] == unit[p]);
            } else {
                assert(b[p] == r[p - unit.len()]);
            }
        }
    }
}

/// Appends one receive per input to `ops`.
fn push_recvs(ops: &mut Vec<Op>, n: usize)
    ensures
        final(ops)@ == old(ops)@ + recvs(n as nat),
{
    let ghost start = ops@;
    let mut i: usize = 0;
    while i < n
        invariant
            i <= n,
            ops@ == start + recvs(i as nat),
        decreases n - i,
    {
        ops.push(Op::Recv(i));
        i = i + 1;
        assert(ops@ =~= start + recvs(i as nat));
    }
}

/// Appends one send per output to `ops`.
fn push_sends(ops: &mut Vec<Op>, n: usize)
    ensures
        final(ops)@ == old(ops)@ + sends(n as nat),
{
    let ghost start = ops@;
    let mut i: usize = 0;
    while i < n
        invariant
            i <= n,
            ops@ == start + sends(i as nat),
        decreases n - i,
    {
        ops.push(Op::Send(i));
        i = i + 1;
        assert(ops@ =~= start + sends(i as nat));
    }
}

/// The operations of one step of an actor with these rates and ports.
pub fn step_ops(ni: usize, no: usize, n_inputs: usize, n_outputs: usize) -> (r: Vec<Op>)
    requires
        rates_valid(ni as nat, no as nat, n_inputs as nat, n_outputs as nat),
    ensures
        r@ == step_body(ni as nat, no as nat, n_inputs as nat, n_outputs as nat),
{
    let mut ops: Vec<Op> = Vec::new();
    if n_inputs == 0 && n_outputs == 0 {
        assert(ops@ =~= Seq::<Op>::empty());
    } else if n_inputs == 0 {
        ops.push(Op::Update);
        push_sends(&mut ops, n_outputs);
    } else if n_outputs == 0 {
        push_recvs(&mut ops, n_inputs);
        ops.push(Op::Update);
    } else if no >= ni {
        let k = no / ni;
        let ghost unit = recvs(n_inputs as nat).push(Op::Update);
        let mut t: usize = 0;
        while t < k
            invariant
                t <= k,
                ops@ == repeat(t as nat, unit),
                unit == recvs(n_inputs as nat).push(Op::Update),
            decreases k - t,
        {
            push_recvs(&mut ops, n_inputs);
            ops.push(Op::Update);
            t = t + 1;
            assert(ops@ =~= repeat(t as nat, unit));
        }
        push_sends(&mut ops, n_outputs);
    } else {
        push_recvs(&mut ops, n_inputs);
        ops.push(Op::Update);
        let k = ni / no;
        let ghost head = recvs(n_inputs as nat).push(Op::Update);
        let mut t: usize = 0;
        assert(ops@ =~= head + repeat(0, sends(n_outputs as nat)));
        while t < k
            invariant
                t <= k,
                ops@ == head + repeat(t as nat, sends(n_outputs as nat)),
            decreases k - t,
        {
            push_sends(&mut ops, n_outputs);
            t = t + 1;
            assert(ops@ =~= head + repeat(t as nat, sends(n_outputs as nat)));
        }
    }
    ops
}

/// The outcome of checking the rates of an actor named `who` against its
/// ports: a zero rate with ports or a positive rate without, inputs first,
/// then rates that are not integer multiples of each other.
pub open spec fn rates_result(who: String, ni: nat, no: nat, n_inputs: nat, n_outputs: nat) -> Result<
    (),
    ActorError,
> {
    if n_inputs > 0 && ni == 0 {
        Err(ActorError::SomeInputsZeroRate(who))
    } else if n_inputs == 0 && ni > 0 {
        Err(ActorError::NoInputsPositiveRate(who))
    } else if n_outputs > 0 && no == 0 {
        Err(ActorError::SomeOutputsZeroRate(who))
    } else if n_outputs == 0 && no > 0 {
        Err(ActorError::NoOutputsPositiveRate(who))
    } else if !rates_valid(ni, no, n_inputs, n_outputs) {
        Err(ActorError::RateMismatch(who))
    } else {
        Ok(())
    }
}

/// Checks the rates of an actor named `who` against its ports.
pub fn check_rates(who: &String, ni: usize, no: usize, n_inputs: usize, n_outputs: usize) -> (r:
    Result<(), ActorError>)
    ensures
        r == rates_result(*who, ni as nat, no as nat, n_inputs as nat, n_outputs as nat),
        r is Ok <==> rates_valid(ni as nat, no as nat, n_inputs as nat, n_outputs as nat),
{
    if n_inputs > 0 && ni == 0 {
        return Err(ActorError::SomeInputsZeroRate(who.clone()));
    }
    if n_inputs == 0 && ni > 0 {
        return Err(ActorError::NoInputsPositiveRate(who.clone()));
    }
    if n_outputs > 0 && no == 0 {
        return Err(ActorError::SomeOutputsZeroRate(who.clone()));
    }
    if n_outputs == 0 && no > 0 {
        return Err(ActorError::NoOutputsPositiveRate(who.clone()));
    }
    if ni > 0 && no > 0 {
        if no >= ni {
            if no % ni != 0 {
                return Err(ActorError::RateMismatch(who.clone()));
            }
        } else if ni % no != 0 {
            return Err(ActorError::RateMismatch(who.clone()));
        }
    }
    Ok(())
}



/// What came of the operation an actor just performed.
#[derive(Debug, Clone, Copy, PartialEq, Eq, Structural)]
pub enum Outcome {
    /// A receive got a payload.
    Received,
    /// A receive found its channel drained and its sender gone.
    Closed,
    /// The client was updated.
    Updated,
    /// The client produced a payload, taken by that many receivers.
    Sent(usize),
    /// The client produced nothing.
    Exhausted,
}

/// How the loop of an actor named `who` goes on after `outcome`: it goes on
/// (`None`), or it ends with the graceful error given.
pub open spec fn decision(outcome: Outcome, who: String) -> Option<ActorError> {
    match outcome {
        Outcome::Received => None,
        Outcome::Updated => None,
        Outcome::Sent(n) => if n > 0 {
            None
        } else {
            Some(ActorError::DropSend { who })
        },
        Outcome::Closed => Some(ActorError::DropRecv { who }),
        Outcome::Exhausted => Some(ActorError::Disconnected(who)),
    }
}

/// Decides how the loop of an actor named `who` goes on after `outcome`.
pub fn decide(outcome: Outcome, who: &String) -> (r: Option<ActorError>)
    ensures
        r == decision(outcome, *who),
        r matches Some(e) ==> e.spec_is_graceful(),
{
    match outcome {
        Outcome::Received => None,
        Outcome::Updated => None,
        Outcome::Sent(n) => if n > 0 {
            None
        } else {
            Some(ActorError::DropSend { who: who.clone() })
        },
        Outcome::Closed => Some(ActorError::DropRecv { who: who.clone() }),
        Outcome::Exhausted => Some(ActorError::Disconnected(who.clone())),
    }
}

/// Where an actor stands in its loop: the operations of one step, the next
/// one to perform, and whether the loop still runs.
pub struct StepLoop {
    body: Vec<Op>,
    pos: usize,
    running: bool,
}

impl StepLoop {
    pub closed spec fn body(&self) -> Seq<Op> {
        self.body@
    }

    pub closed spec fn pos(&self) -> nat {
        self.pos as nat
    }

    pub closed spec fn running(&self) -> bool {
        self.running
    }

    pub open spec fn wf(&self) -> bool {
        self.running() ==> self.pos() < self.body().len()
    }

    /// The loop of an actor with these rates and ports, before its first step.
    /// An actor with neither inputs nor outputs has nothing to do and is not running.
    pub fn new(ni: usize, no: usize, n_inputs: usize, n_outputs: usize) -> (r: Self)
        requires
            rates_valid(ni as nat, no as nat, n_inputs as nat, n_outputs as nat),
        ensures
            r.wf(),
            r.body() == step_body(ni as nat, no as nat, n_inputs as nat, n_outputs as nat),
            r.pos() == 0,
            r.running() == (n_inputs > 0 || n_outputs > 0),
    {
        let body = step_ops(ni, no, n_inputs, n_outputs);
        proof {
            if n_inputs > 0 || n_outputs > 0 {
                assert(body@.len() > 0) by {
                    if n_inputs == 0 {
                        assert(body@[0] == Op::Update);
                    } else if n_outputs == 0 {
                        assert(body@.last() == Op::Update);
                    } else {
                        if no >= ni {
                            assert(body@.len() == repeat(
                                (no / ni) as nat,
                                recvs(n_inputs as nat).push(Op::Update),
                            ).len() + n_outputs);
                        } else {
                            assert(body@.len() == n_inputs + 1 + repeat(
                                (ni / no) as nat,
                                sends(n_outputs as nat),
                            ).len());
                        }
                    }
                }
            }
        }
        let running = n_inputs > 0 || n_outputs > 0;
        StepLoop { body, pos: 0, running }
    }

    /// The next operation to perform, or nothing once the loop has ended.
    pub fn next_op(&self) -> (r: Option<Op>)
        requires
            self.wf(),
        ensures
            self.running() ==> r == Some(self.body()[self.pos() as int]),
            !self.running() ==> r is None,
    {
        if self.running {
            Some(self.body[self.pos])
        } else {
            None
        }
    }

    pub fn is_running(&self) -> (r: bool)
        ensures
            r == self.running(),
    {
        self.running
    }

    /// Records that the current operation completed: the loop moves to the
    /// next one, wrapping to the start of the next step after the last.
    pub fn advance(&mut self)
        requires
            old(self).wf(),
            old(self).running(),
        ensures
            final(self).wf(),
            final(self).running(),
            final(self).body() == old(self).body(),
            final(self).pos() == (if old(self).pos() + 1 < old(self).body().len() {
                old(self).pos() + 1
            } else {
                0
            }),
    {
        if self.pos < self.body.len() - 1 {
            self.pos = self.pos + 1;
        } else {
            self.pos = 0;
        }
    }

    /// Applies `outcome` of the current operation of the actor named `who`:
    /// the loop moves to the next operation, or ends with the error returned.
    pub fn on_outcome(&mut self, who: &String, outcome: Outcome) -> (r: Option<ActorError>)
        requires
            old(self).wf(),
            old(self).running(),
        ensures
            final(self).wf(),
            r == decision(outcome, *who),
            final(self).body() == old(self).body(),
            r is None ==> final(self).running() && final(self).pos() == (if old(self).pos() + 1
                < old(self).body().len() {
                old(self).pos() + 1
            } else {
                0
            }),
            r is Some ==> !final(self).running() && final(self).pos() == old(self).pos(),
    {
        let r = decide(outcome, who);
        match r {
            None => self.advance(),
            Some(_) => self.stop(),
        }
        r
    }

    /// Ends the loop: a channel closed or the client produced nothing.
    pub fn stop(&mut self)
        requires
            old(self).wf(),
        ensures
            final(self).wf(),
            !final(self).running(),
            final(self).body() == old(self).body(),
            final(self).pos() == old(self).pos(),
    {
        self.running = false;
    }
}

/// An output port: the inputs it feeds, and how it starts and queues.
///
/// It caches no payload: what the client produces goes straight to the
/// channels of the inputs it feeds, as one shared reference. Whether the port
/// is closed is the state of the sending ends of those channels.
#[derive(Debug, Clone)]
pub struct Output {
    targets: Vec<(usize, usize)>,
    bootstrap: bool,
    unbounded: bool,
}

impl Output {
    /// The inputs fed by this output, as (actor, input) index pairs.
    pub closed spec fn spec_targets(&self) -> Seq<(usize, usize)> {
        self.targets@
    }

    pub closed spec fn spec_bootstrap(&self) -> bool {
        self.bootstrap
    }

    pub closed spec fn spec_unbounded(&self) -> bool {
        self.unbounded
    }

    /// An output connected to nothing yet.
    pub fn new(bootstrap: bool, unbounded: bool) -> (r: Self)
        ensures
            r.spec_targets() == Seq::<(usize, usize)>::empty(),
            r.spec_bootstrap() == bootstrap,
            r.spec_unbounded() == unbounded,
    {
        Output { targets: Vec::new(), bootstrap, unbounded }
    }

    /// Fan-out degree: the number of inputs fed.
    pub fn len(&self) -> (r: usize)
        ensures
            r == self.spec_targets().len(),
    {
        self.targets.len()
    }

    pub fn target(&self, k: usize) -> (r: (usize, usize))
        requires
            k < self.spec_targets().len(),
        ensures
            r == self.spec_targets()[k as int],
    {
        self.targets[k]
    }

    pub fn bootstrap(&self) -> (r: bool)
        ensures
            r == self.spec_bootstrap(),
    {
        self.bootstrap
    }

    pub fn unbounded(&self) -> (r: bool)
        ensures
            r == self.spec_unbounded(),
    {
        self.unbounded
    }

    pub(crate) fn push_target(&mut self, target: (usize, usize))
        ensures
            final(self).spec_targets() == old(self).spec_targets().push(target),
            final(self).spec_bootstrap() == old(self).spec_bootstrap(),
            final(self).spec_unbounded() == old(self).spec_unbounded(),
    {
        self.targets.push(target);
    }
}

/// An actor of a model: its name, its inputs and outputs rates, the upstream
/// (actor, output) of each of its inputs, and its outputs.
#[derive(Debug, Clone)]
pub struct Actor {
    name: String,
    ni: usize,
    no: usize,
    inputs: Vec<(usize, usize)>,
    outputs: Vec<Output>,
}

impl Actor {
    pub open spec fn spec_name(&self) -> Seq<char> {
        self.spec_name_string()@
    }

    pub closed spec fn spec_name_string(&self) -> String {
        self.name
    }

    pub closed spec fn spec_ni(&self) -> nat {
        self.ni as nat
    }

    pub closed spec fn spec_no(&self) -> nat {
        self.no as nat
    }

    pub closed spec fn spec_inputs(&self) -> Seq<(usize, usize)> {
        self.inputs@
    }

    pub closed spec fn spec_outputs(&self) -> Seq<Output> {
        self.outputs@
    }

    /// An actor named `name` with inputs rate `ni` and outputs rate `no`, and no ports yet.
    pub fn new(name: String, ni: usize, no: usize) -> (r: Self)
        ensures
            r.spec_name() == name@,
            r.spec_ni() == ni,
            r.spec_no() == no,
            r.spec_inputs() == Seq::<(usize, usize)>::empty(),
            r.spec_outputs() == Seq::<Output>::empty(),
    {
        Actor { name, ni, no, inputs: Vec::new(), outputs: Vec::new() }
    }

    pub fn name(&self) -> (r: &String)
        ensures
            r@ == self.spec_name(),
            *r == self.spec_name_string(),
    {
        &self.name
    }

    pub fn ni(&self) -> (r: usize)
        ensures
            r == self.spec_ni(),
    {
        self.ni
    }

    pub fn no(&self) -> (r: usize)
        ensures
            r == self.spec_no(),
    {
        self.no
    }

    pub fn n_inputs(&self) -> (r: usize)
        ensures
            r == self.spec_inputs().len(),
    {
        self.inputs.len()
    }

    pub fn n_outputs(&self) -> (r: usize)
        ensures
            r == self.spec_outputs().len(),
    {
        self.outputs.len()
    }

    /// The (actor, output) that feeds input `i`.
    pub fn input(&self, i: usize) -> (r: (usize, usize))
        requires
            i < self.spec_inputs().len(),
        ensures
            r == self.spec_inputs()[i as int],
    {
        self.inputs[i]
    }

    pub fn output(&self, j: usize) -> (r: &Output)
        requires
            j < self.spec_outputs().len(),
        ensures
            *r == self.spec_outputs()[j as int],
    {
        &self.outputs[j]
    }

    /// Adds an input fed by `upstream` and returns its index.
    pub(crate) fn push_input(&mut self, upstream: (usize, usize)) -> (r: usize)
        ensures
            r == old(self).spec_inputs().len(),
            final(self).spec_inputs() == old(self).spec_inputs().push(upstream),
            final(self).spec_inputs().len() <= usize::MAX,
            final(self).spec_outputs() == old(self).spec_outputs(),
            final(self).spec_name() == old(self).spec_name(),
            final(self).spec_ni() == old(self).spec_ni(),
            final(self).spec_no() == old(self).spec_no(),
    {
        self.inputs.push(upstream);
        self.inputs.len() - 1
    }

    /// Adds an output and returns its index.
    pub(crate) fn push_output(&mut self, output: Output) -> (r: usize)
        ensures
            r == old(self).spec_outputs().len(),
            final(self).spec_outputs() == old(self).spec_outputs().push(output),
            final(self).spec_outputs().len() <= usize::MAX,
            final(self).spec_inputs() == old(self).spec_inputs(),
            final(self).spec_name() == old(self).spec_name(),
            final(self).spec_ni() == old(self).spec_ni(),
            final(self).spec_no() == old(self).spec_no(),
    {
        self.outputs.push(output);
        self.outputs.len() - 1
    }

    /// Connects output `j` to input `target`.
    pub(crate) fn push_target(&mut self, j: usize, target: (usize, usize))
        requires
            j < old(self).spec_outputs().len(),
        ensures
            final(self).spec_outputs().len() == old(self).spec_outputs().len(),
            final(self).spec_outputs()[j as int].spec_targets() == old(
                self,
            ).spec_outputs()[j as int].spec_targets().push(target),
            final(self).spec_outputs()[j as int].spec_bootstrap() == old(
                self,
            ).spec_outputs()[j as int].spec_bootstrap(),
            final(self).spec_outputs()[j as int].spec_unbounded() == old(
                self,
            ).spec_outputs()[j as int].spec_unbounded(),
            forall|k: int|
                0 <= k < old(self).spec_outputs().len() && k != j ==> final(self).spec_outputs()[k]
                    == old(self).spec_outputs()[k],
            final(self).spec_inputs() == old(self).spec_inputs(),
            final(self).spec_name() == old(self).spec_name(),
            final(self).spec_ni() == old(self).spec_ni(),
            final(self).spec_no() == old(self).spec_no(),
    {
        self.outputs[j].push_target(target);
    }
}

/// Names an actor or a port in messages.
pub trait Who {
    fn who(&self) -> String;
}

impl Who for Actor {
    fn who(&self) -> String {
        self.name.clone()
    }
}

/// What a running model reads of an output, whatever it carries.
pub trait OutputObject {
    /// Whether the output pre-sends one payload at start.
    fn bootstrap(&self) -> bool;

    /// Fan-out degree: the number of inputs fed.
    fn len(&self) -> usize;
}

impl OutputObject for Output {
    fn bootstrap(&self) -> bool {
        self.bootstrap
    }

    fn len(&self) -> usize {
        self.targets.len()
    }
}

/// Builder of an actor without inputs.
pub struct Initiator;

impl Initiator {
    /// An actor named `name` without inputs, with outputs rate `no`.
    pub fn build(name: String, no: usize) -> (r: Actor)
        ensures
            r.spec_name() == name@,
            r.spec_ni() == 0,
            r.spec_no() == no,
            r.spec_inputs() == Seq::<(usize, usize)>::empty(),
            r.spec_outputs() == Seq::<Output>::empty(),
    {
        Actor::new(name, 0, no)
    }
}

/// Builder of an actor without outputs.
pub struct Terminator;

impl Terminator {
    /// An actor named `name` without outputs, with inputs rate `ni`.
    pub fn build(name: String, ni: usize) -> (r: Actor)
        ensures
            r.spec_name() == name@,
            r.spec_ni() == ni,
            r.spec_no() == 0,
            r.spec_inputs() == Seq::<(usize, usize)>::empty(),
            r.spec_outputs() == Seq::<Output>::empty(),
    {
        Actor::new(name, ni, 0)
    }
}

} // verus!
