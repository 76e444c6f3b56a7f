//! Running a validated model: each actor's step loop is driven in turn, and
//! payloads move through one FIFO channel per input.
use crate::actor::{decide, lemma_step_in_range, ops_in_range, step_body, Op, Outcome, StepLoop};
use crate::channel::{Channel, RecvError};
use crate::error::ActorError;
use std::sync::Arc;
use crate::model::{lemma_rate_integrality, Model};
use vstd::prelude::*;

verus! {

/// What an actor's client can do: take a payload from an input, advance one
/// step, and hand a payload to an output. Each has a default that does
/// nothing, or produces nothing.
pub trait Client<T> {
    /// Takes the payload received on input `input`.
    fn consume(&mut self, input: usize, data: Arc<T>) {
    }

    /// Advances the client's state by one step.
    fn update(&mut self) {
    }

    /// The payload for output `output`, or nothing once the client is done.
    fn produce(&mut self, output: usize) -> Option<Arc<T>> {
        None
    }
}

/// A call the scheduler made on a client: a payload handed over from an
/// input, an update, or what the client produced for an output.
pub enum Call<T> {
    Consume(usize, Arc<T>),
    Update,
    Produce(usize, Option<Arc<T>>),
}

/// The state of a running model: each actor's loop, the channel of each
/// input, and how each actor ended.
pub struct Scheduler<T> {
    loops: Vec<StepLoop>,
    inputs: Vec<Vec<Channel<Arc<T>>>>,
    exits: Vec<Option<ActorError>>,
    capacity: usize,
    calls: Ghost<Seq<Seq<Call<T>>>>,
}

impl<T> Scheduler<T> {
    pub closed spec fn spec_loops(&self) -> Seq<StepLoop> {
        self.loops@
    }

    /// The channel that feeds input `i` of actor `d`.
    pub closed spec fn channel(&self, d: int, i: int) -> Channel<Arc<T>> {
        self.inputs@[d]@[i]
    }

    pub closed spec fn n_channels(&self, d: int) -> nat {
        self.inputs@[d]@.len()
    }

    pub closed spec fn spec_exits(&self) -> Seq<Option<ActorError>> {
        self.exits@
    }

    pub closed spec fn n_actors(&self) -> nat {
        self.loops@.len()
    }

    pub closed spec fn n_channel_lists(&self) -> nat {
        self.inputs@.len()
    }

    /// Per actor, every call made on its client so far, in order.
    pub closed spec fn spec_calls(&self) -> Seq<Seq<Call<T>>> {
        self.calls@
    }

    /// How many payloads the channel of an output without the unbounded flag holds.
    pub closed spec fn spec_capacity(&self) -> usize {
        self.capacity
    }

    /// The capacity of the channel of input `i` of actor `d`: none when the
    /// output that feeds it is unbounded, the scheduler's otherwise.
    pub open spec fn expected_capacity(&self, m: &Model, d: int, i: int) -> Option<usize> {
        channel_capacity(m, d, i, self.spec_capacity())
    }

    /// The scheduler matches the model: one loop per actor whose step is the
    /// one its rates and ports call for, one channel per input, bounded
    /// unless the output that feeds it is unbounded, and
    /// an exit recorded for each actor whose loop has ended, all of them
    /// graceful.
    pub open spec fn wf_for(&self, m: &Model) -> bool {
        &&& m.wf()
        &&& self.n_actors() == m.len()
        &&& self.n_channel_lists() == m.len()
        &&& self.spec_exits().len() == m.len()
        &&& self.spec_capacity() > 0
        &&& self.spec_calls().len() == m.len()
        &&& forall|d: int| 0 <= d < m.len() ==> #[trigger] self.actor_ok(m, d)
        &&& forall|d: int, i: int|
            0 <= d < m.len() && 0 <= i < m.n_inputs(d) ==> #[trigger] self.channel_ok(m, d, i)
    }

    /// Actor `d` has one channel per input, the loop its rates call for, and
    /// a graceful exit recorded once its loop has ended.
    pub open spec fn actor_ok(&self, m: &Model, d: int) -> bool {
        &&& self.n_channels(d) == m.n_inputs(d)
        &&& self.spec_loops()[d].wf()
        &&& self.spec_loops()[d].body() == step_body(
            m.spec_actors()[d].spec_ni(),
            m.spec_actors()[d].spec_no(),
            m.n_inputs(d),
            m.n_outputs(d),
        )
        &&& (self.spec_exits()[d] matches Some(e) ==> e.spec_is_graceful())
        &&& (self.spec_exits()[d] is Some ==> !self.spec_loops()[d].running())
        &&& (!self.spec_loops()[d].running() ==> self.spec_exits()[d] is Some || (m.n_inputs(d) == 0
            && m.n_outputs(d) == 0))
    }

    /// The channel of input `i` of actor `d` is well formed, with the
    /// capacity that its upstream output calls for.
    pub open spec fn channel_ok(&self, m: &Model, d: int, i: int) -> bool {
        &&& self.channel(d, i).wf()
        &&& self.channel(d, i).spec_capacity() == self.expected_capacity(m, d, i)
    }

    /// A scheduler for a validated model, before any step: every loop at the
    /// start of its first step, every channel empty and open, no exit yet.
    /// Bounded channels hold `capacity` payloads.
    pub fn new(m: &Model, capacity: usize) -> (r: Self)
        requires
            m.wf(),
            m.check_result() is Ok,
            capacity > 0,
        ensures
            r.wf_for(m),
            r.spec_capacity() == capacity,
            r.spec_calls() == Seq::new(m.len(), |d: int| Seq::<Call<T>>::empty()),
            forall|d: int| 0 <= d < m.len() ==> (#[trigger] r.spec_loops()[d]).pos() == 0,
            forall|d: int|
                0 <= d < m.len() ==> (#[trigger] r.spec_loops()[d]).running() == (m.n_inputs(d) > 0
                    || m.n_outputs(d) > 0),
            forall|d: int| 0 <= d < m.len() ==> (#[trigger] r.spec_exits()[d]) is None,
            forall|d: int, i: int|
                0 <= d < m.len() && 0 <= i < m.n_inputs(d) ==> {
                    &&& (#[trigger] r.channel(d, i)).sent() == Seq::<Arc<T>>::empty()
                    &&& r.channel(d, i)@ == Seq::<Arc<T>>::empty()
                    &&& r.channel(d, i).spec_sender_open()
                    &&& r.channel(d, i).spec_receiver_open()
                },
    {
        proof {
            lemma_rate_integrality(m);
        }
        let n = m.n_actors();
        let mut loops: Vec<StepLoop> = Vec::new();
        let mut inputs: Vec<Vec<Channel<Arc<T>>>> = Vec::new();
        let mut exits: Vec<Option<ActorError>> = Vec::new();
        let mut d: usize = 0;
        while d < n
            invariant
                m.wf(),
                n == m.len(),
                d <= n,
                loops@.len() == d,
                inputs@.len() == d,
                exits@.len() == d,
                forall|a: int|
                    0 <= a < m.len() ==> crate::actor::rates_valid(
                        #[trigger] m.spec_actors()[a].spec_ni(),
                        m.spec_actors()[a].spec_no(),
                        m.n_inputs(a),
                        m.n_outputs(a),
                    ),
                forall|a: int|
                    0 <= a < d ==> {
                        &&& (#[trigger] loops@[a]).wf()
                        &&& loops@[a].pos() == 0
                        &&& loops@[a].running() == (m.n_inputs(a) > 0 || m.n_outputs(a) > 0)
                        &&& loops@[a].body() == step_body(
                            m.spec_actors()[a].spec_ni(),
                            m.spec_actors()[a].spec_no(),
                            m.n_inputs(a),
                            m.n_outputs(a),
                        )
                        &&& exits@[a] is None
                        &&& inputs@[a]@.len() == m.n_inputs(a)
                    },
                forall|a: int, i: int|
                    0 <= a < d && 0 <= i < m.n_inputs(a) ==> {
                        &&& (#[trigger] inputs@[a]@[i]).wf()
                        &&& inputs@[a]@[i].spec_capacity() == channel_capacity(m, a, i, capacity)
                        &&& inputs@[a]@[i].sent() == Seq::<Arc<T>>::empty()
                        &&& inputs@[a]@[i]@ == Seq::<Arc<T>>::empty()
                        &&& inputs@[a]@[i].spec_sender_open()
                        &&& inputs@[a]@[i].spec_receiver_open()
                    },
            decreases n - d,
        {
            let x = m.actor(d);
            let nin = x.n_inputs();
            assert(crate::actor::rates_valid(
                m.spec_actors()[d as int].spec_ni(),
                m.spec_actors()[d as int].spec_no(),
                m.n_inputs(d as int),
                m.n_outputs(d as int),
            ));
            loops.push(StepLoop::new(x.ni(), x.no(), nin, x.n_outputs()));
            let mut chans: Vec<Channel<Arc<T>>> = Vec::new();
            let mut i: usize = 0;
            while i < nin
                invariant
                    i <= nin,
                    chans@.len() == i,
                    forall|k: int|
                        0 <= k < i ==> {
                            &&& (#[trigger] chans@[k]).wf()
                            &&& chans@[k].spec_capacity() == channel_capacity(m, d as int, k, capacity)
                            &&& chans@[k].sent() == Seq::<Arc<T>>::empty()
                            &&& chans@[k]@ == Seq::<Arc<T>>::empty()
                            &&& chans@[k].spec_sender_open()
                            &&& chans@[k].spec_receiver_open()
                        },
                    m.wf(),
                    d < m.len(),
                    nin == m.n_inputs(d as int),
                    *x == m.spec_actors()[d as int],
                decreases nin - i,
            {
                let (u, w) = x.input(i);
                assert(m.upstream(d as int, i as int) == (u, w));
                if m.actor(u).output(w).unbounded() {
                    chans.push(Channel::unbounded());
                } else {
                    chans.push(Channel::bounded(capacity));
                }
                i = i + 1;
            }
            inputs.push(chans);
            exits.push(None);
            d = d + 1;
        }
        let r = Scheduler {
            loops,
            inputs,
            exits,
            capacity,
            calls: Ghost(Seq::new(n as nat, |d: int| Seq::<Call<T>>::empty())),
        };
        proof {
            assert forall|d: int| 0 <= d < m.len() implies (#[trigger] r.spec_exits()[d]) is None by {
                assert(r.loops@[d].wf());
                assert(r.exits@[d] is None);
            }
            assert forall|d: int| 0 <= d < m.len() implies #[trigger] r.actor_ok(m, d) by {
                assert(r.loops@[d].wf());
                assert(r.exits@[d] is None);
            }
            assert forall|d: int, i: int| 0 <= d < m.len() && 0 <= i < m.n_inputs(d) implies {
                &&& #[trigger] r.channel_ok(m, d, i)
                &&& r.channel(d, i).sent() == Seq::<Arc<T>>::empty()
                &&& r.channel(d, i)@ == Seq::<Arc<T>>::empty()
                &&& r.channel(d, i).spec_sender_open()
                &&& r.channel(d, i).spec_receiver_open()
            } by {
                assert(r.loops@[d].wf());
                assert(r.inputs@[d]@[i].wf());
            }
        }
        r
    }

    /// Only channel (d0, i0) differs between `prev` and `self`.
    pub closed spec fn same_but_channel(&self, prev: &Self, d0: int, i0: int) -> bool {
        &&& self.loops@ == prev.loops@
        &&& self.exits@ == prev.exits@
        &&& self.capacity == prev.capacity
        &&& self.calls == prev.calls
        &&& self.inputs@.len() == prev.inputs@.len()
        &&& forall|d: int| 0 <= d < prev.inputs@.len() ==> #[trigger] self.inputs@[d]@.len() == prev.inputs@[d]@.len()
        &&& forall|d: int, i: int|
            0 <= d < prev.inputs@.len() && 0 <= i < prev.inputs@[d]@.len() && (d != d0 || i != i0)
                ==> #[trigger] self.inputs@[d]@[i] == prev.inputs@[d]@[i]
    }

    proof fn lemma_same_but_channel(&self, prev: &Self, m: &Model, d0: int, i0: int)
        requires
            prev.wf_for(m),
            self.same_but_channel(prev, d0, i0),
            0 <= d0 < m.len(),
            0 <= i0 < m.n_inputs(d0),
            self.channel(d0, i0).wf(),
            self.channel(d0, i0).spec_capacity() == prev.channel(d0, i0).spec_capacity(),
        ensures
            self.wf_for(m),
            forall|d: int, i: int|
                0 <= d < m.len() && 0 <= i < m.n_inputs(d) && (d != d0 || i != i0) ==> #[trigger] self.channel(d, i)
                    == prev.channel(d, i),
    {
        assert(self.n_actors() == m.len());
        assert(self.n_channel_lists() == m.len());
        assert(self.spec_exits().len() == m.len());
        assert forall|d: int| 0 <= d < m.len() implies #[trigger] self.actor_ok(m, d) by {
            assert(prev.actor_ok(m, d));
        }
        assert forall|d: int, i: int| 0 <= d < m.len() && 0 <= i < m.n_inputs(d) implies #[trigger] self.channel_ok(m, d, i) by {
            assert(prev.actor_ok(m, d));
            assert(prev.channel_ok(m, d, i));
            if d != d0 || i != i0 {
                assert(self.inputs@[d]@[i] == prev.inputs@[d]@[i]);
            }
        }
        assert forall|d: int, i: int|
            0 <= d < m.len() && 0 <= i < m.n_inputs(d) && (d != d0 || i != i0) implies #[trigger] self.channel(d, i)
                == prev.channel(d, i) by {
            assert(prev.actor_ok(m, d));
            assert(self.inputs@[d]@[i] == prev.inputs@[d]@[i]);
        }
    }

    fn close_receiver_at(&mut self, m: &Model, d: usize, i: usize)
        requires
            old(self).wf_for(m),
            d < m.len(),
            i < m.n_inputs(d as int),
        ensures
            final(self).spec_calls() == old(self).spec_calls(),
            final(self).wf_for(m),
            final(self).spec_loops() == old(self).spec_loops(),
            final(self).spec_exits() == old(self).spec_exits(),
            forall|b: int, k: int|
                0 <= b < m.len() && 0 <= k < m.n_inputs(b) && (b != d || k != i) ==> #[trigger] final(self).channel(b, k)
                    == old(self).channel(b, k),
            final(self).channel(d as int, i as int)@ == old(self).channel(d as int, i as int)@,
            final(self).channel(d as int, i as int).sent() == old(self).channel(d as int, i as int).sent(),
            final(self).channel(d as int, i as int).received() == old(self).channel(d as int, i as int).received(),
            final(self).channel(d as int, i as int).spec_sender_open() == old(self).channel(d as int, i as int).spec_sender_open(),
            !final(self).channel(d as int, i as int).spec_receiver_open(),
    {
        let ghost prev = *self;
        assert(self.actor_ok(m, d as int));
        assert(self.channel_ok(m, d as int, i as int));
        self.inputs[d][i].close_receiver();
        proof {
            self.lemma_same_but_channel(&prev, m, d as int, i as int);
        }
    }

    fn close_sender_at(&mut self, m: &Model, d: usize, i: usize)
        requires
            old(self).wf_for(m),
            d < m.len(),
            i < m.n_inputs(d as int),
        ensures
            final(self).spec_calls() == old(self).spec_calls(),
            final(self).wf_for(m),
            final(self).spec_loops() == old(self).spec_loops(),
            final(self).spec_exits() == old(self).spec_exits(),
            forall|b: int, k: int|
                0 <= b < m.len() && 0 <= k < m.n_inputs(b) && (b != d || k != i) ==> #[trigger] final(self).channel(b, k)
                    == old(self).channel(b, k),
            final(self).channel(d as int, i as int)@ == old(self).channel(d as int, i as int)@,
            final(self).channel(d as int, i as int).sent() == old(self).channel(d as int, i as int).sent(),
            final(self).channel(d as int, i as int).received() == old(self).channel(d as int, i as int).received(),
            final(self).channel(d as int, i as int).spec_receiver_open() == old(self).channel(d as int, i as int).spec_receiver_open(),
            !final(self).channel(d as int, i as int).spec_sender_open(),
    {
        let ghost prev = *self;
        assert(self.actor_ok(m, d as int));
        assert(self.channel_ok(m, d as int, i as int));
        self.inputs[d][i].close_sender();
        proof {
            self.lemma_same_but_channel(&prev, m, d as int, i as int);
        }
    }

    fn recv_at(&mut self, m: &Model, d: usize, i: usize) -> (r: Result<Arc<T>, RecvError>)
        requires
            old(self).wf_for(m),
            d < m.len(),
            i < m.n_inputs(d as int),
        ensures
            final(self).spec_calls() == old(self).spec_calls(),
            final(self).wf_for(m),
            final(self).spec_loops() == old(self).spec_loops(),
            final(self).spec_exits() == old(self).spec_exits(),
            forall|b: int, k: int|
                0 <= b < m.len() && 0 <= k < m.n_inputs(b) && (b != d || k != i) ==> #[trigger] final(self).channel(b, k)
                    == old(self).channel(b, k),
            ({
                let c0 = old(self).channel(d as int, i as int);
                let c1 = final(self).channel(d as int, i as int);
                &&& c1.sent() == c0.sent()
                &&& c1.spec_sender_open() == c0.spec_sender_open()
                &&& c1.spec_receiver_open() == c0.spec_receiver_open()
                &&& c0@.len() > 0 ==> r == Ok::<Arc<T>, RecvError>(c0@[0]) && c1@ == c0@.drop_first()
                    && c1.received() == c0.received().push(c0@[0])
                &&& c0@.len() == 0 && c0.spec_sender_open() ==> r == Err::<Arc<T>, RecvError>(RecvError::Empty)
                &&& c0@.len() == 0 && !c0.spec_sender_open() ==> r == Err::<Arc<T>, RecvError>(RecvError::Closed)
                &&& r is Err ==> c1 == c0
            }),
    {
        let ghost prev = *self;
        assert(self.actor_ok(m, d as int));
        assert(self.channel_ok(m, d as int, i as int));
        let r = self.inputs[d][i].try_recv();
        proof {
            self.lemma_same_but_channel(&prev, m, d as int, i as int);
        }
        r
    }

    /// Queues `value` on channel (d, i); false when its receiver is gone or
    /// it is full.
    fn send_at(&mut self, m: &Model, d: usize, i: usize, value: Arc<T>) -> (r: bool)
        requires
            old(self).wf_for(m),
            d < m.len(),
            i < m.n_inputs(d as int),
        ensures
            final(self).spec_calls() == old(self).spec_calls(),
            final(self).spec_capacity() == old(self).spec_capacity(),
            final(self).wf_for(m),
            final(self).spec_loops() == old(self).spec_loops(),
            final(self).spec_exits() == old(self).spec_exits(),
            forall|b: int, k: int|
                0 <= b < m.len() && 0 <= k < m.n_inputs(b) && (b != d || k != i) ==> #[trigger] final(self).channel(b, k)
                    == old(self).channel(b, k),
            ({
                let c0 = old(self).channel(d as int, i as int);
                let c1 = final(self).channel(d as int, i as int);
                &&& r == (c0.spec_receiver_open() && !c0.spec_is_full())
                &&& c1.received() == c0.received()
                &&& c1.spec_sender_open() == c0.spec_sender_open()
                &&& c1.spec_receiver_open() == c0.spec_receiver_open()
                &&& r ==> c1@ == c0@.push(value) && c1.sent() == c0.sent().push(value)
                &&& !r ==> c1 == c0
            }),
    {
        let ghost prev = *self;
        assert(self.actor_ok(m, d as int));
        assert(self.channel_ok(m, d as int, i as int));
        let r = self.inputs[d][i].try_send(value);
        proof {
            self.lemma_same_but_channel(&prev, m, d as int, i as int);
        }
        r.is_ok()
    }

    /// Sends `value` to every input that output `j` of actor `a` feeds, and
    /// returns how many of them still had a receiver.
    pub fn send_to_all(&mut self, m: &Model, a: usize, j: usize, value: Arc<T>) -> (r: usize)
        requires
            old(self).wf_for(m),
            a < m.len(),
            j < m.n_outputs(a as int),
            old(self).has_room(m, a as int, j as int),
        ensures
            final(self).spec_calls() == old(self).spec_calls(),
            final(self).spec_capacity() == old(self).spec_capacity(),
            final(self).wf_for(m),
            final(self).spec_loops() == old(self).spec_loops(),
            final(self).spec_exits() == old(self).spec_exits(),
            r <= m.targets(a as int, j as int).len(),
            (r == 0) == (forall|k: int| 0 <= k < m.targets(a as int, j as int).len() ==> {
                let (d, i) = #[trigger] m.targets(a as int, j as int)[k];
                !old(self).channel(d as int, i as int).spec_receiver_open()
            }),
            forall|k: int| 0 <= k < m.targets(a as int, j as int).len() ==> {
                let (d, i) = #[trigger] m.targets(a as int, j as int)[k];
                let c0 = old(self).channel(d as int, i as int);
                let c1 = final(self).channel(d as int, i as int);
                &&& c0.spec_receiver_open() ==> c1@ == c0@.push(value) && c1.sent() == c0.sent().push(value)
                &&& !c0.spec_receiver_open() ==> c1 == c0
                &&& c1.received() == c0.received()
                &&& c1.spec_sender_open() == c0.spec_sender_open()
                &&& c1.spec_receiver_open() == c0.spec_receiver_open()
            },
            forall|d: int, i: int|
                0 <= d < m.len() && 0 <= i < m.n_inputs(d) && !m.targets(a as int, j as int).contains(
                    (d as usize, i as usize),
                ) ==> #[trigger] final(self).channel(d, i) == old(self).channel(d, i),
            forall|d: int, i: int|
                0 <= d < m.len() && 0 <= i < m.n_inputs(d) ==> {
                    let c0 = old(self).channel(d, i);
                    let c1 = final(self).channel(d, i);
                    if #[trigger] m.upstream(d, i) == (a, j) && c0.spec_receiver_open() {
                        &&& c1@ == c0@.push(value)
                        &&& c1.sent() == c0.sent().push(value)
                        &&& c1.received() == c0.received()
                        &&& c1.spec_sender_open() == c0.spec_sender_open()
                        &&& c1.spec_receiver_open() == c0.spec_receiver_open()
                    } else {
                        c1 == c0
                    }
                },
    {
        let o = m.actor(a).output(j);
        let nt = o.len();
        let ghost t = m.targets(a as int, j as int);
        let mut count: usize = 0;
        let mut k: usize = 0;
        while k < nt
            invariant
                self.spec_calls() == old(self).spec_calls(),
                self.spec_capacity() == old(self).spec_capacity(),
                self.wf_for(m),
                a < m.len(),
                j < m.n_outputs(a as int),
                *o == m.spec_actors()[a as int].spec_outputs()[j as int],
                t == m.targets(a as int, j as int),
                t.no_duplicates(),
                old(self).has_room(m, a as int, j as int),
                old(self).wf_for(m),
                nt == t.len(),
                k <= nt,
                count <= k,
                self.spec_loops() == old(self).spec_loops(),
                self.spec_exits() == old(self).spec_exits(),
                (count == 0) == (forall|q: int| 0 <= q < k ==> {
                    let (d, i) = #[trigger] t[q];
                    !old(self).channel(d as int, i as int).spec_receiver_open()
                }),
                forall|q: int| 0 <= q < k ==> {
                    let (d, i) = #[trigger] t[q];
                    let c0 = old(self).channel(d as int, i as int);
                    let c1 = self.channel(d as int, i as int);
                    &&& c0.spec_receiver_open() ==> c1@ == c0@.push(value) && c1.sent() == c0.sent().push(value)
                    &&& !c0.spec_receiver_open() ==> c1 == c0
                    &&& c1.received() == c0.received()
                    &&& c1.spec_sender_open() == c0.spec_sender_open()
                    &&& c1.spec_receiver_open() == c0.spec_receiver_open()
                },
                forall|d: int, i: int|
                    0 <= d < m.len() && 0 <= i < m.n_inputs(d) && !t.subrange(0, k as int).contains(
                        (d as usize, i as usize),
                    ) ==> #[trigger] self.channel(d, i) == old(self).channel(d, i),
            decreases nt - k,
        {
            let (d, i) = o.target(k);
            assert(t[k as int] == (d, i));
            let ghost before = *self;
            proof {
                assert(!t.subrange(0, k as int).contains((d, i))) by {
                    if t.subrange(0, k as int).contains((d, i)) {
                        let w = choose|w: int| 0 <= w < k && t.subrange(0, k as int)[w] == (d, i);
                        assert(t[w] == t[k as int]);
                    }
                }
            }
            assert(self.channel(d as int, i as int) == old(self).channel(d as int, i as int));
            assert(old(self).channel(d as int, i as int).spec_receiver_open() ==> !old(self).channel(
                d as int,
                i as int,
            ).spec_is_full());
            let ok = self.send_at(m, d, i, share(&value));
            if ok {
                count = count + 1;
            }
            proof {
                assert forall|q: int| 0 <= q < k + 1 implies {
                    let (dd, ii) = #[trigger] t[q];
                    let c0 = old(self).channel(dd as int, ii as int);
                    let c1 = self.channel(dd as int, ii as int);
                    &&& c0.spec_receiver_open() ==> c1@ == c0@.push(value) && c1.sent() == c0.sent().push(value)
                    &&& !c0.spec_receiver_open() ==> c1 == c0
                    &&& c1.received() == c0.received()
                    &&& c1.spec_sender_open() == c0.spec_sender_open()
                    &&& c1.spec_receiver_open() == c0.spec_receiver_open()
                } by {
                    if q < k {
                        assert(t[q] != t[k as int]);
                        let (dd, ii) = t[q];
                        assert(dd < m.len() && ii < m.n_inputs(dd as int));
                        assert(self.channel(dd as int, ii as int) == before.channel(dd as int, ii as int));
                    }
                }
                assert forall|dd: int, ii: int|
                    0 <= dd < m.len() && 0 <= ii < m.n_inputs(dd) && !t.subrange(0, k + 1).contains(
                        (dd as usize, ii as usize),
                    ) implies #[trigger] self.channel(dd, ii) == old(self).channel(dd, ii) by {
                    if t.subrange(0, k as int).contains((dd as usize, ii as usize)) {
                        let w = choose|w: int| 0 <= w < k && t.subrange(0, k as int)[w] == (dd as usize, ii as usize);
                        assert(t.subrange(0, k + 1)[w] == (dd as usize, ii as usize));
                    }
                    assert(t.subrange(0, k + 1)[k as int] == (d, i));
                    assert(self.channel(dd, ii) == before.channel(dd, ii));
                }
            }
            k = k + 1;
        }
        proof {
            assert(t.subrange(0, nt as int) =~= t);
            assert forall|d: int, i: int| 0 <= d < m.len() && 0 <= i < m.n_inputs(d) implies {
                let c0 = old(self).channel(d, i);
                let c1 = self.channel(d, i);
                if #[trigger] m.upstream(d, i) == (a, j) && c0.spec_receiver_open() {
                    &&& c1@ == c0@.push(value)
                    &&& c1.sent() == c0.sent().push(value)
                    &&& c1.received() == c0.received()
                    &&& c1.spec_sender_open() == c0.spec_sender_open()
                    &&& c1.spec_receiver_open() == c0.spec_receiver_open()
                } else {
                    c1 == c0
                }
            } by {
                if t.contains((d as usize, i as usize)) {
                    let k = choose|k: int| 0 <= k < t.len() && t[k] == (d as usize, i as usize);
                    assert(t[k] == (d as usize, i as usize));
                    assert(m.upstream(d, i) == (a, j));
                } else {
                    if m.upstream(d, i) == (a, j) {
                        assert(t.contains((d as usize, i as usize)));
                    }
                }
            }
        }
        count
    }

    /// Whether every input fed by output `j` of actor `a` that still has its
    /// receiver can take one more payload.
    pub fn room(&self, m: &Model, a: usize, j: usize) -> (r: bool)
        requires
            self.wf_for(m),
            a < m.len(),
            j < m.n_outputs(a as int),
        ensures
            r == self.has_room(m, a as int, j as int),
    {
        let o = m.actor(a).output(j);
        let nt = o.len();
        let mut k: usize = 0;
        while k < nt
            invariant
                self.wf_for(m),
                a < m.len(),
                j < m.n_outputs(a as int),
                *o == m.spec_actors()[a as int].spec_outputs()[j as int],
                nt == m.targets(a as int, j as int).len(),
                k <= nt,
                forall|q: int| 0 <= q < k ==> {
                    let (d, i) = #[trigger] m.targets(a as int, j as int)[q];
                    self.channel(d as int, i as int).spec_receiver_open() ==> !self.channel(
                        d as int,
                        i as int,
                    ).spec_is_full()
                },
            decreases nt - k,
        {
            let (d, i) = o.target(k);
            assert(m.targets(a as int, j as int)[k as int] == (d, i));
            assert(self.actor_ok(m, d as int));
            let c = &self.inputs[d][i];
            if c.receiver_open() && c.is_full() {
                return false;
            }
            k = k + 1;
        }
        true
    }

    /// Hands on what the client of actor `a` produced for output `j`:
    /// nothing ends the loop with `Disconnected`; a payload goes to every
    /// input of `j` whose receiver is there, and the loop moves on, or ends
    /// with `DropSend` when no receiver is left.
    pub fn distribute(&mut self, m: &Model, a: usize, j: usize, produced: Option<Arc<T>>)
        requires
            old(self).wf_for(m),
            a < m.len(),
            j < m.n_outputs(a as int),
            old(self).spec_loops()[a as int].running(),
            old(self).has_room(m, a as int, j as int),
        ensures
            final(self).spec_calls() == old(self).spec_calls(),
            final(self).wf_for(m),
            final(self).others_kept(old(self), m, a as int),
            final(self).send_outcome(old(self), m, a as int, j as int, produced),
    {
        let x = m.actor(a);
        assert(self.actor_ok(m, a as int));
        match produced {
            None => {
                match decide(Outcome::Exhausted, x.name()) {
                    Some(e) => self.stop(m, a, e),
                    None => {},
                }
            },
            Some(v) => {
                let ghost s0 = *self;
                let n = self.send_to_all(m, a, j, v);
                let ghost s1 = *self;
                assert(self.actor_ok(m, a as int));
                match decide(Outcome::Sent(n), x.name()) {
                    None => {
                        self.loops[a].advance();
                        proof {
                            self.lemma_loop_advanced(&s1, m, a as int);
                            assert(!s0.all_closed(m, a as int, j as int)) by {
                                if s0.all_closed(m, a as int, j as int) {
                                    assert forall|k: int| 0 <= k < m.targets(a as int, j as int).len() implies {
                                        let (d, i) = #[trigger] m.targets(a as int, j as int)[k];
                                        !s0.channel(d as int, i as int).spec_receiver_open()
                                    } by {}
                                }
                            }
                            assert(self.pushed(&s0, m, a as int, j as int, v));
                        }
                    },
                    Some(e) => {
                        proof {
                            assert forall|d: int, i: int| 0 <= d < m.len() && 0 <= i < m.n_inputs(d) implies
                                #[trigger] s1.channel(d, i) == s0.channel(d, i) by {
                                if m.upstream(d, i) == (a, j) {
                                    assert(m.targets(a as int, j as int).contains((d as usize, i as usize)));
                                    let k = choose|k: int| 0 <= k < m.targets(a as int, j as int).len()
                                        && m.targets(a as int, j as int)[k] == (d as usize, i as usize);
                                    assert(m.targets(a as int, j as int)[k] == (d as usize, i as usize));
                                }
                            }
                            assert(s0.all_closed(m, a as int, j as int));
                        }
                        self.stop(m, a, e);
                    },
                }
            },
        }
    }

    /// Performs the next operation of actor `a` with its client `client`, and
    /// returns whether the actor moved: an operation completed or its loop
    /// ended. A receive on an empty open channel waits and changes nothing.
    pub fn turn<C: Client<T>>(&mut self, m: &Model, client: &mut C, a: usize) -> (r: bool)
        requires
            old(self).wf_for(m),
            a < m.len(),
        ensures
            final(self).wf_for(m),
            final(self).turn_post(old(self), m, a as int, r),
            !r ==> *final(client) == *old(client),
            old(self).recv_closed(m, a as int) ==> *final(client) == *old(client),
    {
        let ghost s0 = *self;
        assert(self.actor_ok(m, a as int));
        let op = self.loops[a].next_op();
        match op {
            None => false,
            Some(op) => {
                let x = m.actor(a);
                proof {
                    lemma_step_in_range(x.spec_ni(), x.spec_no(), m.n_inputs(a as int), m.n_outputs(a as int));
                    let b = self.spec_loops()[a as int].body();
                    let p = self.spec_loops()[a as int].pos() as int;
                    assert(b == step_body(x.spec_ni(), x.spec_no(), m.n_inputs(a as int), m.n_outputs(a as int)));
                    assert(ops_in_range(b, m.n_inputs(a as int), m.n_outputs(a as int)));
                    assert(b[p] == op);
                    assert(match b[p] {
                        Op::Recv(i) => i < m.n_inputs(a as int),
                        Op::Send(j) => j < m.n_outputs(a as int),
                        Op::Update => true,
                    });
                }
                match op {
                    Op::Recv(i) => {
                        match self.recv_at(m, a, i) {
                            Ok(v) => {
                                let ghost s_recv = *self;
                                proof {
                                    let pre = *self;
                            self.calls@ = self.calls@.update(a as int, self.calls@[a as int].push(Call::Consume(i, v)));
                            self.lemma_wf_calls(&pre, m);
                                }
                                client.consume(i, v);
                                assert(self.actor_ok(m, a as int));
                                let ghost prev = *self;
                                self.loops[a].advance();
                                proof {
                                    self.lemma_loop_advanced(&prev, m, a as int);
                                    assert(self.inputs@ == prev.inputs@);
                                    assert(self.channel(a as int, i as int) == prev.channel(a as int, i as int));
                                    assert forall|d: int, k: int|
                                        0 <= d < m.len() && 0 <= k < m.n_inputs(d) && (d != a || k != i) implies
                                        #[trigger] self.channel(d, k) == s0.channel(d, k) by {
                                        assert(self.channel(d, k) == prev.channel(d, k));
                                        assert(prev.inputs == s_recv.inputs);
                                        assert(prev.channel(d, k) == s_recv.channel(d, k));
                                    }
                                    assert(self.advanced(&s0, a as int));
                                }
                                true
                            },
                            Err(RecvError::Empty) => false,
                            Err(RecvError::Closed) => {
                                match decide(Outcome::Closed, x.name()) {
                                    Some(e) => self.stop(m, a, e),
                                    None => {},
                                }
                                assert(self.closed_for(&s0, m, a as int));
                                assert(self.stopped_with(a as int, ActorError::DropRecv { who: x.spec_name_string() }));
                                true
                            },
                        }
                    },
                    Op::Update => {
                        client.update();
                        proof {
                            let pre = *self;
                            self.calls@ = self.calls@.update(a as int, self.calls@[a as int].push(Call::Update));
                            self.lemma_wf_calls(&pre, m);
                        }
                        let ghost prev = *self;
                        self.loops[a].advance();
                        proof {
                            self.lemma_loop_advanced(&prev, m, a as int);
                            assert(self.same_channels(&s0, m));
                        }
                        true
                    },
                    Op::Send(j) => {
                        if !self.room(m, a, j) {
                            return false;
                        }
                        let produced = client.produce(j);
                        let ghost p = produced;
                        proof {
                            let pre = *self;
                            self.calls@ = self.calls@.update(a as int, self.calls@[a as int].push(Call::Produce(j, p)));
                            self.lemma_wf_calls(&pre, m);
                        }
                        self.distribute(m, a, j, produced);
                        assert(self.send_outcome(&s0, m, a as int, j as int, p));
                        true
                    },
                }
            },
        }
    }

    proof fn lemma_wf_calls(&self, prev: &Self, m: &Model)
        requires
            prev.wf_for(m),
            self.loops == prev.loops,
            self.inputs == prev.inputs,
            self.exits == prev.exits,
            self.capacity == prev.capacity,
            self.calls@.len() == prev.calls@.len(),
        ensures
            self.wf_for(m),
    {
        assert(self.n_actors() == m.len());
        assert(self.n_channel_lists() == m.len());
        assert(self.spec_exits().len() == m.len());
        assert forall|d: int| 0 <= d < m.len() implies #[trigger] self.actor_ok(m, d) by {
            assert(prev.actor_ok(m, d));
        }
        assert forall|d: int, i: int| 0 <= d < m.len() && 0 <= i < m.n_inputs(d) implies #[trigger] self.channel_ok(m, d, i) by {
            assert(prev.channel_ok(m, d, i));
        }
    }

    proof fn lemma_loop_advanced(&self, prev: &Self, m: &Model, a: int)
        requires
            prev.wf_for(m),
            0 <= a < m.len(),
            prev.spec_loops()[a].running(),
            self.loops@ == prev.loops@.update(a, self.loops@[a]),
            self.loops@[a].wf(),
            self.loops@[a].running(),
            self.loops@[a].body() == prev.loops@[a].body(),
            self.exits@ == prev.exits@,
            self.inputs@ == prev.inputs@,
            self.capacity == prev.capacity,
            self.calls == prev.calls,
        ensures
            self.wf_for(m),
    {
        assert(self.n_actors() == m.len());
        assert(self.n_channel_lists() == m.len());
        assert(self.spec_exits().len() == m.len());
        assert forall|d: int| 0 <= d < m.len() implies #[trigger] self.actor_ok(m, d) by {
            assert(prev.actor_ok(m, d));
        }
        assert forall|d: int, i: int| 0 <= d < m.len() && 0 <= i < m.n_inputs(d) implies #[trigger] self.channel_ok(m, d, i) by {
            assert(prev.channel_ok(m, d, i));
        }
    }

    /// Pre-sends what the client of actor `a` produced for output `j` at
    /// start: a payload goes to every input of `j` whose receiver is there,
    /// nothing changes otherwise. Returns whether a payload went out.
    pub fn pre_send(&mut self, m: &Model, a: usize, j: usize, produced: Option<Arc<T>>) -> (r: bool)
        requires
            old(self).wf_for(m),
            a < m.len(),
            j < m.n_outputs(a as int),
            old(self).has_room(m, a as int, j as int),
        ensures
            final(self).spec_calls() == old(self).spec_calls(),
            final(self).spec_capacity() == old(self).spec_capacity(),
            final(self).wf_for(m),
            final(self).spec_loops() == old(self).spec_loops(),
            final(self).spec_exits() == old(self).spec_exits(),
            r == produced is Some,
            produced matches Some(v) ==> final(self).pushed(old(self), m, a as int, j as int, v),
            produced is None ==> final(self).same_channels(old(self), m),
    {
        match produced {
            Some(v) => {
                let ghost s0 = *self;
                self.send_to_all(m, a, j, v);
                assert(self.pushed(&s0, m, a as int, j as int, v));
                true
            },
            None => false,
        }
    }

    /// Pre-sends one payload on each bootstrap output of actor `a`: each such
    /// output whose client produces a payload hands it to every input it
    /// feeds. Returns, per output of `a`, whether a payload went out.
    #[verifier::rlimit(100)]
    pub fn bootstrap_actor<C: Client<T>>(&mut self, m: &Model, client: &mut C, a: usize) -> (r: Vec<bool>)
        requires
            old(self).wf_for(m),
            a < m.len(),
            forall|d: int, i: int|
                0 <= d < m.len() && 0 <= i < m.n_inputs(d) && (#[trigger] m.upstream(d, i)).0 == a
                    ==> old(self).channel(d, i)@.len() == 0,
            old(self).spec_calls()[a as int] == Seq::<Call<T>>::empty(),
            forall|d: int, i: int|
                0 <= d < m.len() && 0 <= i < m.n_inputs(d) && (#[trigger] m.upstream(d, i)).0 == a
                    ==> old(self).channel(d, i).sent() == Seq::<Arc<T>>::empty() && old(self).channel(d, i).spec_receiver_open(),
        ensures
            forall|d: int, i: int|
                0 <= d < m.len() && 0 <= i < m.n_inputs(d) && (#[trigger] m.upstream(d, i)).0 == a
                    ==> final(self).channel(d, i).sent() == produced_on(final(self).spec_calls()[a as int], m.upstream(d, i).1),
            forall|i: usize| #[trigger] consumed_on(final(self).spec_calls()[a as int], i) == Seq::<Arc<T>>::empty(),
            final(self).spec_calls().len() == old(self).spec_calls().len(),
            forall|b: int| 0 <= b < m.len() && b != a ==> #[trigger] final(self).spec_calls()[b] == old(self).spec_calls()[b],
            asked_bootstrap(m, a as int, m.n_outputs(a as int) as int, old(self).spec_calls()[a as int], final(self).spec_calls()[a as int], r@),
            final(self).spec_capacity() == old(self).spec_capacity(),
            final(self).wf_for(m),
            final(self).spec_loops() == old(self).spec_loops(),
            final(self).spec_exits() == old(self).spec_exits(),
            r@.len() == m.n_outputs(a as int),
            forall|j: int| 0 <= j < r@.len() && r@[j] ==> m.spec_actors()[a as int].spec_outputs()[j].spec_bootstrap(),
            forall|d: int, i: int|
                0 <= d < m.len() && 0 <= i < m.n_inputs(d) ==> pre_sent(
                    old(self).channel(d, i),
                    final(self).channel(d, i),
                    fed_by(#[trigger] m.upstream(d, i), a, r@, r@.len() as int),
                ),
    {
        let x = m.actor(a);
        let nout = x.n_outputs();
        let mut r: Vec<bool> = Vec::new();
        assert(self.spec_calls()[a as int].take(self.spec_calls()[a as int].len() as int) =~= self.spec_calls()[a as int]);
        let mut j: usize = 0;
        while j < nout
            invariant
                forall|d: int, i: int|
                    0 <= d < m.len() && 0 <= i < m.n_inputs(d) && (#[trigger] m.upstream(d, i)).0 == a
                        ==> self.channel(d, i).sent() == produced_on(self.spec_calls()[a as int], m.upstream(d, i).1)
                        && self.channel(d, i).spec_receiver_open(),
                forall|i: usize| #[trigger] consumed_on(self.spec_calls()[a as int], i) == Seq::<Arc<T>>::empty(),
                forall|d: int, i: int|
                    0 <= d < m.len() && 0 <= i < m.n_inputs(d) && (#[trigger] m.upstream(d, i)).0 == a
                        ==> old(self).channel(d, i).sent() == Seq::<Arc<T>>::empty() && old(self).channel(d, i).spec_receiver_open(),
                self.spec_calls().len() == old(self).spec_calls().len(),
                forall|b: int| 0 <= b < m.len() && b != a ==> #[trigger] self.spec_calls()[b] == old(self).spec_calls()[b],
                asked_bootstrap(m, a as int, j as int, old(self).spec_calls()[a as int], self.spec_calls()[a as int], r@),
                self.spec_capacity() == old(self).spec_capacity(),
                self.wf_for(m),
                a < m.len(),
                *x == m.spec_actors()[a as int],
                nout == m.n_outputs(a as int),
                j <= nout,
                r@.len() == j,
                self.spec_loops() == old(self).spec_loops(),
                self.spec_exits() == old(self).spec_exits(),
                forall|q: int| 0 <= q < r@.len() && r@[q] ==> m.spec_actors()[a as int].spec_outputs()[q].spec_bootstrap(),
                forall|d: int, i: int|
                    0 <= d < m.len() && 0 <= i < m.n_inputs(d) ==> pre_sent(
                        old(self).channel(d, i),
                        self.channel(d, i),
                        fed_by(#[trigger] m.upstream(d, i), a, r@, j as int),
                    ),
                forall|d: int, i: int|
                    0 <= d < m.len() && 0 <= i < m.n_inputs(d) && (#[trigger] m.upstream(d, i)).0 == a
                        ==> old(self).channel(d, i)@.len() == 0,
            decreases nout - j,
        {
            let ghost before = *self;
            let ghost rb = r@;
            let ghost mut gp: Option<Arc<T>> = None;
            let mut sent = false;
            if x.output(j).bootstrap() {
                proof {
                    assert forall|k: int| 0 <= k < m.targets(a as int, j as int).len() implies {
                        let (d, i) = #[trigger] m.targets(a as int, j as int)[k];
                        self.channel(d as int, i as int).spec_receiver_open() ==> !self.channel(
                            d as int,
                            i as int,
                        ).spec_is_full()
                    } by {
                        let (d, i) = m.targets(a as int, j as int)[k];
                        assert(m.upstream(d as int, i as int) == (a, j));
                        assert(pre_sent(
                            old(self).channel(d as int, i as int),
                            self.channel(d as int, i as int),
                            fed_by(m.upstream(d as int, i as int), a, r@, j as int),
                        ));
                        assert(self.channel_ok(m, d as int, i as int));
                    }
                }
                let produced = client.produce(j);
                let ghost p = produced;
                proof {
                    gp = p;
                    let pre = *self;
                    self.calls@ = self.calls@.update(a as int, self.calls@[a as int].push(Call::Produce(j, p)));
                    self.lemma_wf_calls(&pre, m);
                }
                sent = self.pre_send(m, a, j, produced);
                assert(sent == p is Some);
            }
            let ghost cb = before.spec_calls()[a as int];
            r.push(sent);
            proof {
                lemma_on_push(cb, Call::Produce(j, gp));
                if x.spec_outputs()[j as int].spec_bootstrap() {
                    assert(self.spec_calls()[a as int] == cb.push(Call::Produce(j, gp)));
                } else {
                    assert(self.spec_calls()[a as int] == cb);
                }
                assert forall|i: usize| #[trigger] consumed_on(self.spec_calls()[a as int], i) == Seq::<Arc<T>>::empty() by {
                    assert(consumed_on(cb, i) == Seq::<Arc<T>>::empty());
                    if x.spec_outputs()[j as int].spec_bootstrap() {
                        assert(consumed_on(self.spec_calls()[a as int], i) =~= consumed_on(cb, i));
                    }
                }
                assert forall|d: int, i: int|
                    0 <= d < m.len() && 0 <= i < m.n_inputs(d) && (#[trigger] m.upstream(d, i)).0 == a implies
                        self.channel(d, i).sent() == produced_on(self.spec_calls()[a as int], m.upstream(d, i).1)
                        && self.channel(d, i).spec_receiver_open() by {
                    let w = m.upstream(d, i).1;
                    assert(before.channel(d, i).sent() == produced_on(cb, w));
                    if x.spec_outputs()[j as int].spec_bootstrap() {
                        match gp {
                            Some(v) => {
                                if w == j {
                                    assert(produced_on(self.spec_calls()[a as int], w) =~= produced_on(cb, w).push(v));
                                } else {
                                    assert(produced_on(self.spec_calls()[a as int], w) =~= produced_on(cb, w));
                                }
                            },
                            None => {
                                assert(produced_on(self.spec_calls()[a as int], w) =~= produced_on(cb, w));
                            },
                        }
                    }
                }
            }
            proof {
                let fo = bootstrap_outputs(m, a as int, j as int);
                let fo1 = bootstrap_outputs(m, a as int, j + 1);
                let oc = old(self).spec_calls()[a as int];
                let nc = self.spec_calls()[a as int];
                assert forall|q: int| 0 <= q < fo.len() implies fo[q] < j by {
                    lemma_bootstrap_outputs_below(m, a as int, j as int, q);
                }
                if m.spec_actors()[a as int].spec_outputs()[j as int].spec_bootstrap() {
                    assert(fo1 == fo.push(j as int));
                    assert(nc == cb.push(Call::Produce(j, gp)));
                    assert forall|q: int| 0 <= q < fo1.len() implies #[trigger] asked_at(nc[oc.len() + q], fo1[q], r@) by {
                        if q < fo.len() {
                            assert(asked_at(cb[oc.len() + q], fo[q], rb));
                            assert(nc[oc.len() + q] == cb[oc.len() + q]);
                        }
                    }
                    assert(nc.take(oc.len() as int) =~= cb.take(oc.len() as int));
                } else {
                    assert(fo1 == fo);
                    assert(nc == cb);
                    assert forall|q: int| 0 <= q < fo1.len() implies #[trigger] asked_at(nc[oc.len() + q], fo1[q], r@) by {
                        assert(asked_at(cb[oc.len() + q], fo[q], rb));
                    }
                }
            }
            proof {
                assert forall|d: int, i: int| 0 <= d < m.len() && 0 <= i < m.n_inputs(d) implies pre_sent(
                    old(self).channel(d, i),
                    self.channel(d, i),
                    fed_by(#[trigger] m.upstream(d, i), a, r@, j + 1),
                ) by {
                    let (u, w) = m.upstream(d, i);
                    let cb = before.channel(d, i);
                    assert(pre_sent(old(self).channel(d, i), cb, fed_by(m.upstream(d, i), a, rb, j as int)));
                    if u == a && w < j {
                        assert(r@[w as int] == rb[w as int]);
                    }
                    if u == a && w == j {
                        assert(cb == old(self).channel(d, i));
                        if sent && cb.spec_receiver_open() {
                            assert(self.channel(d, i)@.take(cb@.len() as int) =~= cb@);
                        }
                    }
                }
            }
            j = j + 1;
        }
        r
    }

    /// Starts a validated model: every loop at the start of its first step,
    /// then one pre-send on each bootstrap output, actor by actor. Returns
    /// the scheduler and, per actor and output, whether a payload went out.
    /// An input fed that way holds that one payload, so its actor's first
    /// receive completes before any step of the upstream actor has run.
    pub fn start<C: Client<T>>(m: &Model, clients: &mut Vec<C>, capacity: usize) -> (r: (Self, Vec<Vec<bool>>))
        requires
            m.wf(),
            m.check_result() is Ok,
            old(clients)@.len() == m.len(),
            capacity > 0,
        ensures
            r.0.wf_for(m),
            final(clients)@.len() == old(clients)@.len(),
            r.0.spec_capacity() == capacity,
            r.0.is_start(m, r.1@),
            r.0.handoff_ok(m),
    {
        let mut sched = Scheduler::new(m, capacity);
        let n = m.n_actors();
        let mut flags: Vec<Vec<bool>> = Vec::new();
        let mut a: usize = 0;
        proof {
            assert forall|d: int, i: int| 0 <= d < m.len() && 0 <= i < m.n_inputs(d) implies started(
                sched.channel(d, i),
                flagged(flags@, #[trigger] m.upstream(d, i), 0),
            ) by {
                let c = sched.channel(d, i);
                assert(c.sent() == Seq::<Arc<T>>::empty());
                assert(c@ == Seq::<Arc<T>>::empty());
                assert(c.received() == Seq::<Arc<T>>::empty()) by {
                    assert(sched.channel_ok(m, d, i));
                    crate::channel::lemma_fifo(&c);
                }
            }
        }
        while a < n
            invariant
                forall|d: int, i: int|
                    0 <= d < m.len() && 0 <= i < m.n_inputs(d) && (#[trigger] m.upstream(d, i)).0 < a
                        ==> sched.channel(d, i).sent() == produced_on(sched.spec_calls()[m.upstream(d, i).0 as int], m.upstream(d, i).1),
                forall|b: int, i: usize| 0 <= b < a ==> #[trigger] consumed_on(sched.spec_calls()[b], i) == Seq::<Arc<T>>::empty(),
                forall|b: int|
                    0 <= b < a ==> asked_bootstrap(
                        m,
                        b,
                        m.n_outputs(b) as int,
                        Seq::<Call<T>>::empty(),
                        #[trigger] sched.spec_calls()[b],
                        flags@[b]@,
                    ),
                forall|b: int| a <= b < m.len() ==> #[trigger] sched.spec_calls()[b] == Seq::<Call<T>>::empty(),
                sched.spec_capacity() == capacity,
                sched.wf_for(m),
                n == m.len(),
                a <= n,
                clients@.len() == m.len(),
                flags@.len() == a,
                forall|d: int| 0 <= d < m.len() ==> (#[trigger] sched.spec_loops()[d]).pos() == 0,
                forall|d: int|
                    0 <= d < m.len() ==> (#[trigger] sched.spec_loops()[d]).running() == (m.n_inputs(d) > 0
                        || m.n_outputs(d) > 0),
                forall|d: int| 0 <= d < m.len() ==> (#[trigger] sched.spec_exits()[d]) is None,
                forall|b: int| 0 <= b < a ==> (#[trigger] flags@[b])@.len() == m.n_outputs(b),
                forall|b: int, j: int|
                    0 <= b < a && 0 <= j < m.n_outputs(b) && #[trigger] flags@[b]@[j] ==> m.spec_actors()[b].spec_outputs()[j].spec_bootstrap(),
                forall|d: int, i: int|
                    0 <= d < m.len() && 0 <= i < m.n_inputs(d) ==> started(
                        sched.channel(d, i),
                        flagged(flags@, #[trigger] m.upstream(d, i), a as int),
                    ),
            decreases n - a,
        {
            let ghost before = sched;
            let ghost fb = flags@;
            proof {
                assert forall|d: int, i: int|
                    0 <= d < m.len() && 0 <= i < m.n_inputs(d) && (#[trigger] m.upstream(d, i)).0 == a implies
                    sched.channel(d, i).sent() == Seq::<Arc<T>>::empty() && sched.channel(d, i).spec_receiver_open() by {
                    assert(started(sched.channel(d, i), flagged(flags@, m.upstream(d, i), a as int)));
                }
                assert(sched.spec_calls()[a as int] == Seq::<Call<T>>::empty());
            }
            let row = sched.bootstrap_actor(m, &mut clients[a], a);
            flags.push(row);
            proof {
                assert forall|b: int|
                    0 <= b < a + 1 implies asked_bootstrap(
                        m,
                        b,
                        m.n_outputs(b) as int,
                        Seq::<Call<T>>::empty(),
                        #[trigger] sched.spec_calls()[b],
                        flags@[b]@,
                    ) by {
                    if b < a {
                        assert(flags@[b] == fb[b]);
                        assert(sched.spec_calls()[b] == before.spec_calls()[b]);
                    } else {
                        assert(before.spec_calls()[b] == Seq::<Call<T>>::empty());
                        assert(flags@[b] == row);
                    }
                }
                assert forall|b: int| a + 1 <= b < m.len() implies #[trigger] sched.spec_calls()[b] == Seq::<Call<T>>::empty() by {
                    assert(sched.spec_calls()[b] == before.spec_calls()[b]);
                }
                assert forall|d: int, i: int|
                    0 <= d < m.len() && 0 <= i < m.n_inputs(d) && (#[trigger] m.upstream(d, i)).0 < a + 1 implies
                    sched.channel(d, i).sent() == produced_on(sched.spec_calls()[m.upstream(d, i).0 as int], m.upstream(d, i).1) by {
                    let u = m.upstream(d, i).0;
                    if u < a {
                        assert(before.channel(d, i).sent() == produced_on(before.spec_calls()[u as int], m.upstream(d, i).1));
                        assert(pre_sent(before.channel(d, i), sched.channel(d, i), fed_by(m.upstream(d, i), a, row@, row@.len() as int)));
                        assert(sched.spec_calls()[u as int] == before.spec_calls()[u as int]);
                    }
                }
                assert forall|b: int, i: usize| 0 <= b < a + 1 implies #[trigger] consumed_on(sched.spec_calls()[b], i) == Seq::<Arc<T>>::empty() by {
                    if b < a {
                        assert(consumed_on(before.spec_calls()[b], i) == Seq::<Arc<T>>::empty());
                        assert(sched.spec_calls()[b] == before.spec_calls()[b]);
                    }
                }
            }
            proof {
                assert forall|d: int, i: int| 0 <= d < m.len() && 0 <= i < m.n_inputs(d) implies started(
                    sched.channel(d, i),
                    flagged(flags@, #[trigger] m.upstream(d, i), a + 1),
                ) by {
                    let (u, w) = m.upstream(d, i);
                    assert(u < m.len() && w < m.n_outputs(u as int));
                    let cb = before.channel(d, i);
                    let c = sched.channel(d, i);
                    assert(started(cb, flagged(fb, m.upstream(d, i), a as int)));
                    assert(pre_sent(cb, c, fed_by(m.upstream(d, i), a, row@, row@.len() as int)));
                    assert(sched.channel_ok(m, d, i));
                    if u < a {
                        assert(flags@[u as int] == fb[u as int]);
                    }
                    if u == a && row@[w as int] {
                        assert(c@.take(cb@.len() as int) == cb@);
                        assert(cb@.len() == 0);
                        assert(c@ =~= c.sent()) by {
                            assert(c.sent() == c.received() + c@) by {
                                crate::channel::lemma_fifo(&c);
                                assert(c.received() + c@ =~= c.sent());
                            }
                        }
                    }
                }
                assert forall|b: int| 0 <= b < a + 1 implies (#[trigger] flags@[b])@.len() == m.n_outputs(b) by {
                    if b < a {
                        assert(flags@[b] == fb[b]);
                    }
                }
                assert forall|b: int, j: int|
                    0 <= b < a + 1 && 0 <= j < m.n_outputs(b) && #[trigger] flags@[b]@[j] implies m.spec_actors()[b].spec_outputs()[j].spec_bootstrap() by {
                    if b < a {
                        assert(flags@[b] == fb[b]);
                    }
                }
            }
            a = a + 1;
        }
        proof {
            assert forall|d: int, i: int| 0 <= d < m.len() && 0 <= i < m.n_inputs(d) implies started(
                sched.channel(d, i),
                flagged(flags@, #[trigger] m.upstream(d, i), m.len() as int),
            ) by {
                assert(m.upstream(d, i).0 < m.len());
            }
        }
        proof {
            assert forall|d: int, i: int| 0 <= d < m.len() && 0 <= i < m.n_inputs(d) implies #[trigger] sched.handoff_at(m, d, i) by {
                let (u, w) = m.upstream(d, i);
                assert(u < m.len());
                let c = sched.channel(d, i);
                assert(started(c, flagged(flags@, m.upstream(d, i), m.len() as int)));
                assert(consumed_on(sched.spec_calls()[d], i as usize) == Seq::<Arc<T>>::empty());
                assert(c.sent() == produced_on(sched.spec_calls()[u as int], w));
                assert(c.sent().take(c.sent().len() as int) =~= c.sent());
            }
        }
        (sched, flags)
    }

    /// Whether every actor's loop has ended.
    pub fn all_stopped(&self, m: &Model) -> (r: bool)
        requires
            self.wf_for(m),
        ensures
            r == forall|d: int| 0 <= d < m.len() ==> !(#[trigger] self.spec_loops()[d]).running(),
    {
        let n = self.loops.len();
        let mut d: usize = 0;
        while d < n
            invariant
                self.wf_for(m),
                n == m.len(),
                d <= n,
                forall|b: int| 0 <= b < d ==> !(#[trigger] self.spec_loops()[b]).running(),
            decreases n - d,
        {
            if self.loops[d].is_running() {
                assert(self.spec_loops()[d as int].running());
                return false;
            }
            d = d + 1;
        }
        true
    }

    /// How each actor ended: `None` for one still running or without ports.
    pub fn into_exits(self) -> (r: Vec<Option<ActorError>>)
        ensures
            r@ == self.spec_exits(),
    {
        self.exits
    }

    /// Ends the loop of actor `a` with `err`: its inputs stop receiving and
    /// the channels its outputs feed stop sending, so that closure cascades.
    pub fn stop(&mut self, m: &Model, a: usize, err: ActorError)
        requires
            old(self).wf_for(m),
            a < m.len(),
            err.spec_is_graceful(),
        ensures
            final(self).spec_calls() == old(self).spec_calls(),
            final(self).wf_for(m),
            !final(self).spec_loops()[a as int].running(),
            final(self).spec_exits()[a as int] == Some(err),
            forall|b: int| 0 <= b < m.len() && b != a ==> #[trigger] final(self).spec_loops()[b] == old(self).spec_loops()[b],
            forall|b: int| 0 <= b < m.len() && b != a ==> #[trigger] final(self).spec_exits()[b] == old(self).spec_exits()[b],
            forall|d: int, i: int|
                0 <= d < m.len() && 0 <= i < m.n_inputs(d) ==> {
                    &&& (#[trigger] final(self).channel(d, i))@ == old(self).channel(d, i)@
                    &&& final(self).channel(d, i).sent() == old(self).channel(d, i).sent()
                    &&& final(self).channel(d, i).received() == old(self).channel(d, i).received()
                    &&& final(self).channel(d, i).spec_receiver_open() == (old(self).channel(d, i).spec_receiver_open() && d != a)
                    &&& final(self).channel(d, i).spec_sender_open() == (old(self).channel(d, i).spec_sender_open()
                        && m.upstream(d, i).0 != a)
                },
    {
        assert(self.actor_ok(m, a as int));
        self.loops[a].stop();
        self.exits.set(a, Some(err));
        let x = m.actor(a);
        let nin = x.n_inputs();
        proof {
            assert(self.n_actors() == m.len());
            assert(self.n_channel_lists() == m.len());
            assert(self.spec_exits().len() == m.len());
            assert forall|d: int| 0 <= d < m.len() implies #[trigger] self.actor_ok(m, d) by {
                assert(old(self).actor_ok(m, d));
            }
            assert forall|d: int, i: int| 0 <= d < m.len() && 0 <= i < m.n_inputs(d) implies #[trigger] self.channel_ok(m, d, i) by {
                assert(old(self).channel_ok(m, d, i));
            }
            assert(self.wf_for(m));
        }
        let mut i: usize = 0;
        while i < nin
            invariant
                self.spec_calls() == old(self).spec_calls(),
                self.wf_for(m),
                a < m.len(),
                nin == m.n_inputs(a as int),
                i <= nin,
                !self.spec_loops()[a as int].running(),
                self.spec_exits()[a as int] == Some(err),
                forall|b: int| 0 <= b < m.len() && b != a ==> #[trigger] self.spec_loops()[b] == old(self).spec_loops()[b],
                forall|b: int| 0 <= b < m.len() && b != a ==> #[trigger] self.spec_exits()[b] == old(self).spec_exits()[b],
                forall|d: int, k: int|
                    0 <= d < m.len() && 0 <= k < m.n_inputs(d) ==> {
                        &&& (#[trigger] self.channel(d, k))@ == old(self).channel(d, k)@
                        &&& self.channel(d, k).sent() == old(self).channel(d, k).sent()
                        &&& self.channel(d, k).received() == old(self).channel(d, k).received()
                        &&& self.channel(d, k).spec_receiver_open() == (old(self).channel(d, k).spec_receiver_open()
                            && !(d == a && k < i))
                        &&& self.channel(d, k).spec_sender_open() == old(self).channel(d, k).spec_sender_open()
                    },
            decreases nin - i,
        {
            self.close_receiver_at(m, a, i);
            i = i + 1;
        }
        let nout = x.n_outputs();
        let mut j: usize = 0;
        while j < nout
            invariant
                self.spec_calls() == old(self).spec_calls(),
                self.wf_for(m),
                a < m.len(),
                *x == m.spec_actors()[a as int],
                nout == m.n_outputs(a as int),
                j <= nout,
                !self.spec_loops()[a as int].running(),
                self.spec_exits()[a as int] == Some(err),
                forall|b: int| 0 <= b < m.len() && b != a ==> #[trigger] self.spec_loops()[b] == old(self).spec_loops()[b],
                forall|b: int| 0 <= b < m.len() && b != a ==> #[trigger] self.spec_exits()[b] == old(self).spec_exits()[b],
                forall|d: int, k: int|
                    0 <= d < m.len() && 0 <= k < m.n_inputs(d) ==> {
                        &&& (#[trigger] self.channel(d, k))@ == old(self).channel(d, k)@
                        &&& self.channel(d, k).sent() == old(self).channel(d, k).sent()
                        &&& self.channel(d, k).received() == old(self).channel(d, k).received()
                        &&& self.channel(d, k).spec_receiver_open() == (old(self).channel(d, k).spec_receiver_open()
                            && d != a)
                        &&& self.channel(d, k).spec_sender_open() == (old(self).channel(d, k).spec_sender_open()
                            && !sender_closed_by(m, a as int, j as int, 0, d, k))
                    },
            decreases nout - j,
        {
            let o = x.output(j);
            let nt = o.len();
            let mut k: usize = 0;
            while k < nt
                invariant
                self.spec_calls() == old(self).spec_calls(),
                    self.wf_for(m),
                    a < m.len(),
                    j < nout,
                    *x == m.spec_actors()[a as int],
                    *o == m.spec_actors()[a as int].spec_outputs()[j as int],
                    nout == m.n_outputs(a as int),
                    nt == m.targets(a as int, j as int).len(),
                    k <= nt,
                    !self.spec_loops()[a as int].running(),
                    self.spec_exits()[a as int] == Some(err),
                    forall|b: int| 0 <= b < m.len() && b != a ==> #[trigger] self.spec_loops()[b] == old(self).spec_loops()[b],
                    forall|b: int| 0 <= b < m.len() && b != a ==> #[trigger] self.spec_exits()[b] == old(self).spec_exits()[b],
                    forall|d: int, q: int|
                        0 <= d < m.len() && 0 <= q < m.n_inputs(d) ==> {
                            &&& (#[trigger] self.channel(d, q))@ == old(self).channel(d, q)@
                            &&& self.channel(d, q).sent() == old(self).channel(d, q).sent()
                            &&& self.channel(d, q).received() == old(self).channel(d, q).received()
                            &&& self.channel(d, q).spec_receiver_open() == (old(self).channel(d, q).spec_receiver_open()
                                && d != a)
                            &&& self.channel(d, q).spec_sender_open() == (old(self).channel(d, q).spec_sender_open()
                                && !sender_closed_by(m, a as int, j as int, k as int, d, q))
                        },
                decreases nt - k,
            {
                let (d, i) = o.target(k);
                assert(m.targets(a as int, j as int)[k as int] == (d, i));
                let ghost prev = *self;
                self.close_sender_at(m, d, i);
                proof {
                    let t = m.targets(a as int, j as int);
                    assert(m.upstream(d as int, i as int) == (a, j));
                    assert forall|dd: int, q: int| 0 <= dd < m.len() && 0 <= q < m.n_inputs(dd) implies
                        #[trigger] self.channel(dd, q).spec_sender_open() == (old(self).channel(dd, q).spec_sender_open()
                        && !sender_closed_by(m, a as int, j as int, k + 1, dd, q)) by {
                        assert(prev.channel(dd, q).spec_sender_open() == (old(self).channel(dd, q).spec_sender_open()
                            && !sender_closed_by(m, a as int, j as int, k as int, dd, q)));
                        if t.subrange(0, k as int).contains((dd as usize, q as usize)) {
                            let w = choose|w: int| 0 <= w < k && t.subrange(0, k as int)[w] == (dd as usize, q as usize);
                            assert(t.subrange(0, k + 1)[w] == (dd as usize, q as usize));
                        }
                        let k1 = k + 1;
                        let t1 = t.subrange(0, k1);
                        if t1.contains((dd as usize, q as usize)) {
                            let w = choose|w: int| 0 <= w < k1 && #[trigger] t1[w] == (dd as usize, q as usize);
                            if w < k {
                                assert(t.subrange(0, k as int)[w] == (dd as usize, q as usize));
                            }
                        }
                        assert(t.subrange(0, k + 1)[k as int] == (d, i));
                    }
                }
                k = k + 1;
            }
            proof {
                let t = m.targets(a as int, j as int);
                assert(t.subrange(0, nt as int) =~= t);
                assert forall|dd: int, q: int| 0 <= dd < m.len() && 0 <= q < m.n_inputs(dd) implies
                    sender_closed_by(m, a as int, j as int, nt as int, dd, q) == sender_closed_by(m, a as int, j + 1, 0, dd, q) by {
                    let up = m.upstream(dd, q);
                    if t.contains((dd as usize, q as usize)) {
                        let w = choose|w: int| 0 <= w < t.len() && t[w] == (dd as usize, q as usize);
                        assert(t[w] == (dd as usize, q as usize));
                    }
                    if up == (a, j) {
                        assert(t.contains((dd as usize, q as usize)));
                    }
                    assert(m.targets(a as int, j + 1).subrange(0, 0).len() == 0);
                }
            }
            j = j + 1;
        }
        proof {
            assert forall|dd: int, q: int| 0 <= dd < m.len() && 0 <= q < m.n_inputs(dd) implies
                sender_closed_by(m, a as int, nout as int, 0, dd, q) == (m.upstream(dd, q).0 == a) by {
                let up = m.upstream(dd, q);
                assert(up.1 < m.n_outputs(up.0 as int));
                assert(m.targets(a as int, nout as int).subrange(0, 0).len() == 0);
            }
        }
    }

    /// Nothing observable differs between the two states.
    pub open spec fn same_state(&self, other: &Self, m: &Model) -> bool {
        &&& self.spec_calls() == other.spec_calls()
        &&& self.spec_loops() == other.spec_loops()
        &&& self.spec_exits() == other.spec_exits()
        &&& forall|d: int, i: int|
            0 <= d < m.len() && 0 <= i < m.n_inputs(d) ==> #[trigger] self.channel(d, i) == other.channel(d, i)
    }


    /// A state right after start, with `flags` telling, per actor and
    /// output, whether a payload was pre-sent: every loop at the start of
    /// its first step, running exactly when the actor has ports, no exit,
    /// only bootstrap outputs pre-sent, and each channel open at both ends
    /// and holding the one pre-sent payload of its upstream output, if any.
    pub open spec fn is_start(&self, m: &Model, flags: Seq<Vec<bool>>) -> bool {
        &&& flags.len() == m.len()
        &&& forall|a: int|
            0 <= a < m.len() ==> asked_bootstrap(
                m,
                a,
                m.n_outputs(a) as int,
                Seq::<Call<T>>::empty(),
                #[trigger] self.spec_calls()[a],
                flags[a]@,
            )
        &&& forall|d: int| 0 <= d < m.len() ==> (#[trigger] self.spec_loops()[d]).pos() == 0
        &&& forall|d: int|
            0 <= d < m.len() ==> (#[trigger] self.spec_loops()[d]).running() == (m.n_inputs(d) > 0
                || m.n_outputs(d) > 0)
        &&& forall|d: int| 0 <= d < m.len() ==> (#[trigger] self.spec_exits()[d]) is None
        &&& forall|a: int| 0 <= a < m.len() ==> (#[trigger] flags[a])@.len() == m.n_outputs(a)
        &&& forall|a: int, j: int|
            0 <= a < m.len() && 0 <= j < m.n_outputs(a) && #[trigger] flags[a]@[j]
                ==> m.spec_actors()[a].spec_outputs()[j].spec_bootstrap()
        &&& forall|d: int, i: int|
            0 <= d < m.len() && 0 <= i < m.n_inputs(d) ==> started(
                self.channel(d, i),
                flagged(flags, #[trigger] m.upstream(d, i), m.len() as int),
            )
    }

    /// The current operation of actor `a` is a receive from a drained
    /// channel whose sender is gone.
    pub open spec fn recv_closed(&self, m: &Model, a: int) -> bool {
        &&& self.spec_loops()[a].running()
        &&& self.current_op(a) matches Op::Recv(i)
        &&& self.channel(a, i as int)@.len() == 0
        &&& !self.channel(a, i as int).spec_sender_open()
    }

    /// What one turn of actor `a` does to the scheduler, `prev` before it
    /// and `self` after, `moved` telling whether the actor moved: a receive
    /// takes the oldest payload, or waits on an empty open channel, or ends
    /// the actor with `DropRecv` once the channel is drained and closed; an
    /// update moves on; a send waits while an open input is full, and
    /// otherwise has the effect `send_outcome` gives for what the client
    /// produced. A loop that has ended does not move.
    pub open spec fn turn_post(&self, prev: &Self, m: &Model, a: int, moved: bool) -> bool {
        &&& self.others_kept(prev, m, a)
        &&& !moved ==> self.same_state(prev, m) && prev.waiting(m, a)
        &&& !prev.spec_loops()[a].running() ==> !moved
        &&& prev.spec_loops()[a].running() ==> ({
            let name = m.spec_actors()[a].spec_name_string();
            match prev.current_op(a) {
                Op::Recv(i) => {
                    let c0 = prev.channel(a, i as int);
                    let c1 = self.channel(a, i as int);
                    &&& c0@.len() > 0 ==> moved && self.advanced(prev, a) && c1@ == c0@.drop_first()
                        && c1.received() == c0.received().push(c0@[0]) && c1.sent() == c0.sent()
                        && c1.spec_receiver_open() == c0.spec_receiver_open() && c1.spec_sender_open()
                        == c0.spec_sender_open() && self.same_but(prev, m, a, i as int) && self.recorded(
                        prev,
                        a,
                        Call::Consume(i, c0@[0]),
                    )
                    &&& c0@.len() == 0 && c0.spec_sender_open() ==> !moved
                    &&& c0@.len() == 0 && !c0.spec_sender_open() ==> moved && self.stopped_with(
                        a,
                        ActorError::DropRecv { who: name },
                    ) && self.closed_for(prev, m, a) && self.spec_calls() == prev.spec_calls()
                },
                Op::Update => moved && self.advanced(prev, a) && self.same_channels(prev, m) && self.recorded(
                    prev,
                    a,
                    Call::Update,
                ),
                Op::Send(j) => if prev.has_room(m, a, j as int) {
                    moved && exists|p: Option<Arc<T>>|
                        #[trigger] self.send_outcome(prev, m, a, j as int, p) && self.recorded(prev, a, Call::Produce(j, p))
                } else {
                    !moved
                },
            }
        })
    }

    /// The calls on the clients are those of `prev`, with `c` made last on
    /// the client of actor `a`.
    pub open spec fn recorded(&self, prev: &Self, a: int, c: Call<T>) -> bool {
        self.spec_calls() == prev.spec_calls().update(a, prev.spec_calls()[a].push(c))
    }

    /// On input `i` of actor `d`: the client was handed exactly what the
    /// channel gave, in order; and what the channel was sent is what the
    /// upstream client produced for that output, up to when the receiver left.
    pub open spec fn handoff_at(&self, m: &Model, d: int, i: int) -> bool {
        let (u, w) = m.upstream(d, i);
        let c = self.channel(d, i);
        let produced = produced_on(self.spec_calls()[u as int], w);
        &&& consumed_on(self.spec_calls()[d], i as usize) == c.received()
        &&& c.sent().len() <= produced.len()
        &&& produced.take(c.sent().len() as int) == c.sent()
        &&& c.spec_receiver_open() ==> c.sent() == produced
    }

    /// The hand-off holds on every input.
    pub open spec fn handoff_ok(&self, m: &Model) -> bool {
        forall|d: int, i: int| 0 <= d < m.len() && 0 <= i < m.n_inputs(d) ==> #[trigger] self.handoff_at(m, d, i)
    }

    /// One turn keeps the hand-off.
    pub proof fn lemma_handoff_step(&self, prev: &Self, m: &Model, a: int, moved: bool)
        requires
            prev.wf_for(m),
            self.wf_for(m),
            prev.handoff_ok(m),
            self.turn_post(prev, m, a, moved),
            0 <= a < m.len(),
        ensures
            self.handoff_ok(m),
    {
        assert forall|d: int, i: int| 0 <= d < m.len() && 0 <= i < m.n_inputs(d) implies #[trigger] self.handoff_at(m, d, i) by {
            assert(prev.handoff_at(m, d, i));
            let (u, w) = m.upstream(d, i);
            assert(u < m.len() && w < m.n_outputs(u as int));
            let c0 = prev.channel(d, i);
            let c1 = self.channel(d, i);
            if !moved {
                assert(c1 == c0);
                assert(self.handoff_at(m, d, i));
            } else {
                let op = prev.current_op(a);
                assert(prev.spec_loops()[a].running());
                match op {
                    Op::Recv(i0) => {
                        let x0 = prev.channel(a, i0 as int);
                        if x0@.len() > 0 {
                            lemma_on_push(prev.spec_calls()[a], Call::Consume(i0, x0@[0]));
                            if d != a || i != i0 {
                                assert(c1 == c0);
                                assert(self.handoff_at(m, d, i));
                            } else {
                                assert(self.spec_calls()[a] == prev.spec_calls()[a].push(Call::Consume(i0, x0@[0])));
                                assert(consumed_on(self.spec_calls()[d], i as usize) =~= c1.received());
                                if u == a {
                                    assert(produced_on(self.spec_calls()[u as int], w) =~= produced_on(prev.spec_calls()[u as int], w));
                                } else {
                                    assert(self.spec_calls()[u as int] == prev.spec_calls()[u as int]);
                                }
                                assert(self.handoff_at(m, d, i));
                            }
                        } else {
                            assert(self.spec_calls() == prev.spec_calls());
                            assert(self.handoff_at(m, d, i));
                        }
                    },
                    Op::Update => {
                        lemma_on_push(prev.spec_calls()[a], Call::<T>::Update);
                        assert(c1 == c0);
                        assert(self.handoff_at(m, d, i));
                    },
                    Op::Send(j) => {
                        let p = choose|p: Option<Arc<T>>|
                            #[trigger] self.send_outcome(prev, m, a, j as int, p) && self.recorded(prev, a, Call::Produce(j, p));
                        lemma_on_push(prev.spec_calls()[a], Call::Produce(j, p));
                        assert(self.spec_calls()[a] == prev.spec_calls()[a].push(Call::Produce(j, p)));
                        assert(consumed_on(self.spec_calls()[d], i as usize) =~= consumed_on(prev.spec_calls()[d], i as usize)) by {
                            if d != a {
                                assert(self.spec_calls()[d] == prev.spec_calls()[d]);
                            }
                        }
                        if u != a {
                            assert(self.spec_calls()[u as int] == prev.spec_calls()[u as int]);
                        }
                        match p {
                            None => {
                                assert(self.handoff_at(m, d, i));
                            },
                            Some(v) => {
                                if prev.all_closed(m, a, j as int) {
                                    if (u, w) == (a as usize, j) {
                                        assert(m.targets(a, j as int).contains((d as usize, i as usize)));
                                        let k = choose|k: int| 0 <= k < m.targets(a, j as int).len()
                                            && m.targets(a, j as int)[k] == (d as usize, i as usize);
                                        assert(m.targets(a, j as int)[k] == (d as usize, i as usize));
                                        assert(!c0.spec_receiver_open());
                                        let pr = produced_on(prev.spec_calls()[a], j);
                                        assert(produced_on(self.spec_calls()[a], j) =~= pr.push(v));
                                        assert(pr.push(v).take(c0.sent().len() as int) =~= pr.take(c0.sent().len() as int));
                                        assert(self.handoff_at(m, d, i));
                                    } else {
                                        assert(produced_on(self.spec_calls()[u as int], w) =~= produced_on(prev.spec_calls()[u as int], w));
                                        assert(self.handoff_at(m, d, i));
                                    }
                                } else {
                                    if (u, w) == (a as usize, j) {
                                        let pr = produced_on(prev.spec_calls()[a], j);
                                        assert(produced_on(self.spec_calls()[a], j) =~= pr.push(v));
                                        if c0.spec_receiver_open() {
                                            assert(pr.push(v).take(c1.sent().len() as int) =~= pr.push(v));
                                        } else {
                                            assert(c1 == c0);
                                            assert(pr.push(v).take(c0.sent().len() as int) =~= pr.take(c0.sent().len() as int));
                                        }
                                        assert(self.handoff_at(m, d, i));
                                    } else {
                                        assert(c1 == c0);
                                        assert(produced_on(self.spec_calls()[u as int], w) =~= produced_on(prev.spec_calls()[u as int], w));
                                        assert(self.handoff_at(m, d, i));
                                    }
                                }
                            },
                        }
                    },
                }
            }
        }
    }

    /// Every loop and exit but those of actor `a` is as in `prev`.
    pub open spec fn others_kept(&self, prev: &Self, m: &Model, a: int) -> bool {
        &&& forall|b: int| 0 <= b < m.len() && b != a ==> #[trigger] self.spec_loops()[b] == prev.spec_loops()[b]
        &&& forall|b: int| 0 <= b < m.len() && b != a ==> #[trigger] self.spec_exits()[b] == prev.spec_exits()[b]
    }

    /// Every channel but that of input `i` of actor `d0` is as in `prev`.
    pub open spec fn same_but(&self, prev: &Self, m: &Model, d0: int, i0: int) -> bool {
        forall|d: int, i: int|
            0 <= d < m.len() && 0 <= i < m.n_inputs(d) && (d != d0 || i != i0) ==> #[trigger] self.channel(d, i)
                == prev.channel(d, i)
    }

    /// The channels once actor `a` has ended: nothing queued or taken, the
    /// receiving ends of its own inputs dropped, and the sending ends of the
    /// inputs it feeds dropped, so that closure cascades downstream.
    pub open spec fn closed_for(&self, prev: &Self, m: &Model, a: int) -> bool {
        forall|d: int, i: int|
            0 <= d < m.len() && 0 <= i < m.n_inputs(d) ==> {
                let c0 = prev.channel(d, i);
                let c1 = #[trigger] self.channel(d, i);
                &&& c1@ == c0@
                &&& c1.sent() == c0.sent()
                &&& c1.received() == c0.received()
                &&& c1.spec_receiver_open() == (c0.spec_receiver_open() && d != a)
                &&& c1.spec_sender_open() == (c0.spec_sender_open() && m.upstream(d, i).0 != a)
            }
    }

    /// `v` was queued on every input fed by output `j` of actor `a` whose
    /// receiver was there, and no other channel changed.
    pub open spec fn pushed(&self, prev: &Self, m: &Model, a: int, j: int, v: Arc<T>) -> bool {
        forall|d: int, i: int|
            0 <= d < m.len() && 0 <= i < m.n_inputs(d) ==> {
                let c0 = prev.channel(d, i);
                let c1 = self.channel(d, i);
                if #[trigger] m.upstream(d, i) == (a as usize, j as usize) && c0.spec_receiver_open() {
                    &&& c1@ == c0@.push(v)
                    &&& c1.sent() == c0.sent().push(v)
                    &&& c1.received() == c0.received()
                    &&& c1.spec_sender_open() == c0.spec_sender_open()
                    &&& c1.spec_receiver_open() == c0.spec_receiver_open()
                } else {
                    c1 == c0
                }
            }
    }

    /// The effect of a send on output `j` of actor `a` whose client produced
    /// `produced`: nothing ends the loop with `Disconnected`; a payload with
    /// no receiver left ends it with `DropSend`, both with the actor's
    /// channels closed and nothing sent; otherwise the payload is queued on
    /// every open input of `j` and the loop moves on.
    pub open spec fn send_outcome(&self, prev: &Self, m: &Model, a: int, j: int, produced: Option<Arc<T>>) -> bool {
        let name = m.spec_actors()[a].spec_name_string();
        match produced {
            None => self.stopped_with(a, ActorError::Disconnected(name)) && self.closed_for(prev, m, a),
            Some(v) => if prev.all_closed(m, a, j) {
                self.stopped_with(a, ActorError::DropSend { who: name }) && self.closed_for(prev, m, a)
            } else {
                self.advanced(prev, a) && self.pushed(prev, m, a, j, v)
            },
        }
    }

    /// No input fed by output `j` of actor `a` that still has its receiver is full.
    pub open spec fn has_room(&self, m: &Model, a: int, j: int) -> bool {
        forall|k: int|
            0 <= k < m.targets(a, j).len() ==> {
                let (d, i) = #[trigger] m.targets(a, j)[k];
                self.channel(d as int, i as int).spec_receiver_open() ==> !self.channel(
                    d as int,
                    i as int,
                ).spec_is_full()
            }
    }

    /// Actor `a`, if it runs, waits: on a receive from an empty channel whose
    /// sender is still there, or on a send to a full channel.
    pub open spec fn waiting(&self, m: &Model, a: int) -> bool {
        self.spec_loops()[a].running() ==> match self.current_op(a) {
            Op::Recv(i) => self.channel(a, i as int)@.len() == 0 && self.channel(a, i as int).spec_sender_open(),
            Op::Send(j) => !self.has_room(m, a, j as int),
            Op::Update => false,
        }
    }

    /// The operation that actor `a` performs next.
    pub open spec fn current_op(&self, a: int) -> Op {
        self.spec_loops()[a].body()[self.spec_loops()[a].pos() as int]
    }

    /// Actor `a` completed its current operation and moved to the next one.
    pub open spec fn advanced(&self, prev: &Self, a: int) -> bool {
        let l0 = prev.spec_loops()[a];
        let l1 = self.spec_loops()[a];
        &&& l1.running()
        &&& l1.body() == l0.body()
        &&& l1.pos() == (if l0.pos() + 1 < l0.body().len() { l0.pos() + 1 } else { 0 })
        &&& self.spec_exits()[a] == prev.spec_exits()[a]
    }

    /// The loop of actor `a` has ended with `e`.
    pub open spec fn stopped_with(&self, a: int, e: ActorError) -> bool {
        &&& !self.spec_loops()[a].running()
        &&& self.spec_exits()[a] == Some(e)
    }

    /// No channel differs between the two states.
    pub open spec fn same_channels(&self, other: &Self, m: &Model) -> bool {
        forall|d: int, i: int|
            0 <= d < m.len() && 0 <= i < m.n_inputs(d) ==> #[trigger] self.channel(d, i) == other.channel(d, i)
    }

    /// No input fed by output `j` of actor `a` has its receiver any more.
    pub open spec fn all_closed(&self, m: &Model, a: int, j: int) -> bool {
        forall|k: int|
            0 <= k < m.targets(a, j).len() ==> {
                let (d, i) = #[trigger] m.targets(a, j)[k];
                !self.channel(d as int, i as int).spec_receiver_open()
            }
    }

    pub fn exits(&self) -> (r: &Vec<Option<ActorError>>)
        ensures
            r@ == self.spec_exits(),
    {
        &self.exits
    }

    pub fn is_running(&self, a: usize) -> (r: bool)
        requires
            a < self.n_actors(),
        ensures
            r == self.spec_loops()[a as int].running(),
    {
        self.loops[a].is_running()
    }
}



/// The capacity of the channel of input `i` of actor `d` when bounded
/// channels hold `capacity` payloads: none when the output that feeds it is
/// unbounded.
pub open spec fn channel_capacity(m: &Model, d: int, i: int, capacity: usize) -> Option<usize> {
    let (u, w) = m.upstream(d, i);
    if m.spec_actors()[u as int].spec_outputs()[w as int].spec_unbounded() {
        None
    } else {
        Some(capacity)
    }
}

/// Relies on `Arc::clone`: the clone is another pointer to the same value.
#[verifier::external_body]
pub(crate) fn share<T>(p: &Arc<T>) -> (r: Arc<T>)
    ensures
        r == *p,
{
    Arc::clone(p)
}

/// Whether stopping actor `a` has closed the sending end of the channel of
/// input `q` of actor `d`, once outputs below `j`, and the first `k` targets
/// of output `j`, are done.
pub open spec fn sender_closed_by(m: &Model, a: int, j: int, k: int, d: int, q: int) -> bool {
    let up = m.upstream(d, q);
    &&& up.0 == a
    &&& (up.1 < j || (up.1 == j && m.targets(a, j).subrange(0, k).contains((d as usize, q as usize))))
}

/// The payloads handed to a client on input `i`, in order, among `cs`.
pub open spec fn consumed_on<T>(cs: Seq<Call<T>>, i: usize) -> Seq<Arc<T>>
    decreases cs.len(),
{
    if cs.len() == 0 {
        Seq::empty()
    } else {
        consumed_on(cs.drop_last(), i) + match cs.last() {
            Call::Consume(ii, v) => if ii == i { seq![v] } else { Seq::empty() },
            _ => Seq::empty(),
        }
    }
}

/// The payloads a client produced for output `j`, in order, among `cs`.
pub open spec fn produced_on<T>(cs: Seq<Call<T>>, j: usize) -> Seq<Arc<T>>
    decreases cs.len(),
{
    if cs.len() == 0 {
        Seq::empty()
    } else {
        produced_on(cs.drop_last(), j) + match cs.last() {
            Call::Produce(jj, Some(v)) => if jj == j { seq![v] } else { Seq::empty() },
            _ => Seq::empty(),
        }
    }
}

proof fn lemma_on_push<T>(cs: Seq<Call<T>>, c: Call<T>)
    ensures
        forall|i: usize| #[trigger] consumed_on(cs.push(c), i) == consumed_on(cs, i) + match c {
            Call::Consume(ii, v) => if ii == i { seq![v] } else { Seq::<Arc<T>>::empty() },
            _ => Seq::<Arc<T>>::empty(),
        },
        forall|j: usize| #[trigger] produced_on(cs.push(c), j) == produced_on(cs, j) + match c {
            Call::Produce(jj, Some(v)) => if jj == j { seq![v] } else { Seq::<Arc<T>>::empty() },
            _ => Seq::<Arc<T>>::empty(),
        },
{
    assert(cs.push(c).drop_last() =~= cs);
}

/// The bootstrap outputs of actor `a` below `upto`, in order.
pub open spec fn bootstrap_outputs(m: &Model, a: int, upto: int) -> Seq<int>
    decreases upto,
{
    if upto <= 0 {
        Seq::empty()
    } else if m.spec_actors()[a].spec_outputs()[upto - 1].spec_bootstrap() {
        bootstrap_outputs(m, a, upto - 1).push(upto - 1)
    } else {
        bootstrap_outputs(m, a, upto - 1)
    }
}

proof fn lemma_bootstrap_outputs_below(m: &Model, a: int, upto: int, q: int)
    requires
        0 <= q < bootstrap_outputs(m, a, upto).len(),
    ensures
        0 <= bootstrap_outputs(m, a, upto)[q] < upto,
    decreases upto,
{
    if upto > 0 {
        if q < bootstrap_outputs(m, a, upto - 1).len() {
            lemma_bootstrap_outputs_below(m, a, upto - 1, q);
        }
    }
}

/// `c` is the request for a pre-send on output `j`, and `flags[j]` tells
/// whether the client produced a payload.
pub open spec fn asked_at<T>(c: Call<T>, j: int, flags: Seq<bool>) -> bool {
    c matches Call::Produce(jj, p) && jj == j && flags[j] == p is Some
}

/// From `before` to `after`, the client of actor `a` was asked once for each
/// of its bootstrap outputs below `upto`, in order, and for nothing else.
pub open spec fn asked_bootstrap<T>(m: &Model, a: int, upto: int, before: Seq<Call<T>>, after: Seq<Call<T>>, flags: Seq<bool>) -> bool {
    let fo = bootstrap_outputs(m, a, upto);
    &&& after.len() == before.len() + fo.len()
    &&& after.take(before.len() as int) == before
    &&& forall|q: int| 0 <= q < fo.len() ==> #[trigger] asked_at(after[before.len() + q], fo[q], flags)
}

/// Whether output `up` pre-sent a payload, by `flags`, among the first `upto` actors.
pub open spec fn flagged(flags: Seq<Vec<bool>>, up: (usize, usize), upto: int) -> bool {
    up.0 < upto && flags[up.0 as int]@[up.1 as int]
}

/// A channel at start: both ends open, nothing received, and one payload in
/// flight when it was fed by a pre-send, none otherwise.
pub open spec fn started<T>(c: Channel<T>, fed: bool) -> bool {
    &&& c.spec_sender_open()
    &&& c.spec_receiver_open()
    &&& c.received() == Seq::<T>::empty()
    &&& c@ == c.sent()
    &&& c@.len() == (if fed { 1int } else { 0int })
}

/// Whether an input whose upstream is `up` was fed by the first `upto`
/// outputs of actor `a`, according to `flags`.
pub open spec fn fed_by(up: (usize, usize), a: usize, flags: Seq<bool>, upto: int) -> bool {
    up.0 == a && up.1 < upto && flags[up.1 as int]
}

/// How a channel changes under one pre-send: when `hit` and the receiver is
/// there, one more payload is queued behind the others; otherwise nothing changes.
pub open spec fn pre_sent<T>(c0: Channel<T>, c1: Channel<T>, hit: bool) -> bool {
    if hit && c0.spec_receiver_open() {
        &&& c1@.len() == c0@.len() + 1
        &&& c1@.take(c0@.len() as int) == c0@
        &&& c1.sent().len() == c0.sent().len() + 1
        &&& c1.received() == c0.received()
        &&& c1.spec_sender_open() == c0.spec_sender_open()
        &&& c1.spec_receiver_open() == c0.spec_receiver_open()
    } else {
        c1 == c0
    }
}

/// Each state of `history` after the first follows from the one before by
/// one turn of actor `moves[k].0`, which moved or not as `moves[k].1` says.
pub open spec fn valid_trace<T>(m: &Model, history: Seq<Scheduler<T>>, moves: Seq<(int, bool)>) -> bool {
    &&& history.len() == moves.len() + 1
    &&& forall|k: int|
        0 <= k < moves.len() ==> #[trigger] step_of(m, history, moves, k)
}

/// The k-th turn of a trace.
pub open spec fn step_of<T>(m: &Model, history: Seq<Scheduler<T>>, moves: Seq<(int, bool)>, k: int) -> bool {
    &&& 0 <= moves[k].0 < m.len()
    &&& history[k + 1].turn_post(&history[k], m, moves[k].0, moves[k].1)
}

proof fn lemma_trace_push<T>(
    m: &Model,
    history: Seq<Scheduler<T>>,
    moves: Seq<(int, bool)>,
    next: Scheduler<T>,
    a: int,
    moved: bool,
)
    requires
        valid_trace(m, history, moves),
        0 <= a < m.len(),
        next.turn_post(&history.last(), m, a, moved),
    ensures
        valid_trace(m, history.push(next), moves.push((a, moved))),
{
    let h = history.push(next);
    let mv = moves.push((a, moved));
    assert forall|k: int| 0 <= k < mv.len() implies #[trigger] step_of(m, h, mv, k) by {
        if k < moves.len() {
            assert(step_of(m, history, moves, k));
            assert(h[k + 1] == history[k + 1]);
            assert(h[k] == history[k]);
            assert(mv[k] == moves[k]);
        } else {
            assert(h[k] == history.last());
            assert(h[k + 1] == next);
            assert(mv[k] == (a, moved));
        }
    }
}

/// How a run ended: the exit of each actor, the number of scheduling rounds,
/// whether every actor's loop had ended, whether the run stopped because a
/// whole round moved no actor while some loop still ran, and, as ghost
/// state, the final state of the scheduler, what was pre-sent at start, and
/// every state of the run with the (actor, moved) of each turn between two.
pub struct RunReport<T> {
    pub exits: Vec<Option<ActorError>>,
    pub rounds: usize,
    pub finished: bool,
    pub stalled: bool,
    pub state: Ghost<Scheduler<T>>,
    pub pre_sent: Ghost<Seq<Vec<bool>>>,
    pub history: Ghost<Seq<Scheduler<T>>>,
    pub moves: Ghost<Seq<(int, bool)>>,
}

impl<T> Scheduler<T> {
    /// Every actor waits (or has ended).
    pub open spec fn all_waiting(&self, m: &Model) -> bool {
        forall|d: int| 0 <= d < m.len() ==> #[trigger] self.waiting(m, d)
    }

    /// Some actor's loop still runs.
    pub open spec fn some_running(&self, m: &Model) -> bool {
        exists|d: int| 0 <= d < m.len() && #[trigger] self.spec_loops()[d].running()
    }

    /// A turn of a waiting actor does not move it.
    proof fn lemma_waiting_stays(&self, prev: &Self, m: &Model, a: int, moved: bool)
        requires
            self.turn_post(prev, m, a, moved),
            prev.waiting(m, a),
        ensures
            !moved,
    {
    }

    proof fn lemma_waiting_kept(&self, other: &Self, m: &Model, a: int)
        requires
            other.wf_for(m),
            self.same_state(other, m),
            0 <= a < m.len(),
            other.waiting(m, a),
        ensures
            self.waiting(m, a),
    {
        if other.spec_loops()[a].running() {
            assert(other.actor_ok(m, a));
            let x = m.spec_actors()[a];
            crate::actor::lemma_step_in_range(x.spec_ni(), x.spec_no(), m.n_inputs(a), m.n_outputs(a));
            let b = other.spec_loops()[a].body();
            let p = other.spec_loops()[a].pos() as int;
            assert(b[p] == other.current_op(a));
            if let Op::Recv(i) = other.current_op(a) {
                assert(i < m.n_inputs(a));
                assert(self.channel(a, i as int) == other.channel(a, i as int));
            }
        }
    }
}

impl Model {
    /// Validates the model, starts it, then gives each running actor one
    /// operation per round, in order, until every loop has ended, a round
    /// moves no actor, or `max_rounds` rounds have passed. `clients[a]` is
    /// the client of actor `a`; bounded channels hold `capacity` payloads.
    pub fn run<T, C: Client<T>>(&self, clients: &mut Vec<C>, capacity: usize, max_rounds: usize) -> (r: Result<
        RunReport<T>,
        ActorError,
    >)
        requires
            self.wf(),
            old(clients)@.len() == self.len(),
            capacity > 0,
        ensures
            final(clients)@.len() == old(clients)@.len(),
            r is Err <==> self.check_result() is Err,
            r matches Err(e) ==> self.check_result() == Err::<(), ActorError>(e),
            r matches Ok(rep) ==> {
                let st = rep.state@;
                &&& st.wf_for(self)
                &&& rep.exits@ == st.spec_exits()
                &&& rep.rounds <= max_rounds
                &&& forall|d: int|
                    0 <= d < self.len() ==> (#[trigger] rep.exits@[d] matches Some(e) ==> e.spec_is_graceful())
                &&& rep.finished == forall|d: int| 0 <= d < self.len() ==> !(#[trigger] st.spec_loops()[d]).running()
                &&& rep.finished ==> forall|d: int|
                    0 <= d < self.len() && (self.n_inputs(d) > 0 || self.n_outputs(d) > 0)
                        ==> #[trigger] rep.exits@[d] is Some
                &&& rep.stalled ==> !rep.finished && forall|d: int| 0 <= d < self.len() ==> #[trigger] st.waiting(self, d)
                &&& !rep.finished && !rep.stalled ==> rep.rounds == max_rounds
                &&& self.portless() ==> rep.finished && rep.rounds == 0
                &&& rep.history@[0].all_waiting(self) && rep.history@[0].some_running(self) && max_rounds > 0
                    ==> rep.stalled && rep.rounds == 1
                &&& st.handoff_ok(self)
                &&& rep.history@.len() == rep.moves@.len() + 1
                &&& rep.moves@.len() == rep.rounds * self.len()
                &&& rep.history@[0].wf_for(self)
                &&& rep.history@[0].spec_capacity() == capacity
                &&& rep.history@[0].is_start(self, rep.pre_sent@)
                &&& rep.history@.last() == st
                &&& valid_trace(self, rep.history@, rep.moves@)
            },
    {
        match self.check() {
            Err(e) => {
                return Err(e);
            },
            Ok(()) => {},
        }
        let (mut sched, flags) = Scheduler::start(self, clients, capacity);
        assert(sched.handoff_ok(self));
        let ghost history: Seq<Scheduler<T>> = seq![sched];
        let ghost h0 = sched;
        let ghost w0 = h0.all_waiting(self) && h0.some_running(self);
        let ghost moves: Seq<(int, bool)> = Seq::empty();
        let n = self.n_actors();
        let mut rounds: usize = 0;
        let mut finished = sched.all_stopped(self);
        let mut stalled = false;
        let ghost no_ports = self.portless();
        proof {
            if no_ports {
                assert forall|d: int| 0 <= d < self.len() implies !(#[trigger] sched.spec_loops()[d]).running() by {
                    assert(self.n_outputs(d) == 0);
                }
            }
        }
        while rounds < max_rounds && !finished
            invariant_except_break
                !stalled,
                w0 ==> rounds == 0 && sched.all_waiting(self) && sched.some_running(self),
            invariant
                sched.handoff_ok(self),
                moves.len() == rounds * n,
                history.len() == moves.len() + 1,
                history[0] == h0,
                history[0].wf_for(self),
                history[0].spec_capacity() == capacity,
                history[0].is_start(self, flags@),
                history.last() == sched,
                valid_trace(self, history, moves),
                sched.wf_for(self),
                n == self.len(),
                clients@.len() == self.len(),
                rounds <= max_rounds,
                finished == forall|d: int| 0 <= d < self.len() ==> !(#[trigger] sched.spec_loops()[d]).running(),
                no_ports ==> finished && rounds == 0,
            ensures
                w0 && max_rounds > 0 ==> stalled && rounds == 1,
                finished || stalled || rounds == max_rounds,
                !(finished && stalled),
                stalled ==> forall|d: int| 0 <= d < self.len() ==> #[trigger] sched.waiting(self, d),
            decreases max_rounds - rounds,
        {
            let ghost round_start = sched;
            let mut progress = false;
            let mut a: usize = 0;
            while a < n
                invariant
                    w0 ==> rounds == 0 && !progress && sched.all_waiting(self) && sched.some_running(self),
                    w0 ==> round_start.all_waiting(self),
                    sched.handoff_ok(self),
                    moves.len() == rounds * n + a,
                    history.len() == moves.len() + 1,
                    history[0] == h0,
                history[0].wf_for(self),
                    history[0].spec_capacity() == capacity,
                    history[0].is_start(self, flags@),
                    history.last() == sched,
                    valid_trace(self, history, moves),
                    sched.wf_for(self),
                    round_start.wf_for(self),
                    n == self.len(),
                    clients@.len() == self.len(),
                    a <= n,
                    !progress ==> sched.same_state(&round_start, self),
                    !progress ==> forall|b: int| 0 <= b < a ==> #[trigger] sched.waiting(self, b),
                decreases n - a,
            {
                let ghost before = sched;
                let moved = sched.turn(self, &mut clients[a], a);
                proof {
                    sched.lemma_handoff_step(&before, self, a as int, moved);
                    if w0 {
                        assert(before.waiting(self, a as int));
                        sched.lemma_waiting_stays(&before, self, a as int, moved);
                        assert forall|d: int| 0 <= d < self.len() implies #[trigger] sched.waiting(self, d) by {
                            assert(before.waiting(self, d));
                            sched.lemma_waiting_kept(&before, self, d);
                        }
                        let w = choose|d: int| 0 <= d < self.len() && #[trigger] before.spec_loops()[d].running();
                        assert(sched.spec_loops()[w].running());
                    }
                }
                proof {
                    lemma_trace_push(self, history, moves, sched, a as int, moved);
                    history = history.push(sched);
                    moves = moves.push((a as int, moved));
                }
                if moved {
                    progress = true;
                } else {
                    proof {
                        assert(before.waiting(self, a as int));
                        sched.lemma_waiting_kept(&before, self, a as int);
                        if !progress {
                            assert forall|b: int| 0 <= b < a + 1 implies #[trigger] sched.waiting(self, b) by {
                                if b < a {
                                    assert(before.waiting(self, b));
                                    sched.lemma_waiting_kept(&before, self, b);
                                }
                            }
                            assert forall|d: int, i: int|
                                0 <= d < self.len() && 0 <= i < self.n_inputs(d) implies #[trigger] sched.channel(d, i)
                                    == round_start.channel(d, i) by {
                                assert(sched.channel(d, i) == before.channel(d, i));
                            }
                        }
                    }
                }
                a = a + 1;
            }
            assert(rounds * n + n == (rounds + 1) * n) by (nonlinear_arith);
            rounds = rounds + 1;
            finished = sched.all_stopped(self);
            if !progress {
                stalled = !finished;
                break;
            }
        }
        let ghost last = sched;
        let exits = sched.into_exits();
        proof {
            assert forall|d: int| 0 <= d < self.len() implies (#[trigger] exits@[d] matches Some(e) ==> e.spec_is_graceful()) by {
                assert(last.actor_ok(self, d));
            }
            if finished {
                assert forall|d: int| 0 <= d < self.len() && (self.n_inputs(d) > 0 || self.n_outputs(d) > 0) implies #[trigger] exits@[d] is Some by {
                    assert(last.actor_ok(self, d));
                    assert(!last.spec_loops()[d].running());
                }
            }
        }
        let rep = RunReport {
            exits,
            rounds,
            finished,
            stalled,
            state: Ghost(last),
            pre_sent: Ghost(flags@),
            history: Ghost(history),
            moves: Ghost(moves),
        };
        proof {
            let st = rep.state@;
            assert(st.wf_for(self));
            assert(rep.exits@ == st.spec_exits());
            assert(rep.finished == forall|d: int| 0 <= d < self.len() ==> !(#[trigger] st.spec_loops()[d]).running());
            assert(rep.stalled ==> !rep.finished && forall|d: int| 0 <= d < self.len() ==> #[trigger] st.waiting(self, d));
            assert(!rep.finished && !rep.stalled ==> rep.rounds == max_rounds);
            assert(self.portless() ==> rep.finished && rep.rounds == 0);
            assert(rep.history@[0] == history[0]);
            assert(w0 == (history[0].all_waiting(self) && history[0].some_running(self)));
            assert(rep.history@[0].all_waiting(self) && rep.history@[0].some_running(self) && max_rounds > 0
                ==> rep.stalled && rep.rounds == 1);
        }
        Ok(rep)
    }
}

} // verus!
