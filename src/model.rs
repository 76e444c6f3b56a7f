//! The model: a set of actors wired output to input, its validation, and the
//! laws that a validated model obeys.
use crate::actor::{rates_result, rates_valid, check_rates, Actor, Output};
use crate::error::ActorError;
use vstd::prelude::*;

verus! {

/// Options of the outputs added to an actor: how many ports share the signal
/// (multiplex), whether they pre-send one payload at start (bootstrap), and
/// whether their channels are unbounded.
#[derive(Debug, Clone, Copy, PartialEq, Eq, Structural)]
pub struct OutputBuilder {
    pub multiplex: usize,
    pub bootstrap: bool,
    pub unbounded: bool,
}

impl OutputBuilder {
    /// One output, bounded, without bootstrap.
    pub fn new() -> (r: Self)
        ensures
            r == (OutputBuilder { multiplex: 1, bootstrap: false, unbounded: false }),
    {
        OutputBuilder { multiplex: 1, bootstrap: false, unbounded: false }
    }

    /// `n` outputs carrying the same signal, one per consumer.
    pub fn multiplex(self, n: usize) -> (r: Self)
        ensures
            r == (OutputBuilder { multiplex: n, ..self }),
    {
        OutputBuilder { multiplex: n, ..self }
    }

    /// The outputs pre-send one payload when the model starts.
    pub fn bootstrap(self) -> (r: Self)
        ensures
            r == (OutputBuilder { bootstrap: true, ..self }),
    {
        OutputBuilder { bootstrap: true, ..self }
    }

    /// The outputs' channels never make the sender wait.
    pub fn unbounded(self) -> (r: Self)
        ensures
            r == (OutputBuilder { unbounded: true, ..self }),
    {
        OutputBuilder { unbounded: true, ..self }
    }
}

/// A set of actors, each input fed by exactly one output.
pub struct Model {
    actors: Vec<Actor>,
}

impl Model {
    pub closed spec fn spec_actors(&self) -> Seq<Actor> {
        self.actors@
    }

    pub open spec fn len(&self) -> nat {
        self.spec_actors().len()
    }

    pub open spec fn n_inputs(&self, a: int) -> nat {
        self.spec_actors()[a].spec_inputs().len()
    }

    pub open spec fn n_outputs(&self, a: int) -> nat {
        self.spec_actors()[a].spec_outputs().len()
    }

    /// The inputs fed by output `j` of actor `a`.
    pub open spec fn targets(&self, a: int, j: int) -> Seq<(usize, usize)> {
        self.spec_actors()[a].spec_outputs()[j].spec_targets()
    }

    /// The (actor, output) that feeds input `i` of actor `d`.
    pub open spec fn upstream(&self, d: int, i: int) -> (usize, usize) {
        self.spec_actors()[d].spec_inputs()[i]
    }

    /// No actor has a port.
    pub open spec fn portless(&self) -> bool {
        forall|d: int| 0 <= d < self.len() ==> self.n_inputs(d) == 0 && #[trigger] self.n_outputs(d) == 0
    }

    /// Every connection is recorded at both ends: each target of an output is
    /// an input whose upstream is that output, and each input's upstream is an
    /// output that lists it among its targets.
    pub open spec fn wf(&self) -> bool {
        &&& self.len() <= usize::MAX
        &&& forall|a: int|
            0 <= a < self.len() ==> #[trigger] self.n_inputs(a) <= usize::MAX && self.n_outputs(a)
                <= usize::MAX
        &&& forall|a: int, j: int|
            0 <= a < self.len() && 0 <= j < self.n_outputs(a) ==> (#[trigger] self.targets(a, j)).no_duplicates()
        &&& forall|a: int, j: int, k: int|
            0 <= a < self.len() && 0 <= j < self.n_outputs(a) && 0 <= k < self.targets(a, j).len()
                ==> {
                let (d, i) = #[trigger] self.targets(a, j)[k];
                &&& d < self.len()
                &&& i < self.n_inputs(d as int)
                &&& self.upstream(d as int, i as int) == (a as usize, j as usize)
            }
        &&& forall|d: int, i: int|
            0 <= d < self.len() && 0 <= i < self.n_inputs(d) ==> {
                let (a, j) = #[trigger] self.upstream(d, i);
                &&& a < self.len()
                &&& j < self.n_outputs(a as int)
                &&& self.targets(a as int, j as int).contains((d as usize, i as usize))
            }
    }

    /// An empty model.
    pub fn new() -> (r: Self)
        ensures
            r.wf(),
            r.len() == 0,
    {
        Model { actors: Vec::new() }
    }

    pub fn n_actors(&self) -> (r: usize)
        ensures
            r == self.len(),
    {
        self.actors.len()
    }

    pub fn actor(&self, a: usize) -> (r: &Actor)
        requires
            a < self.len(),
        ensures
            *r == self.spec_actors()[a as int],
    {
        &self.actors[a]
    }

    /// Adds an actor without ports and returns its index.
    pub fn add_actor(&mut self, actor: Actor) -> (r: usize)
        requires
            old(self).wf(),
            actor.spec_inputs().len() == 0,
            actor.spec_outputs().len() == 0,
        ensures
            final(self).wf(),
            r == old(self).len(),
            final(self).spec_actors() == old(self).spec_actors().push(actor),
    {
        self.actors.push(actor);
        let r = self.actors.len() - 1;
        proof {
            assert forall|a: int| 0 <= a < self.len() implies #[trigger] self.n_inputs(a) <= usize::MAX
                && self.n_outputs(a) <= usize::MAX by {
                if a < old(self).len() {
                    assert(self.spec_actors()[a] == old(self).spec_actors()[a]);
                    assert(old(self).n_inputs(a) <= usize::MAX);
                }
            }
            assert forall|a: int, j: int, k: int|
                0 <= a < self.len() && 0 <= j < self.n_outputs(a) && 0 <= k < self.targets(
                    a,
                    j,
                ).len() implies {
                let (d, i) = #[trigger] self.targets(a, j)[k];
                &&& d < self.len()
                &&& i < self.n_inputs(d as int)
                &&& self.upstream(d as int, i as int) == (a as usize, j as usize)
            } by {
                assert(a < old(self).len());
                assert(self.targets(a, j) == old(self).targets(a, j));
            }
            assert forall|d: int, i: int| 0 <= d < self.len() && 0 <= i < self.n_inputs(d) implies {
                let (a, j) = #[trigger] self.upstream(d, i);
                &&& a < self.len()
                &&& j < self.n_outputs(a as int)
                &&& self.targets(a as int, j as int).contains((d as usize, i as usize))
            } by {
                assert(d < old(self).len());
                assert(self.upstream(d, i) == old(self).upstream(d, i));
            }
            assert forall|a: int, j: int| 0 <= a < self.len() && 0 <= j < self.n_outputs(a) implies (#[trigger] self.targets(a, j)).no_duplicates() by {
                assert(a < old(self).len());
                assert(self.targets(a, j) == old(self).targets(a, j));
            }
        }
        r
    }

    /// Whether some output of actor `a` feeds no input.
    pub open spec fn has_orphan(&self, a: int) -> bool {
        exists|j: int| 0 <= j < self.n_outputs(a) && #[trigger] self.targets(a, j).len() == 0
    }

    /// Whether some input of actor `d` is fed by an output whose rate is not
    /// the inputs rate of `d`.
    pub open spec fn has_rate_mismatch(&self, d: int) -> bool {
        exists|i: int|
            0 <= i < self.n_inputs(d) && self.spec_actors()[#[trigger] self.upstream(
                d,
                i,
            ).0 as int].spec_no() != self.spec_actors()[d].spec_ni()
    }

    /// What is wrong with actor `a`, if anything: its rates against its
    /// ports, then an orphan output, then an input fed at another rate.
    pub open spec fn actor_fault(&self, a: int) -> Option<ActorError> {
        let x = self.spec_actors()[a];
        let name = x.spec_name_string();
        let rates = rates_result(name, x.spec_ni(), x.spec_no(), self.n_inputs(a), self.n_outputs(a));
        if rates is Err {
            Some(rates->Err_0)
        } else if self.has_orphan(a) {
            Some(ActorError::OrphanOutput(name))
        } else if self.has_rate_mismatch(a) {
            Some(ActorError::RateMismatch(name))
        } else {
            None
        }
    }

    /// The fault of the first actor at or after `a` that has one.
    pub open spec fn fault_from(&self, a: int) -> Option<ActorError>
        decreases self.len() - a,
    {
        if a < 0 || a >= self.len() {
            None
        } else if self.actor_fault(a) is Some {
            self.actor_fault(a)
        } else {
            self.fault_from(a + 1)
        }
    }

    /// The outcome of validation: the fault of the first faulty actor, if any.
    pub open spec fn check_result(&self) -> Result<(), ActorError> {
        match self.fault_from(0) {
            Some(e) => Err(e),
            None => Ok(()),
        }
    }

    /// Validates the model: every actor's rates agree with its ports, every
    /// output feeds at least one input, and every input is fed at the inputs
    /// rate of its actor.
    pub fn check(&self) -> (r: Result<(), ActorError>)
        requires
            self.wf(),
        ensures
            r == self.check_result(),
    {
        let n = self.actors.len();
        let mut a: usize = 0;
        while a < n
            invariant
                self.wf(),
                n == self.len(),
                a <= n,
                self.fault_from(0) == self.fault_from(a as int),
            decreases n - a,
        {
            let x = &self.actors[a];
            let nin = x.n_inputs();
            let nout = x.n_outputs();
            let rates = check_rates(x.name(), x.ni(), x.no(), nin, nout);
            if let Err(e) = rates {
                proof {
                    assert(self.fault_from(a as int) == self.actor_fault(a as int));
                }
                return Err(e);
            }
            let mut j: usize = 0;
            while j < nout
                invariant
                    j <= nout,
                    a < self.len(),
                    *x == self.spec_actors()[a as int],
                    nin == self.n_inputs(a as int),
                    nout == self.n_outputs(a as int),
                    forall|k: int| 0 <= k < j ==> self.targets(a as int, k).len() > 0,
                    self.fault_from(0) == self.fault_from(a as int),
                    rates_result(x.spec_name_string(), x.spec_ni(), x.spec_no(), nin as nat, nout as nat) is Ok,
                decreases nout - j,
            {
                if x.output(j).len() == 0 {
                    proof {
                        assert(self.targets(a as int, j as int).len() == 0);
                        assert(self.has_orphan(a as int));
                        assert(self.fault_from(a as int) == self.actor_fault(a as int));
                    }
                    return Err(ActorError::OrphanOutput(x.name().clone()));
                }
                j = j + 1;
            }
            let mut i: usize = 0;
            assert(!self.has_orphan(a as int));
            while i < nin
                invariant
                    self.wf(),
                    i <= nin,
                    a < self.len(),
                    n == self.len(),
                    *x == self.spec_actors()[a as int],
                    !self.has_orphan(a as int),
                    self.fault_from(0) == self.fault_from(a as int),
                    rates_result(x.spec_name_string(), x.spec_ni(), x.spec_no(), nin as nat, nout as nat) is Ok,
                    nin == self.n_inputs(a as int),
                    nout == self.n_outputs(a as int),
                    forall|k: int| 0 <= k < i ==> self.spec_actors()[#[trigger] self.upstream(a as int, k).0 as int].spec_no()
                        == self.spec_actors()[a as int].spec_ni(),
                decreases nin - i,
            {
                let (u, _) = x.input(i);
                assert(self.upstream(a as int, i as int).0 < self.len());
                if self.actors[u].no() != x.ni() {
                    proof {
                        assert(self.upstream(a as int, i as int).0 == u);
                        assert(self.spec_actors()[self.upstream(a as int, i as int).0 as int].spec_no()
                            != self.spec_actors()[a as int].spec_ni());
                        assert(self.has_rate_mismatch(a as int));
                        assert(self.fault_from(a as int) == self.actor_fault(a as int));
                    }
                    return Err(ActorError::RateMismatch(x.name().clone()));
                }
                i = i + 1;
            }
            proof {
                assert(self.actor_fault(a as int) is None);
                assert(self.fault_from(a as int) == self.fault_from(a + 1));
            }
            a = a + 1;
        }
        Ok(())
    }

    /// The outputs that pre-send one payload at start, as (actor, output)
    /// pairs, actor by actor and output by output.
    pub fn pre_sends(&self) -> (r: Vec<(usize, usize)>)
        requires
            self.wf(),
        ensures
            forall|a: usize, j: usize|
                #[trigger] r@.contains((a, j)) <==> a < self.len() && j < self.n_outputs(a as int)
                    && self.spec_actors()[a as int].spec_outputs()[j as int].spec_bootstrap(),
            r@.no_duplicates(),
    {
        let mut r: Vec<(usize, usize)> = Vec::new();
        let n = self.actors.len();
        let mut a: usize = 0;
        while a < n
            invariant
                self.wf(),
                n == self.len(),
                a <= n,
                r@.no_duplicates(),
                forall|b: usize, k: usize|
                    #[trigger] r@.contains((b, k)) <==> b < a && k < self.n_outputs(b as int)
                        && self.spec_actors()[b as int].spec_outputs()[k as int].spec_bootstrap(),
                forall|q: int| 0 <= q < r@.len() ==> (#[trigger] r@[q]).0 < a,
            decreases n - a,
        {
            let x = &self.actors[a];
            let nout = x.n_outputs();
            let mut j: usize = 0;
            while j < nout
                invariant
                    self.wf(),
                    n == self.len(),
                    a < n,
                    *x == self.spec_actors()[a as int],
                    nout == self.n_outputs(a as int),
                    j <= nout,
                    r@.no_duplicates(),
                    forall|b: usize, k: usize|
                        #[trigger] r@.contains((b, k)) <==> (b < a && k < self.n_outputs(b as int) || b == a
                            && k < j) && self.spec_actors()[b as int].spec_outputs()[k as int].spec_bootstrap(),
                    forall|q: int| 0 <= q < r@.len() ==> (#[trigger] r@[q]).0 < a || r@[q].0 == a && r@[q].1 < j,
                decreases nout - j,
            {
                if x.output(j).bootstrap() {
                    let ghost r0 = r@;
                    r.push((a, j));
                    proof {
                        assert(!r0.contains((a, j))) by {
                            if r0.contains((a, j)) {
                                let q = choose|q: int| 0 <= q < r0.len() && r0[q] == (a, j);
                                assert(r0[q].0 < a || r0[q].0 == a && r0[q].1 < j);
                            }
                        }
                        assert forall|b: usize, k: usize|
                            #[trigger] r@.contains((b, k)) <==> (b < a && k < self.n_outputs(b as int) || b == a
                                && k < j + 1) && self.spec_actors()[b as int].spec_outputs()[k as int].spec_bootstrap() by {
                            if r@.contains((b, k)) {
                                let q = choose|q: int| 0 <= q < r@.len() && r@[q] == (b, k);
                                if q < r0.len() {
                                    assert(r0[q] == (b, k));
                                    assert(r0.contains((b, k)));
                                }
                            }
                            if r0.contains((b, k)) {
                                let q = choose|q: int| 0 <= q < r0.len() && r0[q] == (b, k);
                                assert(r@[q] == (b, k));
                            }
                            if b == a && k == j {
                                assert(r@[r0.len() as int] == (a, j));
                            }
                        }
                    }
                }
                j = j + 1;
            }
            a = a + 1;
        }
        r
    }

    /// Adds to actor `a` the outputs that `builder` describes, connected to
    /// nothing yet, and returns their indices.
    pub fn add_output(&mut self, a: usize, builder: OutputBuilder) -> (r: Vec<usize>)
        requires
            old(self).wf(),
            a < old(self).len(),
        ensures
            final(self).wf(),
            final(self).len() == old(self).len(),
            r@.len() == builder.multiplex,
            final(self).n_outputs(a as int) == old(self).n_outputs(a as int) + builder.multiplex,
            forall|k: int| 0 <= k < r@.len() ==> r@[k] == old(self).n_outputs(a as int) + k,
            forall|k: int|
                #![trigger final(self).spec_actors()[a as int].spec_outputs()[k]]
                old(self).n_outputs(a as int) <= k < final(self).n_outputs(a as int) ==> {
                    let o = final(self).spec_actors()[a as int].spec_outputs()[k];
                    &&& o.spec_targets().len() == 0
                    &&& o.spec_bootstrap() == builder.bootstrap
                    &&& o.spec_unbounded() == builder.unbounded
                },
            forall|j: int|
                0 <= j < old(self).n_outputs(a as int) ==> final(self).spec_actors()[a as int].spec_outputs()[j]
                    == old(self).spec_actors()[a as int].spec_outputs()[j],
            final(self).spec_actors()[a as int].spec_inputs() == old(self).spec_actors()[a as int].spec_inputs(),
            final(self).spec_actors()[a as int].spec_name() == old(self).spec_actors()[a as int].spec_name(),
            final(self).spec_actors()[a as int].spec_ni() == old(self).spec_actors()[a as int].spec_ni(),
            final(self).spec_actors()[a as int].spec_no() == old(self).spec_actors()[a as int].spec_no(),
            forall|b: int| 0 <= b < old(self).len() && b != a ==> final(self).spec_actors()[b] == old(self).spec_actors()[b],
    {
        let mut r: Vec<usize> = Vec::new();
        let mut t: usize = 0;
        let ghost start = self.actors@;
        let n0 = self.actors[a].n_outputs();
        while t < builder.multiplex
            invariant
                self.wf(),
                t <= builder.multiplex,
                a < self.len(),
                self.len() == start.len(),
                n0 == start[a as int].spec_outputs().len(),
                r@.len() == t,
                self.n_outputs(a as int) == n0 + t,
                forall|k: int| 0 <= k < r@.len() ==> r@[k] == n0 + k,
                forall|k: int|
                    #![trigger self.spec_actors()[a as int].spec_outputs()[k]]
                    n0 <= k < self.n_outputs(a as int) ==> {
                        let o = self.spec_actors()[a as int].spec_outputs()[k];
                        &&& o.spec_targets().len() == 0
                        &&& o.spec_bootstrap() == builder.bootstrap
                        &&& o.spec_unbounded() == builder.unbounded
                    },
                forall|j: int|
                    0 <= j < n0 ==> self.spec_actors()[a as int].spec_outputs()[j]
                        == start[a as int].spec_outputs()[j],
                self.spec_actors()[a as int].spec_inputs() == start[a as int].spec_inputs(),
                self.spec_actors()[a as int].spec_name() == start[a as int].spec_name(),
                self.spec_actors()[a as int].spec_ni() == start[a as int].spec_ni(),
                self.spec_actors()[a as int].spec_no() == start[a as int].spec_no(),
                forall|b: int| 0 <= b < start.len() && b != a ==> self.spec_actors()[b] == start[b],
            decreases builder.multiplex - t,
        {
            let ghost prev = *self;
            let out = Output::new(builder.bootstrap, builder.unbounded);
            let idx = self.actors[a].push_output(out);
            r.push(idx);
            t = t + 1;
            proof {
                assert forall|b: int| 0 <= b < self.len() implies #[trigger] self.n_inputs(b) <= usize::MAX
                    && self.n_outputs(b) <= usize::MAX by {
                    assert(prev.n_inputs(b) <= usize::MAX);
                }
                assert forall|b: int| 0 <= b < self.len() && b != a implies self.spec_actors()[b]
                    == prev.spec_actors()[b] by {}
                assert forall|x: int, j: int, k: int|
                    0 <= x < self.len() && 0 <= j < self.n_outputs(x) && 0 <= k < self.targets(
                        x,
                        j,
                    ).len() implies {
                    let (d, i) = #[trigger] self.targets(x, j)[k];
                    &&& d < self.len()
                    &&& i < self.n_inputs(d as int)
                    &&& self.upstream(d as int, i as int) == (x as usize, j as usize)
                } by {
                    assert(j < prev.n_outputs(x));
                    assert(self.targets(x, j) == prev.targets(x, j));
                    let (d, i) = self.targets(x, j)[k];
                    assert(prev.targets(x, j)[k] == (d, i));
                    assert(self.n_inputs(d as int) == prev.n_inputs(d as int));
                    assert(self.upstream(d as int, i as int) == prev.upstream(d as int, i as int));
                }
                assert forall|d: int, i: int| 0 <= d < self.len() && 0 <= i < self.n_inputs(d) implies {
                    let (x, j) = #[trigger] self.upstream(d, i);
                    &&& x < self.len()
                    &&& j < self.n_outputs(x as int)
                    &&& self.targets(x as int, j as int).contains((d as usize, i as usize))
                } by {
                    assert(self.upstream(d, i) == prev.upstream(d, i));
                    let (x, j) = prev.upstream(d, i);
                    assert(prev.targets(x as int, j as int).contains((d as usize, i as usize)));
                    assert(self.targets(x as int, j as int) == prev.targets(x as int, j as int));
                }
                assert forall|x: int, j: int| 0 <= x < self.len() && 0 <= j < self.n_outputs(x) implies (#[trigger] self.targets(x, j)).no_duplicates() by {
                    if j < prev.n_outputs(x) {
                        assert(self.targets(x, j) == prev.targets(x, j));
                    } else {
                        assert(self.targets(x, j).len() == 0);
                    }
                }
            }
        }
        r
    }

    /// Connects output `j` of actor `a` to a new input of actor `d`, and
    /// returns the index of that input.
    pub fn into_input(&mut self, a: usize, j: usize, d: usize) -> (r: usize)
        requires
            old(self).wf(),
            a < old(self).len(),
            j < old(self).n_outputs(a as int),
            d < old(self).len(),
        ensures
            final(self).wf(),
            final(self).len() == old(self).len(),
            r == old(self).n_inputs(d as int),
            final(self).upstream(d as int, r as int) == (a, j),
            final(self).targets(a as int, j as int) == old(self).targets(a as int, j as int).push((d, r)),
            final(self).spec_actors()[d as int].spec_inputs() == old(self).spec_actors()[d as int].spec_inputs().push((a, j)),
            forall|b: int| 0 <= b < old(self).len() && b != a && b != d ==> final(self).spec_actors()[b] == old(self).spec_actors()[b],
            forall|b: int| 0 <= b < old(self).len() ==> final(self).n_outputs(b) == old(self).n_outputs(b),
            forall|b: int| 0 <= b < old(self).len() ==> {
                &&& final(self).spec_actors()[b].spec_name() == old(self).spec_actors()[b].spec_name()
                &&& final(self).spec_actors()[b].spec_ni() == old(self).spec_actors()[b].spec_ni()
                &&& final(self).spec_actors()[b].spec_no() == old(self).spec_actors()[b].spec_no()
            },
            forall|b: int, k: int| 0 <= b < old(self).len() && 0 <= k < old(self).n_outputs(b) && (b != a || k != j) ==> #[trigger] final(self).targets(b, k) == old(self).targets(b, k),
            forall|b: int, k: int| 0 <= b < old(self).len() && 0 <= k < old(self).n_outputs(b) ==> #[trigger] final(self).spec_actors()[b].spec_outputs()[k].spec_bootstrap() == old(self).spec_actors()[b].spec_outputs()[k].spec_bootstrap(),
            forall|b: int, k: int| 0 <= b < old(self).len() && 0 <= k < old(self).n_outputs(b) ==> #[trigger] final(self).spec_actors()[b].spec_outputs()[k].spec_unbounded() == old(self).spec_actors()[b].spec_outputs()[k].spec_unbounded(),
    {
        let ghost prev = *self;
        let i = self.actors[d].push_input((a, j));
        let ghost mid = *self;
        self.actors[a].push_target(j, (d, i));
        proof {
            assert forall|b: int| 0 <= b < self.len() && b != a && b != d implies self.spec_actors()[b]
                == prev.spec_actors()[b] by {}
            assert forall|x: int| 0 <= x < self.len() implies #[trigger] self.n_inputs(x) == prev.n_inputs(x) + (if x == d { 1int } else { 0int }) by {
                if x == a {
                    assert(self.spec_actors()[x].spec_inputs() == mid.spec_actors()[x].spec_inputs());
                }
            }
            assert forall|x: int, y: int| 0 <= x < self.len() && 0 <= y < self.n_outputs(x) && (x != a || y != j) implies #[trigger] self.targets(x, y) == prev.targets(x, y) by {
                assert(mid.targets(x, y) == prev.targets(x, y));
            }
            assert forall|x: int, y: int| 0 <= x < prev.len() && 0 <= y < prev.n_inputs(x) implies #[trigger] self.upstream(x, y) == prev.upstream(x, y) by {
                assert(self.spec_actors()[x].spec_inputs() == mid.spec_actors()[x].spec_inputs());
                if x == d {
                    assert(mid.spec_actors()[x].spec_inputs() == prev.spec_actors()[x].spec_inputs().push((a, j)));
                }
            }
            assert(self.spec_actors()[d as int].spec_inputs() == mid.spec_actors()[d as int].spec_inputs());
            assert(self.upstream(d as int, i as int) == (a, j));
            assert forall|x: int, y: int, k: int|
                0 <= x < self.len() && 0 <= y < self.n_outputs(x) && 0 <= k < self.targets(x, y).len()
                    implies {
                let (dd, ii) = #[trigger] self.targets(x, y)[k];
                &&& dd < self.len()
                &&& ii < self.n_inputs(dd as int)
                &&& self.upstream(dd as int, ii as int) == (x as usize, y as usize)
            } by {
                if x == a && y == j && k == prev.targets(x, y).len() {
                    assert(self.targets(x, y)[k] == (d, i));
                } else {
                    assert(self.targets(x, y)[k] == prev.targets(x, y)[k]);
                    let (dd, ii) = prev.targets(x, y)[k];
                    assert(self.upstream(dd as int, ii as int) == prev.upstream(dd as int, ii as int));
                }
            }
            assert forall|dd: int, ii: int| 0 <= dd < self.len() && 0 <= ii < self.n_inputs(dd) implies {
                let (x, y) = #[trigger] self.upstream(dd, ii);
                &&& x < self.len()
                &&& y < self.n_outputs(x as int)
                &&& self.targets(x as int, y as int).contains((dd as usize, ii as usize))
            } by {
                if dd == d && ii == i {
                    assert(self.targets(a as int, j as int).last() == (d, i));
                } else {
                    assert(self.upstream(dd, ii) == prev.upstream(dd, ii));
                    let (x, y) = prev.upstream(dd, ii);
                    let kk = choose|kk: int| 0 <= kk < prev.targets(x as int, y as int).len() && prev.targets(x as int, y as int)[kk] == (dd as usize, ii as usize);
                    if x == a && y == j {
                        assert(self.targets(x as int, y as int)[kk] == (dd as usize, ii as usize));
                    }
                }
            }
            assert forall|x: int, y: int| 0 <= x < self.len() && 0 <= y < self.n_outputs(x) implies (#[trigger] self.targets(x, y)).no_duplicates() by {
                if x == a && y == j {
                    let old_t = prev.targets(x, y);
                    assert(prev.targets(x, y).no_duplicates());
                    assert forall|k: int| 0 <= k < old_t.len() implies old_t[k] != (d, i) by {
                        let (dd, ii) = old_t[k];
                        assert(ii < prev.n_inputs(dd as int));
                    }
                    assert(self.targets(x, y) == old_t.push((d, i)));
                } else {
                    assert(self.targets(x, y) == prev.targets(x, y));
                }
            }
        }
        i
    }
}

/// When no actor at or after `b` is faulty, each of them passes on its own.
proof fn lemma_fault_free_from(m: &Model, b: int)
    requires
        0 <= b,
        m.fault_from(b) is None,
    ensures
        forall|a: int| b <= a < m.len() ==> #[trigger] m.actor_fault(a) is None,
    decreases m.len() - b,
{
    if b < m.len() {
        lemma_fault_free_from(m, b + 1);
    }
}

/// Once a model passes validation, every output feeds at least one input and
/// every input has exactly one upstream output, which lists it as a target.
pub proof fn lemma_connectivity(m: &Model)
    requires
        m.wf(),
        m.check_result() is Ok,
    ensures
        forall|a: int, j: int|
            0 <= a < m.len() && 0 <= j < m.n_outputs(a) ==> #[trigger] m.targets(a, j).len() >= 1,
        forall|d: int, i: int|
            0 <= d < m.len() && 0 <= i < m.n_inputs(d) ==> {
                let (a, j) = #[trigger] m.upstream(d, i);
                &&& a < m.len()
                &&& j < m.n_outputs(a as int)
                &&& m.targets(a as int, j as int).contains((d as usize, i as usize))
            },
        forall|d: int, i: int, a: int, j: int, k: int|
            #![trigger m.targets(a, j)[k], m.upstream(d, i)]
            0 <= d < m.len() && 0 <= i < m.n_inputs(d) && 0 <= a < m.len() && 0 <= j < m.n_outputs(
                a,
            ) && 0 <= k < m.targets(a, j).len() && m.targets(a, j)[k] == (
                d as usize,
                i as usize,
            ) ==> m.upstream(d, i) == (a as usize, j as usize),
{
    lemma_fault_free_from(m, 0);
    assert forall|a: int, j: int| 0 <= a < m.len() && 0 <= j < m.n_outputs(a) implies #[trigger] m.targets(
        a,
        j,
    ).len() >= 1 by {
        assert(m.actor_fault(a) is None);
        if m.targets(a, j).len() == 0 {
            assert(m.has_orphan(a));
        }
    }
}

/// Once a model passes validation, the two rates that meet on any edge, the
/// outputs rate of the producer and the inputs rate of the consumer, are
/// positive and the larger is a multiple of the smaller; within an actor with
/// inputs and outputs, so are its two rates.
pub proof fn lemma_rate_integrality(m: &Model)
    requires
        m.wf(),
        m.check_result() is Ok,
    ensures
        forall|d: int, i: int|
            0 <= d < m.len() && 0 <= i < m.n_inputs(d) ==> {
                let no_up = m.spec_actors()[#[trigger] m.upstream(d, i).0 as int].spec_no();
                let ni_down = m.spec_actors()[d].spec_ni();
                &&& no_up > 0
                &&& ni_down > 0
                &&& (if ni_down >= no_up { ni_down % no_up == 0 } else { no_up % ni_down == 0 })
            },
        forall|a: int|
            0 <= a < m.len() ==> rates_valid(
                #[trigger] m.spec_actors()[a].spec_ni(),
                m.spec_actors()[a].spec_no(),
                m.n_inputs(a),
                m.n_outputs(a),
            ),
{
    lemma_fault_free_from(m, 0);
    assert forall|a: int| 0 <= a < m.len() implies rates_valid(
        #[trigger] m.spec_actors()[a].spec_ni(),
        m.spec_actors()[a].spec_no(),
        m.n_inputs(a),
        m.n_outputs(a),
    ) by {
        assert(m.actor_fault(a) is None);
    }
    assert forall|d: int, i: int| 0 <= d < m.len() && 0 <= i < m.n_inputs(d) implies {
        let no_up = m.spec_actors()[#[trigger] m.upstream(d, i).0 as int].spec_no();
        let ni_down = m.spec_actors()[d].spec_ni();
        &&& no_up > 0
        &&& ni_down > 0
        &&& (if ni_down >= no_up { ni_down % no_up == 0 } else { no_up % ni_down == 0 })
    } by {
        let (a, j) = m.upstream(d, i);
        assert(m.actor_fault(d) is None);
        assert(!m.has_rate_mismatch(d));
        assert(m.spec_actors()[d].spec_ni() > 0);
        assert(m.actor_fault(a as int) is None);
        assert(m.spec_actors()[a as int].spec_no() == m.spec_actors()[d].spec_ni());
        assert(m.n_outputs(a as int) > 0);
        let x = m.spec_actors()[d].spec_ni();
        assert(x % x == 0) by (nonlinear_arith)
            requires
                x > 0,
        ;
    }
}

} // verus!
