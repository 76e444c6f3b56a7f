//! Clients shipped with the runtime: a logger and a sample-and-hold.
use crate::runtime::{share, Client};
use std::sync::Arc;
use vstd::prelude::*;

verus! {

/// Accumulates every payload it receives, in arrival order.
pub struct Logging<T>(Vec<Arc<T>>);

impl<T> Logging<T> {
    pub closed spec fn spec_log(&self) -> Seq<Arc<T>> {
        self.0@
    }

    /// An empty log.
    pub fn new() -> (r: Self)
        ensures
            r.spec_log() == Seq::<Arc<T>>::empty(),
    {
        Logging(Vec::new())
    }

    /// Appends `data` to the log.
    pub fn log(&mut self, data: Arc<T>)
        ensures
            final(self).spec_log() == old(self).spec_log().push(data),
    {
        self.0.push(data);
    }

    /// What was logged so far.
    pub fn data(&self) -> (r: &Vec<Arc<T>>)
        ensures
            r@ == self.spec_log(),
    {
        &self.0
    }

    pub fn len(&self) -> (r: usize)
        ensures
            r == self.spec_log().len(),
    {
        self.0.len()
    }
}

impl<T> Client<T> for Logging<T> {
    fn consume(&mut self, input: usize, data: Arc<T>)
        ensures
            final(self).spec_log() == old(self).spec_log().push(data),
    {
        self.log(data);
    }
}

/// Sample-and-hold rate transitioner: hands out the last payload received
/// on each input, as often as it is asked for it.
pub struct Sampler<T>(Vec<Option<Arc<T>>>);

impl<T> Sampler<T> {
    pub closed spec fn spec_held(&self) -> Seq<Option<Arc<T>>> {
        self.0@
    }

    /// A sampler for `n` signals, holding nothing yet.
    pub fn new(n: usize) -> (r: Self)
        ensures
            r.spec_held() == Seq::new(n as nat, |k: int| None::<Arc<T>>),
    {
        let mut held: Vec<Option<Arc<T>>> = Vec::new();
        let mut k: usize = 0;
        while k < n
            invariant
                k <= n,
                held@ == Seq::new(k as nat, |q: int| None::<Arc<T>>),
            decreases n - k,
        {
            held.push(None);
            k = k + 1;
            assert(held@ =~= Seq::new(k as nat, |q: int| None::<Arc<T>>));
        }
        Sampler(held)
    }

    /// Holds `data` for signal `k`; a signal out of range is ignored.
    pub fn hold(&mut self, k: usize, data: Arc<T>)
        ensures
            k < old(self).spec_held().len() ==> final(self).spec_held() == old(self).spec_held().update(
                k as int,
                Some(data),
            ),
            k >= old(self).spec_held().len() ==> final(self).spec_held() == old(self).spec_held(),
    {
        if k < self.0.len() {
            self.0.set(k, Some(data));
        }
    }

    /// The payload held for signal `k`, if any.
    pub fn sample(&self, k: usize) -> (r: Option<Arc<T>>)
        ensures
            k < self.spec_held().len() ==> r == self.spec_held()[k as int],
            k >= self.spec_held().len() ==> r is None,
    {
        if k < self.0.len() {
            match &self.0[k] {
                Some(p) => Some(share(p)),
                None => None,
            }
        } else {
            None
        }
    }
}

impl<T> Client<T> for Sampler<T> {
    fn consume(&mut self, input: usize, data: Arc<T>)
        ensures
            input < old(self).spec_held().len() ==> final(self).spec_held() == old(self).spec_held().update(
                input as int,
                Some(data),
            ),
            input >= old(self).spec_held().len() ==> final(self).spec_held() == old(self).spec_held(),
    {
        self.hold(input, data);
    }

    fn produce(&mut self, output: usize) -> (r: Option<Arc<T>>)
        ensures
            final(self).spec_held() == old(self).spec_held(),
            output < old(self).spec_held().len() ==> r == old(self).spec_held()[output as int],
            output >= old(self).spec_held().len() ==> r is None,
    {
        self.sample(output)
    }
}

} // verus!
