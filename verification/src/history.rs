//! Sinks for the trace the simulator emits: rounds, the actors that ran
//! in each round, and the actions each actor took, in execution order.

use crate::text::usize_to_string;
use vstd::prelude::*;
use vstd::string::StringExecFns;

verus! {

/// An observed event that can describe itself.
pub trait Action {
    fn as_string(&self) -> String;
}

/// The actions of one node during one round, in execution order.
pub struct Actor<A> {
    pub id: usize,
    pub actions: Vec<A>,
}

impl<A> Actor<A> {
    /// A fresh actor record for node `id`.
    pub fn new(id: usize) -> (a: Actor<A>)
        ensures
            a.id == id,
            a.actions@ == Seq::<A>::empty(),
    {
        Actor { id, actions: Vec::new() }
    }

    /// Record one more action.
    pub fn track(&mut self, action: A)
        ensures
            final(self).id == old(self).id,
            final(self).actions@ == old(self).actions@.push(action),
    {
        self.actions.push(action)
    }
}

/// One round of the simulation: its number and its actors in id order.
pub struct Iteration<A> {
    pub nr: usize,
    pub actors: Vec<Actor<A>>,
}

impl<A> Iteration<A> {
    /// A fresh record for round `nr`.
    pub fn new(nr: usize) -> (it: Iteration<A>)
        ensures
            it.nr == nr,
            it.actors@ == Seq::<Actor<A>>::empty(),
    {
        Iteration { nr, actors: Vec::new() }
    }

    /// Record one more actor.
    pub fn track(&mut self, actor: Actor<A>)
        ensures
            final(self).nr == old(self).nr,
            final(self).actors@ == old(self).actors@.push(actor),
    {
        self.actors.push(actor)
    }
}

/// A sink for the rounds of a simulation. A sink may keep them, write
/// them out, or drop them.
pub trait History<A> {
    fn track(&mut self, iteration: Iteration<A>);
}

/// The sink that drops every round.
pub struct DummyHistory {}

impl DummyHistory {
    /// A fresh dropping sink.
    pub fn new() -> DummyHistory {
        DummyHistory {  }
    }
}

impl<A> History<A> for DummyHistory {
    fn track(&mut self, _iteration: Iteration<A>) {
    }
}

/// The sink that keeps every round in memory.
pub struct TrackHistory<A> {
    pub iterations: Vec<Iteration<A>>,
}

impl<A> TrackHistory<A> {
    /// A fresh in-memory sink.
    pub fn new() -> (h: TrackHistory<A>)
        ensures
            h.iterations@ == Seq::<Iteration<A>>::empty(),
    {
        TrackHistory { iterations: Vec::new() }
    }
}

impl<A> History<A> for TrackHistory<A> {
    fn track(&mut self, iteration: Iteration<A>) {
        self.iterations.push(iteration)
    }
}

impl<A: Action> TrackHistory<A> {
    /// The whole history rendered as indented lines, skipping actors
    /// that took no action and rounds in which nothing happened.
    pub fn as_string(&self) -> String {
        let mut out = String::new();
        let mut i: usize = 0;
        while i < self.iterations.len()
            decreases self.iterations@.len() - i,
        {
            let iteration = &self.iterations[i];
            let mut body = String::new();
            let mut a: usize = 0;
            while a < iteration.actors.len()
                decreases iteration.actors@.len() - a,
            {
                let actor = &iteration.actors[a];
                if actor.actions.len() > 0 {
                    body.append("    Actor: ");
                    body.append(usize_to_string(actor.id).as_str());
                    body.append("\n");
                    let mut t: usize = 0;
                    while t < actor.actions.len()
                        decreases actor.actions@.len() - t,
                    {
                        body.append("      ");
                        body.append(actor.actions[t].as_string().as_str());
                        body.append("\n");
                        t += 1;
                    }
                }
                a += 1;
            }
            if body.as_str().unicode_len() > 0 {
                out.append("  Iteration: ");
                out.append(usize_to_string(iteration.nr).as_str());
                out.append("\n");
                out.append(body.as_str());
                out.append("\n");
            }
            i += 1;
        }
        out
    }
}


} // verus!
