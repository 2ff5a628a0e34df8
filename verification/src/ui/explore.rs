//! The exploration of the calls around a function.

use std::collections::VecDeque;
use vstd::prelude::*;
use crate::indexing::index::FunctionId;
use crate::ui::callgraph::{united, CallGraph};
use crate::ui::laws::lemma_united_holds;

verus! {

/// A graph of calls, and the functions whose calls are still to be added: each
/// with the number of steps to go on from it forward, and backward.
pub struct Exploration {
    pub graph: CallGraph,
    pub todos: VecDeque<(FunctionId, usize, usize)>,
}

/// The functions, each with the steps to go on from it.
pub open spec fn queued(items: Seq<FunctionId>, forward: int, backward: int) -> Seq<
    (FunctionId, usize, usize),
> {
    items.map_values(|f: FunctionId| (f, forward as usize, backward as usize))
}

impl Exploration {
    /// The functions from which a step is left are in the graph, and from none of
    /// them both ways are taken.
    pub open spec fn well_formed(&self) -> bool {
        &&& self.graph.well_formed()
        &&& forall|k: int|
            0 <= k < self.todos@.len() ==> {
                &&& (#[trigger] self.todos@[k]).1 + self.todos@[k].2 > 0
                    ==> self.graph.functions().contains(self.todos@[k].0)
                &&& self.todos@[k].1 == 0 || self.todos@[k].2 == 0
            }
    }

    /// What comes of `self` once it is known who calls its first function, and
    /// whom that function calls.
    pub open spec fn is_followed_by(
        &self,
        after: Exploration,
        incomings: Seq<FunctionId>,
        outgoings: Seq<FunctionId>,
    ) -> bool {
        let (f, forward, backward) = self.todos@[0];
        let rest = self.todos@.skip(1);
        if forward > 0 {
            &&& after.graph.extends(self.graph, f, true, outgoings)
            &&& after.todos@ == rest + queued(outgoings, forward - 1, backward as int)
        } else if backward > 0 {
            &&& after.graph.extends(self.graph, f, false, incomings)
            &&& after.todos@ == rest + queued(incomings, forward as int, backward - 1)
        } else {
            &&& after.graph == self.graph
            &&& after.todos@ == rest
        }
    }

    /// Starts from a function, with so many steps forward and so many backward. It
    /// is in the graph, unless no step is to be taken.
    pub fn start(graph: CallGraph, f: FunctionId, forward: usize, backward: usize) -> (r: Self)
        requires
            graph.well_formed(),
            forward > 0 || backward > 0 ==> graph.functions().contains(f),
        ensures
            r.well_formed(),
            r.graph == graph,
            r.todos@ == seq![(f, forward, 0usize), (f, 0usize, backward)],
    {
        let mut todos: VecDeque<(FunctionId, usize, usize)> = VecDeque::new();
        todos.push_back((f, forward, 0));
        todos.push_back((f, 0, backward));
        assert(todos@ =~= seq![(f, forward, 0usize), (f, 0usize, backward)]);
        Exploration { graph, todos }
    }

    /// The function whose calls have to be known next.
    pub fn next(&self) -> (r: Option<FunctionId>)
        ensures
            r is None <==> self.todos@.len() == 0,
            r matches Some(f) ==> f == self.todos@[0].0,
    {
        if self.todos.len() == 0 {
            None
        } else {
            Some(self.todos[0].0)
        }
    }

    /// Takes the functions that call the next function, and those that it calls.
    pub fn absorb(&mut self, incomings: &Vec<FunctionId>, outgoings: &Vec<FunctionId>)
        requires
            old(self).well_formed(),
            old(self).todos@.len() > 0,
        ensures
            final(self).well_formed(),
            old(self).is_followed_by(*final(self), incomings@, outgoings@),
    {
        match self.todos.pop_front() {
            Some(first) => {
                let f: FunctionId = first.0;
                let forward: usize = first.1;
                let backward: usize = first.2;
                let ghost rest = self.todos@;
                assert(old(self).todos@[0] == first);
                assert(rest =~= old(self).todos@.skip(1));
                assert forall|k: int| 0 <= k < rest.len() implies ((#[trigger] rest[k]).1
                    + rest[k].2 > 0 ==> self.graph.functions().contains(rest[k].0)) && (rest[k].1
                    == 0 || rest[k].2 == 0) by {
                    assert(rest[k] == old(self).todos@[k + 1]);
                }
                if forward > 0 {
                    self.graph.add_outgoings(f, outgoings);
                    self.queue(outgoings, forward - 1, backward);
                    proof {
                        lemma_grown(*old(self), *self, outgoings@, forward - 1, backward as int);
                    }
                } else if backward > 0 {
                    self.graph.add_incomings(f, incomings);
                    self.queue(incomings, forward, backward - 1);
                    proof {
                        lemma_grown(*old(self), *self, incomings@, forward as int, backward - 1);
                    }
                }
            },
            None => {},
        }
    }

    fn queue(&mut self, items: &Vec<FunctionId>, forward: usize, backward: usize)
        ensures
            final(self).graph == old(self).graph,
            final(self).todos@ == old(self).todos@ + queued(
                items@,
                forward as int,
                backward as int,
            ),
    {
        let mut i: usize = 0;
        assert(self.todos@ + queued(items@.take(0), forward as int, backward as int)
            =~= self.todos@);
        while i < items.len()
            invariant
                i <= items@.len(),
                self.graph == old(self).graph,
                self.todos@ == old(self).todos@ + queued(
                    items@.take(i as int),
                    forward as int,
                    backward as int,
                ),
            decreases items@.len() - i,
        {
            self.todos.push_back((items[i], forward, backward));
            i = i + 1;
            assert(self.todos@ =~= old(self).todos@ + queued(
                items@.take(i as int),
                forward as int,
                backward as int,
            ));
        }
        assert(items@.take(i as int) =~= items@);
    }
}

proof fn lemma_grown(
    before: Exploration,
    after: Exploration,
    items: Seq<FunctionId>,
    forward: int,
    backward: int,
)
    requires
        before.well_formed(),
        before.todos@.len() > 0,
        after.graph.well_formed(),
        after.graph.functions() == united(before.graph.functions(), items),
        after.todos@ == before.todos@.skip(1) + queued(items, forward, backward),
        0 <= forward <= usize::MAX,
        0 <= backward <= usize::MAX,
        forward == 0 || backward == 0,
    ensures
        after.well_formed(),
{
    assert forall|k: int| 0 <= k < after.todos@.len() implies {
        &&& (#[trigger] after.todos@[k]).1 + after.todos@[k].2 > 0
            ==> after.graph.functions().contains(after.todos@[k].0)
        &&& after.todos@[k].1 == 0 || after.todos@[k].2 == 0
    } by {
        let f = after.todos@[k].0;
        lemma_united_holds(before.graph.functions(), items, f);
        let n = before.todos@.len() - 1;
        if k < n {
            assert(after.todos@[k] == before.todos@[k + 1]);
        } else {
            assert(after.todos@[k] == queued(items, forward, backward)[k - n]);
            assert(items[k - n] == f);
        }
    }
}

} // verus!
