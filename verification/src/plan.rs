use crate::node::Node;
use vstd::prelude::*;

verus! {

/// The contact order for one statement attempt: a pull-based, forward-only
/// sequence of node handles.
///
/// Exhaustion is a normal terminal condition, not an error; a caller that
/// stops pulling simply drops the plan. A plan is not restartable: a fresh
/// one is requested per statement attempt.
pub struct Plan {
    nodes: Vec<Node>,
    pos: usize,
}

impl Plan {
    /// The cursor never runs past the end of the sequence.
    pub closed spec fn wf(&self) -> bool {
        self.pos <= self.nodes@.len()
    }

    /// The whole node ordering this plan yields, first to last.
    pub closed spec fn full_seq(&self) -> Seq<Node> {
        self.nodes@
    }

    /// The nodes not yet pulled, in the order they will come out.
    pub closed spec fn remaining(&self) -> Seq<Node> {
        self.nodes@.skip(self.pos as int)
    }

    /// A plan that yields the given nodes in the given order.
    pub fn from_vec(nodes: Vec<Node>) -> (p: Plan)
        ensures
            p.wf(),
            p.full_seq() == nodes@,
            p.remaining() == nodes@,
    {
        let p = Plan { nodes, pos: 0 };
        proof {
            assert(p.nodes@.skip(0) =~= p.nodes@);
        }
        p
    }

    /// Pull the next node, or learn that the plan is exhausted.
    pub fn next(&mut self) -> (r: Option<Node>)
        requires
            old(self).wf(),
        ensures
            final(self).wf(),
            final(self).full_seq() == old(self).full_seq(),
            old(self).remaining().len() == 0 ==> r is None
                && final(self).remaining() == old(self).remaining(),
            old(self).remaining().len() > 0 ==> r == Some(old(self).remaining()[0])
                && final(self).remaining() == old(self).remaining().skip(1),
    {
        if self.pos < self.nodes.len() {
            let n = self.nodes[self.pos];
            self.pos = self.pos + 1;
            proof {
                assert(old(self).nodes@.skip(old(self).pos as int)[0] == old(self).nodes@[old(
                    self,
                ).pos as int]);
                assert(self.nodes@.skip(self.pos as int) =~= old(self).nodes@.skip(
                    old(self).pos as int,
                ).skip(1));
            }
            Some(n)
        } else {
            None
        }
    }

    /// Force the rest of the plan into an owned, ordered collection, in the
    /// order the plan would have yielded it. This is the materialization step
    /// at a composition boundary.
    pub fn materialize(self) -> (v: Vec<Node>)
        requires
            self.wf(),
        ensures
            v@ == self.remaining(),
    {
        let Plan { nodes, pos } = self;
        let mut v: Vec<Node> = Vec::new();
        let mut i: usize = pos;
        while i < nodes.len()
            invariant
                pos <= i <= nodes@.len(),
                v@ == nodes@.subrange(pos as int, i as int),
            decreases nodes.len() - i,
        {
            v.push(nodes[i]);
            proof {
                assert(nodes@.subrange(pos as int, i as int).push(nodes@[i as int])
                    =~= nodes@.subrange(pos as int, i as int + 1));
            }
            i += 1;
        }
        proof {
            assert(nodes@.subrange(pos as int, nodes@.len() as int) =~= nodes@.skip(pos as int));
        }
        v
    }
}

} // verus!
