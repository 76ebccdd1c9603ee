use crate::node::Node;
use crate::routing::Token;
use vstd::prelude::*;

verus! {

/// Point-in-time, immutable view of cluster membership and token ownership.
///
/// Topology discovery and maintenance happen elsewhere; a policy only reads a
/// snapshot that stays fixed for the duration of one `plan` call.
pub struct ClusterData {
    /// All known cluster members.
    pub nodes: Vec<Node>,
    /// For each token, the replica nodes owning it, in ring order.
    pub ring: Vec<(Token, Vec<Node>)>,
}

/// The replica list of the first ring entry carrying `token`, or the empty
/// sequence when no entry does.
pub open spec fn replicas_in_ring(ring: Seq<(Token, Vec<Node>)>, token: Token) -> Seq<Node>
    decreases ring.len(),
{
    if ring.len() == 0 {
        Seq::empty()
    } else if ring[0].0 == token {
        ring[0].1@
    } else {
        replicas_in_ring(ring.skip(1), token)
    }
}

impl ClusterData {
    /// A snapshot is well formed when its node list has no repeats and every
    /// replica list is itself free of repeats and drawn from the node list.
    pub open spec fn wf(&self) -> bool {
        &&& self.nodes@.no_duplicates()
        &&& forall|i: int|
            0 <= i < self.ring@.len() ==> (#[trigger] self.ring@[i]).1@.no_duplicates()
        &&& forall|i: int, j: int|
            0 <= i < self.ring@.len() && 0 <= j < self.ring@[i].1@.len()
                ==> self.nodes@.contains(#[trigger] self.ring@[i].1@[j])
    }

    pub open spec fn spec_replicas_for_token(&self, token: Token) -> Seq<Node> {
        replicas_in_ring(self.ring@, token)
    }

    /// The replica nodes owning `token`, in ring order; empty when the
    /// snapshot has no entry for the token.
    pub fn replicas_for_token(&self, token: Token) -> (r: Vec<Node>)
        ensures
            r@ == self.spec_replicas_for_token(token),
    {
        let ring_len = self.ring.len();
        let mut i: usize = 0;
        proof {
            assert(self.ring@.skip(0) =~= self.ring@);
        }
        while i < ring_len
            invariant
                i <= ring_len,
                ring_len == self.ring@.len(),
                replicas_in_ring(self.ring@, token) == replicas_in_ring(
                    self.ring@.skip(i as int),
                    token,
                ),
            decreases ring_len - i,
        {
            proof {
                assert(self.ring@.skip(i as int)[0] == self.ring@[i as int]);
                assert(self.ring@.skip(i as int).skip(1) =~= self.ring@.skip(i as int + 1));
            }
            if self.ring[i].0 == token {
                return crate::node::copy_nodes(&self.ring[i].1);
            }
            i += 1;
        }
        proof {
            assert(self.ring@.skip(ring_len as int) =~= Seq::<(Token, Vec<Node>)>::empty());
        }
        Vec::new()
    }

    /// Every replica list in a well-formed snapshot is drawn from the node
    /// list and free of repeats.
    pub proof fn lemma_replicas_wf(&self, token: Token)
        requires
            self.wf(),
        ensures
            self.spec_replicas_for_token(token).no_duplicates(),
            forall|k: int|
                0 <= k < self.spec_replicas_for_token(token).len()
                    ==> self.nodes@.contains(#[trigger] self.spec_replicas_for_token(token)[k]),
    {
        self.lemma_replicas_in_ring_wf(self.ring@, token);
    }

    proof fn lemma_replicas_in_ring_wf(&self, ring: Seq<(Token, Vec<Node>)>, token: Token)
        requires
            forall|i: int| 0 <= i < ring.len() ==> (#[trigger] ring[i]).1@.no_duplicates(),
            forall|i: int, j: int|
                0 <= i < ring.len() && 0 <= j < ring[i].1@.len() ==> self.nodes@.contains(
                    #[trigger] ring[i].1@[j],
                ),
        ensures
            replicas_in_ring(ring, token).no_duplicates(),
            forall|k: int|
                0 <= k < replicas_in_ring(ring, token).len() ==> self.nodes@.contains(
                    #[trigger] replicas_in_ring(ring, token)[k],
                ),
        decreases ring.len(),
    {
        if ring.len() == 0 {
        } else if ring[0].0 == token {
            assert(forall|j: int|
                0 <= j < ring[0].1@.len() ==> self.nodes@.contains(#[trigger] ring[0].1@[j]));
        } else {
            assert(forall|i: int|
                0 <= i < ring.skip(1).len() ==> (#[trigger] ring.skip(1)[i]) == ring[i + 1]);
            self.lemma_replicas_in_ring_wf(ring.skip(1), token);
        }
    }
}

} // verus!
