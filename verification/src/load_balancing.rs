use crate::cluster::ClusterData;
use crate::node::Node;
use crate::plan::Plan;
use crate::routing::Token;
use vstd::prelude::*;

verus! {

/// Routing-relevant facts about the statement about to be executed.
///
/// Built fresh per call by the caller, immutable, and never kept beyond the
/// one `plan` invocation it is handed to.
pub struct Statement<'a> {
    /// The partition token of the statement's target row, when known.
    pub token: Option<Token>,
    /// The keyspace the statement targets, when known; borrowed for the call.
    pub keyspace: Option<&'a str>,
    /// True only when the driver has independently learned, through prior
    /// protocol interaction, that the statement is a linearizable/conditional
    /// write. A policy honouring the flag must pick a stable, repeatable node
    /// ordering for the same token, so that retries walk a fixed fallback
    /// chain of coordinators.
    pub is_confirmed_lwt: bool,
}

impl<'a> Default for Statement<'a> {
    /// No token, no keyspace, not a confirmed linearizable write.
    fn default() -> (s: Statement<'a>)
        ensures
            s.token is None,
            s.keyspace is None,
            !s.is_confirmed_lwt,
    {
        Statement { token: None, keyspace: None, is_confirmed_lwt: false }
    }
}

/// Every node of `order` is a member of `nodes`: no node is fabricated.
pub open spec fn drawn_from(order: Seq<Node>, nodes: Seq<Node>) -> bool {
    forall|k: int| 0 <= k < order.len() ==> nodes.contains(#[trigger] order[k])
}

/// `order` is `input` rotated left by some offset: the suffix from the offset
/// on, then the prefix before it.
pub open spec fn is_rotation_of(order: Seq<Node>, input: Seq<Node>) -> bool {
    exists|k: int| 0 <= k <= input.len() && order == input.skip(k) + input.take(k)
}

/// Policy that decides which nodes to contact, and in what order, for each
/// statement.
pub trait LoadBalancingPolicy: Send + Sync {
    /// The one node ordering this policy yields for a confirmed linearizable
    /// write: a function of the statement and the snapshot alone, so repeated
    /// calls cannot differ.
    spec fn lwt_order(&self, statement: &Statement, cluster: &ClusterData) -> Seq<Node>;

    /// What this policy promises of every ordering it yields.
    spec fn order_ok(
        &self,
        statement: &Statement,
        cluster: &ClusterData,
        order: Seq<Node>,
    ) -> bool;

    /// Produce the contact order for one statement against one snapshot.
    ///
    /// Planning never fails: when no node is routable the plan is immediately
    /// exhausted, which the caller treats as a normal, recoverable condition.
    /// Within one plan no node is yielded twice, and no node appears that the
    /// snapshot does not hold. A well-formed snapshot is the caller's
    /// contract to uphold, not something planning validates.
    fn plan(&self, statement: &Statement, cluster: &ClusterData) -> (p: Plan)
        requires
            cluster.wf(),
        ensures
            p.wf(),
            p.remaining() == p.full_seq(),
            p.full_seq().no_duplicates(),
            drawn_from(p.full_seq(), cluster.nodes@),
            statement.is_confirmed_lwt ==> p.full_seq() == self.lwt_order(statement, cluster),
            self.order_ok(statement, cluster, p.full_seq()),
    ;

    /// Human-readable identifier, used for diagnostics only.
    fn name(&self) -> (n: String);
}

/// A policy that can also re-derive a plan from an ordering already decided
/// by a parent policy. This is what lets a simple policy be layered on top of
/// a topology-aware one.
pub trait ChildLoadBalancingPolicy: LoadBalancingPolicy {
    /// What this policy promises of the ordering it derives from `input`.
    spec fn child_order_ok(&self, input: Seq<Node>, order: Seq<Node>) -> bool;

    /// Re-derive a new plan from a fully materialized, owned, ordered
    /// collection decided upstream.
    ///
    /// The derived plan is a permutation of its input — the set of yielded
    /// nodes is unchanged — and an empty input yields an immediately
    /// exhausted plan, never an error.
    fn apply_child_policy(&self, plan: Vec<Node>) -> (p: Plan)
        ensures
            p.wf(),
            p.remaining() == p.full_seq(),
            p.full_seq().to_multiset() == plan@.to_multiset(),
            plan@.len() == 0 ==> p.full_seq().len() == 0,
            self.child_order_ok(plan@, p.full_seq()),
    ;
}

/// Determinism for confirmed linearizable writes: two plans one policy
/// produced for the same statement, with `is_confirmed_lwt` set, against the
/// same snapshot carry identical node orderings.
pub proof fn lemma_lwt_plans_identical<P: LoadBalancingPolicy>(
    policy: &P,
    statement: &Statement,
    cluster: &ClusterData,
    first: &Plan,
    second: &Plan,
)
    requires
        statement.is_confirmed_lwt,
        first.full_seq() == policy.lwt_order(statement, cluster),
        second.full_seq() == policy.lwt_order(statement, cluster),
    ensures
        first.full_seq() == second.full_seq(),
{
}

/// Against a snapshot holding no nodes, every plan whose nodes are drawn from
/// the snapshot is immediately exhausted.
pub proof fn lemma_empty_snapshot_empty_plan(cluster: &ClusterData, order: Seq<Node>)
    requires
        cluster.nodes@.len() == 0,
        drawn_from(order, cluster.nodes@),
    ensures
        order.len() == 0,
{
    if order.len() > 0 {
        assert(cluster.nodes@.contains(order[0]));
    }
}

/// A permutation leaves membership unchanged: the set of yielded nodes of a
/// derived plan equals the set its input held.
pub proof fn lemma_permutation_same_members(a: Seq<Node>, b: Seq<Node>)
    requires
        a.to_multiset() == b.to_multiset(),
    ensures
        forall|n: Node| a.contains(n) <==> b.contains(n),
{
    broadcast use vstd::seq_lib::group_to_multiset_ensures;

    assert forall|n: Node| a.contains(n) <==> b.contains(n) by {
        assert(a.contains(n) <==> a.to_multiset().count(n) > 0);
        assert(b.contains(n) <==> b.to_multiset().count(n) > 0);
    }
}

/// A permutation of a repeat-free ordering is repeat-free.
pub proof fn lemma_permutation_no_duplicates(a: Seq<Node>, b: Seq<Node>)
    requires
        a.to_multiset() == b.to_multiset(),
        a.no_duplicates(),
    ensures
        b.no_duplicates(),
{
    a.lemma_multiset_has_no_duplicates();
    b.lemma_multiset_has_no_duplicates_conv();
}

/// Rotating an ordering permutes it.
pub proof fn lemma_rotation_multiset(input: Seq<Node>, k: int)
    requires
        0 <= k <= input.len(),
    ensures
        (input.skip(k) + input.take(k)).to_multiset() == input.to_multiset(),
{
    broadcast use vstd::multiset::group_multiset_axioms;

    vstd::seq_lib::lemma_multiset_commutative(input.skip(k), input.take(k));
    vstd::seq_lib::lemma_multiset_commutative(input.take(k), input.skip(k));
    assert(input.take(k) + input.skip(k) =~= input);
    assert(input.skip(k).to_multiset().add(input.take(k).to_multiset()) =~= input.take(
        k,
    ).to_multiset().add(input.skip(k).to_multiset()));
}

} // verus!
