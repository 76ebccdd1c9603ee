use crate::cluster::ClusterData;
use crate::load_balancing::{
    drawn_from, is_rotation_of, ChildLoadBalancingPolicy, LoadBalancingPolicy, Statement,
};
use crate::node::{copy_nodes, vec_contains_node, Node};
use crate::plan::Plan;
use crate::routing::Token;
use vstd::prelude::*;

verus! {

/// The nodes of `nodes` that are not members of `excl`, in their original
/// order.
pub open spec fn seq_diff(nodes: Seq<Node>, excl: Seq<Node>) -> Seq<Node>
    decreases nodes.len(),
{
    if nodes.len() == 0 {
        Seq::empty()
    } else if excl.contains(nodes[0]) {
        seq_diff(nodes.skip(1), excl)
    } else {
        seq![nodes[0]] + seq_diff(nodes.skip(1), excl)
    }
}

proof fn lemma_seq_diff_props(nodes: Seq<Node>, excl: Seq<Node>)
    ensures
        forall|k: int|
            0 <= k < seq_diff(nodes, excl).len() ==> nodes.contains(
                #[trigger] seq_diff(nodes, excl)[k],
            ) && !excl.contains(seq_diff(nodes, excl)[k]),
        nodes.no_duplicates() ==> seq_diff(nodes, excl).no_duplicates(),
    decreases nodes.len(),
{
    if nodes.len() == 0 {
    } else {
        let rest = nodes.skip(1);
        lemma_seq_diff_props(rest, excl);
        assert(forall|k: int| 0 <= k < rest.len() ==> #[trigger] rest[k] == nodes[k + 1]);
        assert forall|n: Node| rest.contains(n) implies nodes.contains(n) by {
            let w = choose|w: int| 0 <= w < rest.len() && rest[w] == n;
            assert(nodes[w + 1] == n);
        }
        let d = seq_diff(nodes, excl);
        let dr = seq_diff(rest, excl);
        if excl.contains(nodes[0]) {
            assert(d == dr);
            assert forall|k: int| 0 <= k < d.len() implies nodes.contains(#[trigger] d[k])
                && !excl.contains(d[k]) by {
                assert(d[k] == dr[k]);
                assert(rest.contains(dr[k]));
            }
        } else {
            assert(d == seq![nodes[0]] + dr);
            assert forall|k: int| 0 <= k < d.len() implies nodes.contains(#[trigger] d[k])
                && !excl.contains(d[k]) by {
                if k == 0 {
                    assert(d[0] == nodes[0]);
                    assert(nodes.contains(nodes[0])) by {
                        assert(nodes[0] == nodes[0]);
                    }
                } else {
                    assert(d[k] == dr[k - 1]);
                    assert(rest.contains(dr[k - 1]));
                }
            }
        }
        if nodes.no_duplicates() {
            assert(rest.no_duplicates());
            if !excl.contains(nodes[0]) {
                assert(d == seq![nodes[0]] + dr);
                assert(!rest.contains(nodes[0])) by {
                    if rest.contains(nodes[0]) {
                        let w = choose|w: int| 0 <= w < rest.len() && rest[w] == nodes[0];
                        assert(nodes[w + 1] == nodes[0]);
                    }
                }
                assert(d.no_duplicates()) by {
                    assert(forall|k: int| 0 <= k < dr.len() ==> #[trigger] d[k + 1] == dr[k]);
                    assert forall|i: int, j: int| 0 <= i < j < d.len() implies d[i] != d[j] by {
                        if i == 0 {
                            assert(d[j] == dr[j - 1]);
                            assert(rest.contains(dr[j - 1]));
                        } else {
                            assert(d[i] == dr[i - 1]);
                            assert(d[j] == dr[j - 1]);
                        }
                    }
                }
            }
        }
    }
}

/// Those members of `nodes` that `excl` does not hold, in their original
/// order.
fn nodes_not_in(nodes: &Vec<Node>, excl: &Vec<Node>) -> (r: Vec<Node>)
    ensures
        r@ == seq_diff(nodes@, excl@),
{
    let mut r: Vec<Node> = Vec::new();
    let mut i: usize = 0;
    proof {
        assert(nodes@.skip(0) =~= nodes@);
    }
    while i < nodes.len()
        invariant
            i <= nodes@.len(),
            seq_diff(nodes@, excl@) == r@ + seq_diff(nodes@.skip(i as int), excl@),
        decreases nodes.len() - i,
    {
        proof {
            assert(nodes@.skip(i as int)[0] == nodes@[i as int]);
            assert(nodes@.skip(i as int).skip(1) =~= nodes@.skip(i as int + 1));
        }
        if !vec_contains_node(excl, nodes[i]) {
            let ghost old_r = r@;
            r.push(nodes[i]);
            proof {
                assert(r@ =~= old_r + seq![nodes@[i as int]]);
                assert(old_r + (seq![nodes@[i as int]] + seq_diff(
                    nodes@.skip(i as int + 1),
                    excl@,
                )) =~= r@ + seq_diff(nodes@.skip(i as int + 1), excl@));
            }
        }
        i += 1;
    }
    proof {
        assert(nodes@.skip(nodes@.len() as int) =~= Seq::<Node>::empty());
        assert(r@ + Seq::<Node>::empty() =~= r@);
    }
    r
}

/// When `a` and `b` are each free of repeats and share no member, their
/// concatenation is free of repeats.
proof fn lemma_concat_no_duplicates(a: Seq<Node>, b: Seq<Node>)
    requires
        a.no_duplicates(),
        b.no_duplicates(),
        forall|k: int| 0 <= k < b.len() ==> !a.contains(#[trigger] b[k]),
    ensures
        (a + b).no_duplicates(),
{
    assert forall|i: int, j: int| 0 <= i < j < (a + b).len() implies (a + b)[i] != (a + b)[j] by {
        if i < a.len() && j >= a.len() {
            assert((a + b)[i] == a[i]);
            assert((a + b)[j] == b[j - a.len()]);
            if a[i] == b[j - a.len()] {
                assert(a.contains(b[j - a.len()]));
            }
        }
    }
}

/// The ordering a token-aware policy yields: for a statement with a token,
/// the token's replicas in ring order, then every other snapshot node in
/// snapshot order; without a token, all snapshot nodes in snapshot order.
pub open spec fn token_aware_order(statement: &Statement, cluster: &ClusterData) -> Seq<Node> {
    match statement.token {
        Some(t) => cluster.spec_replicas_for_token(t) + seq_diff(
            cluster.nodes@,
            cluster.spec_replicas_for_token(t),
        ),
        None => cluster.nodes@,
    }
}

/// A token-aware ordering opens with the token's replicas, in ring order,
/// exactly; whatever trails them is the rest of the snapshot.
pub proof fn lemma_token_aware_replicas_first(
    statement: &Statement,
    cluster: &ClusterData,
    t: Token,
)
    requires
        statement.token == Some(t),
    ensures
        token_aware_order(statement, cluster).take(
            cluster.spec_replicas_for_token(t).len() as int,
        ) == cluster.spec_replicas_for_token(t),
{
    let replicas = cluster.spec_replicas_for_token(t);
    let order = token_aware_order(statement, cluster);
    assert(order.take(replicas.len() as int) =~= replicas);
}

/// Root policy that ranks the replicas owning the statement's token ahead of
/// the rest of the cluster. Its ordering is a function of the statement and
/// the snapshot alone, so it is stable across retries.
pub struct TokenAwarePolicy {}

impl TokenAwarePolicy {
    pub fn new() -> TokenAwarePolicy {
        TokenAwarePolicy {}
    }
}

impl LoadBalancingPolicy for TokenAwarePolicy {
    open spec fn lwt_order(&self, statement: &Statement, cluster: &ClusterData) -> Seq<Node> {
        token_aware_order(statement, cluster)
    }

    open spec fn order_ok(
        &self,
        statement: &Statement,
        cluster: &ClusterData,
        order: Seq<Node>,
    ) -> bool {
        order == token_aware_order(statement, cluster)
    }

    fn plan(&self, statement: &Statement, cluster: &ClusterData) -> (p: Plan) {
        match statement.token {
            Some(t) => {
                let mut order = cluster.replicas_for_token(t);
                let mut rest = nodes_not_in(&cluster.nodes, &order);
                proof {
                    cluster.lemma_replicas_wf(t);
                    lemma_seq_diff_props(cluster.nodes@, order@);
                    lemma_concat_no_duplicates(order@, rest@);
                }
                order.append(&mut rest);
                proof {
                    assert(drawn_from(order@, cluster.nodes@)) by {
                        let replicas = cluster.spec_replicas_for_token(t);
                        let diff = seq_diff(cluster.nodes@, replicas);
                        assert forall|k: int| 0 <= k < order@.len() implies cluster.nodes@.contains(
                            #[trigger] order@[k],
                        ) by {
                            if k < replicas.len() {
                                assert(order@[k] == replicas[k]);
                            } else {
                                assert(order@[k] == diff[k - replicas.len()]);
                            }
                        }
                    }
                }
                Plan::from_vec(order)
            },
            None => Plan::from_vec(copy_nodes(&cluster.nodes)),
        }
    }

    fn name(&self) -> (n: String) {
        "TokenAwarePolicy".to_owned()
    }
}

/// Policy that rotates the starting offset of its input ordering on each
/// invocation, spreading load across equally suitable nodes.
///
/// The rotation cursor lives in an atomic counter, so concurrent `plan`
/// calls stay race-free; a lost rotation update costs only fairness. For a
/// confirmed linearizable write the policy skips the rotation and yields the
/// snapshot ordering unchanged, keeping the retry chain stable.
pub struct RoundRobinPolicy {
    index: core::sync::atomic::AtomicUsize,
}

impl RoundRobinPolicy {
    pub fn new() -> RoundRobinPolicy {
        RoundRobinPolicy { index: core::sync::atomic::AtomicUsize::new(0) }
    }

    /// The input rotated left by this call's cursor offset.
    fn rotated(&self, input: Vec<Node>) -> (p: Plan)
        ensures
            p.wf(),
            p.remaining() == p.full_seq(),
            is_rotation_of(p.full_seq(), input@),
            p.full_seq().to_multiset() == input@.to_multiset(),
    {
        if input.len() == 0 {
            proof {
                assert(input@.skip(0) + input@.take(0) =~= input@);
            }
            return Plan::from_vec(input);
        }
        let i = self.index.fetch_add(1, core::sync::atomic::Ordering::Relaxed);
        let k = i % input.len();
        let len = input.len();
        let mut out: Vec<Node> = Vec::new();
        let mut j: usize = k;
        while j < len
            invariant
                k <= j <= len,
                len == input@.len(),
                k < len,
                out@ == input@.subrange(k as int, j as int),
            decreases len - j,
        {
            out.push(input[j]);
            proof {
                assert(input@.subrange(k as int, j as int).push(input@[j as int])
                    =~= input@.subrange(k as int, j as int + 1));
            }
            j += 1;
        }
        proof {
            assert(input@.subrange(k as int, len as int) =~= input@.skip(k as int));
            assert(input@.skip(k as int) + input@.take(0) =~= input@.skip(k as int));
        }
        let mut j2: usize = 0;
        while j2 < k
            invariant
                j2 <= k < len,
                len == input@.len(),
                out@ == input@.skip(k as int) + input@.take(j2 as int),
            decreases k - j2,
        {
            out.push(input[j2]);
            proof {
                assert((input@.skip(k as int) + input@.take(j2 as int)).push(input@[j2 as int])
                    =~= input@.skip(k as int) + input@.take(j2 as int + 1));
            }
            j2 += 1;
        }
        proof {
            crate::load_balancing::lemma_rotation_multiset(input@, k as int);
        }
        Plan::from_vec(out)
    }
}

impl LoadBalancingPolicy for RoundRobinPolicy {
    open spec fn lwt_order(&self, statement: &Statement, cluster: &ClusterData) -> Seq<Node> {
        cluster.nodes@
    }

    open spec fn order_ok(
        &self,
        statement: &Statement,
        cluster: &ClusterData,
        order: Seq<Node>,
    ) -> bool {
        if statement.is_confirmed_lwt {
            order == cluster.nodes@
        } else {
            is_rotation_of(order, cluster.nodes@)
        }
    }

    fn plan(&self, statement: &Statement, cluster: &ClusterData) -> (p: Plan) {
        let nodes = copy_nodes(&cluster.nodes);
        if statement.is_confirmed_lwt {
            proof {
                lemma_seq_contains_itself(cluster.nodes@);
            }
            Plan::from_vec(nodes)
        } else {
            let p = self.rotated(nodes);
            proof {
                crate::load_balancing::lemma_permutation_same_members(
                    cluster.nodes@,
                    p.full_seq(),
                );
                crate::load_balancing::lemma_permutation_no_duplicates(
                    cluster.nodes@,
                    p.full_seq(),
                );
                lemma_seq_contains_itself(p.full_seq());
            }
            p
        }
    }

    fn name(&self) -> (n: String) {
        "RoundRobinPolicy".to_owned()
    }
}

impl ChildLoadBalancingPolicy for RoundRobinPolicy {
    open spec fn child_order_ok(&self, input: Seq<Node>, order: Seq<Node>) -> bool {
        is_rotation_of(order, input)
    }

    fn apply_child_policy(&self, plan: Vec<Node>) -> (p: Plan) {
        let ghost input = plan@;
        let p = self.rotated(plan);
        proof {
            broadcast use vstd::seq_lib::group_to_multiset_ensures;

            assert(p.full_seq().len() == input.len());
        }
        p
    }
}

/// Each sequence holds each of its own elements.
proof fn lemma_seq_contains_itself(s: Seq<Node>)
    ensures
        forall|k: int| 0 <= k < s.len() ==> s.contains(#[trigger] s[k]),
{
}

/// A chain stage: one root policy establishing the initial topology-aware
/// ordering, with one composable policy layered on top. Longer chains nest:
/// the root of a `ComposedPolicy` may itself be a `ComposedPolicy`.
///
/// Each plan materializes the root's full ordering once and hands it to the
/// composable stage, which reinterprets it lazily. For a confirmed
/// linearizable write the stage is bypassed, so the ordering stays the stable
/// one the root decided.
pub struct ComposedPolicy<R, C> {
    pub root: R,
    pub stage: C,
}

impl<R: LoadBalancingPolicy, C: ChildLoadBalancingPolicy> ComposedPolicy<R, C> {
    pub fn new(root: R, stage: C) -> (p: ComposedPolicy<R, C>)
        ensures
            p.root == root,
            p.stage == stage,
    {
        ComposedPolicy { root, stage }
    }
}

impl<R: LoadBalancingPolicy, C: ChildLoadBalancingPolicy> LoadBalancingPolicy for ComposedPolicy<
    R,
    C,
> {
    open spec fn lwt_order(&self, statement: &Statement, cluster: &ClusterData) -> Seq<Node> {
        self.root.lwt_order(statement, cluster)
    }

    open spec fn order_ok(
        &self,
        statement: &Statement,
        cluster: &ClusterData,
        order: Seq<Node>,
    ) -> bool {
        if statement.is_confirmed_lwt {
            order == self.root.lwt_order(statement, cluster)
        } else {
            exists|base: Seq<Node>|
                self.root.order_ok(statement, cluster, base) && #[trigger] self.stage.child_order_ok(
                    base,
                    order,
                )
        }
    }

    fn plan(&self, statement: &Statement, cluster: &ClusterData) -> (p: Plan) {
        if statement.is_confirmed_lwt {
            self.root.plan(statement, cluster)
        } else {
            let base_plan = self.root.plan(statement, cluster);
            let ghost base = base_plan.full_seq();
            let nodes = base_plan.materialize();
            let p = self.stage.apply_child_policy(nodes);
            proof {
                crate::load_balancing::lemma_permutation_same_members(base, p.full_seq());
                crate::load_balancing::lemma_permutation_no_duplicates(base, p.full_seq());
                lemma_seq_contains_itself(p.full_seq());
                assert(self.stage.child_order_ok(base, p.full_seq()));
            }
            p
        }
    }

    fn name(&self) -> (n: String) {
        "ComposedPolicy".to_owned()
    }
}

/// The composition a driver falls back to when no policy is configured: a
/// token-aware root with a round-robin rotation layered on top.
pub type DefaultPolicy = ComposedPolicy<TokenAwarePolicy, RoundRobinPolicy>;

/// Wrapping the token-aware root in the rotation stage only reorders: an
/// ordering the default policy yields for a statement that is not a
/// confirmed linearizable write carries exactly the nodes of the token-aware
/// ordering, none added, none dropped.
pub proof fn lemma_default_policy_keeps_the_node_set(
    policy: &DefaultPolicy,
    statement: &Statement,
    cluster: &ClusterData,
    order: Seq<Node>,
)
    requires
        !statement.is_confirmed_lwt,
        policy.order_ok(statement, cluster, order),
    ensures
        order.to_multiset() == token_aware_order(statement, cluster).to_multiset(),
{
    let base = choose|base: Seq<Node>|
        policy.root.order_ok(statement, cluster, base) && #[trigger] policy.stage.child_order_ok(
            base,
            order,
        );
    assert(base == token_aware_order(statement, cluster));
    let k = choose|k: int| 0 <= k <= base.len() && order == base.skip(k) + base.take(k);
    crate::load_balancing::lemma_rotation_multiset(base, k);
}

/// Build the default policy composition with a fresh rotation cursor.
pub fn default_policy() -> (p: DefaultPolicy)
    ensures
        p.root == (TokenAwarePolicy {}),
{
    ComposedPolicy::new(TokenAwarePolicy::new(), RoundRobinPolicy::new())
}

} // verus!
