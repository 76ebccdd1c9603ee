use routing_core::cluster::ClusterData;
use routing_core::load_balancing::{ChildLoadBalancingPolicy, LoadBalancingPolicy, Statement};
use routing_core::node::Node;
use routing_core::plan::Plan;
use routing_core::policies::{default_policy, ComposedPolicy, RoundRobinPolicy, TokenAwarePolicy};
use routing_core::routing::Token;

fn node(id: u64) -> Node {
    Node { id }
}

fn drain(mut plan: Plan) -> Vec<u64> {
    let mut out = Vec::new();
    while let Some(n) = plan.next() {
        out.push(n.id);
    }
    out
}

/// Snapshot {A=1, B=2, C=3} where token 7's replicas in ring order are
/// [B, C, A].
fn abc_cluster() -> ClusterData {
    ClusterData {
        nodes: vec![node(1), node(2), node(3)],
        ring: vec![(Token { value: 7 }, vec![node(2), node(3), node(1)])],
    }
}

fn statement_with_token(value: i64, is_confirmed_lwt: bool) -> Statement<'static> {
    Statement {
        token: Some(Token { value }),
        keyspace: None,
        is_confirmed_lwt,
    }
}

#[test]
fn statement_default_has_no_hints() {
    let st = Statement::default();
    assert!(st.token.is_none());
    assert!(st.keyspace.is_none());
    assert!(!st.is_confirmed_lwt);
}

#[test]
fn plan_yields_in_order_then_exhausts() {
    let mut plan = Plan::from_vec(vec![node(4), node(5)]);
    assert_eq!(plan.next(), Some(node(4)));
    assert_eq!(plan.next(), Some(node(5)));
    assert_eq!(plan.next(), None);
    assert_eq!(plan.next(), None);
}

#[test]
fn plan_materialize_returns_rest() {
    let mut plan = Plan::from_vec(vec![node(4), node(5), node(6)]);
    assert_eq!(plan.next(), Some(node(4)));
    assert_eq!(plan.materialize(), vec![node(5), node(6)]);
}

#[test]
fn token_aware_yields_replicas_in_ring_order() {
    let cluster = abc_cluster();
    let policy = TokenAwarePolicy::new();
    let st = statement_with_token(7, false);
    assert_eq!(drain(policy.plan(&st, &cluster)), vec![2, 3, 1]);
}

#[test]
fn token_aware_appends_non_replica_nodes() {
    let cluster = ClusterData {
        nodes: vec![node(1), node(2), node(3)],
        ring: vec![(Token { value: 7 }, vec![node(2)])],
    };
    let policy = TokenAwarePolicy::new();
    let st = statement_with_token(7, false);
    assert_eq!(drain(policy.plan(&st, &cluster)), vec![2, 1, 3]);
}

#[test]
fn token_aware_unknown_token_yields_snapshot_order() {
    let cluster = abc_cluster();
    let policy = TokenAwarePolicy::new();
    let st = statement_with_token(8, false);
    assert_eq!(drain(policy.plan(&st, &cluster)), vec![1, 2, 3]);
}

#[test]
fn token_aware_no_token_yields_snapshot_order() {
    let cluster = abc_cluster();
    let policy = TokenAwarePolicy::new();
    let st = Statement::default();
    assert_eq!(drain(policy.plan(&st, &cluster)), vec![1, 2, 3]);
}

#[test]
fn lwt_plans_are_identical() {
    let cluster = abc_cluster();
    let policy = TokenAwarePolicy::new();
    let st = statement_with_token(7, true);
    let first = drain(policy.plan(&st, &cluster));
    let second = drain(policy.plan(&st, &cluster));
    assert_eq!(first, vec![2, 3, 1]);
    assert_eq!(first, second);
}

#[test]
fn empty_snapshot_yields_exhausted_plan() {
    let cluster = ClusterData {
        nodes: vec![],
        ring: vec![],
    };
    let st = Statement::default();
    let mut plan = TokenAwarePolicy::new().plan(&st, &cluster);
    assert_eq!(plan.next(), None);
    let mut plan = RoundRobinPolicy::new().plan(&st, &cluster);
    assert_eq!(plan.next(), None);
}

#[test]
fn round_robin_rotates_between_calls() {
    let cluster = abc_cluster();
    let policy = RoundRobinPolicy::new();
    let st = Statement::default();
    assert_eq!(drain(policy.plan(&st, &cluster)), vec![1, 2, 3]);
    assert_eq!(drain(policy.plan(&st, &cluster)), vec![2, 3, 1]);
    assert_eq!(drain(policy.plan(&st, &cluster)), vec![3, 1, 2]);
    assert_eq!(drain(policy.plan(&st, &cluster)), vec![1, 2, 3]);
}

#[test]
fn round_robin_confirmed_lwt_is_stable() {
    let cluster = abc_cluster();
    let policy = RoundRobinPolicy::new();
    let st = statement_with_token(7, true);
    let first = drain(policy.plan(&st, &cluster));
    let second = drain(policy.plan(&st, &cluster));
    assert_eq!(first, vec![1, 2, 3]);
    assert_eq!(first, second);
}

#[test]
fn apply_child_policy_empty_input_is_exhausted() {
    let policy = RoundRobinPolicy::new();
    let mut plan = policy.apply_child_policy(vec![]);
    assert_eq!(plan.next(), None);
}

#[test]
fn apply_child_policy_rotates_and_keeps_the_set() {
    let policy = RoundRobinPolicy::new();
    let input = vec![node(1), node(2), node(3)];
    let first = drain(policy.apply_child_policy(input.clone()));
    let second = drain(policy.apply_child_policy(input.clone()));
    assert_eq!(first, vec![1, 2, 3]);
    assert_eq!(second, vec![2, 3, 1]);
    let mut sorted_first = first.clone();
    sorted_first.sort();
    let mut sorted_second = second.clone();
    sorted_second.sort();
    assert_eq!(sorted_first, vec![1, 2, 3]);
    assert_eq!(sorted_first, sorted_second);
}

#[test]
fn composed_policy_advances_offset_and_keeps_the_set() {
    let cluster = abc_cluster();
    let policy = ComposedPolicy::new(TokenAwarePolicy::new(), RoundRobinPolicy::new());
    let st = Statement::default();
    let first = drain(policy.plan(&st, &cluster));
    let second = drain(policy.plan(&st, &cluster));
    assert_eq!(first, vec![1, 2, 3]);
    assert_eq!(second, vec![2, 3, 1]);
    let mut sorted_first = first.clone();
    sorted_first.sort();
    let mut sorted_second = second.clone();
    sorted_second.sort();
    assert_eq!(sorted_first, sorted_second);
}

#[test]
fn composed_policy_rotates_the_token_aware_ordering() {
    let cluster = abc_cluster();
    let policy = ComposedPolicy::new(TokenAwarePolicy::new(), RoundRobinPolicy::new());
    let st = statement_with_token(7, false);
    assert_eq!(drain(policy.plan(&st, &cluster)), vec![2, 3, 1]);
    assert_eq!(drain(policy.plan(&st, &cluster)), vec![3, 1, 2]);
}

#[test]
fn composed_policy_bypasses_the_stage_for_confirmed_lwt() {
    let cluster = abc_cluster();
    let policy = ComposedPolicy::new(TokenAwarePolicy::new(), RoundRobinPolicy::new());
    let st = statement_with_token(7, true);
    let first = drain(policy.plan(&st, &cluster));
    let second = drain(policy.plan(&st, &cluster));
    assert_eq!(first, vec![2, 3, 1]);
    assert_eq!(first, second);
}

#[test]
fn nested_chain_applies_both_stages() {
    let cluster = abc_cluster();
    let inner = ComposedPolicy::new(TokenAwarePolicy::new(), RoundRobinPolicy::new());
    let policy = ComposedPolicy::new(inner, RoundRobinPolicy::new());
    let st = Statement::default();
    // Inner stage rotates by 0, outer by 0: snapshot order unchanged.
    assert_eq!(drain(policy.plan(&st, &cluster)), vec![1, 2, 3]);
    // Second call: both cursors moved to 1, rotating twice in total.
    assert_eq!(drain(policy.plan(&st, &cluster)), vec![3, 1, 2]);
}

#[test]
fn default_policy_is_token_aware_with_rotation() {
    let cluster = abc_cluster();
    let policy = default_policy();
    let st = statement_with_token(7, false);
    assert_eq!(drain(policy.plan(&st, &cluster)), vec![2, 3, 1]);
    assert_eq!(drain(policy.plan(&st, &cluster)), vec![3, 1, 2]);
}

#[test]
fn policy_names_identify_the_policies() {
    assert_eq!(TokenAwarePolicy::new().name(), "TokenAwarePolicy");
    assert_eq!(RoundRobinPolicy::new().name(), "RoundRobinPolicy");
    let policy = ComposedPolicy::new(TokenAwarePolicy::new(), RoundRobinPolicy::new());
    assert_eq!(policy.name(), "ComposedPolicy");
}
