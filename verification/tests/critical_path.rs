use fas_rs::chain::build_longest_chain_from_tail;
use fas_rs::critical::{
    critical_subgraph, critical_subgraph_confidence, infer_critical_subgraph, NodeCriticality,
};
use fas_rs::dag::{append_tid_policy_metrics, DagFrame};
use fas_rs::event::DagThreadMetrics;
use fas_rs::graph::{pred_lists, reachable_from, succ_lists};
use fas_rs::score::{longest_score_to_head, longest_score_to_tail};
use fas_rs::stats::{critical_subgraph_to_frame_stats, policy_times, PolicyTimes};
use fas_rs::usage::Share;
use std::collections::{HashMap, HashSet};

fn ran(frame: &mut DagFrame, tid: u32, policy: u32, ns: u64) {
    append_tid_policy_metrics(
        frame,
        tid,
        policy,
        DagThreadMetrics { exec_ns: ns, rq_delay_ns: 0, futex_wait_ns: 0 },
    );
}

// 1 wakes 2, 2 wakes 3, 4 wakes 3, 3 wakes 5; the frame ends in 3.
fn sample() -> DagFrame {
    let mut frame = DagFrame::new();
    ran(&mut frame, 1, 0, 100);
    ran(&mut frame, 2, 0, 200);
    ran(&mut frame, 3, 4, 300);
    ran(&mut frame, 4, 4, 50);
    ran(&mut frame, 5, 7, 1000);
    frame.edges_ns.insert(1, 2, 10);
    frame.edges_ns.insert(2, 3, 20);
    frame.edges_ns.insert(4, 3, 5);
    frame.edges_ns.insert(3, 5, 1);
    frame
}

fn on_chain(slack_ns: u64) -> NodeCriticality {
    NodeCriticality { slack_ns: Some(slack_ns), on_longest_chain: true }
}

#[test]
fn lists_follow_the_edges() {
    let edges = vec![(1, 2, 10), (2, 3, 20), (4, 3, 5)];
    let pred = pred_lists(&edges);
    let succ = succ_lists(&edges);
    assert_eq!(pred[&3], vec![(2, 20), (4, 5)]);
    assert_eq!(succ[&2], vec![(3, 20)]);
    assert!(!pred.contains_key(&1));
    let (order, set) = reachable_from(&pred, 3);
    assert_eq!(order.len(), 4);
    for tid in [1, 2, 3, 4] {
        assert!(set.contains(&tid));
    }
    let (order, _) = reachable_from(&pred, 2);
    assert_eq!(order, vec![2, 1]);
}

#[test]
fn scores_are_longest_walks() {
    let frame = sample();
    let edges = frame.edges_ns.list();
    let pred = pred_lists(&edges);
    let succ = succ_lists(&edges);
    let (_, reachable) = reachable_from(&pred, 3);
    for order in [[1u32, 2, 3, 4], [4, 3, 2, 1]] {
        let mut head: HashMap<u32, u64> = HashMap::new();
        let mut tail: HashMap<u32, u64> = HashMap::new();
        let mut visiting: HashSet<u32> = HashSet::new();
        for tid in order {
            longest_score_to_head(tid, &frame, &pred, &reachable, &mut head, &mut visiting);
            longest_score_to_tail(tid, 3, &frame, &succ, &reachable, &mut tail, &mut visiting);
        }
        assert_eq!(head[&1], 100);
        assert_eq!(head[&2], 310);
        assert_eq!(head[&3], 630);
        assert_eq!(head[&4], 50);
        assert_eq!(tail[&3], 300);
        assert_eq!(tail[&2], 520);
        assert_eq!(tail[&1], 630);
        assert_eq!(tail[&4], 355);
        assert!(visiting.is_empty());
    }
}

#[test]
fn score_of_unreachable_thread_is_zero() {
    let frame = sample();
    let pred = pred_lists(&frame.edges_ns.list());
    let (_, reachable) = reachable_from(&pred, 3);
    let mut memo: HashMap<u32, u64> = HashMap::new();
    let mut visiting: HashSet<u32> = HashSet::new();
    assert_eq!(
        longest_score_to_head(5, &frame, &pred, &reachable, &mut memo, &mut visiting),
        0
    );
    assert!(memo.is_empty());
}

#[test]
fn cycle_counts_a_thread_once() {
    let mut frame = DagFrame::new();
    ran(&mut frame, 1, 0, 100);
    ran(&mut frame, 2, 0, 200);
    frame.edges_ns.insert(1, 2, 10);
    frame.edges_ns.insert(2, 1, 20);
    let pred = pred_lists(&frame.edges_ns.list());
    let (_, reachable) = reachable_from(&pred, 2);
    let mut memo: HashMap<u32, u64> = HashMap::new();
    let mut visiting: HashSet<u32> = HashSet::new();
    let score = longest_score_to_head(2, &frame, &pred, &reachable, &mut memo, &mut visiting);
    assert_eq!(memo[&1], 100 + 20 + 200);
    assert_eq!(score, 200 + 10 + memo[&1]);
}

#[test]
fn chain_ends_at_the_tail() {
    let frame = sample();
    let pred = pred_lists(&frame.edges_ns.list());
    let mut head: HashMap<u32, u64> = HashMap::new();
    head.insert(1, 100);
    head.insert(2, 310);
    head.insert(3, 630);
    head.insert(4, 50);
    assert_eq!(build_longest_chain_from_tail(3, &frame, &pred, &head), vec![1, 2, 3]);
    assert_eq!(build_longest_chain_from_tail(1, &frame, &pred, &head), vec![1]);
    assert_eq!(build_longest_chain_from_tail(9, &frame, &pred, &head), vec![9]);
}

#[test]
fn chain_prefers_the_first_of_equals() {
    let mut frame = DagFrame::new();
    ran(&mut frame, 1, 0, 10);
    ran(&mut frame, 2, 0, 10);
    let pred = pred_lists(&vec![(2, 3, 5), (1, 3, 5)]);
    let head: HashMap<u32, u64> = HashMap::new();
    assert_eq!(build_longest_chain_from_tail(3, &frame, &pred, &head), vec![2, 3]);
}

#[test]
fn chain_stops_growing() {
    let mut frame = DagFrame::new();
    let mut edges = Vec::new();
    for tid in 1..=100u32 {
        ran(&mut frame, tid, 0, 1);
        edges.push((tid, tid + 1, 1));
    }
    let pred = pred_lists(&edges);
    let head: HashMap<u32, u64> = HashMap::new();
    let chain = build_longest_chain_from_tail(101, &frame, &pred, &head);
    assert_eq!(chain.len(), 65);
    assert_eq!(chain[0], 37);
    assert_eq!(chain[64], 101);
}

#[test]
fn chain_leaves_a_cycle() {
    let mut frame = DagFrame::new();
    ran(&mut frame, 1, 0, 10);
    ran(&mut frame, 2, 0, 10);
    let pred = pred_lists(&vec![(1, 2, 5), (2, 1, 5)]);
    let head: HashMap<u32, u64> = HashMap::new();
    assert_eq!(build_longest_chain_from_tail(2, &frame, &pred, &head), vec![1, 2]);
}

#[test]
fn subgraph_with_little_slack_is_the_chain() {
    let cp = infer_critical_subgraph(&sample(), 3, 100, 300_000);
    assert_eq!(cp.best_path_ns, 630);
    assert_eq!(cp.node_total_ns, 600);
    assert_eq!(cp.tau_ns, 300_000);
    assert_eq!(cp.node_weights.len(), 3);
    for tid in [1, 2, 3] {
        assert_eq!(cp.node_weights[&tid], on_chain(0));
    }
    assert_eq!(critical_subgraph_confidence(&cp), Share { busy: 600, total: 630 });
}

#[test]
fn subgraph_grows_with_slack() {
    let cp = infer_critical_subgraph(&sample(), 3, 274, 0);
    assert_eq!(cp.node_weights.len(), 3);
    let cp = infer_critical_subgraph(&sample(), 3, 275, 0);
    assert_eq!(cp.node_weights.len(), 4);
    assert_eq!(
        cp.node_weights[&4],
        NodeCriticality { slack_ns: Some(275), on_longest_chain: false }
    );
    assert_eq!(cp.node_total_ns, 650);
    assert_eq!(cp.tau_ns, 1);
    assert_eq!(critical_subgraph_confidence(&cp), Share { busy: 630, total: 630 });
}

#[test]
fn subgraph_does_not_depend_on_the_order() {
    let frame = sample();
    let edges = vec![(4, 3, 5), (2, 3, 20), (1, 2, 10), (3, 5, 1)];
    let one = critical_subgraph(&frame, &edges, &vec![1, 2, 3, 4], 3, 300, 1);
    let two = critical_subgraph(&frame, &edges, &vec![4, 3, 1, 2], 3, 300, 1);
    assert_eq!(one.best_path_ns, two.best_path_ns);
    assert_eq!(one.node_weights, two.node_weights);
    assert_eq!(one.node_total_ns, two.node_total_ns);
}

#[test]
fn subgraph_of_a_lone_tail() {
    let frame = DagFrame::new();
    let cp = infer_critical_subgraph(&frame, 8, 0, 1);
    assert_eq!(cp.best_path_ns, 0);
    assert_eq!(cp.node_total_ns, 0);
    assert_eq!(cp.node_weights.len(), 1);
    assert_eq!(cp.node_weights[&8], on_chain(0));
    assert_eq!(critical_subgraph_confidence(&cp), Share { busy: 0, total: 1 });
}

#[test]
fn chain_counts_even_with_slack() {
    // The two scores of the tail do not fit into 64 bits together.
    let mut frame = DagFrame::new();
    ran(&mut frame, 1, 0, u64::MAX - 10);
    let cp = infer_critical_subgraph(&frame, 1, 0, 1);
    assert_eq!(cp.best_path_ns, u64::MAX - 10);
    assert_eq!(
        cp.node_weights[&1],
        NodeCriticality { slack_ns: None, on_longest_chain: true }
    );
}

#[test]
fn stats_weigh_critical_threads_only() {
    let frame = sample();
    let cp = infer_critical_subgraph(&frame, 3, 275, 1);
    let weigh = |ns: u64, node: NodeCriticality| if node.on_longest_chain { ns } else { ns / 10 };
    let stats = critical_subgraph_to_frame_stats(&frame, &cp, weigh);
    assert_eq!(stats.policy_exec_ns[&0], 300);
    assert_eq!(stats.policy_exec_ns[&4], 305);
    assert!(!stats.policy_exec_ns.contains_key(&7));
    assert!(stats.policy_rq_delay_ns.is_empty());
    assert!(stats.policy_futex_wait_ns.is_empty());
    let none = critical_subgraph_to_frame_stats(&frame, &cp, |_, _| 0);
    assert!(none.policy_exec_ns.is_empty());
    assert_eq!(
        policy_times(&stats, &vec![0, 4, 7]),
        vec![
            PolicyTimes { policy: 0, exec_ns: 300, rq_delay_ns: 0 },
            PolicyTimes { policy: 4, exec_ns: 305, rq_delay_ns: 0 },
            PolicyTimes { policy: 7, exec_ns: 0, rq_delay_ns: 0 },
        ]
    );
}

// 1 and 2 both wake 3, after the same time: either chain is a longest one.
#[test]
fn slack_does_not_depend_on_the_order_of_the_edges() {
    let mut frame = DagFrame::new();
    ran(&mut frame, 1, 0, 100);
    ran(&mut frame, 2, 0, 100);
    ran(&mut frame, 3, 4, 300);
    frame.edges_ns.insert(1, 3, 10);
    frame.edges_ns.insert(2, 3, 10);
    let one = critical_subgraph(&frame, &vec![(1, 3, 10), (2, 3, 10)], &vec![3, 1, 2], 3, 0, 1);
    let two = critical_subgraph(&frame, &vec![(2, 3, 10), (1, 3, 10)], &vec![2, 3, 1], 3, 0, 1);
    assert_eq!(one.best_path_ns, 410);
    assert_eq!(two.best_path_ns, 410);
    for tid in [1, 2, 3] {
        assert_eq!(one.node_weights[&tid].slack_ns, Some(0));
        assert_eq!(two.node_weights[&tid].slack_ns, Some(0));
    }
    assert!(one.node_weights[&1].on_longest_chain && !one.node_weights[&2].on_longest_chain);
    assert!(two.node_weights[&2].on_longest_chain && !two.node_weights[&1].on_longest_chain);
}

#[test]
fn full_chain_has_no_slack() {
    let mut frame = DagFrame::new();
    let mut edges = Vec::new();
    for tid in 1..=100u32 {
        ran(&mut frame, tid, 0, 10);
        if tid > 1 {
            frame.edges_ns.insert(tid - 1, tid, 1);
            edges.push((tid - 1, tid, 1));
        }
    }
    let order = (1..=100u32).collect();
    let subgraph = critical_subgraph(&frame, &edges, &order, 100, 0, 1);
    assert_eq!(subgraph.best_path_ns, 1099);
    let chain = subgraph.node_weights.values().filter(|node| node.on_longest_chain).count();
    assert_eq!(chain, 65);
    assert!(subgraph.node_weights.values().all(|node| node.slack_ns == Some(0)));
}

#[test]
fn wider_slack_loses_nothing() {
    let frame = sample();
    let mut narrow = infer_critical_subgraph(&frame, 3, 0, 1);
    for slack_ns in [100, 274, 275, 10_000] {
        let wide = infer_critical_subgraph(&frame, 3, slack_ns, 1);
        for (tid, node) in &narrow.node_weights {
            assert_eq!(wide.node_weights[tid].slack_ns, node.slack_ns);
        }
        assert!(narrow.node_total_ns <= wide.node_total_ns);
        narrow = wide;
    }
    assert_eq!(narrow.node_weights[&4].slack_ns, Some(275));
    assert_eq!(narrow.node_total_ns, 650);
}
