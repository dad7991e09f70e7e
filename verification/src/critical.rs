//! The critical subgraph of a frame: the threads whose work the end of the frame had to
//! wait for, or nearly had to.
use std::collections::{HashMap, HashSet};
use crate::chain::{
    build_longest_chain_from_tail, chain_back, law_chain_is_reachable, score_or_own,
};
use crate::dag::{cap, DagFrame};
use crate::graph::{links, preds_of, pred_lists, reachable_from, reaches, succ_lists, succs_of};
use crate::graph::lemma_u32_set_finite;
use crate::key::enumerates;
use crate::score::{
    frame_graph, longest_score_to_head, longest_score_to_tail, score_all, ScoreGraph,
};
use crate::usage::{share, share_of, Share};
use vstd::prelude::*;
use vstd::std_specs::hash::*;

verus! {

broadcast use vstd::std_specs::hash::group_hash_axioms;

/// How close a thread of the critical subgraph is to the longest path.
#[derive(Debug, Copy, Clone, PartialEq, Eq, Structural)]
pub struct NodeCriticality {
    /// By how much the longest path through the thread falls short of the longest path of
    /// all, where it is near enough to count.
    pub slack_ns: Option<u64>,
    /// The thread is on the longest chain. It counts in full then.
    pub on_longest_chain: bool,
}

/// The threads that the end of a frame depended on.
pub struct CriticalSubgraphResult {
    pub node_weights: HashMap<u32, NodeCriticality>,
    pub best_path_ns: u64,
    pub node_total_ns: u64,
    /// The slack at which a thread counts for 1/e. Never zero.
    pub tau_ns: u64,
}

/// The time of each thread.
pub open spec fn totals(frame: DagFrame) -> spec_fn(u32) -> u64 {
    |t: u32| frame.total(t) as u64
}

/// The links from a woken thread to those that woke it.
pub open spec fn wakers(edges: Seq<(u32, u32, u64)>) -> spec_fn(u32) -> Seq<(u32, u64)> {
    |t: u32| preds_of(edges, t)
}

/// The links from a waking thread to those that it woke.
pub open spec fn woken(edges: Seq<(u32, u32, u64)>) -> spec_fn(u32) -> Seq<(u32, u64)> {
    |t: u32| succs_of(edges, t)
}

/// `order` holds every thread whose work reached `tail`, each once.
pub open spec fn walks_upstream(edges: Seq<(u32, u32, u64)>, tail: u32, order: Seq<u32>) -> bool {
    &&& order.no_duplicates()
    &&& forall|t: u32| #[trigger] order.contains(t) <==> reaches(wakers(edges), tail, t)
}

/// The graph in which the scores to the head are found.
pub open spec fn head_graph(
    frame: DagFrame,
    edges: Seq<(u32, u32, u64)>,
    nodes: Set<u32>,
) -> ScoreGraph {
    ScoreGraph { next: wakers(edges), own: totals(frame), nodes, stop: None }
}

/// The graph in which the scores to the tail are found.
pub open spec fn tail_graph(
    frame: DagFrame,
    edges: Seq<(u32, u32, u64)>,
    nodes: Set<u32>,
    tail: u32,
) -> ScoreGraph {
    ScoreGraph { next: woken(edges), own: totals(frame), nodes, stop: Some(tail) }
}

/// For each thread the most time from a thread that started the work up to it.
pub open spec fn head_scores(
    frame: DagFrame,
    edges: Seq<(u32, u32, u64)>,
    order: Seq<u32>,
) -> Map<u32, u64> {
    score_all(head_graph(frame, edges, order.to_set()), order, Map::empty())
}

/// For each thread the most time from it up to the tail.
pub open spec fn tail_scores(
    frame: DagFrame,
    edges: Seq<(u32, u32, u64)>,
    order: Seq<u32>,
    tail: u32,
) -> Map<u32, u64> {
    score_all(tail_graph(frame, edges, order.to_set(), tail), order, Map::empty())
}

/// The time along the longest path to the tail.
pub open spec fn best_path(
    frame: DagFrame,
    edges: Seq<(u32, u32, u64)>,
    order: Seq<u32>,
    tail: u32,
) -> u64 {
    let head = score_or_own(totals(frame), head_scores(frame, edges, order), tail);
    let own = totals(frame)(tail);
    if head > own {
        head
    } else {
        own
    }
}

/// The time along the longest path through a thread with the scores `head` and `tail` and
/// the time `own`, which both scores hold. It is held to at most `best`.
pub open spec fn through(head: u64, tail: u64, own: u64, best: u64) -> u64 {
    let both = cap(head + tail);
    let once: u64 = if both > own {
        (both - own) as u64
    } else {
        0
    };
    if once < best {
        once
    } else {
        best
    }
}

/// By how much the longest path through `t` falls short of the longest path.
pub open spec fn slack_of(
    frame: DagFrame,
    edges: Seq<(u32, u32, u64)>,
    order: Seq<u32>,
    tail: u32,
    t: u32,
) -> u64 {
    let own = totals(frame);
    let best = best_path(frame, edges, order, tail);
    (best - through(
        score_or_own(own, head_scores(frame, edges, order), t),
        score_or_own(own, tail_scores(frame, edges, order, tail), t),
        own(t),
        best,
    )) as u64
}

/// The longest chain, from the tail back.
pub open spec fn longest_chain(
    frame: DagFrame,
    edges: Seq<(u32, u32, u64)>,
    order: Seq<u32>,
    tail: u32,
) -> Seq<u32> {
    chain_back(wakers(edges), totals(frame), head_scores(frame, edges, order), tail)
}

/// What makes `t` critical, if anything does.
pub open spec fn criticality(
    frame: DagFrame,
    edges: Seq<(u32, u32, u64)>,
    order: Seq<u32>,
    tail: u32,
    slack_ns: u64,
    t: u32,
) -> Option<NodeCriticality> {
    let slack = slack_of(frame, edges, order, tail, t);
    let near = order.contains(t) && slack <= slack_ns;
    let on_longest_chain = longest_chain(frame, edges, order, tail).contains(t);
    if near || on_longest_chain {
        Some(
            NodeCriticality {
                slack_ns: if near {
                    Some(slack)
                } else {
                    None
                },
                on_longest_chain,
            },
        )
    } else {
        None
    }
}

/// The threads of the critical subgraph.
pub open spec fn critical_nodes(
    frame: DagFrame,
    edges: Seq<(u32, u32, u64)>,
    order: Seq<u32>,
    tail: u32,
    slack_ns: u64,
) -> Map<u32, NodeCriticality> {
    Map::new(
        |t: u32| criticality(frame, edges, order, tail, slack_ns, t) is Some,
        |t: u32| criticality(frame, edges, order, tail, slack_ns, t)->0,
    )
}

/// The time that the threads of `set` spent in all.
pub open spec fn total_over(frame: DagFrame, set: Set<u32>) -> nat {
    set.fold(0nat, |sum: nat, t: u32| sum + frame.total(t) as nat)
}

impl CriticalSubgraphResult {
    /// `self` is the critical subgraph of the frame, with its edges and the threads upstream
    /// of the tail taken in the orders `edges` and `order`.
    pub open spec fn is_subgraph(
        self,
        frame: DagFrame,
        edges: Seq<(u32, u32, u64)>,
        order: Seq<u32>,
        tail: u32,
        slack_ns: u64,
        tau_ns: u64,
    ) -> bool {
        let nodes = critical_nodes(frame, edges, order, tail, slack_ns);
        &&& self.node_weights@ == nodes
        &&& self.best_path_ns == best_path(frame, edges, order, tail)
        &&& self.node_total_ns == cap(total_over(frame, nodes.dom()) as int)
        &&& self.tau_ns == (if tau_ns > 1 {
            tau_ns
        } else {
            1
        })
    }
}

/// One more thread adds its time.
pub proof fn lemma_total_over_insert(frame: DagFrame, set: Set<u32>, t: u32)
    requires
        !set.contains(t),
    ensures
        total_over(frame, set.insert(t)) == total_over(frame, set) + frame.total(t),
{
    lemma_u32_set_finite(set);
    let f = |sum: nat, t: u32| sum + frame.total(t) as nat;
    vstd::set::fold::lemma_fold_insert(set, 0nat, f, t);
}

/// The scores to the head of all threads in `order`.
fn scores_to_head(
    frame: &DagFrame,
    pred: &HashMap<u32, Vec<(u32, u64)>>,
    order: &Vec<u32>,
    reachable: &HashSet<u32>,
) -> (scores: HashMap<u32, u64>)
    requires
        frame.totals_fit(),
    ensures
        scores@ == score_all(frame_graph(*frame, pred@, reachable@, None), order@, Map::empty()),
{
    let ghost g = frame_graph(*frame, pred@, reachable@, None);
    let mut scores: HashMap<u32, u64> = HashMap::new();
    let mut visiting: HashSet<u32> = HashSet::new();
    assert(order@.skip(0) =~= order@);
    for i in 0..order.len()
        invariant
            frame.totals_fit(),
            g == frame_graph(*frame, pred@, reachable@, None),
            visiting@ == Set::<u32>::empty(),
            score_all(g, order@.skip(i as int), scores@) == score_all(g, order@, Map::empty()),
    {
        assert(order@.skip(i as int).drop_first() =~= order@.skip(i + 1));
        longest_score_to_head(order[i], frame, pred, reachable, &mut scores, &mut visiting);
    }
    scores
}

/// The scores to the tail of all threads in `order`.
fn scores_to_tail(
    frame: &DagFrame,
    tail_tid: u32,
    succ: &HashMap<u32, Vec<(u32, u64)>>,
    order: &Vec<u32>,
    reachable: &HashSet<u32>,
) -> (scores: HashMap<u32, u64>)
    requires
        frame.totals_fit(),
    ensures
        scores@ == score_all(
            frame_graph(*frame, succ@, reachable@, Some(tail_tid)),
            order@,
            Map::empty(),
        ),
{
    let ghost g = frame_graph(*frame, succ@, reachable@, Some(tail_tid));
    let mut scores: HashMap<u32, u64> = HashMap::new();
    let mut visiting: HashSet<u32> = HashSet::new();
    assert(order@.skip(0) =~= order@);
    for i in 0..order.len()
        invariant
            frame.totals_fit(),
            g == frame_graph(*frame, succ@, reachable@, Some(tail_tid)),
            visiting@ == Set::<u32>::empty(),
            score_all(g, order@.skip(i as int), scores@) == score_all(g, order@, Map::empty()),
    {
        assert(order@.skip(i as int).drop_first() =~= order@.skip(i + 1));
        longest_score_to_tail(
            order[i],
            tail_tid,
            frame,
            succ,
            reachable,
            &mut scores,
            &mut visiting,
        );
    }
    scores
}

/// The set of the members of `list`.
fn set_of(list: &Vec<u32>) -> (set: HashSet<u32>)
    ensures
        set@ == list@.to_set(),
{
    let mut set: HashSet<u32> = HashSet::new();
    assert(set@ =~= list@.take(0).to_set());
    for i in 0..list.len()
        invariant
            set@ == list@.take(i as int).to_set(),
    {
        set.insert(list[i]);
        assert(list@.take(i + 1) =~= list@.take(i as int).push(list@[i as int]));
        proof {
            list@.take(i as int).lemma_push_to_set_commute(list@[i as int]);
        }
    }
    assert(list@.take(list.len() as int) =~= list@);
    set
}

/// The score of `tid` in `scores`, or `own` where there is none.
fn score_of(scores: &HashMap<u32, u64>, tid: u32, own: u64) -> (score: u64)
    ensures
        score == (if scores@.contains_key(tid) {
            scores@[tid]
        } else {
            own
        }),
{
    match scores.get(&tid) {
        Some(v) => *v,
        None => own,
    }
}

/// The critical subgraph of `frame`, with its edges taken in the order of `edges` and the
/// threads upstream of `tail_tid` in the order of `order`. The orders matter only where
/// the graph has a cycle or two chains are worth the same.
pub fn critical_subgraph(
    frame: &DagFrame,
    edges: &Vec<(u32, u32, u64)>,
    order: &Vec<u32>,
    tail_tid: u32,
    slack_ns: u64,
    tau_ns: u64,
) -> (res: CriticalSubgraphResult)
    requires
        frame.totals_fit(),
        walks_upstream(edges@, tail_tid, order@),
    ensures
        res.is_subgraph(*frame, edges@, order@, tail_tid, slack_ns, tau_ns),
{
    let succ = succ_lists(edges);
    let pred = pred_lists(edges);
    let reachable = set_of(order);
    assert((|t: u32| links(pred@, t)) =~= wakers(edges@));
    assert((|t: u32| links(succ@, t)) =~= woken(edges@));
    let score_to_tail = scores_to_tail(frame, tail_tid, &succ, order, &reachable);
    let score_to_head = scores_to_head(frame, &pred, order, &reachable);
    assert(score_to_head@ == head_scores(*frame, edges@, order@));
    assert(score_to_tail@ == tail_scores(*frame, edges@, order@, tail_tid));

    assert(frame.total(tail_tid) <= u64::MAX);
    let tail_total_ns = frame.thread_total_ns(tail_tid);
    let tail_head = score_of(&score_to_head, tail_tid, tail_total_ns);
    let best_path_ns = if tail_head > tail_total_ns {
        tail_head
    } else {
        tail_total_ns
    };

    let chain = build_longest_chain_from_tail(tail_tid, frame, &pred, &score_to_head);
    let longest_nodes = set_of(&chain);
    let ghost back = longest_chain(*frame, edges@, order@, tail_tid);
    proof {
        assert forall|t: u32| #[trigger] longest_nodes@.contains(t) <==> back.contains(t) by {
            if back.contains(t) {
                let i = choose|i: int| 0 <= i < back.len() && back[i] == t;
                assert(chain@[back.len() - 1 - i] == t);
            }
            if chain@.contains(t) {
                let i = choose|i: int| 0 <= i < chain@.len() && chain@[i] == t;
                assert(back[back.len() - 1 - i] == t);
            }
        }
    }

    let ghost all = critical_nodes(*frame, edges@, order@, tail_tid, slack_ns);
    let mut node_weights: HashMap<u32, NodeCriticality> = HashMap::new();
    let mut node_total_ns: u64 = 0;
    proof {
        vstd::set::fold::lemma_fold_empty::<u32, nat>(
            0nat,
            |sum: nat, t: u32| sum + frame.total(t) as nat,
        );
        assert(node_weights@.dom() =~= Set::empty());
    }
    for i in 0..order.len()
        invariant
            frame.totals_fit(),
            order@.no_duplicates(),
            best_path_ns == best_path(*frame, edges@, order@, tail_tid),
            score_to_head@ == head_scores(*frame, edges@, order@),
            score_to_tail@ == tail_scores(*frame, edges@, order@, tail_tid),
            back == longest_chain(*frame, edges@, order@, tail_tid),
            forall|t: u32| #[trigger] longest_nodes@.contains(t) <==> back.contains(t),
            all == critical_nodes(*frame, edges@, order@, tail_tid, slack_ns),
            node_total_ns == cap(total_over(*frame, node_weights@.dom()) as int),
            forall|t: u32| #[trigger]
                node_weights@.contains_key(t) <==> all.contains_key(t) && order@.take(
                    i as int,
                ).contains(t),
            forall|t: u32| #[trigger] node_weights@.contains_key(t) ==> node_weights@[t] == all[t],
    {
        let tid = order[i];
        let ghost before = node_weights@;
        let ghost seen = order@.take(i as int);
        assert(order@.take(i + 1) =~= seen.push(tid));
        assert(order@.contains(tid));
        assert(!seen.contains(tid));
        assert forall|t: u32| order@.take(i + 1).contains(t) <==> seen.contains(t) || t == tid by {
            if seen.contains(t) {
                let k = choose|k: int| 0 <= k < seen.len() && seen[k] == t;
                assert(order@.take(i + 1)[k] == t);
            }
            if t == tid {
                assert(order@.take(i + 1)[i as int] == t);
            }
        }
        assert(frame.total(tid) <= u64::MAX);
        let own = frame.thread_total_ns(tid);
        let head = score_of(&score_to_head, tid, own);
        let tail = score_of(&score_to_tail, tid, own);
        let once = head.saturating_add(tail).saturating_sub(own);
        let through_ns = if once < best_path_ns {
            once
        } else {
            best_path_ns
        };
        let slack = best_path_ns - through_ns;
        assert(slack == slack_of(*frame, edges@, order@, tail_tid, tid));
        let near = slack <= slack_ns;
        let on_longest_chain = longest_nodes.contains(&tid);
        if near || on_longest_chain {
            let slack_ns = if near {
                Some(slack)
            } else {
                None
            };
            node_weights.insert(tid, NodeCriticality { slack_ns, on_longest_chain });
            node_total_ns = node_total_ns.saturating_add(own);
            proof {
                lemma_total_over_insert(*frame, before.dom(), tid);
                assert(node_weights@.dom() =~= before.dom().insert(tid));
            }
        }
    }
    proof {
        assert(order@.take(order.len() as int) =~= order@);
        assert forall|t: u32| all.contains_key(t) implies node_weights@.contains_key(t) by {
            if back.contains(t) {
                let i = choose|i: int| 0 <= i < back.len() && back[i] == t;
                law_chain_is_reachable(wakers(edges@), totals(*frame), score_to_head@, tail_tid, i);
            }
            assert(order@.contains(t));
        }
        assert(node_weights@ =~= all);
    }
    CriticalSubgraphResult {
        node_weights,
        best_path_ns,
        node_total_ns,
        tau_ns: if tau_ns > 1 {
            tau_ns
        } else {
            1
        },
    }
}

/// The critical subgraph of `frame`, which ended in thread `tail_tid`: the longest chain
/// that led there, and every thread through which a path leads that falls short of the
/// longest by at most `slack_ns`.
pub fn infer_critical_subgraph(
    frame: &DagFrame,
    tail_tid: u32,
    slack_ns: u64,
    tau_ns: u64,
) -> (res: CriticalSubgraphResult)
    requires
        frame.totals_fit(),
    ensures
        exists|edges: Seq<(u32, u32, u64)>, order: Seq<u32>|
            #![trigger enumerates(edges, frame.edges_ns@), walks_upstream(edges, tail_tid, order)]
            enumerates(edges, frame.edges_ns@) && walks_upstream(edges, tail_tid, order)
                && res.is_subgraph(*frame, edges, order, tail_tid, slack_ns, tau_ns),
{
    let edges = frame.edges_ns.list();
    let pred = pred_lists(&edges);
    let (order, _) = reachable_from(&pred, tail_tid);
    assert((|t: u32| links(pred@, t)) =~= wakers(edges@));
    assert(walks_upstream(edges@, tail_tid, order@)) by {
        assert forall|t: u32| #[trigger] order@.contains(t) <==> reaches(
            wakers(edges@),
            tail_tid,
            t,
        ) by {
            assert(order@.to_set().contains(t) <==> order@.contains(t));
        }
    }
    critical_subgraph(frame, &edges, &order, tail_tid, slack_ns, tau_ns)
}

/// How much of the longest path the critical threads account for: their time over the
/// time along the path, held to at most one, and zero where the path took no time.
pub fn critical_subgraph_confidence(subgraph: &CriticalSubgraphResult) -> (confidence: Share)
    ensures
        confidence.is_valid(),
        confidence == (if subgraph.best_path_ns == 0 {
            (Share { busy: 0, total: 1 })
        } else {
            share_of(subgraph.node_total_ns, subgraph.best_path_ns)
        }),
{
    if subgraph.best_path_ns == 0 {
        return Share { busy: 0, total: 1 };
    }
    share(subgraph.node_total_ns, subgraph.best_path_ns)
}

} // verus!
