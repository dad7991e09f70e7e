//! What holds of every critical subgraph.
use crate::chain::{
    begins, law_chain_is_longest, law_chain_is_reachable, score_or_own, scores_exact, threads_of,
    CHAIN_STEPS,
};
use crate::critical::{
    best_path, critical_nodes, criticality, head_graph, head_scores, lemma_total_over_insert,
    longest_chain, slack_of, tail_graph, tail_scores, total_over, totals, wakers, walks_upstream,
    woken, CriticalSubgraphResult,
};
use crate::dag::{cap, count, DagFrame};
use crate::graph::{
    has_link, is_path, leads, lemma_preds_contains, lemma_reaches_extends, lemma_succs_contains,
    lemma_u32_set_finite, reaches,
};
use crate::key::enumerates;
use crate::score::{score_all, ScoreGraph};
use crate::walk::{
    attained, bounds, is_walk, law_scores_are_longest, law_scores_are_walk_times,
    law_scores_independent_of_order, lemma_score_all_domain, ranked, walk_ns,
};
use vstd::prelude::*;

verus! {

proof fn lemma_tail_upstream(edges: Seq<(u32, u32, u64)>, tail: u32, order: Seq<u32>)
    requires
        walks_upstream(edges, tail, order),
    ensures
        order.contains(tail),
        forall|a: u32, b: u32| #![trigger has_link(wakers(edges), a, b)]
            order.contains(a) && has_link(wakers(edges), a, b) ==> order.contains(b),
{
    assert(leads(wakers(edges), seq![tail], tail, tail));
    assert forall|a: u32, b: u32| #![trigger has_link(wakers(edges), a, b)]
        order.contains(a) && has_link(wakers(edges), a, b) implies order.contains(b) by {
        lemma_reaches_extends(wakers(edges), tail, a, b);
    }
}

/// The thread that ended the frame is always critical, and in full.
pub proof fn law_tail_is_critical(
    frame: DagFrame,
    edges: Seq<(u32, u32, u64)>,
    order: Seq<u32>,
    tail: u32,
    slack_ns: u64,
)
    ensures
        critical_nodes(frame, edges, order, tail, slack_ns).contains_key(tail),
        critical_nodes(frame, edges, order, tail, slack_ns)[tail].on_longest_chain,
{
    assert(longest_chain(frame, edges, order, tail)[0] == tail);
}

/// Every critical thread did work that reached the tail, and is on the longest chain or
/// has a slack of at most `slack_ns`.
pub proof fn law_critical_is_upstream(
    frame: DagFrame,
    edges: Seq<(u32, u32, u64)>,
    order: Seq<u32>,
    tail: u32,
    slack_ns: u64,
    t: u32,
)
    requires
        walks_upstream(edges, tail, order),
        critical_nodes(frame, edges, order, tail, slack_ns).contains_key(t),
    ensures
        reaches(wakers(edges), tail, t),
        ({
            let node = critical_nodes(frame, edges, order, tail, slack_ns)[t];
            node.on_longest_chain || (node.slack_ns is Some && node.slack_ns->0 <= slack_ns)
        }),
{
    let chain = longest_chain(frame, edges, order, tail);
    if chain.contains(t) {
        let i = choose|i: int| 0 <= i < chain.len() && chain[i] == t;
        law_chain_is_reachable(
            wakers(edges),
            totals(frame),
            head_scores(frame, edges, order),
            tail,
            i,
        );
    }
}

/// In one walk of the frame a larger slack never loses a thread.
pub proof fn law_slack_is_monotone(
    frame: DagFrame,
    edges: Seq<(u32, u32, u64)>,
    order: Seq<u32>,
    tail: u32,
    narrow_ns: u64,
    wide_ns: u64,
)
    requires
        narrow_ns <= wide_ns,
    ensures
        critical_nodes(frame, edges, order, tail, narrow_ns).dom().subset_of(
            critical_nodes(frame, edges, order, tail, wide_ns).dom(),
        ),
{
}

/// On a graph without cycles the longest path is a longest walk back from the tail.
pub proof fn law_best_path_is_longest(
    frame: DagFrame,
    edges: Seq<(u32, u32, u64)>,
    order: Seq<u32>,
    tail: u32,
    rank: spec_fn(u32) -> nat,
)
    requires
        walks_upstream(edges, tail, order),
        ranked(head_graph(frame, edges, order.to_set()), rank),
    ensures
        attained(
            head_graph(frame, edges, order.to_set()),
            tail,
            best_path(frame, edges, order, tail),
        ),
        bounds(
            head_graph(frame, edges, order.to_set()),
            tail,
            best_path(frame, edges, order, tail),
        ),
{
    let g = head_graph(frame, edges, order.to_set());
    lemma_tail_upstream(edges, tail, order);
    lemma_members(order);
    law_scores_are_longest(g, rank, order, tail);
    law_scores_are_walk_times(g, order, tail);
}

proof fn lemma_members(order: Seq<u32>)
    ensures
        forall|i: int| 0 <= i < order.len() ==> order.to_set().contains(#[trigger] order[i]),
{
    assert forall|i: int| 0 <= i < order.len() implies order.to_set().contains(
        #[trigger] order[i],
    ) by {
        assert(order.contains(order[i]));
    }
}

proof fn lemma_scores_equal(
    g: ScoreGraph,
    rank: spec_fn(u32) -> nat,
    order1: Seq<u32>,
    order2: Seq<u32>,
)
    requires
        ranked(g, rank),
        g.nodes == order1.to_set(),
        g.nodes == order2.to_set(),
    ensures
        score_all(g, order1, Map::empty()) == score_all(g, order2, Map::empty()),
{
    lemma_members(order1);
    lemma_members(order2);
    lemma_score_all_domain(g, order1);
    lemma_score_all_domain(g, order2);
    let one = score_all(g, order1, Map::empty());
    let two = score_all(g, order2, Map::empty());
    assert forall|t: u32| #[trigger] one.contains_key(t) implies one[t] == two[t] by {
        assert(order1.to_set().contains(t));
        assert(order2.to_set().contains(t));
        law_scores_independent_of_order(g, rank, order1, order2, t);
    }
    assert(one =~= two);
}

/// On a graph without cycles the order in which the threads are walked makes no difference
/// to the critical subgraph.
pub proof fn law_subgraph_independent_of_order(
    frame: DagFrame,
    edges: Seq<(u32, u32, u64)>,
    order1: Seq<u32>,
    order2: Seq<u32>,
    tail: u32,
    slack_ns: u64,
    head_rank: spec_fn(u32) -> nat,
    tail_rank: spec_fn(u32) -> nat,
)
    requires
        walks_upstream(edges, tail, order1),
        walks_upstream(edges, tail, order2),
        ranked(head_graph(frame, edges, order1.to_set()), head_rank),
        ranked(tail_graph(frame, edges, order1.to_set(), tail), tail_rank),
    ensures
        best_path(frame, edges, order1, tail) == best_path(frame, edges, order2, tail),
        critical_nodes(frame, edges, order1, tail, slack_ns) == critical_nodes(
            frame,
            edges,
            order2,
            tail,
            slack_ns,
        ),
{
    assert forall|t: u32| order1.contains(t) == order2.contains(t) by {
        assert(order1.contains(t) <==> reaches(wakers(edges), tail, t));
    }
    assert(order1.to_set() =~= order2.to_set());
    lemma_scores_equal(head_graph(frame, edges, order1.to_set()), head_rank, order1, order2);
    lemma_scores_equal(tail_graph(frame, edges, order1.to_set(), tail), tail_rank, order1, order2);
    let one = critical_nodes(frame, edges, order1, tail, slack_ns);
    let two = critical_nodes(frame, edges, order2, tail, slack_ns);
    assert forall|t: u32| criticality(frame, edges, order1, tail, slack_ns, t) == criticality(
        frame,
        edges,
        order2,
        tail,
        slack_ns,
        t,
    ) by {
        assert(order1.contains(t) == order2.contains(t));
    }
    assert(one =~= two);
}

/// Two lists of the same edges hold the same edges.
proof fn lemma_same_edges(
    edges1: Seq<(u32, u32, u64)>,
    edges2: Seq<(u32, u32, u64)>,
    map: Map<(u32, u32), u64>,
    e: (u32, u32, u64),
)
    requires
        enumerates(edges1, map),
        enumerates(edges2, map),
    ensures
        edges1.contains(e) <==> edges2.contains(e),
{
    if edges1.contains(e) {
        let i = choose|i: int| 0 <= i < edges1.len() && edges1[i] == e;
        assert(map.contains_key((edges1[i].0, edges1[i].1)));
    }
    if edges2.contains(e) {
        let i = choose|i: int| 0 <= i < edges2.len() && edges2[i] == e;
        assert(map.contains_key((edges2[i].0, edges2[i].1)));
    }
}

/// `next1` and `next2` have the same links out of each thread, in whatever order.
spec fn same_links(
    next1: spec_fn(u32) -> Seq<(u32, u64)>,
    next2: spec_fn(u32) -> Seq<(u32, u64)>,
) -> bool {
    forall|t: u32, link: (u32, u64)|
        #![trigger next1(t).contains(link)]
        #![trigger next2(t).contains(link)]
        next1(t).contains(link) <==> next2(t).contains(link)
}

proof fn lemma_same_links(
    edges1: Seq<(u32, u32, u64)>,
    edges2: Seq<(u32, u32, u64)>,
    map: Map<(u32, u32), u64>,
)
    requires
        enumerates(edges1, map),
        enumerates(edges2, map),
    ensures
        same_links(wakers(edges1), wakers(edges2)),
        same_links(woken(edges1), woken(edges2)),
{
    assert forall|t: u32, link: (u32, u64)|
        #![trigger wakers(edges1)(t).contains(link)]
        #![trigger wakers(edges2)(t).contains(link)]
        wakers(edges1)(t).contains(link) <==> wakers(edges2)(t).contains(link) by {
        lemma_preds_contains(edges1, t, link);
        lemma_preds_contains(edges2, t, link);
        lemma_same_edges(edges1, edges2, map, (link.0, t, link.1));
    }
    assert forall|t: u32, link: (u32, u64)|
        #![trigger woken(edges1)(t).contains(link)]
        #![trigger woken(edges2)(t).contains(link)]
        woken(edges1)(t).contains(link) <==> woken(edges2)(t).contains(link) by {
        lemma_succs_contains(edges1, t, link);
        lemma_succs_contains(edges2, t, link);
        lemma_same_edges(edges1, edges2, map, (t, link.0, link.1));
    }
}

proof fn lemma_same_link(
    next1: spec_fn(u32) -> Seq<(u32, u64)>,
    next2: spec_fn(u32) -> Seq<(u32, u64)>,
    a: u32,
    b: u32,
)
    requires
        same_links(next1, next2),
        has_link(next1, a, b),
    ensures
        has_link(next2, a, b),
{
    let i = choose|i: int| 0 <= i < next1(a).len() && (#[trigger] next1(a)[i]).0 == b;
    let link = next1(a)[i];
    assert(next1(a).contains(link));
    assert(next2(a).contains(link));
    let k = choose|k: int| 0 <= k < next2(a).len() && #[trigger] next2(a)[k] == link;
    assert(next2(a)[k].0 == b);
}

proof fn lemma_same_reach(
    next1: spec_fn(u32) -> Seq<(u32, u64)>,
    next2: spec_fn(u32) -> Seq<(u32, u64)>,
    from: u32,
    to: u32,
)
    requires
        same_links(next1, next2),
        reaches(next1, from, to),
    ensures
        reaches(next2, from, to),
{
    let path = choose|path: Seq<u32>| leads(next1, path, from, to);
    assert(is_path(next2, path)) by {
        assert forall|i: int| 0 <= i < path.len() - 1 implies has_link(
            next2,
            #[trigger] path[i],
            path[i + 1],
        ) by {
            lemma_same_link(next1, next2, path[i], path[i + 1]);
        }
    }
    assert(leads(next2, path, from, to));
}

/// The same walks lead through two graphs that differ only in the order of the links, and
/// take the same time.
proof fn lemma_same_walk(g1: ScoreGraph, g2: ScoreGraph, tid: u32, steps: Seq<(u32, u64)>)
    requires
        same_links(g1.next, g2.next),
        g1.own == g2.own,
        g1.nodes == g2.nodes,
        g1.stop == g2.stop,
    ensures
        is_walk(g1, tid, steps) ==> is_walk(g2, tid, steps),
        walk_ns(g1, tid, steps) == walk_ns(g2, tid, steps),
    decreases steps.len(),
{
    if steps.len() > 0 {
        lemma_same_walk(g1, g2, steps[0].0, steps.drop_first());
    }
}

/// On a graph without cycles the order of the links makes no difference to the scores.
proof fn lemma_same_scores(
    g1: ScoreGraph,
    g2: ScoreGraph,
    rank: spec_fn(u32) -> nat,
    order1: Seq<u32>,
    order2: Seq<u32>,
)
    requires
        same_links(g1.next, g2.next),
        g1.own == g2.own,
        g1.nodes == order1.to_set(),
        g2.nodes == order2.to_set(),
        g1.nodes == g2.nodes,
        g1.stop == g2.stop,
        ranked(g1, rank),
    ensures
        ranked(g2, rank),
        score_all(g1, order1, Map::empty()) == score_all(g2, order2, Map::empty()),
{
    lemma_members(order1);
    lemma_members(order2);
    lemma_score_all_domain(g1, order1);
    lemma_score_all_domain(g2, order2);
    assert(ranked(g2, rank)) by {
        assert forall|a: u32, b: u32| #![trigger has_link(g2.next, a, b)]
            g2.nodes.contains(a) && g2.nodes.contains(b) && g2.stop != Some(a) && has_link(
                g2.next,
                a,
                b,
            ) implies rank(b) < rank(a) by {
            lemma_same_link(g2.next, g1.next, a, b);
        }
    }
    let one = score_all(g1, order1, Map::empty());
    let two = score_all(g2, order2, Map::empty());
    assert forall|t: u32| #[trigger] one.contains_key(t) implies one[t] == two[t] by {
        assert(order1.to_set().contains(t));
        assert(order2.to_set().contains(t));
        law_scores_are_longest(g1, rank, order1, t);
        law_scores_are_longest(g2, rank, order2, t);
        let way1 = choose|steps: Seq<(u32, u64)>|
            is_walk(g1, t, steps) && cap(walk_ns(g1, t, steps) as int) == one[t];
        let way2 = choose|steps: Seq<(u32, u64)>|
            is_walk(g2, t, steps) && cap(walk_ns(g2, t, steps) as int) == two[t];
        lemma_same_walk(g1, g2, t, way1);
        lemma_same_walk(g2, g1, t, way2);
        assert(cap(walk_ns(g2, t, way1) as int) <= two[t]);
        assert(cap(walk_ns(g1, t, way2) as int) <= one[t]);
    }
    assert(one =~= two);
}

/// On a graph without cycles the threads upstream of the tail, the graphs that are searched
/// and the scores are the same in whatever orders the edges and the threads are walked.
proof fn lemma_same_walks(
    frame: DagFrame,
    edges1: Seq<(u32, u32, u64)>,
    edges2: Seq<(u32, u32, u64)>,
    order1: Seq<u32>,
    order2: Seq<u32>,
    tail: u32,
    head_rank: spec_fn(u32) -> nat,
    tail_rank: spec_fn(u32) -> nat,
)
    requires
        enumerates(edges1, frame.edges_ns@),
        enumerates(edges2, frame.edges_ns@),
        walks_upstream(edges1, tail, order1),
        walks_upstream(edges2, tail, order2),
        ranked(head_graph(frame, edges1, order1.to_set()), head_rank),
        ranked(tail_graph(frame, edges1, order1.to_set(), tail), tail_rank),
    ensures
        forall|t: u32| #![trigger order1.contains(t)] #![trigger order2.contains(t)]
            order1.contains(t) == order2.contains(t),
        head_scores(frame, edges1, order1) == head_scores(frame, edges2, order2),
        tail_scores(frame, edges1, order1, tail) == tail_scores(frame, edges2, order2, tail),
        ranked(head_graph(frame, edges2, order2.to_set()), head_rank),
        ranked(tail_graph(frame, edges2, order2.to_set(), tail), tail_rank),
{
    lemma_same_links(edges1, edges2, frame.edges_ns@);
    assert forall|p: u32| #![trigger order1.contains(p)] #![trigger order2.contains(p)]
        order1.contains(p) == order2.contains(p) by {
        if order1.contains(p) {
            lemma_same_reach(wakers(edges1), wakers(edges2), tail, p);
        }
        if order2.contains(p) {
            lemma_same_reach(wakers(edges2), wakers(edges1), tail, p);
        }
    }
    assert(order1.to_set() =~= order2.to_set());
    lemma_same_scores(
        head_graph(frame, edges1, order1.to_set()),
        head_graph(frame, edges2, order2.to_set()),
        head_rank,
        order1,
        order2,
    );
    lemma_same_scores(
        tail_graph(frame, edges1, order1.to_set(), tail),
        tail_graph(frame, edges2, order2.to_set(), tail),
        tail_rank,
        order1,
        order2,
    );
}

/// On a graph without cycles neither the order in which the edges are walked nor that in which
/// the threads are makes a difference to the time along the longest path, to the slack of a
/// thread and to which threads are near enough to count. Only which of several longest chains
/// is followed depends on the order of the edges.
pub proof fn law_slack_independent_of_walk(
    frame: DagFrame,
    edges1: Seq<(u32, u32, u64)>,
    edges2: Seq<(u32, u32, u64)>,
    order1: Seq<u32>,
    order2: Seq<u32>,
    tail: u32,
    slack_ns: u64,
    head_rank: spec_fn(u32) -> nat,
    tail_rank: spec_fn(u32) -> nat,
    t: u32,
)
    requires
        enumerates(edges1, frame.edges_ns@),
        enumerates(edges2, frame.edges_ns@),
        walks_upstream(edges1, tail, order1),
        walks_upstream(edges2, tail, order2),
        ranked(head_graph(frame, edges1, order1.to_set()), head_rank),
        ranked(tail_graph(frame, edges1, order1.to_set(), tail), tail_rank),
    ensures
        best_path(frame, edges1, order1, tail) == best_path(frame, edges2, order2, tail),
        slack_of(frame, edges1, order1, tail, t) == slack_of(frame, edges2, order2, tail, t),
        order1.contains(t) == order2.contains(t),
        ({
            let one = criticality(frame, edges1, order1, tail, slack_ns, t);
            let two = criticality(frame, edges2, order2, tail, slack_ns, t);
            (one is Some && one->0.slack_ns is Some) == (two is Some && two->0.slack_ns is Some)
        }),
{
    lemma_same_walks(frame, edges1, edges2, order1, order2, tail, head_rank, tail_rank);
}

/// The two scores of `t` fit into 64 bits together.
pub open spec fn scores_fit(
    frame: DagFrame,
    edges: Seq<(u32, u32, u64)>,
    order: Seq<u32>,
    tail: u32,
    t: u32,
) -> bool {
    score_or_own(totals(frame), head_scores(frame, edges, order), t) + score_or_own(
        totals(frame),
        tail_scores(frame, edges, order, tail),
        t,
    ) <= u64::MAX
}

/// The thread at the end of a walk out of `from`.
spec fn walk_end(from: u32, steps: Seq<(u32, u64)>) -> u32 {
    if steps.len() == 0 {
        from
    } else {
        steps.last().0
    }
}

/// The same walk, taken from its end.
spec fn reversed(from: u32, steps: Seq<(u32, u64)>) -> Seq<(u32, u64)>
    decreases steps.len(),
{
    if steps.len() == 0 {
        Seq::empty()
    } else {
        let front = steps.drop_last();
        seq![(walk_end(from, front), steps.last().1)] + reversed(from, front)
    }
}

/// A walk back from the tail that does not come through it again, cut after `k` steps: its
/// front, taken from the cut, is a walk to the tail, its back a walk on from the cut, and
/// the time of the thread at the cut is in both.
proof fn lemma_walk_cut(
    frame: DagFrame,
    edges: Seq<(u32, u32, u64)>,
    nodes: Set<u32>,
    tail: u32,
    steps: Seq<(u32, u64)>,
    k: int,
)
    requires
        nodes.contains(tail),
        is_walk(head_graph(frame, edges, nodes), tail, steps),
        0 <= k <= steps.len(),
        forall|i: int| 0 <= i < steps.len() ==> (#[trigger] steps[i]).0 != tail,
    ensures
        ({
            let head = head_graph(frame, edges, nodes);
            let back = tail_graph(frame, edges, nodes, tail);
            let cut = walk_end(tail, steps.take(k));
            let front = reversed(tail, steps.take(k));
            &&& nodes.contains(cut)
            &&& is_walk(head, cut, steps.skip(k))
            &&& is_walk(back, cut, front)
            &&& walk_ns(head, tail, steps) + totals(frame)(cut) == walk_ns(back, cut, front)
                + walk_ns(head, cut, steps.skip(k))
        }),
    decreases k,
{
    let head = head_graph(frame, edges, nodes);
    let back = tail_graph(frame, edges, nodes, tail);
    if k == 0 {
        assert(steps.take(0) =~= Seq::empty());
        assert(steps.skip(0) =~= steps);
    } else {
        lemma_walk_cut(frame, edges, nodes, tail, steps, k - 1);
        let before = steps.take(k - 1);
        let prev = walk_end(tail, before);
        let step = steps[k - 1];
        let rest = steps.skip(k - 1);
        assert(rest[0] == step);
        assert(rest.drop_first() =~= steps.skip(k));
        assert(steps.take(k).drop_last() =~= before);
        assert(steps.take(k).last() == step);
        let front = reversed(tail, steps.take(k));
        let link = (prev, step.1);
        assert(front[0] == link);
        assert(front.drop_first() =~= reversed(tail, before));
        lemma_preds_contains(edges, prev, step);
        lemma_succs_contains(edges, step.0, link);
        assert((head.next)(prev).contains(step));
        assert((back.next)(step.0).contains(link));
        assert(step.0 != tail);
        assert(is_walk(back, step.0, front));
    }
}

/// On a graph without cycles every step of a walk leads to a thread of lower rank than the
/// one that the walk left.
proof fn lemma_walk_descends(
    g: ScoreGraph,
    rank: spec_fn(u32) -> nat,
    tid: u32,
    steps: Seq<(u32, u64)>,
    i: int,
)
    requires
        ranked(g, rank),
        g.nodes.contains(tid),
        is_walk(g, tid, steps),
        0 <= i < steps.len(),
    ensures
        rank(steps[i].0) < rank(tid),
    decreases steps.len(),
{
    let list = (g.next)(tid);
    let k = choose|k: int| 0 <= k < list.len() && #[trigger] list[k] == steps[0];
    assert((g.next)(tid)[k].0 == steps[0].0);
    assert(has_link(g.next, tid, steps[0].0));
    if i > 0 {
        lemma_walk_descends(g, rank, steps[0].0, steps.drop_first(), i - 1);
    }
}

/// On a graph without cycles every thread on the longest chain has no slack: the longest path
/// leads through it. Where the two scores of a thread no longer fit into 64 bits together,
/// this need not hold.
pub proof fn law_longest_chain_has_no_slack(
    frame: DagFrame,
    edges: Seq<(u32, u32, u64)>,
    order: Seq<u32>,
    tail: u32,
    head_rank: spec_fn(u32) -> nat,
    tail_rank: spec_fn(u32) -> nat,
    t: u32,
)
    requires
        walks_upstream(edges, tail, order),
        ranked(head_graph(frame, edges, order.to_set()), head_rank),
        ranked(tail_graph(frame, edges, order.to_set(), tail), tail_rank),
        longest_chain(frame, edges, order, tail).contains(t),
        scores_fit(frame, edges, order, tail, t),
    ensures
        slack_of(frame, edges, order, tail, t) == 0,
{
    let nodes = order.to_set();
    let head = head_graph(frame, edges, nodes);
    let back = tail_graph(frame, edges, nodes, tail);
    let heads = head_scores(frame, edges, order);
    let tails = tail_scores(frame, edges, order, tail);
    let chain = longest_chain(frame, edges, order, tail);
    lemma_tail_upstream(edges, tail, order);
    lemma_members(order);
    assert forall|n: u32| #[trigger] head.nodes.contains(n) implies heads.contains_key(n)
        && attained(head, n, heads[n]) && bounds(head, n, heads[n]) by {
        law_scores_are_walk_times(head, order, n);
        law_scores_are_longest(head, head_rank, order, n);
    }
    assert(scores_exact(head, heads));
    law_chain_is_longest(head, head_rank, heads, tail);
    let steps = choose|steps: Seq<(u32, u64)>|
        #![trigger is_walk(head, tail, steps)]
        is_walk(head, tail, steps) && begins(
            seq![tail] + threads_of(steps),
            chain,
            CHAIN_STEPS as nat + 1,
        ) && cap(walk_ns(head, tail, steps) as int) == heads[tail];
    assert forall|i: int| 0 <= i < steps.len() implies (#[trigger] steps[i]).0 != tail by {
        lemma_walk_descends(head, head_rank, tail, steps, i);
    }
    let k = choose|k: int| 0 <= k < chain.len() && chain[k] == t;
    assert((seq![tail] + threads_of(steps))[k] == t) by {
        assert((seq![tail] + threads_of(steps)).take(chain.len() as int)[k] == chain[k]);
    }
    lemma_walk_cut(frame, edges, nodes, tail, steps, k);
    let cut = walk_end(tail, steps.take(k));
    assert(cut == t) by {
        if k > 0 {
            assert(steps.take(k).last() == steps[k - 1]);
            assert(threads_of(steps)[k - 1] == steps[k - 1].0);
        }
    }
    law_scores_are_walk_times(back, order, t);
    law_scores_are_longest(back, tail_rank, order, t);
    law_scores_are_walk_times(head, order, tail);
    let front = reversed(tail, steps.take(k));
    assert(cap(walk_ns(back, t, front) as int) <= tails[t]);
    assert(cap(walk_ns(head, t, steps.skip(k)) as int) <= heads[t]);
    assert(heads[t] >= totals(frame)(t));
    assert(best_path(frame, edges, order, tail) == heads[tail]);
}

/// The time of more threads is no less.
proof fn lemma_total_over_grows(frame: DagFrame, less: Set<u32>, more: Set<u32>)
    requires
        less.subset_of(more),
    ensures
        total_over(frame, less) <= total_over(frame, more),
    decreases more.difference(less).len(),
{
    lemma_u32_set_finite(more.difference(less));
    if more.difference(less).len() > 0 {
        let t = more.difference(less).choose();
        assert(more.difference(less).contains(t));
        assert(more.difference(less.insert(t)) =~= more.difference(less).remove(t));
        lemma_total_over_insert(frame, less, t);
        lemma_total_over_grows(frame, less.insert(t), more);
    } else {
        assert forall|t: u32| more.contains(t) implies less.contains(t) by {
            if !less.contains(t) {
                assert(more.difference(less).contains(t));
            }
        }
        assert(more =~= less);
    }
}

/// On a graph without cycles, where the scores of every thread fit into 64 bits together, a
/// wider slack never loses a thread, never changes what one counts for and never lowers the
/// time of all, in whatever orders the edges and the threads were walked either time. A
/// thread counts for its slack, and one on a longest chain has none.
pub proof fn law_wider_slack_loses_nothing(
    frame: DagFrame,
    edges1: Seq<(u32, u32, u64)>,
    edges2: Seq<(u32, u32, u64)>,
    order1: Seq<u32>,
    order2: Seq<u32>,
    tail: u32,
    narrow_ns: u64,
    wide_ns: u64,
    head_rank: spec_fn(u32) -> nat,
    tail_rank: spec_fn(u32) -> nat,
)
    requires
        narrow_ns <= wide_ns,
        enumerates(edges1, frame.edges_ns@),
        enumerates(edges2, frame.edges_ns@),
        walks_upstream(edges1, tail, order1),
        walks_upstream(edges2, tail, order2),
        ranked(head_graph(frame, edges1, order1.to_set()), head_rank),
        ranked(tail_graph(frame, edges1, order1.to_set(), tail), tail_rank),
        forall|t: u32| #[trigger]
            order1.contains(t) ==> scores_fit(frame, edges1, order1, tail, t),
    ensures
        ({
            let narrow = critical_nodes(frame, edges1, order1, tail, narrow_ns);
            let wide = critical_nodes(frame, edges2, order2, tail, wide_ns);
            &&& forall|t: u32| #[trigger]
                narrow.contains_key(t) ==> {
                    &&& wide.contains_key(t)
                    &&& narrow[t].slack_ns is Some
                    &&& narrow[t].slack_ns == wide[t].slack_ns
                    &&& narrow[t].on_longest_chain || wide[t].on_longest_chain ==> wide[t].slack_ns
                        == Some(0u64)
                }
            &&& total_over(frame, narrow.dom()) <= total_over(frame, wide.dom())
        }),
{
    let narrow = critical_nodes(frame, edges1, order1, tail, narrow_ns);
    let wide = critical_nodes(frame, edges2, order2, tail, wide_ns);
    lemma_same_walks(frame, edges1, edges2, order1, order2, tail, head_rank, tail_rank);
    assert forall|t: u32| #[trigger] narrow.contains_key(t) implies {
        &&& wide.contains_key(t)
        &&& narrow[t].slack_ns is Some
        &&& narrow[t].slack_ns == wide[t].slack_ns
        &&& narrow[t].on_longest_chain || wide[t].on_longest_chain ==> wide[t].slack_ns == Some(
            0u64,
        )
    } by {
        law_critical_is_upstream(frame, edges1, order1, tail, narrow_ns, t);
        assert(order1.contains(t) && order2.contains(t));
        assert(scores_fit(frame, edges1, order1, tail, t));
        if longest_chain(frame, edges1, order1, tail).contains(t) {
            law_longest_chain_has_no_slack(frame, edges1, order1, tail, head_rank, tail_rank, t);
        }
        if longest_chain(frame, edges2, order2, tail).contains(t) {
            law_longest_chain_has_no_slack(frame, edges2, order2, tail, head_rank, tail_rank, t);
        }
    }
    lemma_total_over_grows(frame, narrow.dom(), wide.dom());
}

/// Two walks, the second out of the end of the first, are one walk, and the time of the
/// thread at which they meet is in both.
proof fn lemma_walks_join(
    g: ScoreGraph,
    tid: u32,
    front: Seq<(u32, u64)>,
    rest: Seq<(u32, u64)>,
)
    requires
        is_walk(g, tid, front),
        is_walk(g, walk_end(tid, front), rest),
    ensures
        is_walk(g, tid, front + rest),
        walk_ns(g, tid, front + rest) + (g.own)(walk_end(tid, front)) == walk_ns(g, tid, front)
            + walk_ns(g, walk_end(tid, front), rest),
        walk_end(tid, front + rest) == walk_end(walk_end(tid, front), rest),
    decreases front.len(),
{
    if front.len() == 0 {
        assert(front + rest =~= rest);
    } else {
        let inner = front.drop_first();
        assert(walk_end(front[0].0, inner) == walk_end(tid, front)) by {
            if inner.len() > 0 {
                assert(inner.last() == front.last());
            }
        }
        lemma_walks_join(g, front[0].0, inner, rest);
        assert((front + rest).drop_first() =~= inner + rest);
        assert((front + rest)[0] == front[0]);
    }
}

/// The walk `steps` out of `from`, taken back from its end.
spec fn retraced(from: u32, steps: Seq<(u32, u64)>) -> Seq<(u32, u64)>
    decreases steps.len(),
{
    if steps.len() == 0 {
        Seq::empty()
    } else {
        retraced(steps[0].0, steps.drop_first()).push((from, steps[0].1))
    }
}

/// A walk to the tail, taken back, is a walk out of the tail that takes the same time.
proof fn lemma_walk_back(
    frame: DagFrame,
    edges: Seq<(u32, u32, u64)>,
    nodes: Set<u32>,
    tail: u32,
    from: u32,
    steps: Seq<(u32, u64)>,
)
    requires
        nodes.contains(from),
        is_walk(tail_graph(frame, edges, nodes, tail), from, steps),
        walk_end(from, steps) == tail,
    ensures
        is_walk(head_graph(frame, edges, nodes), tail, retraced(from, steps)),
        walk_end(tail, retraced(from, steps)) == from,
        walk_ns(head_graph(frame, edges, nodes), tail, retraced(from, steps)) == walk_ns(
            tail_graph(frame, edges, nodes, tail),
            from,
            steps,
        ),
    decreases steps.len(),
{
    let head = head_graph(frame, edges, nodes);
    let back = tail_graph(frame, edges, nodes, tail);
    if steps.len() > 0 {
        let step = steps[0];
        let inner = steps.drop_first();
        assert(walk_end(step.0, inner) == tail) by {
            if inner.len() > 0 {
                assert(inner.last() == steps.last());
            }
        }
        lemma_walk_back(frame, edges, nodes, tail, step.0, inner);
        let link = (from, step.1);
        lemma_succs_contains(edges, from, step);
        lemma_preds_contains(edges, step.0, link);
        assert((back.next)(from).contains(step));
        assert((head.next)(step.0).contains(link));
        let last = seq![link];
        assert(last.drop_first() =~= Seq::empty());
        assert(is_walk(head, from, last.drop_first()));
        assert(is_walk(head, step.0, last));
        assert(walk_ns(head, step.0, last) == (head.own)(step.0) + link.1 + (head.own)(from)) by {
            assert(walk_ns(head, from, last.drop_first()) == (head.own)(from));
        }
        lemma_walks_join(head, tail, retraced(step.0, inner), last);
        assert(retraced(from, steps) =~= retraced(step.0, inner) + last);
    }
}

/// A thread upstream of the tail that is not the tail woke another one upstream of it.
proof fn lemma_upstream_goes_on(
    frame: DagFrame,
    edges: Seq<(u32, u32, u64)>,
    order: Seq<u32>,
    tail: u32,
    n: u32,
) -> (step: (u32, u64))
    requires
        walks_upstream(edges, tail, order),
        order.contains(n),
        n != tail,
    ensures
        (tail_graph(frame, edges, order.to_set(), tail).next)(n).contains(step),
        order.to_set().contains(step.0),
        has_link(tail_graph(frame, edges, order.to_set(), tail).next, n, step.0),
{
    let next = wakers(edges);
    let path = choose|path: Seq<u32>| leads(next, path, tail, n);
    let at = path.len() - 2;
    assert(path.len() > 1);
    let prev = path[at];
    assert(has_link(next, path[at], path[at + 1]));
    let short = path.drop_last();
    assert forall|i: int| 0 <= i < short.len() - 1 implies has_link(
        next,
        #[trigger] short[i],
        short[i + 1],
    ) by {
        assert(has_link(next, path[i], path[i + 1]));
    }
    assert(leads(next, short, tail, prev));
    assert(order.contains(prev));
    let i = choose|i: int| 0 <= i < next(prev).len() && (#[trigger] next(prev)[i]).0 == n;
    let link = next(prev)[i];
    assert(next(prev).contains(link));
    lemma_preds_contains(edges, prev, link);
    let step = (prev, link.1);
    lemma_succs_contains(edges, n, step);
    let out = woken(edges)(n);
    let k = choose|k: int| 0 <= k < out.len() && out[k] == step;
    assert(woken(edges)(n)[k].0 == prev);
    step
}

/// On a graph without cycles some walk from a thread upstream of the tail leads to the tail and
/// takes as much time as any walk.
proof fn lemma_longest_to_tail(
    frame: DagFrame,
    edges: Seq<(u32, u32, u64)>,
    order: Seq<u32>,
    tail: u32,
    rank: spec_fn(u32) -> nat,
    n: u32,
) -> (steps: Seq<(u32, u64)>)
    requires
        walks_upstream(edges, tail, order),
        ranked(tail_graph(frame, edges, order.to_set(), tail), rank),
        order.contains(n),
    ensures
        is_walk(tail_graph(frame, edges, order.to_set(), tail), n, steps),
        walk_end(n, steps) == tail,
        cap(walk_ns(tail_graph(frame, edges, order.to_set(), tail), n, steps) as int)
            == tail_scores(frame, edges, order, tail)[n],
    decreases rank(n),
{
    let back = tail_graph(frame, edges, order.to_set(), tail);
    let tails = tail_scores(frame, edges, order, tail);
    lemma_members(order);
    law_scores_are_walk_times(back, order, n);
    law_scores_are_longest(back, rank, order, n);
    let longest = choose|steps: Seq<(u32, u64)>|
        is_walk(back, n, steps) && cap(walk_ns(back, n, steps) as int) == tails[n];
    if n == tail {
        longest
    } else {
        let step = if longest.len() > 0 {
            let list = (back.next)(n);
            let k = choose|k: int| 0 <= k < list.len() && list[k] == longest[0];
            assert((back.next)(n)[k].0 == longest[0].0);
            longest[0]
        } else {
            lemma_upstream_goes_on(frame, edges, order, tail, n)
        };
        assert(has_link(back.next, n, step.0));
        assert(order.to_set().contains(n));
        assert(rank(step.0) < rank(n));
        assert(order.contains(step.0));
        let beyond = lemma_longest_to_tail(frame, edges, order, tail, rank, step.0);
        law_scores_are_longest(back, rank, order, step.0);
        let steps = seq![step] + beyond;
        assert(steps.drop_first() =~= beyond);
        assert(is_walk(back, n, steps));
        assert(walk_ns(back, n, steps) == (back.own)(n) + step.1 + walk_ns(back, step.0, beyond));
        assert(cap(walk_ns(back, n, steps) as int) <= tails[n]);
        if longest.len() > 0 {
            let inner = longest.drop_first();
            assert(cap(walk_ns(back, step.0, inner) as int) <= tails[step.0]);
        }
        steps
    }
}

/// The walk `steps` out of `from` comes through `t`.
pub open spec fn passes(from: u32, steps: Seq<(u32, u64)>, t: u32) -> bool {
    t == from || exists|i: int| 0 <= i < steps.len() && (#[trigger] steps[i]).0 == t
}

/// On a graph without cycles the slack of a thread upstream of the tail is the time of the
/// longest path to the tail less the time of the longest path to the tail that comes through
/// the thread: some walk back from the tail through it takes that time, and none takes more.
/// This is so whether or not the thread is on the longest chain, as long as its two scores fit
/// into 64 bits together.
pub proof fn law_slack_is_shortfall(
    frame: DagFrame,
    edges: Seq<(u32, u32, u64)>,
    order: Seq<u32>,
    tail: u32,
    head_rank: spec_fn(u32) -> nat,
    tail_rank: spec_fn(u32) -> nat,
    t: u32,
)
    requires
        walks_upstream(edges, tail, order),
        ranked(head_graph(frame, edges, order.to_set()), head_rank),
        ranked(tail_graph(frame, edges, order.to_set(), tail), tail_rank),
        order.contains(t),
        scores_fit(frame, edges, order, tail, t),
    ensures
        ({
            let g = head_graph(frame, edges, order.to_set());
            let best = best_path(frame, edges, order, tail);
            let slack = slack_of(frame, edges, order, tail, t);
            &&& slack <= best
            &&& exists|steps: Seq<(u32, u64)>| #[trigger]
                is_walk(g, tail, steps) && passes(tail, steps, t) && cap(
                    walk_ns(g, tail, steps) as int,
                ) == best - slack
            &&& forall|steps: Seq<(u32, u64)>| #[trigger]
                is_walk(g, tail, steps) && passes(tail, steps, t) ==> cap(
                    walk_ns(g, tail, steps) as int,
                ) <= best - slack
        }),
{
    let nodes = order.to_set();
    let head = head_graph(frame, edges, nodes);
    let back = tail_graph(frame, edges, nodes, tail);
    let heads = head_scores(frame, edges, order);
    let tails = tail_scores(frame, edges, order, tail);
    let best = best_path(frame, edges, order, tail);
    let slack = slack_of(frame, edges, order, tail, t);
    let own = totals(frame)(t);
    lemma_tail_upstream(edges, tail, order);
    lemma_members(order);
    law_scores_are_walk_times(head, order, tail);
    law_scores_are_longest(head, head_rank, order, tail);
    law_scores_are_walk_times(head, order, t);
    law_scores_are_longest(head, head_rank, order, t);
    law_scores_are_walk_times(back, order, t);
    law_scores_are_longest(back, tail_rank, order, t);
    assert(best == heads[tail]);
    assert(nodes.contains(tail));
    assert forall|steps: Seq<(u32, u64)>| #[trigger]
        is_walk(head, tail, steps) && passes(tail, steps, t) implies cap(
        walk_ns(head, tail, steps) as int,
    ) <= best - slack by {
        assert forall|i: int| 0 <= i < steps.len() implies (#[trigger] steps[i]).0 != tail by {
            lemma_walk_descends(head, head_rank, tail, steps, i);
        }
        let k = if t == tail {
            0
        } else {
            1 + choose|i: int| 0 <= i < steps.len() && (#[trigger] steps[i]).0 == t
        };
        lemma_walk_cut(frame, edges, nodes, tail, steps, k);
        assert(walk_end(tail, steps.take(k)) == t) by {
            if k > 0 {
                assert(steps.take(k).last() == steps[k - 1]);
            }
        }
        let front = reversed(tail, steps.take(k));
        assert(cap(walk_ns(back, t, front) as int) <= tails[t]);
        assert(cap(walk_ns(head, t, steps.skip(k)) as int) <= heads[t]);
        assert(cap(walk_ns(head, tail, steps) as int) <= best);
    }
    let front = lemma_longest_to_tail(frame, edges, order, tail, tail_rank, t);
    let rest = choose|steps: Seq<(u32, u64)>|
        is_walk(head, t, steps) && cap(walk_ns(head, t, steps) as int) == heads[t];
    lemma_walk_back(frame, edges, nodes, tail, t, front);
    let there = retraced(t, front);
    lemma_walks_join(head, tail, there, rest);
    let steps = there + rest;
    assert(passes(tail, steps, t)) by {
        if there.len() > 0 {
            assert(steps[there.len() - 1] == there.last());
        }
    }
    assert(is_walk(head, tail, steps));
    assert(cap(walk_ns(head, tail, steps) as int) <= best);
    assert(walk_ns(head, tail, steps) + own == walk_ns(back, t, front) + walk_ns(head, t, rest));
    assert(cap(walk_ns(head, tail, steps) as int) == best - slack);
}

/// On a graph without cycles a thread upstream of the tail is near enough to count exactly
/// where some walk back from the tail through it falls short of the longest by at most
/// `slack_ns`. One that is neither near nor on the longest chain does not count, and one that
/// is on it always does.
pub proof fn law_near_threads_count(
    frame: DagFrame,
    edges: Seq<(u32, u32, u64)>,
    order: Seq<u32>,
    tail: u32,
    slack_ns: u64,
    head_rank: spec_fn(u32) -> nat,
    tail_rank: spec_fn(u32) -> nat,
    t: u32,
)
    requires
        walks_upstream(edges, tail, order),
        ranked(head_graph(frame, edges, order.to_set()), head_rank),
        ranked(tail_graph(frame, edges, order.to_set(), tail), tail_rank),
        order.contains(t),
        scores_fit(frame, edges, order, tail, t),
    ensures
        ({
            let g = head_graph(frame, edges, order.to_set());
            let best = best_path(frame, edges, order, tail);
            let nodes = critical_nodes(frame, edges, order, tail, slack_ns);
            let chain = longest_chain(frame, edges, order, tail);
            let near = exists|steps: Seq<(u32, u64)>| #[trigger]
                is_walk(g, tail, steps) && passes(tail, steps, t) && cap(
                    walk_ns(g, tail, steps) as int,
                ) + slack_ns >= best;
            &&& nodes.contains_key(t) <==> near || chain.contains(t)
            &&& nodes.contains_key(t) ==> (nodes[t].slack_ns is Some <==> near)
            &&& nodes.contains_key(t) ==> (nodes[t].on_longest_chain <==> chain.contains(t))
            &&& nodes.contains_key(t) && near ==> nodes[t].slack_ns == Some(
                slack_of(frame, edges, order, tail, t),
            )
        }),
{
    law_slack_is_shortfall(frame, edges, order, tail, head_rank, tail_rank, t);
    let g = head_graph(frame, edges, order.to_set());
    let best = best_path(frame, edges, order, tail);
    let slack = slack_of(frame, edges, order, tail, t);
    let longest = choose|steps: Seq<(u32, u64)>| #[trigger]
        is_walk(g, tail, steps) && passes(tail, steps, t) && cap(walk_ns(g, tail, steps) as int)
            == best - slack;
    assert(is_walk(g, tail, longest));
}

/// The time of the critical threads is that of each of them once, and nothing else.
pub proof fn law_critical_time_adds_up(frame: DagFrame, set: Set<u32>, t: u32)
    requires
        !set.contains(t),
    ensures
        total_over(frame, Set::empty()) == 0,
        total_over(frame, set.insert(t)) == total_over(frame, set) + count(
            frame.thread_exec_ns@,
            t,
        ) + count(frame.thread_rq_delay_ns@, t) + count(frame.thread_futex_wait_ns@, t),
{
    lemma_total_over_insert(frame, set, t);
    vstd::set::fold::lemma_fold_empty::<u32, nat>(
        0nat,
        |sum: nat, t: u32| sum + frame.total(t) as nat,
    );
}

/// A critical subgraph keeps its time constant, but for zero, which counts as one, and the time
/// of its threads as far as that fits.
pub proof fn law_subgraph_figures(
    subgraph: CriticalSubgraphResult,
    frame: DagFrame,
    edges: Seq<(u32, u32, u64)>,
    order: Seq<u32>,
    tail: u32,
    slack_ns: u64,
    tau_ns: u64,
)
    requires
        subgraph.is_subgraph(frame, edges, order, tail, slack_ns, tau_ns),
    ensures
        tau_ns > 0 ==> subgraph.tau_ns == tau_ns,
        tau_ns == 0 ==> subgraph.tau_ns == 1,
        ({
            let total = total_over(
                frame,
                critical_nodes(frame, edges, order, tail, slack_ns).dom(),
            );
            &&& total <= u64::MAX ==> subgraph.node_total_ns == total
            &&& total > u64::MAX ==> subgraph.node_total_ns == u64::MAX
        }),
{
}

} // verus!
