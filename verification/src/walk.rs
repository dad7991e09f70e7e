//! What the scores of the depth-first search mean: each is the time along some walk, and
//! on a graph without cycles no walk takes more.
use crate::dag::cap;
use crate::graph::{has_link, lemma_u32_set_finite};
use crate::score::{best_next, better, score, score_all, ScoreGraph};
use vstd::prelude::*;

verus! {

/// `steps` is a walk out of `tid`: each step is a link that the search may follow.
pub open spec fn is_walk(g: ScoreGraph, tid: u32, steps: Seq<(u32, u64)>) -> bool
    decreases steps.len(),
{
    steps.len() > 0 ==> {
        &&& g.stop != Some(tid)
        &&& (g.next)(tid).contains(steps[0])
        &&& g.nodes.contains(steps[0].0)
        &&& is_walk(g, steps[0].0, steps.drop_first())
    }
}

/// The time along a walk: that of every thread on it and of every link.
pub open spec fn walk_ns(g: ScoreGraph, tid: u32, steps: Seq<(u32, u64)>) -> nat
    decreases steps.len(),
{
    if steps.len() == 0 {
        (g.own)(tid) as nat
    } else {
        (g.own)(tid) as nat + steps[0].1 as nat + walk_ns(g, steps[0].0, steps.drop_first())
    }
}

/// Some walk out of `tid` takes the time `ns`.
pub open spec fn attained(g: ScoreGraph, tid: u32, ns: u64) -> bool {
    exists|steps: Seq<(u32, u64)>| is_walk(g, tid, steps) && cap(walk_ns(g, tid, steps) as int) == ns
}

/// No walk out of `tid` takes more than `ns`.
pub open spec fn bounds(g: ScoreGraph, tid: u32, ns: u64) -> bool {
    forall|steps: Seq<(u32, u64)>|
        is_walk(g, tid, steps) ==> cap(#[trigger] walk_ns(g, tid, steps) as int) <= ns
}

/// Every link that the search may follow leads to a thread of lower rank: the graph has
/// no cycle.
pub open spec fn ranked(g: ScoreGraph, rank: spec_fn(u32) -> nat) -> bool {
    forall|a: u32, b: u32| #![trigger has_link(g.next, a, b)]
        g.nodes.contains(a) && g.nodes.contains(b) && g.stop != Some(a) && has_link(g.next, a, b)
            ==> rank(b) < rank(a)
}

/// Every score in `memo` is the time along some walk.
pub open spec fn memo_attained(g: ScoreGraph, memo: Map<u32, u64>) -> bool {
    forall|t: u32| #[trigger]
        memo.contains_key(t) ==> g.nodes.contains(t) && attained(g, t, memo[t])
}

/// Every score in `memo` is the time along the longest walk.
pub open spec fn memo_bounds(g: ScoreGraph, memo: Map<u32, u64>) -> bool {
    forall|t: u32| #[trigger] memo.contains_key(t) ==> bounds(g, t, memo[t])
}

/// `best` is zero, or the time beyond `tid` on some walk that leaves it.
spec fn continues(g: ScoreGraph, tid: u32, best: u64) -> bool {
    best == 0 || exists|steps: Seq<(u32, u64)>|
        #![trigger walk_ns(g, tid, steps)]
        steps.len() > 0 && is_walk(g, tid, steps) && cap(
            walk_ns(g, tid, steps) - (g.own)(tid),
        ) == best
}

proof fn lemma_score_attained(g: ScoreGraph, tid: u32, memo: Map<u32, u64>, visiting: Set<u32>)
    requires
        g.nodes.contains(tid),
        memo_attained(g, memo),
    ensures
        attained(g, tid, score(g, tid, memo, visiting).0),
        memo_attained(g, score(g, tid, memo, visiting).1),
    decreases g.nodes.difference(visiting).len(), 0nat,
{
    let nothing = Seq::<(u32, u64)>::empty();
    assert(is_walk(g, tid, nothing) && cap(walk_ns(g, tid, nothing) as int) == (g.own)(tid));
    if !memo.contains_key(tid) && g.stop != Some(tid) && !visiting.contains(tid) {
        lemma_u32_set_finite(g.nodes);
        g.nodes.lemma_set_insert_diff_decreases(visiting, tid);
        let inner = visiting.insert(tid);
        lemma_best_next_attained(g, tid, (g.next)(tid), 0, memo, inner);
        let (best, seen) = best_next(g, (g.next)(tid), 0, memo, inner);
        if best != 0 {
            let steps = choose|steps: Seq<(u32, u64)>|
                #![trigger walk_ns(g, tid, steps)]
                steps.len() > 0 && is_walk(g, tid, steps) && cap(
                    walk_ns(g, tid, steps) - (g.own)(tid),
                ) == best;
            assert(cap(walk_ns(g, tid, steps) as int) == cap((g.own)(tid) + best));
        }
    }
}

proof fn lemma_best_next_attained(
    g: ScoreGraph,
    tid: u32,
    list: Seq<(u32, u64)>,
    best: u64,
    memo: Map<u32, u64>,
    visiting: Set<u32>,
)
    requires
        g.stop != Some(tid),
        forall|i: int| 0 <= i < list.len() ==> (g.next)(tid).contains(#[trigger] list[i]),
        memo_attained(g, memo),
        continues(g, tid, best),
    ensures
        continues(g, tid, best_next(g, list, best, memo, visiting).0),
        memo_attained(g, best_next(g, list, best, memo, visiting).1),
    decreases g.nodes.difference(visiting).len(), 1 + list.len(),
{
    if list.len() > 0 {
        let link = list[0];
        let rest = list.drop_first();
        assert forall|i: int| 0 <= i < rest.len() implies (g.next)(tid).contains(
            #[trigger] rest[i],
        ) by {
            assert(rest[i] == list[i + 1]);
        }
        if !g.nodes.contains(link.0) {
            lemma_best_next_attained(g, tid, rest, best, memo, visiting);
        } else {
            let (s, seen) = score(g, link.0, memo, visiting);
            lemma_score_attained(g, link.0, memo, visiting);
            let tail = choose|steps: Seq<(u32, u64)>|
                is_walk(g, link.0, steps) && cap(walk_ns(g, link.0, steps) as int) == s;
            let steps = seq![link] + tail;
            assert(steps.drop_first() =~= tail);
            assert(is_walk(g, tid, steps));
            assert(walk_ns(g, tid, steps) - (g.own)(tid) == link.1 + walk_ns(g, link.0, tail));
            assert(cap(walk_ns(g, tid, steps) - (g.own)(tid)) == cap(link.1 + s));
            lemma_best_next_attained(g, tid, rest, better(best, link, s), seen, visiting);
        }
    }
}

proof fn lemma_score_bounds(
    g: ScoreGraph,
    rank: spec_fn(u32) -> nat,
    tid: u32,
    memo: Map<u32, u64>,
    visiting: Set<u32>,
)
    requires
        ranked(g, rank),
        g.nodes.contains(tid),
        memo_bounds(g, memo),
        forall|v: u32| #[trigger] visiting.contains(v) ==> rank(tid) < rank(v),
    ensures
        bounds(g, tid, score(g, tid, memo, visiting).0),
        memo_bounds(g, score(g, tid, memo, visiting).1),
    decreases g.nodes.difference(visiting).len(), 0nat,
{
    if memo.contains_key(tid) {
    } else if g.stop == Some(tid) {
        assert forall|steps: Seq<(u32, u64)>| is_walk(g, tid, steps) implies cap(
            #[trigger] walk_ns(g, tid, steps) as int,
        ) <= (g.own)(tid) by {
            assert(steps.len() == 0);
        }
    } else {
        lemma_u32_set_finite(g.nodes);
        g.nodes.lemma_set_insert_diff_decreases(visiting, tid);
        let inner = visiting.insert(tid);
        let list = (g.next)(tid);
        assert forall|i: int, v: u32|
            0 <= i < list.len() && g.nodes.contains((#[trigger] list[i]).0)
                && #[trigger] inner.contains(v) implies rank(list[i].0) < rank(v) by {
            assert(has_link(g.next, tid, list[i].0));
        }
        lemma_best_next_bounds(g, rank, list, 0, memo, inner);
        let (best, seen) = best_next(g, list, 0, memo, inner);
        let total = cap((g.own)(tid) + best);
        assert forall|steps: Seq<(u32, u64)>| is_walk(g, tid, steps) implies cap(
            #[trigger] walk_ns(g, tid, steps) as int,
        ) <= total by {
            if steps.len() > 0 {
                let i = choose|i: int| 0 <= i < list.len() && list[i] == steps[0];
                assert(g.nodes.contains(list[i].0));
                let tail = steps.drop_first();
                assert(cap(list[i].1 + walk_ns(g, list[i].0, tail)) <= best);
            }
        }
    }
}

proof fn lemma_best_next_bounds(
    g: ScoreGraph,
    rank: spec_fn(u32) -> nat,
    list: Seq<(u32, u64)>,
    best: u64,
    memo: Map<u32, u64>,
    visiting: Set<u32>,
)
    requires
        ranked(g, rank),
        memo_bounds(g, memo),
        forall|i: int, v: u32|
            0 <= i < list.len() && g.nodes.contains((#[trigger] list[i]).0)
                && #[trigger] visiting.contains(v) ==> rank(list[i].0) < rank(v),
    ensures
        best_next(g, list, best, memo, visiting).0 >= best,
        memo_bounds(g, best_next(g, list, best, memo, visiting).1),
        forall|i: int, steps: Seq<(u32, u64)>|
            #![trigger walk_ns(g, list[i].0, steps)]
            0 <= i < list.len() && g.nodes.contains(list[i].0) && is_walk(g, list[i].0, steps)
                ==> cap(list[i].1 + walk_ns(g, list[i].0, steps)) <= best_next(
                g,
                list,
                best,
                memo,
                visiting,
            ).0,
    decreases g.nodes.difference(visiting).len(), 1 + list.len(),
{
    if list.len() > 0 {
        let link = list[0];
        let rest = list.drop_first();
        assert forall|i: int, v: u32|
            0 <= i < rest.len() && g.nodes.contains((#[trigger] rest[i]).0)
                && #[trigger] visiting.contains(v) implies rank(rest[i].0) < rank(v) by {
            assert(rest[i] == list[i + 1]);
        }
        let (s, seen) = score(g, link.0, memo, visiting);
        let last = best_next(g, list, best, memo, visiting).0;
        if !g.nodes.contains(link.0) {
            lemma_best_next_bounds(g, rank, rest, best, memo, visiting);
        } else {
            lemma_score_bounds(g, rank, link.0, memo, visiting);
            lemma_best_next_bounds(g, rank, rest, better(best, link, s), seen, visiting);
        }
        assert forall|i: int, steps: Seq<(u32, u64)>|
            #![trigger walk_ns(g, list[i].0, steps)]
            0 <= i < list.len() && g.nodes.contains(list[i].0) && is_walk(
                g,
                list[i].0,
                steps,
            ) implies cap(list[i].1 + walk_ns(g, list[i].0, steps)) <= last by {
            if i == 0 {
                assert(cap(walk_ns(g, link.0, steps) as int) <= s);
            } else {
                assert(rest[i - 1] == list[i]);
            }
        }
    }
}

proof fn lemma_score_keeps(g: ScoreGraph, tid: u32, memo: Map<u32, u64>, visiting: Set<u32>)
    ensures
        memo.dom().subset_of(score(g, tid, memo, visiting).1.dom()),
        g.nodes.contains(tid) && !visiting.contains(tid) ==> score(
            g,
            tid,
            memo,
            visiting,
        ).1.contains_key(tid),
    decreases g.nodes.difference(visiting).len(), 0nat,
{
    if !memo.contains_key(tid) && g.nodes.contains(tid) && g.stop != Some(tid)
        && !visiting.contains(tid) {
        lemma_u32_set_finite(g.nodes);
        g.nodes.lemma_set_insert_diff_decreases(visiting, tid);
        lemma_best_next_keeps(g, (g.next)(tid), 0, memo, visiting.insert(tid));
    }
}

proof fn lemma_best_next_keeps(
    g: ScoreGraph,
    list: Seq<(u32, u64)>,
    best: u64,
    memo: Map<u32, u64>,
    visiting: Set<u32>,
)
    ensures
        memo.dom().subset_of(best_next(g, list, best, memo, visiting).1.dom()),
    decreases g.nodes.difference(visiting).len(), 1 + list.len(),
{
    if list.len() > 0 {
        if !g.nodes.contains(list[0].0) {
            lemma_best_next_keeps(g, list.drop_first(), best, memo, visiting);
        } else {
            let (s, seen) = score(g, list[0].0, memo, visiting);
            lemma_score_keeps(g, list[0].0, memo, visiting);
            lemma_best_next_keeps(g, list.drop_first(), better(best, list[0], s), seen, visiting);
        }
    }
}

proof fn lemma_score_all_attained(g: ScoreGraph, order: Seq<u32>, memo: Map<u32, u64>)
    requires
        forall|i: int| 0 <= i < order.len() ==> g.nodes.contains(#[trigger] order[i]),
        memo_attained(g, memo),
    ensures
        memo_attained(g, score_all(g, order, memo)),
        memo.dom().subset_of(score_all(g, order, memo).dom()),
        forall|i: int|
            0 <= i < order.len() ==> score_all(g, order, memo).contains_key(#[trigger] order[i]),
    decreases order.len(),
{
    if order.len() > 0 {
        let rest = order.drop_first();
        let seen = score(g, order[0], memo, Set::empty()).1;
        lemma_score_attained(g, order[0], memo, Set::empty());
        lemma_score_keeps(g, order[0], memo, Set::empty());
        assert forall|i: int| 0 <= i < rest.len() implies g.nodes.contains(#[trigger] rest[i]) by {
            assert(rest[i] == order[i + 1]);
        }
        lemma_score_all_attained(g, rest, seen);
        assert forall|i: int| 0 <= i < order.len() implies score_all(
            g,
            order,
            memo,
        ).contains_key(#[trigger] order[i]) by {
            if i > 0 {
                assert(rest[i - 1] == order[i]);
            }
        }
    }
}

proof fn lemma_score_all_bounds(
    g: ScoreGraph,
    rank: spec_fn(u32) -> nat,
    order: Seq<u32>,
    memo: Map<u32, u64>,
)
    requires
        ranked(g, rank),
        forall|i: int| 0 <= i < order.len() ==> g.nodes.contains(#[trigger] order[i]),
        memo_bounds(g, memo),
    ensures
        memo_bounds(g, score_all(g, order, memo)),
    decreases order.len(),
{
    if order.len() > 0 {
        let rest = order.drop_first();
        lemma_score_bounds(g, rank, order[0], memo, Set::empty());
        assert forall|i: int| 0 <= i < rest.len() implies g.nodes.contains(#[trigger] rest[i]) by {
            assert(rest[i] == order[i + 1]);
        }
        lemma_score_all_bounds(g, rank, rest, score(g, order[0], memo, Set::empty()).1);
    }
}

/// Where the threads asked for are those that count, each of them gets a score and no other.
pub proof fn lemma_score_all_domain(g: ScoreGraph, order: Seq<u32>)
    requires
        g.nodes == order.to_set(),
    ensures
        score_all(g, order, Map::empty()).dom() == g.nodes,
{
    assert forall|i: int| 0 <= i < order.len() implies g.nodes.contains(#[trigger] order[i]) by {
        assert(order.contains(order[i]));
    }
    lemma_score_all_attained(g, order, Map::empty());
    let scores = score_all(g, order, Map::empty());
    assert forall|t: u32| g.nodes.contains(t) implies scores.contains_key(t) by {
        let i = choose|i: int| 0 <= i < order.len() && order[i] == t;
        assert(scores.contains_key(order[i]));
    }
    assert(scores.dom() =~= g.nodes);
}

/// Whatever the graph, with or without cycles, every thread asked for gets a score, the
/// score is the time along some walk out of it, and it is at least the thread's own time.
pub proof fn law_scores_are_walk_times(g: ScoreGraph, order: Seq<u32>, tid: u32)
    requires
        forall|i: int| 0 <= i < order.len() ==> g.nodes.contains(#[trigger] order[i]),
        order.contains(tid),
    ensures
        score_all(g, order, Map::empty()).contains_key(tid),
        attained(g, tid, score_all(g, order, Map::empty())[tid]),
        score_all(g, order, Map::empty())[tid] >= (g.own)(tid),
{
    lemma_score_all_attained(g, order, Map::empty());
    let ns = score_all(g, order, Map::empty())[tid];
    let steps = choose|steps: Seq<(u32, u64)>|
        is_walk(g, tid, steps) && cap(walk_ns(g, tid, steps) as int) == ns;
    assert(walk_ns(g, tid, steps) >= (g.own)(tid));
}

/// On a graph without cycles the score of a thread is the time along the longest walk out
/// of it.
pub proof fn law_scores_are_longest(
    g: ScoreGraph,
    rank: spec_fn(u32) -> nat,
    order: Seq<u32>,
    tid: u32,
)
    requires
        ranked(g, rank),
        forall|i: int| 0 <= i < order.len() ==> g.nodes.contains(#[trigger] order[i]),
        order.contains(tid),
    ensures
        attained(g, tid, score_all(g, order, Map::empty())[tid]),
        bounds(g, tid, score_all(g, order, Map::empty())[tid]),
{
    law_scores_are_walk_times(g, order, tid);
    lemma_score_all_bounds(g, rank, order, Map::empty());
}

/// On a graph without cycles the order in which scores are asked for makes no difference.
pub proof fn law_scores_independent_of_order(
    g: ScoreGraph,
    rank: spec_fn(u32) -> nat,
    order1: Seq<u32>,
    order2: Seq<u32>,
    tid: u32,
)
    requires
        ranked(g, rank),
        forall|i: int| 0 <= i < order1.len() ==> g.nodes.contains(#[trigger] order1[i]),
        forall|i: int| 0 <= i < order2.len() ==> g.nodes.contains(#[trigger] order2[i]),
        order1.contains(tid),
        order2.contains(tid),
    ensures
        score_all(g, order1, Map::empty())[tid] == score_all(g, order2, Map::empty())[tid],
{
    law_scores_are_longest(g, rank, order1, tid);
    law_scores_are_longest(g, rank, order2, tid);
}

} // verus!
