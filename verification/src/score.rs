//! The heaviest way out of a thread along the links of the wake-up graph, found by a
//! depth-first search with a memo.
use std::collections::{HashMap, HashSet};
use crate::dag::{cap, count, DagFrame};
use crate::graph::{lemma_u32_set_finite, links};
use vstd::prelude::*;
use vstd::std_specs::hash::*;

verus! {

broadcast use vstd::std_specs::hash::group_hash_axioms;

/// A graph whose threads and links carry times.
pub struct ScoreGraph {
    /// The links out of a thread, each with its time.
    pub next: spec_fn(u32) -> Seq<(u32, u64)>,
    /// The time of a thread.
    pub own: spec_fn(u32) -> u64,
    /// The threads that count. Links to other threads are not followed.
    pub nodes: Set<u32>,
    /// The thread from which no link is followed.
    pub stop: Option<u32>,
}

/// The better of `best` and what `link` is worth, where it leads to a thread with `score`.
pub open spec fn better(best: u64, link: (u32, u64), score: u64) -> u64 {
    if cap(link.1 + score) > best {
        cap(link.1 + score)
    } else {
        best
    }
}

/// The score of `tid` and the memo after it was asked for, where `memo` holds the scores
/// already known and `visiting` the threads whose score is being worked out. A thread met
/// again while its own score is being worked out counts for its own time alone: on a graph
/// with a cycle the scores depend on the order in which they are asked for.
pub open spec fn score(
    g: ScoreGraph,
    tid: u32,
    memo: Map<u32, u64>,
    visiting: Set<u32>,
) -> (u64, Map<u32, u64>)
    decreases g.nodes.difference(visiting).len(), 0nat,
{
    if memo.contains_key(tid) {
        (memo[tid], memo)
    } else if !g.nodes.contains(tid) {
        (0, memo)
    } else if g.stop == Some(tid) {
        ((g.own)(tid), memo.insert(tid, (g.own)(tid)))
    } else if visiting.contains(tid) {
        ((g.own)(tid), memo)
    } else {
        proof {
            lemma_u32_set_finite(g.nodes);
            g.nodes.lemma_set_insert_diff_decreases(visiting, tid);
        }
        let (best, seen) = best_next(g, (g.next)(tid), 0, memo, visiting.insert(tid));
        let score = cap((g.own)(tid) + best);
        (score, seen.insert(tid, score))
    }
}

/// The best continuation over `list`, where `best` was found before, and the memo after it.
pub open spec fn best_next(
    g: ScoreGraph,
    list: Seq<(u32, u64)>,
    best: u64,
    memo: Map<u32, u64>,
    visiting: Set<u32>,
) -> (u64, Map<u32, u64>)
    decreases g.nodes.difference(visiting).len(), 1 + list.len(),
{
    if list.len() == 0 {
        (best, memo)
    } else if !g.nodes.contains(list[0].0) {
        best_next(g, list.drop_first(), best, memo, visiting)
    } else {
        let (s, seen) = score(g, list[0].0, memo, visiting);
        best_next(g, list.drop_first(), better(best, list[0], s), seen, visiting)
    }
}

/// The memo after the scores of all of `order` were asked for, one after the other.
pub open spec fn score_all(g: ScoreGraph, order: Seq<u32>, memo: Map<u32, u64>) -> Map<u32, u64>
    decreases order.len(),
{
    if order.len() == 0 {
        memo
    } else {
        score_all(g, order.drop_first(), score(g, order[0], memo, Set::empty()).1)
    }
}

/// The graph that `lists` and the totals of `frame` make over the threads `nodes`.
pub open spec fn frame_graph(
    frame: DagFrame,
    lists: Map<u32, Vec<(u32, u64)>>,
    nodes: Set<u32>,
    stop: Option<u32>,
) -> ScoreGraph {
    ScoreGraph {
        next: |t: u32| links(lists, t),
        own: |t: u32| frame.total(t) as u64,
        nodes,
        stop,
    }
}

fn longest_score(
    tid: u32,
    stop: Option<u32>,
    frame: &DagFrame,
    lists: &HashMap<u32, Vec<(u32, u64)>>,
    reachable: &HashSet<u32>,
    memo: &mut HashMap<u32, u64>,
    visiting: &mut HashSet<u32>,
) -> (ns: u64)
    requires
        frame.totals_fit(),
    ensures
        (ns, final(memo)@) == score(
            frame_graph(*frame, lists@, reachable@, stop),
            tid,
            old(memo)@,
            old(visiting)@,
        ),
        final(visiting)@ == old(visiting)@,
    decreases reachable@.difference(old(visiting)@).len(),
{
    let ghost g = frame_graph(*frame, lists@, reachable@, stop);
    if let Some(v) = memo.get(&tid) {
        return *v;
    }
    if !reachable.contains(&tid) {
        return 0;
    }
    assert(frame.total(tid) <= u64::MAX);
    let own = frame.thread_total_ns(tid);
    if let Some(last) = stop {
        if tid == last {
            memo.insert(tid, own);
            return own;
        }
    }
    if !visiting.insert(tid) {
        assert(visiting@ =~= old(visiting)@);
        return own;
    }
    let ghost outer = visiting@;
    proof {
        lemma_u32_set_finite(reachable@);
        reachable@.lemma_set_insert_diff_decreases(old(visiting)@, tid);
    }
    let mut best: u64 = 0;
    let ghost list_seq = (g.next)(tid);
    let ghost whole = best_next(g, list_seq, 0, old(memo)@, outer);
    if let Some(list) = lists.get(&tid) {
        assert(list@ == list_seq);
        assert(list_seq.skip(0) =~= list_seq);
        for i in 0..list.len()
            invariant
                frame.totals_fit(),
                g == frame_graph(*frame, lists@, reachable@, stop),
                list@ == list_seq,
                visiting@ == outer,
                reachable@.difference(outer).len() < reachable@.difference(old(visiting)@).len(),
                best_next(g, list_seq.skip(i as int), best, memo@, outer) == whole,
        {
            let (next_tid, edge_ns) = list[i];
            let ghost rest = list_seq.skip(i as int);
            assert(rest[0] == list_seq[i as int]);
            assert(rest.drop_first() =~= list_seq.skip(i + 1));
            if reachable.contains(&next_tid) {
                let next_score = longest_score(
                    next_tid,
                    stop,
                    frame,
                    lists,
                    reachable,
                    memo,
                    visiting,
                );
                let cand = edge_ns.saturating_add(next_score);
                if cand > best {
                    best = cand;
                }
            }
        }
        assert(list_seq.skip(list_seq.len() as int) =~= Seq::empty());
    } else {
        assert(list_seq =~= Seq::empty());
    }
    visiting.remove(&tid);
    assert(visiting@ =~= old(visiting)@);
    let total = own.saturating_add(best);
    memo.insert(tid, total);
    total
}

/// The score of `tid` along the links in `succ`, none of which is followed out of
/// `tail_tid`: the most time that lies between `tid` and the tail.
pub fn longest_score_to_tail(
    tid: u32,
    tail_tid: u32,
    frame: &DagFrame,
    succ: &HashMap<u32, Vec<(u32, u64)>>,
    reachable: &HashSet<u32>,
    memo: &mut HashMap<u32, u64>,
    visiting: &mut HashSet<u32>,
) -> (ns: u64)
    requires
        frame.totals_fit(),
    ensures
        (ns, final(memo)@) == score(
            frame_graph(*frame, succ@, reachable@, Some(tail_tid)),
            tid,
            old(memo)@,
            old(visiting)@,
        ),
        final(visiting)@ == old(visiting)@,
{
    longest_score(tid, Some(tail_tid), frame, succ, reachable, memo, visiting)
}

/// The score of `tid` along the links in `pred`: the most time that lies between a thread
/// that started the work and `tid`.
pub fn longest_score_to_head(
    tid: u32,
    frame: &DagFrame,
    pred: &HashMap<u32, Vec<(u32, u64)>>,
    reachable: &HashSet<u32>,
    memo: &mut HashMap<u32, u64>,
    visiting: &mut HashSet<u32>,
) -> (ns: u64)
    requires
        frame.totals_fit(),
    ensures
        (ns, final(memo)@) == score(
            frame_graph(*frame, pred@, reachable@, None),
            tid,
            old(memo)@,
            old(visiting)@,
        ),
        final(visiting)@ == old(visiting)@,
{
    longest_score(tid, None, frame, pred, reachable, memo, visiting)
}

/// Every score in `memo` is at least the time of its thread.
spec fn covers_own(g: ScoreGraph, memo: Map<u32, u64>) -> bool {
    forall|t: u32| #[trigger] memo.contains_key(t) ==> memo[t] >= (g.own)(t)
}

proof fn lemma_score_covers(g: ScoreGraph, tid: u32, memo: Map<u32, u64>, visiting: Set<u32>)
    requires
        covers_own(g, memo),
    ensures
        g.nodes.contains(tid) ==> score(g, tid, memo, visiting).0 >= (g.own)(tid),
        covers_own(g, score(g, tid, memo, visiting).1),
    decreases g.nodes.difference(visiting).len(), 0nat,
{
    if !memo.contains_key(tid) && g.nodes.contains(tid) && g.stop != Some(tid)
        && !visiting.contains(tid) {
        lemma_u32_set_finite(g.nodes);
        g.nodes.lemma_set_insert_diff_decreases(visiting, tid);
        lemma_best_covers(g, (g.next)(tid), 0, memo, visiting.insert(tid));
    }
}

proof fn lemma_best_covers(
    g: ScoreGraph,
    list: Seq<(u32, u64)>,
    best: u64,
    memo: Map<u32, u64>,
    visiting: Set<u32>,
)
    requires
        covers_own(g, memo),
    ensures
        ({
            let (after, seen) = best_next(g, list, best, memo, visiting);
            &&& after >= best
            &&& covers_own(g, seen)
            &&& forall|i: int|
                0 <= i < list.len() && g.nodes.contains((#[trigger] list[i]).0) ==> after >= cap(
                    list[i].1 + (g.own)(list[i].0),
                )
        }),
    decreases g.nodes.difference(visiting).len(), 1 + list.len(),
{
    if list.len() > 0 {
        let rest = list.drop_first();
        let (after, seen) = best_next(g, list, best, memo, visiting);
        if !g.nodes.contains(list[0].0) {
            lemma_best_covers(g, rest, best, memo, visiting);
        } else {
            lemma_score_covers(g, list[0].0, memo, visiting);
            let (s, known) = score(g, list[0].0, memo, visiting);
            lemma_best_covers(g, rest, better(best, list[0], s), known, visiting);
        }
        assert forall|i: int|
            0 <= i < list.len() && g.nodes.contains((#[trigger] list[i]).0) implies after >= cap(
            list[i].1 + (g.own)(list[i].0),
        ) by {
            if i > 0 {
                assert(rest[i - 1] == list[i]);
            }
        }
    }
}

/// Whatever the graph, with or without cycles, a score is at least the time of its thread, and
/// at least that of the thread, of any link that may be followed out of it and of the thread
/// that the link leads to, as far as that fits. A thread from which no link is followed has
/// its own time for a score, one that does not count has none, and a score that is known is
/// not worked out again.
pub proof fn law_score_covers_every_link(
    g: ScoreGraph,
    tid: u32,
    memo: Map<u32, u64>,
    visiting: Set<u32>,
    i: int,
)
    requires
        forall|t: u32| #[trigger] memo.contains_key(t) ==> memo[t] >= (g.own)(t),
    ensures
        ({
            let (ns, after) = score(g, tid, memo, visiting);
            let list = (g.next)(tid);
            let new = g.nodes.contains(tid) && !memo.contains_key(tid);
            &&& memo.contains_key(tid) ==> ns == memo[tid] && after == memo
            &&& !memo.contains_key(tid) && !g.nodes.contains(tid) ==> ns == 0 && after == memo
            &&& new ==> ns >= (g.own)(tid)
            &&& new && g.stop == Some(tid) ==> ns == (g.own)(tid)
            &&& new && visiting.contains(tid) ==> ns == (g.own)(tid)
            &&& new && list.len() == 0 ==> ns == (g.own)(tid)
            &&& new && g.stop != Some(tid) && !visiting.contains(tid) ==> after.contains_key(tid)
                && after[tid] == ns
            &&& new && g.stop != Some(tid) && !visiting.contains(tid) && 0 <= i < list.len()
                && g.nodes.contains(list[i].0) ==> {
                let along = (g.own)(tid) + list[i].1 + (g.own)(list[i].0);
                ns >= along || ns == u64::MAX
            }
        }),
{
    assert(covers_own(g, memo));
    lemma_score_covers(g, tid, memo, visiting);
    if g.nodes.contains(tid) && !memo.contains_key(tid) && g.stop != Some(tid)
        && !visiting.contains(tid) {
        lemma_best_covers(g, (g.next)(tid), 0, memo, visiting.insert(tid));
    }
}

/// In the graph of a frame a thread has the links of its list, none where it has no list, and
/// its time is the total of its counters.
pub proof fn law_graph_of_a_frame(
    frame: DagFrame,
    lists: Map<u32, Vec<(u32, u64)>>,
    nodes: Set<u32>,
    stop: Option<u32>,
    tid: u32,
)
    requires
        frame.totals_fit(),
    ensures
        ({
            let g = frame_graph(frame, lists, nodes, stop);
            &&& g.nodes == nodes
            &&& g.stop == stop
            &&& (g.own)(tid) == count(frame.thread_exec_ns@, tid) + count(
                frame.thread_rq_delay_ns@,
                tid,
            ) + count(frame.thread_futex_wait_ns@, tid)
            &&& lists.contains_key(tid) ==> (g.next)(tid) == lists[tid]@
            &&& !lists.contains_key(tid) ==> (g.next)(tid).len() == 0
        }),
{
    assert(frame.total(tid) <= u64::MAX);
}

} // verus!
