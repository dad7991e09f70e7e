//! The chain of threads that led to the end of a frame.
use std::collections::{HashMap, HashSet};
use crate::dag::{cap, DagFrame};
use crate::graph::{has_link, is_path, leads, links, reaches};
use crate::score::ScoreGraph;
use crate::walk::{attained, bounds, is_walk, ranked, walk_ns};
use vstd::prelude::*;
use vstd::std_specs::hash::*;

verus! {

broadcast use vstd::std_specs::hash::group_hash_axioms;

/// Most threads that a chain holds beside its tail.
pub const CHAIN_STEPS: usize = 64;

/// The score of `tid`, or the time that the thread itself took where `scores` has none.
pub open spec fn score_or_own(
    own: spec_fn(u32) -> u64,
    scores: Map<u32, u64>,
    tid: u32,
) -> u64 {
    if scores.contains_key(tid) {
        scores[tid]
    } else {
        own(tid)
    }
}

/// The time that following `link` is worth.
pub open spec fn gain(own: spec_fn(u32) -> u64, scores: Map<u32, u64>, link: (u32, u64)) -> u64 {
    cap(score_or_own(own, scores, link.0) + link.1)
}

/// Link `i` of `list` leads to a thread not in `seen`, is worth something, and is worth
/// more than every such link before it and no less than every such link after it.
pub open spec fn is_best_link(
    own: spec_fn(u32) -> u64,
    scores: Map<u32, u64>,
    list: Seq<(u32, u64)>,
    seen: Set<u32>,
    i: int,
) -> bool {
    &&& 0 <= i < list.len()
    &&& !seen.contains(list[i].0)
    &&& gain(own, scores, list[i]) > 0
    &&& forall|j: int|
        0 <= j < list.len() && !seen.contains((#[trigger] list[j]).0) ==> gain(own, scores, list[j])
            <= gain(own, scores, list[i])
    &&& forall|j: int|
        0 <= j < i && !seen.contains((#[trigger] list[j]).0) ==> gain(own, scores, list[j]) < gain(
            own,
            scores,
            list[i],
        )
}

/// The thread before `cur` on the chain, where the threads `seen` are on it already.
pub open spec fn chain_prev(
    own: spec_fn(u32) -> u64,
    scores: Map<u32, u64>,
    list: Seq<(u32, u64)>,
    seen: Set<u32>,
) -> Option<u32> {
    if exists|i: int| is_best_link(own, scores, list, seen, i) {
        Some(list[choose|i: int| is_best_link(own, scores, list, seen, i)].0)
    } else {
        None
    }
}

/// The threads before `cur` on the chain, nearest first, at most `steps` of them.
pub open spec fn chain_from(
    next: spec_fn(u32) -> Seq<(u32, u64)>,
    own: spec_fn(u32) -> u64,
    scores: Map<u32, u64>,
    cur: u32,
    seen: Set<u32>,
    steps: nat,
) -> Seq<u32>
    decreases steps,
{
    if steps == 0 {
        Seq::empty()
    } else {
        match chain_prev(own, scores, next(cur), seen) {
            None => Seq::empty(),
            Some(prev) => seq![prev] + chain_from(
                next,
                own,
                scores,
                prev,
                seen.insert(prev),
                (steps - 1) as nat,
            ),
        }
    }
}

/// The chain that ends at `tail`, nearest first.
pub open spec fn chain_back(
    next: spec_fn(u32) -> Seq<(u32, u64)>,
    own: spec_fn(u32) -> u64,
    scores: Map<u32, u64>,
    tail: u32,
) -> Seq<u32> {
    seq![tail] + chain_from(next, own, scores, tail, set![tail], CHAIN_STEPS as nat)
}

proof fn lemma_best_link_unique(
    own: spec_fn(u32) -> u64,
    scores: Map<u32, u64>,
    list: Seq<(u32, u64)>,
    seen: Set<u32>,
    i: int,
    j: int,
)
    requires
        is_best_link(own, scores, list, seen, i),
        is_best_link(own, scores, list, seen, j),
    ensures
        i == j,
{
    assert(list[i] == list[i] && list[j] == list[j]);
}

/// The best link of `list` that leads to a thread not in `seen`.
fn find_prev(
    list: &Vec<(u32, u64)>,
    frame: &DagFrame,
    scores: &HashMap<u32, u64>,
    seen: &HashSet<u32>,
) -> (prev: Option<u32>)
    requires
        frame.totals_fit(),
    ensures
        prev == chain_prev(|t: u32| frame.total(t) as u64, scores@, list@, seen@),
{
    let ghost own = |t: u32| frame.total(t) as u64;
    let mut best: Option<u32> = None;
    let mut best_gain: u64 = 0;
    let ghost mut at: int = 0;
    for j in 0..list.len()
        invariant
            frame.totals_fit(),
            own == (|t: u32| frame.total(t) as u64),
            best is None ==> best_gain == 0,
            best is Some ==> {
                &&& is_best_link(own, scores@, list@.take(j as int), seen@, at)
                &&& best == Some(list@[at].0)
                &&& best_gain == gain(own, scores@, list@[at])
                &&& 0 <= at < j
            },
            forall|k: int|
                0 <= k < j && !seen@.contains((#[trigger] list@[k]).0) ==> gain(
                    own,
                    scores@,
                    list@[k],
                ) <= best_gain,
    {
        let (tid, edge_ns) = list[j];
        let ghost before = list@.take(j as int);
        let ghost after = list@.take(j + 1);
        assert(after =~= before.push(list@[j as int]));
        if !seen.contains(&tid) {
            assert(frame.total(tid) <= u64::MAX);
            let head = match scores.get(&tid) {
                Some(v) => *v,
                None => frame.thread_total_ns(tid),
            };
            let worth = head.saturating_add(edge_ns);
            assert(worth == gain(own, scores@, list@[j as int]));
            if worth > best_gain {
                best_gain = worth;
                best = Some(tid);
                proof {
                    at = j as int;
                    assert forall|k: int|
                        0 <= k < at && !seen@.contains((#[trigger] after[k]).0) implies gain(
                        own,
                        scores@,
                        after[k],
                    ) < gain(own, scores@, after[at]) by {
                        assert(after[k] == list@[k]);
                    }
                    assert forall|k: int|
                        0 <= k < after.len() && !seen@.contains((#[trigger] after[k]).0) implies gain(
                        own,
                        scores@,
                        after[k],
                    ) <= gain(own, scores@, after[at]) by {
                        assert(after[k] == list@[k]);
                    }
                    assert(is_best_link(own, scores@, after, seen@, at));
                }
            }
        }
        proof {
            if best is Some && at < j {
                assert(is_best_link(own, scores@, before, seen@, at));
                assert forall|k: int|
                    0 <= k < after.len() && !seen@.contains((#[trigger] after[k]).0) implies gain(
                    own,
                    scores@,
                    after[k],
                ) <= gain(own, scores@, after[at]) by {
                    assert(after[k] == list@[k]);
                }
                assert forall|k: int|
                    0 <= k < at && !seen@.contains((#[trigger] after[k]).0) implies gain(
                    own,
                    scores@,
                    after[k],
                ) < gain(own, scores@, after[at]) by {
                    assert(before[k] == after[k]);
                    assert(before[at] == after[at]);
                }
            }
        }
    }
    proof {
        assert(list@.take(list.len() as int) =~= list@);
        if best is Some {
            let i = choose|i: int| is_best_link(own, scores@, list@, seen@, i);
            lemma_best_link_unique(own, scores@, list@, seen@, i, at);
        } else {
            assert forall|i: int| !(#[trigger] is_best_link(own, scores@, list@, seen@, i)) by {
                if is_best_link(own, scores@, list@, seen@, i) {
                    assert(gain(own, scores@, list@[i]) <= best_gain);
                }
            }
        }
    }
    best
}

/// The chain of threads that led to `tail_tid`, the first of them first: before each thread
/// stands the one whose link into it is worth most. The chain never meets a thread twice.
pub fn build_longest_chain_from_tail(
    tail_tid: u32,
    frame: &DagFrame,
    pred: &HashMap<u32, Vec<(u32, u64)>>,
    score_to_head: &HashMap<u32, u64>,
) -> (chain: Vec<u32>)
    requires
        frame.totals_fit(),
    ensures
        chain@ == chain_back(
            |t: u32| links(pred@, t),
            |t: u32| frame.total(t) as u64,
            score_to_head@,
            tail_tid,
        ).reverse(),
{
    let ghost next = |t: u32| links(pred@, t);
    let ghost own = |t: u32| frame.total(t) as u64;
    let ghost whole = chain_back(next, own, score_to_head@, tail_tid);
    let mut rev: Vec<u32> = Vec::new();
    rev.push(tail_tid);
    let mut seen: HashSet<u32> = HashSet::new();
    seen.insert(tail_tid);
    assert(seen@ =~= set![tail_tid]);
    let mut cur = tail_tid;
    let mut left: usize = CHAIN_STEPS;
    let mut open = true;
    assert(rev@ + chain_from(next, own, score_to_head@, cur, seen@, left as nat) =~= whole);
    while open && left > 0
        invariant
            frame.totals_fit(),
            next == (|t: u32| links(pred@, t)),
            own == (|t: u32| frame.total(t) as u64),
            open ==> rev@ + chain_from(next, own, score_to_head@, cur, seen@, left as nat)
                == whole,
            !open ==> rev@ == whole,
        decreases left, (if open { 1int } else { 0int }),
    {
        let ghost front = rev@;
        let prev = match pred.get(&cur) {
            Some(list) => find_prev(list, frame, score_to_head, &seen),
            None => None,
        };
        assert(prev == chain_prev(own, score_to_head@, next(cur), seen@)) by {
            if !pred@.contains_key(cur) {
                assert(next(cur).len() == 0);
            }
        }
        match prev {
            None => {
                open = false;
                assert(rev@ + Seq::empty() =~= rev@);
            },
            Some(tid) => {
                seen.insert(tid);
                rev.push(tid);
                cur = tid;
                left = left - 1;
                assert(rev@ + chain_from(next, own, score_to_head@, cur, seen@, left as nat)
                    =~= front + (seq![tid] + chain_from(
                    next,
                    own,
                    score_to_head@,
                    cur,
                    seen@,
                    left as nat,
                )));
            },
        }
    }
    assert(rev@ =~= whole);
    let mut chain: Vec<u32> = Vec::new();
    let mut i: usize = rev.len();
    while i > 0
        invariant
            i <= rev@.len(),
            chain@ =~= rev@.skip(i as int).reverse(),
        decreases i,
    {
        i = i - 1;
        chain.push(rev[i]);
    }
    chain
}

proof fn lemma_chain_prev(
    own: spec_fn(u32) -> u64,
    scores: Map<u32, u64>,
    next: spec_fn(u32) -> Seq<(u32, u64)>,
    cur: u32,
    seen: Set<u32>,
)
    ensures
        match chain_prev(own, scores, next(cur), seen) {
            Some(prev) => !seen.contains(prev) && has_link(next, cur, prev),
            None => forall|j: int|
                0 <= j < next(cur).len() && !seen.contains((#[trigger] next(cur)[j]).0) ==> gain(
                    own,
                    scores,
                    next(cur)[j],
                ) == 0,
        },
{
    let list = next(cur);
    if chain_prev(own, scores, list, seen) is None {
        assert forall|j: int|
            0 <= j < list.len() && !seen.contains((#[trigger] list[j]).0) implies gain(
            own,
            scores,
            list[j],
        ) == 0 by {
            if gain(own, scores, list[j]) > 0 {
                lemma_best_link_exists(own, scores, list, seen, j);
            }
        }
    } else {
        let i = choose|i: int| is_best_link(own, scores, list, seen, i);
        assert(list[i].0 == list[i].0);
    }
}

/// Where some link out of `list` is worth something, one of them is the best.
proof fn lemma_best_link_exists(
    own: spec_fn(u32) -> u64,
    scores: Map<u32, u64>,
    list: Seq<(u32, u64)>,
    seen: Set<u32>,
    j: int,
)
    requires
        0 <= j < list.len(),
        !seen.contains(list[j].0),
        gain(own, scores, list[j]) > 0,
    ensures
        exists|i: int| is_best_link(own, scores, list, seen, i),
    decreases list.len(),
{
    let rest = list.drop_last();
    let last = list.len() - 1;
    let worth = gain(own, scores, list[last]);
    if exists|k: int| is_best_link(own, scores, rest, seen, k) {
        let k = choose|k: int| is_best_link(own, scores, rest, seen, k);
        assert(rest[k] == list[k]);
        assert forall|m: int|
            0 <= m < last && !seen.contains((#[trigger] list[m]).0) implies gain(
            own,
            scores,
            list[m],
        ) <= gain(own, scores, list[k]) by {
            assert(rest[m] == list[m]);
        }
        if !seen.contains(list[last].0) && worth > gain(own, scores, list[k]) {
            assert(is_best_link(own, scores, list, seen, last));
        } else {
            assert forall|m: int|
                0 <= m < k && !seen.contains((#[trigger] list[m]).0) implies gain(
                own,
                scores,
                list[m],
            ) < gain(own, scores, list[k]) by {
                assert(rest[m] == list[m]);
            }
            assert(is_best_link(own, scores, list, seen, k));
        }
    } else {
        assert forall|m: int|
            0 <= m < last && !seen.contains((#[trigger] list[m]).0) implies gain(
            own,
            scores,
            list[m],
        ) == 0 by {
            assert(rest[m] == list[m]);
            if gain(own, scores, rest[m]) > 0 {
                lemma_best_link_exists(own, scores, rest, seen, m);
            }
        }
        assert(j == last);
        assert(is_best_link(own, scores, list, seen, last));
    }
}

proof fn lemma_chain_from_shape(
    next: spec_fn(u32) -> Seq<(u32, u64)>,
    own: spec_fn(u32) -> u64,
    scores: Map<u32, u64>,
    cur: u32,
    seen: Set<u32>,
    steps: nat,
)
    ensures
        chain_from(next, own, scores, cur, seen, steps).len() <= steps,
        chain_from(next, own, scores, cur, seen, steps).no_duplicates(),
        forall|i: int|
            0 <= i < chain_from(next, own, scores, cur, seen, steps).len() ==> !seen.contains(
                #[trigger] chain_from(next, own, scores, cur, seen, steps)[i],
            ),
        is_path(next, seq![cur] + chain_from(next, own, scores, cur, seen, steps)),
    decreases steps,
{
    let whole = chain_from(next, own, scores, cur, seen, steps);
    let path = seq![cur] + whole;
    if steps > 0 {
        lemma_chain_prev(own, scores, next, cur, seen);
        if let Some(prev) = chain_prev(own, scores, next(cur), seen) {
            let less = (steps - 1) as nat;
            let inner = seen.insert(prev);
            let rest = chain_from(next, own, scores, prev, inner, less);
            lemma_chain_from_shape(next, own, scores, prev, inner, less);
            assert(whole =~= seq![prev] + rest);
            assert forall|i: int| 0 <= i < whole.len() implies !seen.contains(
                #[trigger] whole[i],
            ) by {
                if i > 0 {
                    assert(whole[i] == rest[i - 1]);
                    assert(!inner.contains(rest[i - 1]));
                }
            }
            assert forall|i: int, j: int| 0 <= i < j < whole.len() implies whole[i] != whole[j] by {
                assert(whole[j] == rest[j - 1]);
                assert(!inner.contains(rest[j - 1]));
                if i > 0 {
                    assert(whole[i] == rest[i - 1]);
                }
            }
            let after = seq![prev] + rest;
            assert forall|i: int| 0 <= i < path.len() - 1 implies has_link(
                next,
                #[trigger] path[i],
                path[i + 1],
            ) by {
                if i > 0 {
                    assert(path[i] == after[i - 1] && path[i + 1] == after[i]);
                    assert(has_link(next, after[i - 1], after[i - 1 + 1]));
                }
            }
        }
    }
}

/// Read from its end, a chain starts at the tail, follows a link at every step, meets no
/// thread twice and holds at most [`CHAIN_STEPS`] threads beside the tail.
pub proof fn law_chain_is_simple_path(
    next: spec_fn(u32) -> Seq<(u32, u64)>,
    own: spec_fn(u32) -> u64,
    scores: Map<u32, u64>,
    tail: u32,
)
    ensures
        chain_back(next, own, scores, tail).len() <= CHAIN_STEPS + 1,
        chain_back(next, own, scores, tail)[0] == tail,
        chain_back(next, own, scores, tail).no_duplicates(),
        is_path(next, chain_back(next, own, scores, tail)),
{
    lemma_chain_from_shape(next, own, scores, tail, set![tail], CHAIN_STEPS as nat);
    let rest = chain_from(next, own, scores, tail, set![tail], CHAIN_STEPS as nat);
    let whole = chain_back(next, own, scores, tail);
    assert forall|i: int, j: int| 0 <= i < j < whole.len() implies whole[i] != whole[j] by {
        assert(whole[j] == rest[j - 1]);
        if i > 0 {
            assert(whole[i] == rest[i - 1]);
        }
    }
}

/// Every thread of a chain is one from which work reached the tail.
pub proof fn law_chain_is_reachable(
    next: spec_fn(u32) -> Seq<(u32, u64)>,
    own: spec_fn(u32) -> u64,
    scores: Map<u32, u64>,
    tail: u32,
    i: int,
)
    requires
        0 <= i < chain_back(next, own, scores, tail).len(),
    ensures
        reaches(next, tail, chain_back(next, own, scores, tail)[i]),
{
    law_chain_is_simple_path(next, own, scores, tail);
    let whole = chain_back(next, own, scores, tail);
    let path = whole.take(i + 1);
    assert forall|k: int| 0 <= k < path.len() - 1 implies has_link(
        next,
        #[trigger] path[k],
        path[k + 1],
    ) by {
        assert(has_link(next, whole[k], whole[k + 1]));
    }
    assert(leads(next, path, tail, whole[i]));
}

/// The threads that `steps` lead through.
pub open spec fn threads_of(steps: Seq<(u32, u64)>) -> Seq<u32> {
    steps.map_values(|step: (u32, u64)| step.0)
}

/// Every score in `scores` is the time along the longest walk, and every thread of the graph
/// has one.
pub open spec fn scores_exact(g: ScoreGraph, scores: Map<u32, u64>) -> bool {
    forall|t: u32| #[trigger]
        g.nodes.contains(t) ==> scores.contains_key(t) && attained(g, t, scores[t]) && bounds(
            g,
            t,
            scores[t],
        )
}

/// A link is worth no more than the score of the thread it leaves, and where the score is
/// more than the thread's own time, some link is worth the rest.
proof fn lemma_score_by_links(g: ScoreGraph, scores: Map<u32, u64>, cur: u32)
    requires
        g.nodes.contains(cur),
        g.stop is None,
        scores_exact(g, scores),
        forall|b: u32| #[trigger] has_link(g.next, cur, b) ==> g.nodes.contains(b),
    ensures
        forall|j: int|
            0 <= j < (g.next)(cur).len() ==> cap(
                (g.own)(cur) + gain(g.own, scores, #[trigger] (g.next)(cur)[j]),
            ) <= scores[cur],
        scores[cur] == (g.own)(cur) || exists|j: int|
            0 <= j < (g.next)(cur).len() && scores[cur] <= cap(
                (g.own)(cur) + gain(g.own, scores, #[trigger] (g.next)(cur)[j]),
            ),
{
    let list = (g.next)(cur);
    assert forall|j: int| 0 <= j < list.len() implies cap(
        (g.own)(cur) + gain(g.own, scores, #[trigger] list[j]),
    ) <= scores[cur] by {
        let link = list[j];
        assert(has_link(g.next, cur, link.0));
        assert(g.nodes.contains(link.0));
        let beyond = choose|steps: Seq<(u32, u64)>|
            is_walk(g, link.0, steps) && cap(walk_ns(g, link.0, steps) as int) == scores[link.0];
        let steps = seq![link] + beyond;
        assert(steps.drop_first() =~= beyond);
        assert(list.contains(link));
        assert(is_walk(g, cur, steps));
        assert(walk_ns(g, cur, steps) == (g.own)(cur) + link.1 + walk_ns(g, link.0, beyond));
        assert(cap(walk_ns(g, cur, steps) as int) <= scores[cur]);
    }
    let steps = choose|steps: Seq<(u32, u64)>|
        is_walk(g, cur, steps) && cap(walk_ns(g, cur, steps) as int) == scores[cur];
    if steps.len() > 0 {
        let j = choose|j: int| 0 <= j < list.len() && list[j] == steps[0];
        let beyond = steps.drop_first();
        assert(has_link(g.next, cur, list[j].0));
        assert(g.nodes.contains(list[j].0));
        assert(cap(walk_ns(g, list[j].0, beyond) as int) <= scores[list[j].0]);
        assert(scores[cur] <= cap((g.own)(cur) + gain(g.own, scores, list[j])));
    }
}

/// `threads` begins with `chain`, and is no longer than it where the chain has fewer than
/// `full` threads.
pub open spec fn begins(threads: Seq<u32>, chain: Seq<u32>, full: nat) -> bool {
    &&& chain.len() <= threads.len()
    &&& threads.take(chain.len() as int) == chain
    &&& chain.len() < full ==> threads == chain
}

proof fn lemma_chain_walk(
    g: ScoreGraph,
    rank: spec_fn(u32) -> nat,
    scores: Map<u32, u64>,
    cur: u32,
    seen: Set<u32>,
    steps: nat,
)
    requires
        ranked(g, rank),
        g.stop is None,
        g.nodes.contains(cur),
        scores_exact(g, scores),
        forall|a: u32, b: u32| #![trigger has_link(g.next, a, b)]
            g.nodes.contains(a) && has_link(g.next, a, b) ==> g.nodes.contains(b),
        forall|v: u32| #[trigger] seen.contains(v) ==> rank(cur) <= rank(v),
    ensures
        exists|walk: Seq<(u32, u64)>|
            #![trigger is_walk(g, cur, walk)]
            is_walk(g, cur, walk) && begins(
                threads_of(walk),
                chain_from(g.next, g.own, scores, cur, seen, steps),
                steps,
            ) && cap(walk_ns(g, cur, walk) as int) == scores[cur],
    decreases steps,
{
    let list = (g.next)(cur);
    if steps == 0 {
        let walk = choose|walk: Seq<(u32, u64)>|
            is_walk(g, cur, walk) && cap(walk_ns(g, cur, walk) as int) == scores[cur];
        let chain = chain_from(g.next, g.own, scores, cur, seen, steps);
        assert(threads_of(walk).take(0) =~= chain);
        assert(is_walk(g, cur, walk));
    } else {
        assert forall|j: int| 0 <= j < list.len() implies !seen.contains((#[trigger] list[j]).0) by {
            assert(has_link(g.next, cur, list[j].0));
        }
        lemma_chain_prev(g.own, scores, g.next, cur, seen);
        lemma_score_by_links(g, scores, cur);
        let whole = chain_from(g.next, g.own, scores, cur, seen, steps);
        match chain_prev(g.own, scores, list, seen) {
            None => {
                let walk = Seq::<(u32, u64)>::empty();
                assert(is_walk(g, cur, walk));
                assert(threads_of(walk) =~= whole);
                assert(threads_of(walk).take(0) =~= whole);
            },
            Some(prev) => {
                let i = choose|i: int| is_best_link(g.own, scores, list, seen, i);
                assert(is_best_link(g.own, scores, list, seen, i));
                let link = list[i];
                assert(has_link(g.next, cur, prev));
                let inner = seen.insert(prev);
                let less = (steps - 1) as nat;
                let rest = chain_from(g.next, g.own, scores, prev, inner, less);
                lemma_chain_walk(g, rank, scores, prev, inner, less);
                let beyond = choose|walk: Seq<(u32, u64)>|
                    #![trigger is_walk(g, prev, walk)]
                    is_walk(g, prev, walk) && begins(threads_of(walk), rest, less) && cap(
                        walk_ns(g, prev, walk) as int,
                    ) == scores[prev];
                let walk = seq![link] + beyond;
                assert(walk.drop_first() =~= beyond);
                assert(list.contains(link));
                assert(is_walk(g, cur, walk));
                assert(threads_of(walk) =~= seq![prev] + threads_of(beyond));
                assert(threads_of(walk).take(whole.len() as int) =~= seq![prev] + threads_of(
                    beyond,
                ).take(rest.len() as int));
                assert(whole =~= seq![prev] + rest);
                assert(walk_ns(g, cur, walk) == (g.own)(cur) + link.1 + walk_ns(g, prev, beyond));
                assert(cap(walk_ns(g, cur, walk) as int) == cap(
                    (g.own)(cur) + gain(g.own, scores, link),
                ));
            },
        }
    }
}

/// On a graph without cycles, with exact scores, a chain is the beginning of a longest walk
/// out of the tail, and one that ended before it grew to its full length is the whole of it.
pub proof fn law_chain_is_longest(
    g: ScoreGraph,
    rank: spec_fn(u32) -> nat,
    scores: Map<u32, u64>,
    tail: u32,
)
    requires
        ranked(g, rank),
        g.stop is None,
        g.nodes.contains(tail),
        scores_exact(g, scores),
        forall|a: u32, b: u32| #![trigger has_link(g.next, a, b)]
            g.nodes.contains(a) && has_link(g.next, a, b) ==> g.nodes.contains(b),
    ensures
        exists|walk: Seq<(u32, u64)>|
            #![trigger is_walk(g, tail, walk)]
            is_walk(g, tail, walk) && begins(
                seq![tail] + threads_of(walk),
                chain_back(g.next, g.own, scores, tail),
                CHAIN_STEPS as nat + 1,
            ) && cap(walk_ns(g, tail, walk) as int) == scores[tail],
{
    lemma_chain_walk(g, rank, scores, tail, set![tail], CHAIN_STEPS as nat);
    let rest = chain_from(g.next, g.own, scores, tail, set![tail], CHAIN_STEPS as nat);
    let walk = choose|walk: Seq<(u32, u64)>|
        #![trigger is_walk(g, tail, walk)]
        is_walk(g, tail, walk) && begins(threads_of(walk), rest, CHAIN_STEPS as nat) && cap(
            walk_ns(g, tail, walk) as int,
        ) == scores[tail];
    let chain = chain_back(g.next, g.own, scores, tail);
    assert((seq![tail] + threads_of(walk)).take(chain.len() as int) =~= seq![tail] + threads_of(
        walk,
    ).take(rest.len() as int));
    assert(is_walk(g, tail, walk));
}

proof fn lemma_chain_step(
    next: spec_fn(u32) -> Seq<(u32, u64)>,
    own: spec_fn(u32) -> u64,
    scores: Map<u32, u64>,
    cur: u32,
    seen: Set<u32>,
    steps: nat,
    i: int,
)
    requires
        0 <= i <= chain_from(next, own, scores, cur, seen, steps).len(),
    ensures
        ({
            let chain = chain_from(next, own, scores, cur, seen, steps);
            let at = if i == 0 {
                cur
            } else {
                chain[i - 1]
            };
            let passed = seen.union(chain.take(i).to_set());
            &&& i < chain.len() ==> chain_prev(own, scores, next(at), passed) == Some(chain[i])
            &&& i == chain.len() && i < steps ==> chain_prev(own, scores, next(at), passed) is None
        }),
    decreases i,
{
    let chain = chain_from(next, own, scores, cur, seen, steps);
    let passed = seen.union(chain.take(i).to_set());
    if i == 0 {
        assert(chain.take(0) =~= Seq::empty());
        assert(passed =~= seen);
    } else {
        let prev = chain_prev(own, scores, next(cur), seen)->0;
        let rest = chain_from(next, own, scores, prev, seen.insert(prev), (steps - 1) as nat);
        assert(chain == seq![prev] + rest);
        lemma_chain_step(next, own, scores, prev, seen.insert(prev), (steps - 1) as nat, i - 1);
        let inner = seen.insert(prev).union(rest.take(i - 1).to_set());
        assert(chain.take(i) =~= seq![prev] + rest.take(i - 1));
        assert forall|t: u32| inner.contains(t) <==> passed.contains(t) by {
            let longer = chain.take(i);
            let shorter = rest.take(i - 1);
            if shorter.contains(t) {
                let k = choose|k: int| 0 <= k < shorter.len() && shorter[k] == t;
                assert(longer[k + 1] == t);
            }
            assert(longer[0] == prev);
            if longer.contains(t) && t != prev {
                let k = choose|k: int| 0 <= k < longer.len() && longer[k] == t;
                assert(shorter[k - 1] == t);
            }
        }
        assert(inner =~= passed);
    }
}

/// Whatever the graph, with or without cycles, a chain goes on along a link that is worth the
/// most of all that lead to threads not on it yet, the first of those that are worth as much,
/// and one that ended before it grew to its full length had no such link that is worth
/// anything. A link is worth its own time and the score of the thread that it leads to, or
/// the time of that thread where it has no score.
pub proof fn law_chain_takes_the_best_link(
    next: spec_fn(u32) -> Seq<(u32, u64)>,
    own: spec_fn(u32) -> u64,
    scores: Map<u32, u64>,
    tail: u32,
    i: int,
    k: int,
) -> (j: int)
    requires
        0 <= i < chain_back(next, own, scores, tail).len(),
        i < CHAIN_STEPS,
        0 <= k < next(chain_back(next, own, scores, tail)[i]).len(),
        !chain_back(next, own, scores, tail).take(i + 1).contains(
            next(chain_back(next, own, scores, tail)[i])[k].0,
        ),
    ensures
        ({
            let chain = chain_back(next, own, scores, tail);
            let list = next(chain[i]);
            let worth = |link: (u32, u64)|
                link.1 + (if scores.contains_key(link.0) {
                    scores[link.0]
                } else {
                    own(link.0)
                });
            if i + 1 < chain.len() {
                &&& 0 <= j < list.len()
                &&& list[j].0 == chain[i + 1]
                &&& worth(list[j]) >= worth(list[k]) || worth(list[j]) >= u64::MAX
                &&& worth(list[j]) > 0
                &&& k < j ==> worth(list[k]) < worth(list[j])
            } else {
                worth(list[k]) == 0
            }
        }),
{
    let chain = chain_back(next, own, scores, tail);
    let rest = chain_from(next, own, scores, tail, set![tail], CHAIN_STEPS as nat);
    let list = next(chain[i]);
    let passed = set![tail].union(rest.take(i).to_set());
    lemma_chain_step(next, own, scores, tail, set![tail], CHAIN_STEPS as nat, i);
    assert(!passed.contains(list[k].0)) by {
        let t = list[k].0;
        let front = chain.take(i + 1);
        assert(front[0] == tail);
        if rest.take(i).contains(t) {
            let at = choose|at: int| 0 <= at < i && rest.take(i)[at] == t;
            assert(front[at + 1] == t);
        }
    }
    if i > 0 {
        assert(chain[i] == rest[i - 1]);
    }
    if i + 1 < chain.len() {
        assert(chain[i + 1] == rest[i]);
        let j = choose|j: int| is_best_link(own, scores, list, passed, j);
        assert(is_best_link(own, scores, list, passed, j));
        j
    } else {
        if gain(own, scores, list[k]) > 0 {
            lemma_best_link_exists(own, scores, list, passed, k);
        }
        0
    }
}

} // verus!
