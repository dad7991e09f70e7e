//! The wake-up graph of a frame: who can follow whom, and which threads reach a given one.
use std::collections::{HashMap, HashSet};
use vstd::prelude::*;
use vstd::std_specs::hash::*;

verus! {

broadcast use vstd::std_specs::hash::group_hash_axioms;

/// A set of 32-bit numbers is finite.
pub proof fn lemma_u32_set_finite(set: Set<u32>)
    ensures
        set.finite(),
{
    <u32 as vstd::set_lib::FiniteFull>::full_properties();
    let all = Set::<u32>::full();
    vstd::set_lib::lemma_set_subset_finite(all, set);
}

/// The links that leave `tid` in the adjacency lists `lists`.
pub open spec fn links(lists: Map<u32, Vec<(u32, u64)>>, tid: u32) -> Seq<(u32, u64)> {
    if lists.contains_key(tid) {
        lists[tid]@
    } else {
        Seq::empty()
    }
}

/// The threads that woke `tid`, each with the time on its edge, in the order of `edges`.
/// An edge is the waking thread, the woken thread and the time.
pub open spec fn preds_of(edges: Seq<(u32, u32, u64)>, tid: u32) -> Seq<(u32, u64)>
    decreases edges.len(),
{
    if edges.len() == 0 {
        Seq::empty()
    } else if edges.last().1 == tid {
        preds_of(edges.drop_last(), tid).push((edges.last().0, edges.last().2))
    } else {
        preds_of(edges.drop_last(), tid)
    }
}

/// The threads that `tid` woke, each with the time on its edge, in the order of `edges`.
pub open spec fn succs_of(edges: Seq<(u32, u32, u64)>, tid: u32) -> Seq<(u32, u64)>
    decreases edges.len(),
{
    if edges.len() == 0 {
        Seq::empty()
    } else if edges.last().0 == tid {
        succs_of(edges.drop_last(), tid).push((edges.last().1, edges.last().2))
    } else {
        succs_of(edges.drop_last(), tid)
    }
}

/// `next` has a link from `a` to `b`.
pub open spec fn has_link(next: spec_fn(u32) -> Seq<(u32, u64)>, a: u32, b: u32) -> bool {
    exists|i: int| 0 <= i < next(a).len() && (#[trigger] next(a)[i]).0 == b
}

/// Each thread of `path` is linked to the one that follows it.
pub open spec fn is_path(next: spec_fn(u32) -> Seq<(u32, u64)>, path: Seq<u32>) -> bool {
    forall|i: int| 0 <= i < path.len() - 1 ==> has_link(next, #[trigger] path[i], path[i + 1])
}

/// `path` leads from `from` to `to`.
pub open spec fn leads(
    next: spec_fn(u32) -> Seq<(u32, u64)>,
    path: Seq<u32>,
    from: u32,
    to: u32,
) -> bool {
    &&& path.len() > 0
    &&& path[0] == from
    &&& path.last() == to
    &&& is_path(next, path)
}

/// Some path leads from `from` to `to`.
pub open spec fn reaches(next: spec_fn(u32) -> Seq<(u32, u64)>, from: u32, to: u32) -> bool {
    exists|path: Seq<u32>| leads(next, path, from, to)
}

/// The edges of the frame that lead into `tid` are those that [`preds_of`] lists.
pub proof fn lemma_preds_contains(edges: Seq<(u32, u32, u64)>, tid: u32, link: (u32, u64))
    ensures
        preds_of(edges, tid).contains(link) <==> edges.contains((link.0, tid, link.1)),
    decreases edges.len(),
{
    if edges.len() > 0 {
        let rest = edges.drop_last();
        let e = edges.last();
        lemma_preds_contains(rest, tid, link);
        assert(edges =~= rest.push(e));
        let before = preds_of(rest, tid);
        if e == (link.0, tid, link.1) {
            assert(preds_of(edges, tid)[before.len() as int] == link);
            assert(edges[rest.len() as int] == e);
        }
        if before.contains(link) {
            let i = choose|i: int| 0 <= i < before.len() && before[i] == link;
            assert(preds_of(edges, tid)[i] == link);
        }
        if rest.contains((link.0, tid, link.1)) {
            let i = choose|i: int| 0 <= i < rest.len() && rest[i] == (link.0, tid, link.1);
            assert(edges[i] == (link.0, tid, link.1));
        }
        if preds_of(edges, tid).contains(link) {
            let i = choose|i: int|
                0 <= i < preds_of(edges, tid).len() && preds_of(edges, tid)[i] == link;
            if i < before.len() {
                assert(before[i] == link);
            }
        }
        if edges.contains((link.0, tid, link.1)) {
            let i = choose|i: int| 0 <= i < edges.len() && edges[i] == (link.0, tid, link.1);
            if i < rest.len() {
                assert(rest[i] == (link.0, tid, link.1));
            }
        }
    }
}

/// The edges of the frame that leave `tid` are those that [`succs_of`] lists.
pub proof fn lemma_succs_contains(edges: Seq<(u32, u32, u64)>, tid: u32, link: (u32, u64))
    ensures
        succs_of(edges, tid).contains(link) <==> edges.contains((tid, link.0, link.1)),
    decreases edges.len(),
{
    if edges.len() > 0 {
        let rest = edges.drop_last();
        let e = edges.last();
        lemma_succs_contains(rest, tid, link);
        assert(edges =~= rest.push(e));
        let before = succs_of(rest, tid);
        if e == (tid, link.0, link.1) {
            assert(succs_of(edges, tid)[before.len() as int] == link);
            assert(edges[rest.len() as int] == e);
        }
        if before.contains(link) {
            let i = choose|i: int| 0 <= i < before.len() && before[i] == link;
            assert(succs_of(edges, tid)[i] == link);
        }
        if rest.contains((tid, link.0, link.1)) {
            let i = choose|i: int| 0 <= i < rest.len() && rest[i] == (tid, link.0, link.1);
            assert(edges[i] == (tid, link.0, link.1));
        }
        if succs_of(edges, tid).contains(link) {
            let i = choose|i: int|
                0 <= i < succs_of(edges, tid).len() && succs_of(edges, tid)[i] == link;
            if i < before.len() {
                assert(before[i] == link);
            }
        }
        if edges.contains((tid, link.0, link.1)) {
            let i = choose|i: int| 0 <= i < edges.len() && edges[i] == (tid, link.0, link.1);
            if i < rest.len() {
                assert(rest[i] == (tid, link.0, link.1));
            }
        }
    }
}

/// Appends `link` to the list of `tid`.
fn push_link(lists: &mut HashMap<u32, Vec<(u32, u64)>>, tid: u32, link: (u32, u64))
    ensures
        forall|t: u32| #[trigger]
            links(final(lists)@, t) == (if t == tid {
                links(old(lists)@, t).push(link)
            } else {
                links(old(lists)@, t)
            }),
{
    let mut list = match lists.remove(&tid) {
        Some(list) => list,
        None => Vec::new(),
    };
    assert(list@ =~= links(old(lists)@, tid));
    list.push(link);
    lists.insert(tid, list);
}

/// The lists of [`preds_of`] for every thread.
pub fn pred_lists(edges: &Vec<(u32, u32, u64)>) -> (lists: HashMap<u32, Vec<(u32, u64)>>)
    ensures
        forall|t: u32| #[trigger] links(lists@, t) == preds_of(edges@, t),
{
    let mut lists: HashMap<u32, Vec<(u32, u64)>> = HashMap::new();
    for i in 0..edges.len()
        invariant
            forall|t: u32| #[trigger] links(lists@, t) == preds_of(edges@.take(i as int), t),
    {
        let (pred, succ, ns) = edges[i];
        push_link(&mut lists, succ, (pred, ns));
        assert(edges@.take(i + 1).drop_last() =~= edges@.take(i as int));
    }
    assert(edges@.take(edges.len() as int) =~= edges@);
    lists
}

/// The lists of [`succs_of`] for every thread.
pub fn succ_lists(edges: &Vec<(u32, u32, u64)>) -> (lists: HashMap<u32, Vec<(u32, u64)>>)
    ensures
        forall|t: u32| #[trigger] links(lists@, t) == succs_of(edges@, t),
{
    let mut lists: HashMap<u32, Vec<(u32, u64)>> = HashMap::new();
    for i in 0..edges.len()
        invariant
            forall|t: u32| #[trigger] links(lists@, t) == succs_of(edges@.take(i as int), t),
    {
        let (pred, succ, ns) = edges[i];
        push_link(&mut lists, pred, (succ, ns));
        assert(edges@.take(i + 1).drop_last() =~= edges@.take(i as int));
    }
    assert(edges@.take(edges.len() as int) =~= edges@);
    lists
}

/// A set that holds every thread linked to one of its own holds every thread that a path
/// from one of its own leads to.
proof fn lemma_closed_holds_path(
    next: spec_fn(u32) -> Seq<(u32, u64)>,
    set: Set<u32>,
    path: Seq<u32>,
)
    requires
        path.len() > 0,
        set.contains(path[0]),
        is_path(next, path),
        forall|a: u32, b: u32| #![trigger has_link(next, a, b)]
            set.contains(a) && has_link(next, a, b) ==> set.contains(b),
    ensures
        set.contains(path.last()),
    decreases path.len(),
{
    if path.len() > 1 {
        let front = path.drop_last();
        assert forall|i: int| 0 <= i < front.len() - 1 implies has_link(
            next,
            #[trigger] front[i],
            front[i + 1],
        ) by {
            assert(path[i] == front[i]);
        }
        lemma_closed_holds_path(next, set, front);
        let last = path.len() - 2;
        assert(has_link(next, path[last], path[last + 1]));
    }
}

/// A link extends reach.
pub proof fn lemma_reaches_extends(
    next: spec_fn(u32) -> Seq<(u32, u64)>,
    from: u32,
    mid: u32,
    to: u32,
)
    requires
        reaches(next, from, mid),
        has_link(next, mid, to),
    ensures
        reaches(next, from, to),
{
    let path = choose|path: Seq<u32>| leads(next, path, from, mid);
    let longer = path.push(to);
    assert forall|i: int| 0 <= i < longer.len() - 1 implies has_link(
        next,
        #[trigger] longer[i],
        longer[i + 1],
    ) by {
        if i < path.len() - 1 {
            assert(has_link(next, path[i], path[i + 1]));
        }
    }
    assert(leads(next, longer, from, to));
}

/// Every thread that `lists` lead to from `tail`, `tail` among them, each once.
pub fn reachable_from(lists: &HashMap<u32, Vec<(u32, u64)>>, tail: u32) -> (res: (
    Vec<u32>,
    HashSet<u32>,
))
    ensures
        res.0@.no_duplicates(),
        res.1@ == res.0@.to_set(),
        forall|t: u32| #[trigger]
            res.1@.contains(t) <==> reaches(|a: u32| links(lists@, a), tail, t),
{
    let ghost next = |a: u32| links(lists@, a);
    let ghost all = Set::<u32>::full();
    let mut order: Vec<u32> = Vec::new();
    let mut reachable: HashSet<u32> = HashSet::new();
    let mut stack: Vec<u32> = Vec::new();
    stack.push(tail);
    order.push(tail);
    reachable.insert(tail);
    proof {
        broadcast use vstd::set_lib::full_set_properties;
        assert(leads(next, seq![tail], tail, tail));
        assert(reachable@ =~= order@.to_set()) by {
            assert(order@[0] == tail);
        }
        assert(stack@[0] == tail);
    }
    while stack.len() > 0
        invariant
            next == (|a: u32| links(lists@, a)),
            all == Set::<u32>::full(),
            all.finite(),
            order@.no_duplicates(),
            reachable@ == order@.to_set(),
            reachable@.contains(tail),
            forall|t: u32| #[trigger] reachable@.contains(t) ==> reaches(next, tail, t),
            forall|i: int| 0 <= i < stack@.len() ==> reachable@.contains(#[trigger] stack@[i]),
            forall|a: u32, b: u32| #![trigger has_link(next, a, b)]
                reachable@.contains(a) && has_link(next, a, b) ==> reachable@.contains(b)
                    || stack@.contains(a),
        decreases all.difference(reachable@).len(), stack@.len(),
    {
        let ghost before = stack@;
        let ghost known = reachable@;
        let cur = stack.pop().unwrap();
        assert(before[before.len() - 1] == cur);
        assert forall|i: int| 0 <= i < before.len() - 1 implies stack@.contains(
            #[trigger] before[i],
        ) by {
            assert(stack@[i] == before[i]);
        }
        if let Some(list) = lists.get(&cur) {
            assert(list@ == next(cur));
            for j in 0..list.len()
                invariant
                    next == (|a: u32| links(lists@, a)),
                    all == Set::<u32>::full(),
                    all.finite(),
                    list@ == next(cur),
                    order@.no_duplicates(),
                    reachable@ == order@.to_set(),
                    reachable@.contains(tail),
                    known.subset_of(reachable@),
                    before.len() > 0,
                    before.last() == cur,
                    known.contains(cur),
                    reachable@ == known ==> stack@ == before.drop_last(),
                    all.difference(reachable@).len() < all.difference(known).len() || reachable@
                        == known,
                    forall|t: u32| #[trigger] reachable@.contains(t) ==> reaches(next, tail, t),
                    forall|i: int|
                        0 <= i < stack@.len() ==> reachable@.contains(#[trigger] stack@[i]),
                    forall|i: int|
                        0 <= i < before.len() - 1 ==> stack@.contains(#[trigger] before[i]),
                    forall|t: u32| #[trigger]
                        reachable@.contains(t) ==> known.contains(t) || stack@.contains(t),
                    forall|i: int| 0 <= i < j ==> reachable@.contains((#[trigger] list@[i]).0),
            {
                let tid = list[j].0;
                assert(has_link(next, cur, tid)) by {
                    assert(next(cur)[j as int].0 == tid);
                }
                let ghost seen = reachable@;
                let ghost pending = stack@;
                let ghost listed = order@;
                if reachable.insert(tid) {
                    proof {
                        lemma_reaches_extends(next, tail, cur, tid);
                        all.lemma_set_insert_diff_decreases(seen, tid);
                    }
                    stack.push(tid);
                    order.push(tid);
                    proof {
                        assert(stack@[pending.len() as int] == tid);
                        assert(order@.to_set() =~= listed.to_set().insert(tid)) by {
                            listed.lemma_push_to_set_commute(tid);
                        }
                        assert forall|t: u32| pending.contains(t) implies stack@.contains(t) by {
                            let i = choose|i: int| 0 <= i < pending.len() && pending[i] == t;
                            assert(stack@[i] == t);
                        }
                        assert(order@.no_duplicates()) by {
                            assert(!listed.contains(tid)) by {
                                if listed.contains(tid) {
                                    assert(listed.to_set().contains(tid));
                                }
                            }
                        }
                    }
                } else {
                    assert(reachable@ =~= seen);
                }
            }
        }
        proof {
            assert(forall|i: int|
                0 <= i < next(cur).len() ==> reachable@.contains((#[trigger] next(cur)[i]).0));
            assert forall|a: u32, b: u32| #![trigger has_link(next, a, b)]
                reachable@.contains(a) && has_link(next, a, b) implies reachable@.contains(b)
                || stack@.contains(a) by {
                if a == cur {
                    let i = choose|i: int| 0 <= i < next(a).len() && (#[trigger] next(a)[i]).0 == b;
                } else if known.contains(a) && before.contains(a) {
                    let i = choose|i: int| 0 <= i < before.len() && before[i] == a;
                    assert(i < before.len() - 1);
                }
            }
        }
    }
    proof {
        assert forall|t: u32| #[trigger] reachable@.contains(t) <==> reaches(next, tail, t) by {
            if reaches(next, tail, t) {
                let path = choose|path: Seq<u32>| leads(next, path, tail, t);
                lemma_closed_holds_path(next, reachable@, path);
            }
        }
    }
    (order, reachable)
}

/// The links of a thread are its edges, in order: one more edge is one more link into the
/// thread that it wakes and out of the thread that wakes, and changes no other thread.
pub proof fn law_links_in_order(edges: Seq<(u32, u32, u64)>, waker: u32, woken: u32, ns: u64, t: u32)
    ensures
        preds_of(Seq::empty(), t) == Seq::<(u32, u64)>::empty(),
        succs_of(Seq::empty(), t) == Seq::<(u32, u64)>::empty(),
        preds_of(edges.push((waker, woken, ns)), woken) == preds_of(edges, woken).push((waker, ns)),
        succs_of(edges.push((waker, woken, ns)), waker) == succs_of(edges, waker).push((woken, ns)),
        t != woken ==> preds_of(edges.push((waker, woken, ns)), t) == preds_of(edges, t),
        t != waker ==> succs_of(edges.push((waker, woken, ns)), t) == succs_of(edges, t),
{
    assert(edges.push((waker, woken, ns)).drop_last() =~= edges);
}

} // verus!
