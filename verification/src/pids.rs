//! Lists of processes, and of other things with numbers.
use std::collections::VecDeque;
use vstd::prelude::*;

verus! {

/// `list` without `pid`.
pub open spec fn without(list: Seq<i32>, pid: i32) -> Seq<i32> {
    list.filter(|p: i32| p != pid)
}

/// `list` holds `pid`.
pub fn holds_pid(list: &Vec<i32>, pid: i32) -> (b: bool)
    ensures
        b == list@.contains(pid),
{
    for i in 0..list.len()
        invariant
            forall|k: int| 0 <= k < i ==> list@[k] != pid,
    {
        if list[i] == pid {
            return true;
        }
    }
    false
}

/// `list` without `pid` holds the others, each as often as before.
pub proof fn lemma_without(list: Seq<i32>, pid: i32)
    ensures
        !without(list, pid).contains(pid),
        forall|p: i32| p != pid ==> (#[trigger] without(list, pid).contains(p) <==> list.contains(p)),
        list.no_duplicates() ==> without(list, pid).no_duplicates(),
    decreases list.len(),
{
    reveal(Seq::filter);
    if list.len() > 0 {
        let rest = list.drop_last();
        let last = list.last();
        lemma_without(rest, pid);
        let was = without(rest, pid);
        let now = without(list, pid);
        assert forall|p: i32| #[trigger] list.contains(p) <==> rest.contains(p) || p == last by {
            if rest.contains(p) {
                let k = choose|k: int| 0 <= k < rest.len() && rest[k] == p;
                assert(list[k] == p);
            }
            if p == last {
                assert(list[list.len() - 1] == p);
            }
            if list.contains(p) && p != last {
                let k = choose|k: int| 0 <= k < list.len() && list[k] == p;
                assert(rest[k] == p);
            }
        }
        if last != pid {
            assert(now =~= was.push(last));
            assert forall|p: i32| #[trigger] now.contains(p) <==> was.contains(p) || p == last by {
                if was.contains(p) {
                    let k = choose|k: int| 0 <= k < was.len() && was[k] == p;
                    assert(now[k] == p);
                }
                if p == last {
                    assert(now[was.len() as int] == p);
                }
            }
            if list.no_duplicates() {
                assert(!rest.contains(last)) by {
                    if rest.contains(last) {
                        let k = choose|k: int| 0 <= k < rest.len() && rest[k] == last;
                        assert(list[k] == list[list.len() - 1]);
                    }
                }
                assert(rest.no_duplicates()) by {
                    assert forall|i: int, j: int|
                        0 <= i < rest.len() && 0 <= j < rest.len() && i != j implies rest[i]
                        != rest[j] by {
                        assert(list[i] != list[j]);
                    }
                }
                assert(!was.contains(last));
            }
        } else {
            assert(now =~= was);
            if list.no_duplicates() {
                assert forall|i: int, j: int|
                    0 <= i < rest.len() && 0 <= j < rest.len() && i != j implies rest[i]
                    != rest[j] by {
                    assert(list[i] != list[j]);
                }
            }
        }
    }
}

/// `list` without a process that it does not hold is `list`.
pub proof fn lemma_without_absent(list: Seq<i32>, pid: i32)
    requires
        !list.contains(pid),
    ensures
        without(list, pid) == list,
    decreases list.len(),
{
    reveal(Seq::filter);
    if list.len() > 0 {
        let rest = list.drop_last();
        assert(!rest.contains(pid)) by {
            if rest.contains(pid) {
                let k = choose|k: int| 0 <= k < rest.len() && rest[k] == pid;
                assert(list[k] == pid);
            }
        }
        lemma_without_absent(rest, pid);
        assert(list[list.len() - 1] == list.last());
        assert(list =~= rest.push(list.last()));
    }
}

/// A copy of `list`.
pub fn copy_of(list: &Vec<i32>) -> (copy: Vec<i32>)
    ensures
        copy@ == list@,
{
    tail_of(list, 0)
}

/// `list` from `from` on.
pub fn tail_of(list: &Vec<i32>, from: usize) -> (tail: Vec<i32>)
    requires
        from <= list@.len(),
    ensures
        tail@ == list@.skip(from as int),
{
    let mut tail: Vec<i32> = Vec::new();
    for i in from..list.len()
        invariant
            from <= list@.len(),
            tail@ =~= list@.subrange(from as int, i as int),
    {
        tail.push(list[i]);
    }
    tail
}

/// `list` without `pid`.
pub fn vec_without(list: &Vec<i32>, pid: i32) -> (rest: Vec<i32>)
    ensures
        rest@ == without(list@, pid),
{
    let mut rest: Vec<i32> = Vec::new();
    proof {
        reveal(Seq::filter);
    }
    for i in 0..list.len()
        invariant
            rest@ == without(list@.take(i as int), pid),
    {
        proof {
            reveal(Seq::filter);
            assert(list@.take(i + 1).drop_last() =~= list@.take(i as int));
        }
        if list[i] != pid {
            rest.push(list[i]);
        }
    }
    assert(list@.take(list@.len() as int) =~= list@);
    rest
}

/// `list` without `pid`.
pub fn deque_without(list: &VecDeque<i32>, pid: i32) -> (rest: VecDeque<i32>)
    ensures
        rest@ == without(list@, pid),
{
    let mut rest: VecDeque<i32> = VecDeque::new();
    proof {
        reveal(Seq::filter);
    }
    for i in 0..list.len()
        invariant
            rest@ == without(list@.take(i as int), pid),
    {
        proof {
            reveal(Seq::filter);
            assert(list@.take(i + 1).drop_last() =~= list@.take(i as int));
        }
        if list[i] != pid {
            rest.push_back(list[i]);
        }
    }
    assert(list@.take(list@.len() as int) =~= list@);
    rest
}

/// The members of `list` that `keep` does not hold.
pub fn outside(list: &Vec<i32>, keep: &Vec<i32>) -> (rest: Vec<i32>)
    ensures
        rest@ == list@.filter(|pid: i32| !keep@.contains(pid)),
{
    let mut rest: Vec<i32> = Vec::new();
    let ghost out = |pid: i32| !keep@.contains(pid);
    proof {
        reveal(Seq::filter);
    }
    for i in 0..list.len()
        invariant
            out == (|pid: i32| !keep@.contains(pid)),
            rest@ == list@.take(i as int).filter(out),
    {
        proof {
            reveal(Seq::filter);
            assert(list@.take(i + 1).drop_last() =~= list@.take(i as int));
        }
        if !holds_pid(keep, list[i]) {
            rest.push(list[i]);
        }
    }
    assert(list@.take(list@.len() as int) =~= list@);
    rest
}

/// The members of `list` that `keep` holds.
pub fn inside(list: &Vec<i32>, keep: &Vec<i32>) -> (rest: Vec<i32>)
    ensures
        rest@ == list@.filter(|pid: i32| keep@.contains(pid)),
{
    let mut rest: Vec<i32> = Vec::new();
    let ghost kept = |pid: i32| keep@.contains(pid);
    proof {
        reveal(Seq::filter);
    }
    for i in 0..list.len()
        invariant
            kept == (|pid: i32| keep@.contains(pid)),
            rest@ == list@.take(i as int).filter(kept),
    {
        proof {
            reveal(Seq::filter);
            assert(list@.take(i + 1).drop_last() =~= list@.take(i as int));
        }
        if holds_pid(keep, list[i]) {
            rest.push(list[i]);
        }
    }
    assert(list@.take(list@.len() as int) =~= list@);
    rest
}

/// `order` holds every member of `all`, once, and nothing else.
pub open spec fn lists_all(order: Seq<i32>, all: Seq<i32>) -> bool {
    &&& order.no_duplicates()
    &&& forall|p: i32| #[trigger] order.contains(p) <==> all.contains(p)
}

/// The members of `all`, each once.
pub fn distinct(all: &Vec<i32>) -> (list: Vec<i32>)
    ensures
        lists_all(list@, all@),
{
    let mut list: Vec<i32> = Vec::new();
    for i in 0..all.len()
        invariant
            list@.no_duplicates(),
            forall|p: i32| #[trigger] list@.contains(p) <==> all@.take(i as int).contains(p),
    {
        let p = all[i];
        let ghost was = list@;
        let ghost before = all@.take(i as int);
        let ghost now = all@.take(i + 1);
        if !holds_pid(&list, p) {
            list.push(p);
        }
        proof {
            assert(now =~= before.push(p));
            lemma_push_contains(before, p);
            if !was.contains(p) {
                lemma_push_contains(was, p);
            }
        }
    }
    assert(all@.take(all@.len() as int) =~= all@);
    list
}

/// What is pushed is all that comes to the members.
pub proof fn lemma_push_contains(list: Seq<i32>, x: i32)
    ensures
        forall|p: i32| #[trigger] list.push(x).contains(p) <==> list.contains(p) || p == x,
        list.no_duplicates() && !list.contains(x) ==> list.push(x).no_duplicates(),
{
    let longer = list.push(x);
    assert forall|p: i32| #[trigger] longer.contains(p) <==> list.contains(p) || p == x by {
        if list.contains(p) {
            let k = choose|k: int| 0 <= k < list.len() && list[k] == p;
            assert(longer[k] == p);
        }
        if p == x {
            assert(longer[list.len() as int] == p);
        }
    }
}

/// What is left of a list without a process is read off in order: the process is passed over
/// and all others stay.
pub proof fn law_without_keeps_the_order(list: Seq<i32>, pid: i32, other: i32)
    requires
        other != pid,
    ensures
        without(Seq::empty(), pid) == Seq::<i32>::empty(),
        without(list.push(pid), pid) == without(list, pid),
        without(list.push(other), pid) == without(list, pid).push(other),
{
    reveal(Seq::filter);
    assert(list.push(pid).drop_last() =~= list);
    assert(list.push(other).drop_last() =~= list);
}

} // verus!
