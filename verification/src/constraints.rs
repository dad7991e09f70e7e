//! Bounds on the frequencies of single policies: absolute ones, and ones relative to the
//! frequency of another policy.
use std::collections::HashMap;
use crate::budget::{held, hold};
use crate::pids::{distinct, lemma_push_contains, lists_all};
use vstd::prelude::*;
use vstd::std_specs::hash::*;

verus! {

broadcast use vstd::std_specs::hash::group_hash_axioms;

/// The frequency of a policy lies between `min` and `max`.
#[derive(Debug, Copy, Clone, PartialEq, Eq, Structural)]
pub struct AbsRangeBound {
    pub min: Option<isize>,
    pub max: Option<isize>,
}

/// The frequency of a policy lies between `min` and `max` above that of policy `rel_to`.
#[derive(Debug, Copy, Clone, PartialEq, Eq, Structural)]
pub struct RelRangeBound {
    pub rel_to: i32,
    pub min: Option<isize>,
    pub max: Option<isize>,
}

/// The bound on a policy.
#[derive(Debug, Copy, Clone, PartialEq, Eq, Structural)]
pub enum ExtraPolicy {
    AbsRangeBound(AbsRangeBound),
    RelRangeBound(RelRangeBound),
    Unbound,
}

/// The policy that `p` is bound to, if it is bound to one.
pub open spec fn parent(extra: Map<i32, ExtraPolicy>, p: i32) -> Option<i32> {
    match extra[p] {
        ExtraPolicy::RelRangeBound(bound) => Some(bound.rel_to),
        _ => None,
    }
}

/// In `order` a policy comes after the one that it is bound to.
pub open spec fn parents_first(order: Seq<i32>, extra: Map<i32, ExtraPolicy>) -> bool {
    forall|j: int|
        0 <= j < order.len() ==> match parent(extra, #[trigger] order[j]) {
            Some(q) => exists|i: int| 0 <= i < j && #[trigger] order[i] == q,
            None => true,
        }
}

/// The policies in `order` are all of `policies`, each after the one that it is bound to.
pub open spec fn is_order(
    order: Seq<i32>,
    policies: Seq<i32>,
    extra: Map<i32, ExtraPolicy>,
) -> bool {
    lists_all(order, policies) && parents_first(order, extra)
}

/// Every policy that is bound to one is bound to one of lower rank that exists: the bounds
/// do not run in a circle and do not lead nowhere.
pub open spec fn ranked_by(
    policies: Seq<i32>,
    extra: Map<i32, ExtraPolicy>,
    rank: spec_fn(i32) -> nat,
) -> bool {
    forall|p: i32| #[trigger]
        policies.contains(p) ==> match parent(extra, p) {
            Some(q) => policies.contains(q) && rank(q) < rank(p),
            None => true,
        }
}

/// The bounds run in a circle or lead nowhere.
pub open spec fn is_circular(policies: Seq<i32>, extra: Map<i32, ExtraPolicy>) -> bool {
    forall|rank: spec_fn(i32) -> nat| !(#[trigger] ranked_by(policies, extra, rank))
}

/// Every policy has a bound, or is known to have none.
pub open spec fn knows_all(extra: Map<i32, ExtraPolicy>, policies: Seq<i32>) -> bool {
    forall|p: i32| #[trigger] policies.contains(p) ==> extra.contains_key(p)
}

/// A list without duplicates whose members are all in another is no longer than that.
proof fn lemma_len(a: Seq<i32>, b: Seq<i32>)
    requires
        a.no_duplicates(),
        forall|p: i32| #[trigger] a.contains(p) ==> b.contains(p),
    ensures
        a.len() <= b.len(),
{
    a.unique_seq_to_set();
    vstd::seq_lib::seq_to_set_is_finite(b);
    b.lemma_cardinality_of_set();
    assert(a.to_set().subset_of(b.to_set()));
    vstd::set_lib::lemma_len_subset(a.to_set(), b.to_set());
}

/// Where no policy that is missing from `order` can come next, the bounds are circular.
proof fn lemma_stuck(
    policies: Seq<i32>,
    extra: Map<i32, ExtraPolicy>,
    order: Seq<i32>,
    rank: spec_fn(i32) -> nat,
    p: i32,
)
    requires
        policies.contains(p),
        !order.contains(p),
        forall|q: i32| #[trigger]
            policies.contains(q) && !order.contains(q) ==> parent(extra, q) is Some
                && !order.contains(parent(extra, q)->0),
    ensures
        !ranked_by(policies, extra, rank),
    decreases rank(p),
{
    if ranked_by(policies, extra, rank) {
        lemma_stuck(policies, extra, order, rank, parent(extra, p)->0);
    }
}

/// The policies in an order in which each comes after the one that it is bound to. There is
/// none where the bounds run in a circle or lead to a policy that does not exist.
fn find_order(policies: &Vec<i32>, extra: &HashMap<i32, ExtraPolicy>) -> (res: Option<Vec<i32>>)
    requires
        knows_all(extra@, policies@),
    ensures
        match res {
            Some(order) => is_order(order@, policies@, extra@),
            None => is_circular(policies@, extra@),
        },
{
    let all = distinct(policies);
    let mut queue: Vec<i32> = Vec::new();
    for i in 0..all.len()
        invariant
            knows_all(extra@, policies@),
            lists_all(all@, policies@),
            queue@.no_duplicates(),
            forall|p: i32| #[trigger]
                queue@.contains(p) <==> all@.take(i as int).contains(p) && parent(extra@, p) is None,
    {
        let p = all[i];
        let ghost before = all@.take(i as int);
        let ghost was = queue@;
        proof {
            assert(all@.contains(p));
            assert(all@.take(i + 1) =~= before.push(p));
            lemma_push_contains(before, p);
            lemma_push_contains(was, p);
            assert(!before.contains(p));
        }
        let bound = match extra.get(&p) {
            Some(ExtraPolicy::RelRangeBound(_)) => true,
            _ => false,
        };
        if !bound {
            queue.push(p);
        }
    }
    let mut order: Vec<i32> = Vec::new();
    assert(all@.take(all@.len() as int) =~= all@);
    while queue.len() > 0
        invariant
            knows_all(extra@, policies@),
            lists_all(all@, policies@),
            order@.no_duplicates(),
            queue@.no_duplicates(),
            forall|p: i32| #[trigger] order@.contains(p) ==> all@.contains(p) && !queue@.contains(p),
            forall|p: i32| #[trigger] queue@.contains(p) ==> all@.contains(p),
            parents_first(order@, extra@),
            forall|p: i32| #[trigger]
                all@.contains(p) ==> (order@.contains(p) || queue@.contains(p) <==> match parent(
                    extra@,
                    p,
                ) {
                    Some(q) => order@.contains(q),
                    None => true,
                }),
        decreases all@.len() - order@.len(),
    {
        let ghost waiting = queue@;
        let ghost done = order@;
        let p = queue.pop().unwrap();
        proof {
            assert(waiting[waiting.len() - 1] == p);
            assert(waiting.contains(p));
            assert(all@.contains(p));
            assert(waiting =~= queue@.push(p));
            lemma_push_contains(queue@, p);
            assert(!queue@.contains(p)) by {
                if queue@.contains(p) {
                    let k = choose|k: int| 0 <= k < queue@.len() && queue@[k] == p;
                    assert(waiting[k] == waiting[waiting.len() - 1]);
                }
            }
            assert(queue@.no_duplicates()) by {
                assert forall|i: int, j: int|
                    0 <= i < queue@.len() && 0 <= j < queue@.len() && i != j implies queue@[i]
                    != queue@[j] by {
                    assert(waiting[i] != waiting[j]);
                }
            }
            assert(!done.contains(p));
            lemma_push_contains(done, p);
        }
        order.push(p);
        proof {
            assert forall|j: int| 0 <= j < order@.len() implies match parent(
                extra@,
                #[trigger] order@[j],
            ) {
                Some(q) => exists|i: int| 0 <= i < j && #[trigger] order@[i] == q,
                None => true,
            } by {
                if j < done.len() {
                    assert(order@[j] == done[j]);
                    if let Some(q) = parent(extra@, done[j]) {
                        let i = choose|i: int| 0 <= i < j && #[trigger] done[i] == q;
                        assert(order@[i] == q);
                    }
                } else if let Some(q) = parent(extra@, p) {
                    assert(done.contains(q));
                    let i = choose|i: int| 0 <= i < done.len() && done[i] == q;
                    assert(order@[i] == q);
                }
            }
            lemma_len(order@, all@);
        }
        let ghost left = queue@;
        proof {
            assert forall|c: i32| #[trigger] left.contains(c) implies all@.contains(c)
                && !order@.contains(c) by {
                assert(waiting.contains(c));
                assert(!done.contains(c));
            }
        }
        for i in 0..all.len()
            invariant
                knows_all(extra@, policies@),
                lists_all(all@, policies@),
                order@ == done.push(p),
                order@.no_duplicates(),
                !done.contains(p),
                all@.contains(p),
                queue@.no_duplicates(),
                forall|c: i32| #[trigger] left.contains(c) ==> all@.contains(c) && !order@.contains(c),
                forall|c: i32| #[trigger] done.contains(c) ==> all@.contains(c),
                forall|c: i32| #[trigger]
                    all@.contains(c) ==> (done.contains(c) || left.contains(c) || c == p
                        <==> match parent(extra@, c) {
                        Some(q) => done.contains(q),
                        None => true,
                    }),
                forall|c: i32| #[trigger]
                    queue@.contains(c) <==> left.contains(c) || (all@.take(i as int).contains(c)
                        && parent(extra@, c) == Some(p)),
        {
            let c = all[i];
            let ghost before = all@.take(i as int);
            let ghost was = queue@;
            proof {
                assert(all@.contains(c));
                assert(all@.take(i + 1) =~= before.push(c));
                lemma_push_contains(before, c);
                lemma_push_contains(was, c);
                assert(!before.contains(c));
            }
            let follows = match extra.get(&c) {
                Some(ExtraPolicy::RelRangeBound(bound)) => bound.rel_to == p,
                _ => false,
            };
            if follows {
                assert(parent(extra@, c) == Some(p));
                assert(!left.contains(c));
                queue.push(c);
            }
        }
        proof {
            assert(all@.take(all@.len() as int) =~= all@);
            lemma_push_contains(done, p);
            assert forall|c: i32| #[trigger] order@.contains(c) implies all@.contains(c)
                && !queue@.contains(c) by {
                assert(done.contains(c) || c == p);
                if queue@.contains(c) {
                    assert(!left.contains(c));
                    assert(parent(extra@, c) == Some(p));
                    assert(done.contains(p));
                }
            }
        }
    }
    if order.len() < all.len() {
        proof {
            assert(exists|p: i32| #[trigger] policies@.contains(p) && !order@.contains(p)) by {
                if forall|p: i32| #[trigger] policies@.contains(p) ==> order@.contains(p) {
                    assert forall|p: i32| #[trigger] all@.contains(p) implies order@.contains(p) by {
                        assert(policies@.contains(p));
                    }
                    lemma_len(all@, order@);
                }
            }
            let p = choose|p: i32| #[trigger] policies@.contains(p) && !order@.contains(p);
            assert forall|rank: spec_fn(i32) -> nat| !(#[trigger] ranked_by(
                policies@,
                extra@,
                rank,
            )) by {
                if ranked_by(policies@, extra@, rank) {
                    assert forall|q: i32| #[trigger]
                        policies@.contains(q) && !order@.contains(q) implies parent(
                        extra@,
                        q,
                    ) is Some && !order@.contains(parent(extra@, q)->0) by {
                        assert(all@.contains(q));
                    }
                    lemma_stuck(policies@, extra@, order@, rank, p);
                }
            }
        }
        return None;
    }
    proof {
        assert forall|p: i32| #[trigger] order@.contains(p) <==> policies@.contains(p) by {
            if policies@.contains(p) && !order@.contains(p) {
                assert(all@.contains(p));
                lemma_push_contains(order@, p);
                let longer = order@.push(p);
                assert forall|q: i32| #[trigger] longer.contains(q) implies all@.contains(q) by {}
                lemma_len(longer, all@);
            }
        }
    }
    Some(order)
}

/// An order in which each policy comes after the one that it is bound to shows that the
/// bounds are not circular.
pub proof fn law_order_refutes_circle(
    order: Seq<i32>,
    policies: Seq<i32>,
    extra: Map<i32, ExtraPolicy>,
)
    requires
        is_order(order, policies, extra),
    ensures
        !is_circular(policies, extra),
{
    let rank = |p: i32| order.index_of(p) as nat;
    assert forall|p: i32| #[trigger] policies.contains(p) implies match parent(extra, p) {
        Some(q) => policies.contains(q) && rank(q) < rank(p),
        None => true,
    } by {
        assert(order.contains(p));
        let j = order.index_of(p);
        assert(0 <= j < order.len() && order[j] == p);
        if let Some(q) = parent(extra, order[j]) {
            let i = choose|i: int| 0 <= i < j && #[trigger] order[i] == q;
            assert(order.contains(q));
            let k = order.index_of(q);
            assert(0 <= k < order.len() && order[k] == q);
            assert(k == i);
        }
    }
    assert(ranked_by(policies, extra, rank));
}

/// The bounds run in a circle or lead to a policy that does not exist.
pub fn bounds_are_circular(policies: &Vec<i32>, extra: &HashMap<i32, ExtraPolicy>) -> (circular:
    bool)
    requires
        knows_all(extra@, policies@),
    ensures
        circular == is_circular(policies@, extra@),
{
    match find_order(policies, extra) {
        Some(order) => {
            proof {
                law_order_refutes_circle(order@, policies@, extra@);
            }
            false
        },
        None => true,
    }
}

/// The policies in an order in which each comes after the one that it is bound to.
pub fn sort_policies_topologically(policies: &Vec<i32>, extra: &HashMap<i32, ExtraPolicy>) -> (
order: Vec<i32>)
    requires
        knows_all(extra@, policies@),
        !is_circular(policies@, extra@),
    ensures
        is_order(order@, policies@, extra@),
{
    find_order(policies, extra).unwrap()
}

impl AbsRangeBound {
    /// Not below zero where nothing is said.
    pub open spec fn low(self) -> isize {
        match self.min {
            Some(v) => v,
            None => 0,
        }
    }

    pub open spec fn high(self) -> isize {
        match self.max {
            Some(v) => v,
            None => isize::MAX,
        }
    }
}

impl ExtraPolicy {
    /// The lower bound does not lie above the upper, where the bound is absolute.
    pub open spec fn sane(self) -> bool {
        match self {
            ExtraPolicy::AbsRangeBound(bound) => bound.low() <= bound.high(),
            _ => true,
        }
    }

    /// The lower bound does not lie above the upper, where the bound is absolute.
    pub fn is_sane(&self) -> (sane: bool)
        ensures
            sane == self.sane(),
    {
        match self {
            ExtraPolicy::AbsRangeBound(bound) => {
                let lo = match bound.min {
                    Some(v) => v,
                    None => 0,
                };
                let hi = match bound.max {
                    Some(v) => v,
                    None => isize::MAX,
                };
                lo <= hi
            },
            _ => true,
        }
    }
}

/// Every policy in `order` that has a frequency has a bound, or is known to have none.
pub open spec fn bounds_listed(
    extra: Map<i32, ExtraPolicy>,
    order: Seq<i32>,
    freqs: Map<i32, isize>,
) -> bool {
    forall|p: i32| #[trigger]
        order.contains(p) && freqs.contains_key(p) ==> extra.contains_key(p)
}

/// Every policy in `order` that has a frequency has a bound that makes sense, or is known to
/// have none.
pub open spec fn bounds_known(
    extra: Map<i32, ExtraPolicy>,
    order: Seq<i32>,
    freqs: Map<i32, isize>,
) -> bool {
    forall|p: i32| #[trigger]
        order.contains(p) && freqs.contains_key(p) ==> extra.contains_key(p) && extra[p].sane()
}

/// The frequency of `p` held to its absolute bound.
pub open spec fn abs_held(extra: Map<i32, ExtraPolicy>, p: i32, freq: isize) -> isize {
    match extra[p] {
        ExtraPolicy::AbsRangeBound(bound) => held(freq, bound.low(), bound.high()),
        _ => freq,
    }
}

/// `freqs` with every policy in `order` held to its absolute bound.
pub open spec fn absolute(
    freqs: Map<i32, isize>,
    order: Seq<i32>,
    extra: Map<i32, ExtraPolicy>,
) -> Map<i32, isize> {
    freqs.map_entries(
        |p: i32, freq: isize| if order.contains(p) {
            abs_held(extra, p, freq)
        } else {
            freq
        },
    )
}

/// Holds every policy in `order` to its absolute bound.
pub fn apply_absolute_constraints(
    fas_freqs: HashMap<i32, isize>,
    order: &Vec<i32>,
    extra: &HashMap<i32, ExtraPolicy>,
) -> (freqs: HashMap<i32, isize>)
    requires
        bounds_known(extra@, order@, fas_freqs@),
    ensures
        freqs@ == absolute(fas_freqs@, order@, extra@),
{
    let mut freqs = fas_freqs;
    let ghost was = freqs@;
    assert(absolute(was, order@.take(0), extra@) =~= was);
    for i in 0..order.len()
        invariant
            bounds_known(extra@, order@, was),
            freqs@ == absolute(was, order@.take(i as int), extra@),
    {
        let p = order[i];
        let ghost before = order@.take(i as int);
        let ghost freqs0 = freqs@;
        proof {
            assert(order@.contains(p));
            assert(order@.take(i + 1) =~= before.push(p));
            lemma_push_contains(before, p);
        }
        let freq = match freqs.get(&p) {
            Some(f) => Some(*f),
            None => None,
        };
        if let Some(freq) = freq {
            if let Some(ExtraPolicy::AbsRangeBound(bound)) = extra.get(&p) {
                let lo = match bound.min {
                    Some(v) => v,
                    None => 0,
                };
                let hi = match bound.max {
                    Some(v) => v,
                    None => isize::MAX,
                };
                freqs.insert(p, hold(freq, lo, hi));
            }
        }
        assert(freqs@ =~= absolute(was, order@.take(i + 1), extra@));
    }
    assert(order@.take(order@.len() as int) =~= order@);
    freqs
}

impl RelRangeBound {
    /// The lower bound, where the other policy runs at `base`.
    pub open spec fn low(self, base: isize) -> int {
        base + (match self.min {
            Some(v) => v,
            None => isize::MIN,
        })
    }

    /// The upper bound, where the other policy runs at `base`.
    pub open spec fn high(self, base: isize) -> int {
        base + (match self.max {
            Some(v) => v,
            None => isize::MAX,
        })
    }

    /// Both bounds fit, and the lower does not lie above the upper.
    pub open spec fn applies(self, base: isize) -> bool {
        isize::MIN <= self.low(base) <= self.high(base) <= isize::MAX
    }
}

/// The frequency of `p`, zero where it has none.
pub open spec fn freq_or_zero(freqs: Map<i32, isize>, p: i32) -> isize {
    if freqs.contains_key(p) {
        freqs[p]
    } else {
        0
    }
}

/// The bound of `p` can be applied to `freqs`.
pub open spec fn rel_applies(
    freqs: Map<i32, isize>,
    extra: Map<i32, ExtraPolicy>,
    p: i32,
) -> bool {
    freqs.contains_key(p) ==> match extra[p] {
        ExtraPolicy::RelRangeBound(bound) => bound.applies(freq_or_zero(freqs, bound.rel_to)),
        _ => true,
    }
}

/// `freqs` with `p` held to its bound.
pub open spec fn rel_held(
    freqs: Map<i32, isize>,
    extra: Map<i32, ExtraPolicy>,
    p: i32,
) -> Map<i32, isize> {
    if !freqs.contains_key(p) {
        freqs
    } else {
        match extra[p] {
            ExtraPolicy::RelRangeBound(bound) => {
                let base = freq_or_zero(freqs, bound.rel_to);
                freqs.insert(
                    p,
                    held(freqs[p], bound.low(base) as isize, bound.high(base) as isize),
                )
            },
            _ => freqs,
        }
    }
}

/// `freqs` with every policy in `order` held to its relative bound, one after the other.
/// There is nothing where some bound cannot be applied.
pub open spec fn relative(
    freqs: Map<i32, isize>,
    order: Seq<i32>,
    extra: Map<i32, ExtraPolicy>,
) -> Option<Map<i32, isize>>
    decreases order.len(),
{
    if order.len() == 0 {
        Some(freqs)
    } else {
        match relative(freqs, order.drop_last(), extra) {
            Some(before) => if rel_applies(before, extra, order.last()) {
                Some(rel_held(before, extra, order.last()))
            } else {
                None
            },
            None => None,
        }
    }
}

proof fn lemma_relative_stuck(
    freqs: Map<i32, isize>,
    order: Seq<i32>,
    extra: Map<i32, ExtraPolicy>,
    n: int,
)
    requires
        0 <= n <= order.len(),
        relative(freqs, order.take(n), extra) is None,
    ensures
        relative(freqs, order, extra) is None,
    decreases order.len(),
{
    if n < order.len() {
        assert(order.drop_last().take(n) =~= order.take(n));
        lemma_relative_stuck(freqs, order.drop_last(), extra, n);
    } else {
        assert(order.take(n) =~= order);
    }
}

/// Holds every policy in `order` to its relative bound, one after the other. There is
/// nothing where some bound does not fit into the number range or is empty.
fn try_relative(
    fas_freqs: HashMap<i32, isize>,
    order: &Vec<i32>,
    extra: &HashMap<i32, ExtraPolicy>,
) -> (res: Option<HashMap<i32, isize>>)
    requires
        bounds_listed(extra@, order@, fas_freqs@),
    ensures
        match res {
            Some(freqs) => relative(fas_freqs@, order@, extra@) == Some(freqs@),
            None => relative(fas_freqs@, order@, extra@) is None,
        },
{
    let mut freqs = fas_freqs;
    let ghost was = freqs@;
    for i in 0..order.len()
        invariant
            bounds_listed(extra@, order@, was),
            was == fas_freqs@,
            freqs@.dom() == was.dom(),
            relative(was, order@.take(i as int), extra@) == Some(freqs@),
    {
        let p = order[i];
        let ghost now = order@.take(i + 1);
        assert(order@.contains(p));
        assert(now.drop_last() =~= order@.take(i as int));
        assert(now.last() == p);
        let freq = match freqs.get(&p) {
            Some(f) => Some(*f),
            None => None,
        };
        if let Some(freq) = freq {
            if let Some(ExtraPolicy::RelRangeBound(bound)) = extra.get(&p) {
                let base = match freqs.get(&bound.rel_to) {
                    Some(f) => *f,
                    None => 0,
                };
                let lo = base.checked_add(
                    match bound.min {
                        Some(v) => v,
                        None => isize::MIN,
                    },
                );
                let hi = base.checked_add(
                    match bound.max {
                        Some(v) => v,
                        None => isize::MAX,
                    },
                );
                match (lo, hi) {
                    (Some(lo), Some(hi)) if lo <= hi => {
                        freqs.insert(p, hold(freq, lo, hi));
                    },
                    _ => {
                        proof {
                            lemma_relative_stuck(was, order@, extra@, i + 1);
                        }
                        return None;
                    },
                }
            }
        }
    }
    assert(order@.take(order@.len() as int) =~= order@);
    Some(freqs)
}

/// Holds every policy in `order` to its relative bound, one after the other.
pub fn apply_relative_constraints(
    fas_freqs: HashMap<i32, isize>,
    order: &Vec<i32>,
    extra: &HashMap<i32, ExtraPolicy>,
) -> (freqs: HashMap<i32, isize>)
    requires
        bounds_listed(extra@, order@, fas_freqs@),
        relative(fas_freqs@, order@, extra@) is Some,
    ensures
        relative(fas_freqs@, order@, extra@) == Some(freqs@),
{
    try_relative(fas_freqs, order, extra).unwrap()
}

proof fn lemma_relative_keeps(
    freqs: Map<i32, isize>,
    order: Seq<i32>,
    extra: Map<i32, ExtraPolicy>,
    p: i32,
)
    requires
        relative(freqs, order, extra) is Some,
    ensures
        relative(freqs, order, extra)->0.dom() == freqs.dom(),
        freqs.contains_key(p) && (!order.contains(p) || !(extra[p] is RelRangeBound)) ==> relative(
            freqs,
            order,
            extra,
        )->0[p] == freqs[p],
    decreases order.len(),
{
    if order.len() > 0 {
        let front = order.drop_last();
        lemma_relative_keeps(freqs, front, extra, p);
        assert(order[order.len() - 1] == order.last());
        if front.contains(p) {
            let k = choose|k: int| 0 <= k < front.len() && front[k] == p;
            assert(order[k] == p);
        }
        let before = relative(freqs, front, extra)->0;
        assert(rel_held(before, extra, order.last()).dom() =~= before.dom());
    }
}

/// In the end a policy that is bound to another runs at its own frequency, held to the bound
/// above the frequency at which the other runs in the end.
proof fn lemma_relative_value(
    freqs: Map<i32, isize>,
    order: Seq<i32>,
    extra: Map<i32, ExtraPolicy>,
    p: i32,
)
    requires
        order.no_duplicates(),
        parents_first(order, extra),
        order.contains(p),
        freqs.contains_key(p),
        extra[p] is RelRangeBound,
        relative(freqs, order, extra) is Some,
    ensures
        ({
            let bound = extra[p]->RelRangeBound_0;
            let after = relative(freqs, order, extra)->0;
            let base = freq_or_zero(after, bound.rel_to);
            &&& bound.applies(base)
            &&& after.contains_key(p)
            &&& after[p] == held(freqs[p], bound.low(base) as isize, bound.high(base) as isize)
        }),
    decreases order.len(),
{
    let front = order.drop_last();
    let last = order.last();
    let bound = extra[p]->RelRangeBound_0;
    let before = relative(freqs, front, extra)->0;
    let after = relative(freqs, order, extra)->0;
    assert(front.no_duplicates()) by {
        assert forall|i: int, j: int|
            0 <= i < front.len() && 0 <= j < front.len() && i != j implies front[i] != front[j] by {
            assert(order[i] != order[j]);
        }
    }
    let at = choose|at: int| 0 <= at < order.len() && order[at] == p;
    let q = bound.rel_to;
    assert(parent(extra, order[at]) == Some(q));
    let up = choose|up: int| 0 <= up < at && #[trigger] order[up] == q;
    lemma_relative_keeps(freqs, front, extra, p);
    if p == last {
        assert(q != p) by {
            assert(order[order.len() - 1] == p);
        }
    } else {
        assert(at < front.len());
        assert(front[at] == p);
        assert(parents_first(front, extra)) by {
            assert forall|j: int| 0 <= j < front.len() implies match parent(
                extra,
                #[trigger] front[j],
            ) {
                Some(r) => exists|i: int| 0 <= i < j && #[trigger] front[i] == r,
                None => true,
            } by {
                assert(order[j] == front[j]);
                if let Some(r) = parent(extra, order[j]) {
                    let i = choose|i: int| 0 <= i < j && #[trigger] order[i] == r;
                    assert(front[i] == r);
                }
            }
        }
        lemma_relative_value(freqs, front, extra, p);
        assert(order[order.len() - 1] == last);
        assert(q != last);
        assert(after[p] == before[p]);
        assert(freq_or_zero(after, q) == freq_or_zero(before, q));
    }
}

/// After the policies were held to their bounds in an order in which each comes after the
/// one that it is bound to, every relative bound can be applied and holds, however the
/// frequencies were before: a policy that is bound to another runs at its old frequency, held
/// to the bound above the frequency at which the other runs in the end.
pub proof fn law_relative_bounds_hold(
    freqs: Map<i32, isize>,
    order: Seq<i32>,
    extra: Map<i32, ExtraPolicy>,
    p: i32,
)
    requires
        order.no_duplicates(),
        parents_first(order, extra),
        order.contains(p),
        freqs.contains_key(p),
        extra[p] is RelRangeBound,
        relative(freqs, order, extra) is Some,
    ensures
        ({
            let bound = extra[p]->RelRangeBound_0;
            let after = relative(freqs, order, extra)->0;
            let base = freq_or_zero(after, bound.rel_to);
            &&& bound.applies(base)
            &&& after.contains_key(p)
            &&& after[p] == held(freqs[p], bound.low(base) as isize, bound.high(base) as isize)
            &&& bound.low(base) <= after[p] <= bound.high(base)
        }),
{
    lemma_relative_value(freqs, order, extra, p);
}

/// Where all bounds can be applied in `order1`, those of the first `n` policies of `order2` can
/// be applied as well, and give these policies the same frequencies.
proof fn lemma_same_values(
    freqs: Map<i32, isize>,
    order1: Seq<i32>,
    order2: Seq<i32>,
    extra: Map<i32, ExtraPolicy>,
    n: int,
)
    requires
        order1.no_duplicates(),
        order2.no_duplicates(),
        forall|p: i32| #[trigger] order1.contains(p) <==> order2.contains(p),
        parents_first(order1, extra),
        parents_first(order2, extra),
        relative(freqs, order1, extra) is Some,
        0 <= n <= order2.len(),
    ensures
        relative(freqs, order2.take(n), extra) is Some,
        forall|k: int|
            0 <= k < n && freqs.contains_key(#[trigger] order2[k]) ==> relative(
                freqs,
                order2.take(n),
                extra,
            )->0[order2[k]] == relative(freqs, order1, extra)->0[order2[k]],
    decreases n,
{
    if n > 0 {
        let front = order2.take(n - 1);
        let now = order2.take(n);
        let p = order2[n - 1];
        lemma_same_values(freqs, order1, order2, extra, n - 1);
        assert(now.drop_last() =~= front);
        assert(now.last() == p);
        let before = relative(freqs, front, extra)->0;
        let end = relative(freqs, order1, extra)->0;
        assert(order2.contains(p));
        assert(!front.contains(p)) by {
            if front.contains(p) {
                let k = choose|k: int| 0 <= k < front.len() && front[k] == p;
                assert(order2[k] == order2[n - 1]);
            }
        }
        lemma_relative_keeps(freqs, front, extra, p);
        lemma_relative_keeps(freqs, order1, extra, p);
        if freqs.contains_key(p) && extra[p] is RelRangeBound {
            lemma_relative_value(freqs, order1, extra, p);
            let q = extra[p]->RelRangeBound_0.rel_to;
            assert(parent(extra, order2[n - 1]) == Some(q));
            let up = choose|up: int| 0 <= up < n - 1 && #[trigger] order2[up] == q;
            assert(freq_or_zero(before, q) == freq_or_zero(end, q));
        }
        assert forall|k: int| 0 <= k < n && freqs.contains_key(#[trigger] order2[k]) implies relative(
            freqs,
            now,
            extra,
        )->0[order2[k]] == end[order2[k]] by {
            if k < n - 1 {
                assert(order2[k] != order2[n - 1]);
            }
        }
    }
}

/// Where all bounds can be applied in `order1`, they can be in `order2`, to the same end.
proof fn lemma_same_end(
    freqs: Map<i32, isize>,
    order1: Seq<i32>,
    order2: Seq<i32>,
    extra: Map<i32, ExtraPolicy>,
)
    requires
        order1.no_duplicates(),
        order2.no_duplicates(),
        forall|p: i32| #[trigger] order1.contains(p) <==> order2.contains(p),
        parents_first(order1, extra),
        parents_first(order2, extra),
        relative(freqs, order1, extra) is Some,
    ensures
        relative(freqs, order2, extra) == relative(freqs, order1, extra),
{
    lemma_same_values(freqs, order1, order2, extra, order2.len() as int);
    assert(order2.take(order2.len() as int) =~= order2);
    let one = relative(freqs, order1, extra)->0;
    let two = relative(freqs, order2, extra)->0;
    lemma_relative_keeps(freqs, order1, extra, 0);
    lemma_relative_keeps(freqs, order2, extra, 0);
    assert forall|p: i32| #[trigger] one.contains_key(p) implies one[p] == two[p] by {
        lemma_relative_keeps(freqs, order1, extra, p);
        lemma_relative_keeps(freqs, order2, extra, p);
        if order2.contains(p) {
            let k = choose|k: int| 0 <= k < order2.len() && order2[k] == p;
            assert(order2[k] == p);
        }
    }
    assert(one =~= two);
}

/// It makes no difference in which of the orders in which each policy comes after the one
/// that it is bound to the policies are held to their bounds: neither for the frequencies in
/// the end, nor for whether all bounds can be applied.
pub proof fn law_order_makes_no_difference(
    freqs: Map<i32, isize>,
    policies: Seq<i32>,
    order1: Seq<i32>,
    order2: Seq<i32>,
    extra: Map<i32, ExtraPolicy>,
)
    requires
        lists_all(order1, policies),
        lists_all(order2, policies),
        parents_first(order1, extra),
        parents_first(order2, extra),
    ensures
        absolute(freqs, order1, extra) == absolute(freqs, order2, extra),
        relative(freqs, order1, extra) == relative(freqs, order2, extra),
{
    assert forall|p: i32| #[trigger] order1.contains(p) <==> order2.contains(p) by {
        assert(order1.contains(p) <==> policies.contains(p));
    }
    assert(absolute(freqs, order1, extra) =~= absolute(freqs, order2, extra));
    if relative(freqs, order1, extra) is Some {
        lemma_same_end(freqs, order1, order2, extra);
    } else if relative(freqs, order2, extra) is Some {
        lemma_same_end(freqs, order2, order1, extra);
    }
}

/// Holding policies to their relative bounds leaves the absolute bounds of the others alone:
/// in the end every absolute bound holds as well.
pub proof fn law_absolute_bounds_hold(
    freqs: Map<i32, isize>,
    order: Seq<i32>,
    extra: Map<i32, ExtraPolicy>,
    p: i32,
)
    requires
        bounds_known(extra, order, freqs),
        order.contains(p),
        freqs.contains_key(p),
        extra[p] is AbsRangeBound,
        relative(absolute(freqs, order, extra), order, extra) is Some,
    ensures
        ({
            let bound = extra[p]->AbsRangeBound_0;
            let after = relative(absolute(freqs, order, extra), order, extra)->0;
            bound.low() <= after[p] <= bound.high()
        }),
{
    lemma_relative_keeps(absolute(freqs, order, extra), order, extra, p);
}

/// No policy gains or loses a frequency by being held to bounds, and one without a bound
/// keeps its own.
pub proof fn law_unbounded_policies_keep_theirs(
    freqs: Map<i32, isize>,
    order: Seq<i32>,
    extra: Map<i32, ExtraPolicy>,
    p: i32,
)
    requires
        relative(absolute(freqs, order, extra), order, extra) is Some,
    ensures
        relative(absolute(freqs, order, extra), order, extra)->0.dom() == freqs.dom(),
        freqs.contains_key(p) && extra[p] is Unbound ==> relative(
            absolute(freqs, order, extra),
            order,
            extra,
        )->0[p] == freqs[p],
{
    lemma_relative_keeps(absolute(freqs, order, extra), order, extra, p);
    assert(absolute(freqs, order, extra).dom() =~= freqs.dom());
}

/// What `freqs` become under all bounds: the absolute ones first, then the relative ones, each
/// policy after the one that it is bound to. There is nothing where the bounds are circular or
/// one of them cannot be applied.
pub open spec fn constrained(
    freqs: Map<i32, isize>,
    policies: Seq<i32>,
    extra: Map<i32, ExtraPolicy>,
) -> Option<Map<i32, isize>> {
    if is_circular(policies, extra) {
        None
    } else {
        let order = choose|order: Seq<i32>| is_order(order, policies, extra);
        relative(absolute(freqs, order, extra), order, extra)
    }
}

/// What frequencies become under all bounds can be worked out in any order in which each
/// policy comes after the one that it is bound to.
pub proof fn law_constrained_in_any_order(
    freqs: Map<i32, isize>,
    policies: Seq<i32>,
    extra: Map<i32, ExtraPolicy>,
    order: Seq<i32>,
)
    requires
        is_order(order, policies, extra),
    ensures
        !is_circular(policies, extra),
        constrained(freqs, policies, extra) == relative(
            absolute(freqs, order, extra),
            order,
            extra,
        ),
{
    law_order_refutes_circle(order, policies, extra);
    let other = choose|other: Seq<i32>| is_order(other, policies, extra);
    law_order_makes_no_difference(freqs, policies, other, order, extra);
    law_order_makes_no_difference(
        absolute(freqs, order, extra),
        policies,
        other,
        order,
        extra,
    );
}

/// The bounds are not circular, and each of them can be applied to `freqs`.
pub fn bounds_apply(
    freqs: &HashMap<i32, isize>,
    policies: &Vec<i32>,
    extra: &HashMap<i32, ExtraPolicy>,
) -> (apply: bool)
    requires
        knows_all(extra@, policies@),
        bounds_known(extra@, policies@, freqs@),
    ensures
        apply == constrained(freqs@, policies@, extra@) is Some,
{
    if bounds_are_circular(policies, extra) {
        return false;
    }
    let order = sort_policies_topologically(policies, extra);
    proof {
        law_constrained_in_any_order(freqs@, policies@, extra@, order@);
    }
    let bounded = apply_absolute_constraints(freqs.clone(), &order, extra);
    assert(bounded@.dom() =~= freqs@.dom());
    try_relative(bounded, &order, extra).is_some()
}

/// Holds the frequencies to all bounds.
pub fn constrain(
    freqs: HashMap<i32, isize>,
    policies: &Vec<i32>,
    extra: &HashMap<i32, ExtraPolicy>,
) -> (out: HashMap<i32, isize>)
    requires
        knows_all(extra@, policies@),
        bounds_known(extra@, policies@, freqs@),
        constrained(freqs@, policies@, extra@) is Some,
    ensures
        constrained(freqs@, policies@, extra@) == Some(out@),
{
    let order = sort_policies_topologically(policies, extra);
    let ghost given = freqs@;
    proof {
        law_constrained_in_any_order(given, policies@, extra@, order@);
    }
    let bounded = apply_absolute_constraints(freqs, &order, extra);
    assert(bounded@.dom() =~= given.dom());
    apply_relative_constraints(bounded, &order, extra)
}

/// Under all bounds a policy with an absolute bound keeps its frequency where that lies within
/// the bound, and runs at the nearer end where it does not. A bound without a lower end begins
/// at zero, one without an upper end has none.
pub proof fn law_absolute_bound_moves_to_the_nearer_end(
    freqs: Map<i32, isize>,
    policies: Seq<i32>,
    extra: Map<i32, ExtraPolicy>,
    order: Seq<i32>,
    p: i32,
    bound: AbsRangeBound,
)
    requires
        is_order(order, policies, extra),
        bounds_known(extra, policies, freqs),
        policies.contains(p),
        freqs.contains_key(p),
        extra[p] == ExtraPolicy::AbsRangeBound(bound),
        constrained(freqs, policies, extra) is Some,
    ensures
        ({
            let low = match bound.min {
                Some(v) => v,
                None => 0,
            };
            let high = match bound.max {
                Some(v) => v,
                None => isize::MAX,
            };
            let after = constrained(freqs, policies, extra)->0;
            let alone = absolute(freqs, order, extra);
            let f = freqs[p];
            &&& after.contains_key(p) && alone.contains_key(p)
            &&& low <= f <= high ==> after[p] == f && alone[p] == f
            &&& f < low ==> after[p] == low && alone[p] == low
            &&& f > high ==> after[p] == high && alone[p] == high
        }),
{
    law_constrained_in_any_order(freqs, policies, extra, order);
    assert(order.contains(p));
    lemma_relative_keeps(absolute(freqs, order, extra), order, extra, p);
}

/// Absolute bounds touch no policy without one, none that is not held to its bound, and give
/// no policy a frequency that had none.
pub proof fn law_absolute_bounds_touch_no_other(
    freqs: Map<i32, isize>,
    order: Seq<i32>,
    extra: Map<i32, ExtraPolicy>,
    p: i32,
)
    ensures
        absolute(freqs, order, extra).dom() == freqs.dom(),
        freqs.contains_key(p) && (!order.contains(p) || !(extra[p] is AbsRangeBound)) ==> absolute(
            freqs,
            order,
            extra,
        )[p] == freqs[p],
{
    assert(absolute(freqs, order, extra).dom() =~= freqs.dom());
}

/// Under all bounds a policy that is bound to another keeps its frequency where that lies
/// between the two ends above the frequency at which the other runs in the end, and runs at
/// the nearer end where it does not. A policy that has no frequency counts as zero, and an end
/// that is not given lies as far off as a number can.
pub proof fn law_relative_bound_moves_to_the_nearer_end(
    freqs: Map<i32, isize>,
    policies: Seq<i32>,
    extra: Map<i32, ExtraPolicy>,
    order: Seq<i32>,
    p: i32,
    bound: RelRangeBound,
)
    requires
        is_order(order, policies, extra),
        policies.contains(p),
        freqs.contains_key(p),
        extra[p] == ExtraPolicy::RelRangeBound(bound),
        constrained(freqs, policies, extra) is Some,
    ensures
        ({
            let after = constrained(freqs, policies, extra)->0;
            let base: isize = if after.contains_key(bound.rel_to) {
                after[bound.rel_to]
            } else {
                0
            };
            let low = base + (match bound.min {
                Some(v) => v,
                None => isize::MIN,
            });
            let high = base + (match bound.max {
                Some(v) => v,
                None => isize::MAX,
            });
            let f = freqs[p];
            &&& after.contains_key(p)
            &&& low <= high
            &&& low <= f <= high ==> after[p] == f
            &&& f < low ==> after[p] == low
            &&& f > high ==> after[p] == high
        }),
{
    law_constrained_in_any_order(freqs, policies, extra, order);
    assert(order.contains(p));
    let alone = absolute(freqs, order, extra);
    assert(alone[p] == freqs[p]);
    lemma_relative_value(alone, order, extra, p);
}

/// Under all bounds no policy gains or loses a frequency, and one without a bound keeps its
/// own.
pub proof fn law_constrained_keeps_the_unbound(
    freqs: Map<i32, isize>,
    policies: Seq<i32>,
    extra: Map<i32, ExtraPolicy>,
    order: Seq<i32>,
    p: i32,
)
    requires
        is_order(order, policies, extra),
        constrained(freqs, policies, extra) is Some,
    ensures
        constrained(freqs, policies, extra)->0.dom() == freqs.dom(),
        freqs.contains_key(p) && (!policies.contains(p) || extra[p] is Unbound) ==> constrained(
            freqs,
            policies,
            extra,
        )->0[p] == freqs[p],
{
    law_constrained_in_any_order(freqs, policies, extra, order);
    lemma_relative_keeps(absolute(freqs, order, extra), order, extra, p);
    assert(absolute(freqs, order, extra).dom() =~= freqs.dom());
    assert(order.contains(p) <==> policies.contains(p));
}

/// Bounds are refused only where one of them leaves nothing to run at: where its turn comes,
/// its lower end lies above its upper end or one of them is no number any more.
pub proof fn law_refused_bounds_leave_nothing(
    freqs: Map<i32, isize>,
    order: Seq<i32>,
    extra: Map<i32, ExtraPolicy>,
) -> (n: int)
    requires
        relative(freqs, order, extra) is None,
    ensures
        0 <= n < order.len(),
        relative(freqs, order.take(n), extra) is Some,
        ({
            let before = relative(freqs, order.take(n), extra)->0;
            &&& before.contains_key(order[n])
            &&& extra[order[n]] matches ExtraPolicy::RelRangeBound(bound)
            &&& {
                let base: isize = if before.contains_key(bound.rel_to) {
                    before[bound.rel_to]
                } else {
                    0
                };
                let low = base + (match bound.min {
                    Some(v) => v,
                    None => isize::MIN,
                });
                let high = base + (match bound.max {
                    Some(v) => v,
                    None => isize::MAX,
                });
                low > high || low < isize::MIN || low > isize::MAX || high < isize::MIN || high
                    > isize::MAX
            }
        }),
    decreases order.len(),
{
    let last = order.len() - 1;
    let front = order.drop_last();
    assert(order.len() > 0);
    if relative(freqs, front, extra) is None {
        let n = law_refused_bounds_leave_nothing(freqs, front, extra);
        assert(front.take(n) =~= order.take(n));
        n
    } else {
        assert(order.take(last) =~= front);
        last
    }
}

/// Bounds that lead from policy to policy and back to the first run in a circle, and so do
/// those that lead to a policy that does not exist.
pub proof fn law_circles_are_circular(
    policies: Seq<i32>,
    extra: Map<i32, ExtraPolicy>,
    round: Seq<i32>,
)
    requires
        round.len() > 0,
        forall|i: int|
            0 <= i < round.len() ==> policies.contains(#[trigger] round[i]) && (extra[round[i]]
                matches ExtraPolicy::RelRangeBound(bound) && (if i + 1 < round.len() {
                bound.rel_to == round[i + 1]
            } else {
                bound.rel_to == round[0] || !policies.contains(bound.rel_to)
            })),
    ensures
        is_circular(policies, extra),
{
    assert forall|rank: spec_fn(i32) -> nat| !(#[trigger] ranked_by(policies, extra, rank)) by {
        if ranked_by(policies, extra, rank) {
            let last = round.len() - 1;
            lemma_rank_falls(policies, extra, round, rank, last);
            assert(policies.contains(round[last]));
            assert(parent(extra, round[last]) is Some);
        }
    }
}

proof fn lemma_rank_falls(
    policies: Seq<i32>,
    extra: Map<i32, ExtraPolicy>,
    round: Seq<i32>,
    rank: spec_fn(i32) -> nat,
    i: int,
)
    requires
        ranked_by(policies, extra, rank),
        0 <= i < round.len(),
        forall|k: int|
            0 <= k < round.len() ==> policies.contains(#[trigger] round[k]) && (k + 1 < round.len()
                ==> parent(extra, round[k]) == Some(round[k + 1])),
    ensures
        rank(round[i]) <= rank(round[0]),
    decreases i,
{
    if i > 0 {
        lemma_rank_falls(policies, extra, round, rank, i - 1);
        assert(policies.contains(round[i - 1]));
    }
}

/// Bounds that lead from policy to policy without coming back, and only to policies that exist,
/// do not run in a circle. Where none leads to another policy, none does.
pub proof fn law_falling_bounds_are_not_circular(
    policies: Seq<i32>,
    extra: Map<i32, ExtraPolicy>,
    rank: spec_fn(i32) -> nat,
)
    requires
        forall|p: i32| #[trigger]
            policies.contains(p) ==> (extra[p] matches ExtraPolicy::RelRangeBound(bound)
                ==> policies.contains(bound.rel_to) && rank(bound.rel_to) < rank(p)),
    ensures
        !is_circular(policies, extra),
{
    assert(ranked_by(policies, extra, rank));
}

/// An absolute bound makes sense where it is not empty. A bound without a lower end begins at
/// zero, so one with an upper end below zero alone does not. All other bounds make sense.
pub proof fn law_sane_bounds(bound: AbsRangeBound, rel: RelRangeBound)
    ensures
        ExtraPolicy::AbsRangeBound(bound).sane() <==> (match (bound.min, bound.max) {
            (Some(min), Some(max)) => min <= max,
            (None, Some(max)) => 0 <= max,
            (_, None) => true,
        }),
        ExtraPolicy::RelRangeBound(rel).sane(),
        ExtraPolicy::Unbound.sane(),
{
}

} // verus!
