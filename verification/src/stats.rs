//! The time that critical threads spent on each frequency policy.
use std::collections::HashMap;
use crate::critical::{CriticalSubgraphResult, NodeCriticality};
use crate::dag::{add_u64, added, cap, count, count_of, DagFrame, FrameStats};
use crate::key::{enumerates, PairMap};
use vstd::prelude::*;
use vstd::std_specs::hash::*;

verus! {

broadcast use vstd::std_specs::hash::group_hash_axioms;

/// The time on each policy after the entries of `list` counted for `amounts`. An entry is a
/// thread, a policy and a time; one that counts for nothing leaves no trace.
pub open spec fn policy_sums(list: Seq<(u32, u32, u64)>, amounts: Seq<u64>) -> Map<u32, u64>
    decreases list.len(),
{
    if list.len() == 0 {
        Map::empty()
    } else {
        let before = policy_sums(list.drop_last(), amounts.drop_last());
        if amounts.last() > 0 {
            added(before, list.last().1, amounts.last())
        } else {
            before
        }
    }
}

/// What the entries of `list` on `policy` count for in all.
pub open spec fn policy_total(
    list: Seq<(u32, u32, u64)>,
    amounts: Seq<u64>,
    policy: u32,
) -> nat
    decreases list.len(),
{
    if list.len() == 0 {
        0
    } else {
        policy_total(list.drop_last(), amounts.drop_last(), policy) + (if list.last().1 == policy {
            amounts.last() as nat
        } else {
            0
        })
    }
}

/// `amounts` is what `weigh` made of the times in `list`: zero for a thread that is not
/// critical.
pub open spec fn weighed<F: Fn(u64, NodeCriticality) -> u64>(
    weigh: F,
    nodes: Map<u32, NodeCriticality>,
    list: Seq<(u32, u32, u64)>,
    amounts: Seq<u64>,
) -> bool {
    &&& amounts.len() == list.len()
    &&& forall|i: int|
        0 <= i < list.len() ==> if nodes.contains_key((#[trigger] list[i]).0) {
            call_ensures(weigh, (list[i].2, nodes[list[i].0]), amounts[i])
        } else {
            amounts[i] == 0
        }
}

/// `sums` is the time on each policy that `weigh` made of `pairs`.
pub open spec fn weighed_sums<F: Fn(u64, NodeCriticality) -> u64>(
    weigh: F,
    nodes: Map<u32, NodeCriticality>,
    pairs: Map<(u32, u32), u64>,
    sums: Map<u32, u64>,
) -> bool {
    exists|list: Seq<(u32, u32, u64)>, amounts: Seq<u64>|
        #![trigger weighed(weigh, nodes, list, amounts)]
        enumerates(list, pairs) && weighed(weigh, nodes, list, amounts) && sums == policy_sums(
            list,
            amounts,
        )
}

/// A policy has a sum where some entry on it counts for something, and the sum is what its
/// entries count for in all, as far as it fits.
pub proof fn law_policy_sums(list: Seq<(u32, u32, u64)>, amounts: Seq<u64>, policy: u32)
    requires
        amounts.len() == list.len(),
    ensures
        count(policy_sums(list, amounts), policy) == cap(
            policy_total(list, amounts, policy) as int,
        ),
        policy_sums(list, amounts).contains_key(policy) <==> policy_total(list, amounts, policy)
            > 0,
    decreases list.len(),
{
    if list.len() > 0 {
        law_policy_sums(list.drop_last(), amounts.drop_last(), policy);
    }
}

fn weigh_policies<F: Fn(u64, NodeCriticality) -> u64>(
    pairs: &PairMap,
    subgraph: &CriticalSubgraphResult,
    weigh: &F,
) -> (sums: HashMap<u32, u64>)
    requires
        forall|ns: u64, node: NodeCriticality| call_requires(*weigh, (ns, node)),
    ensures
        weighed_sums(*weigh, subgraph.node_weights@, pairs@, sums@),
{
    let list = pairs.list();
    let mut sums: HashMap<u32, u64> = HashMap::new();
    let ghost nodes = subgraph.node_weights@;
    let ghost mut amounts: Seq<u64> = Seq::empty();
    for i in 0..list.len()
        invariant
            nodes == subgraph.node_weights@,
            forall|ns: u64, node: NodeCriticality| call_requires(*weigh, (ns, node)),
            weighed(*weigh, nodes, list@.take(i as int), amounts),
            sums@ == policy_sums(list@.take(i as int), amounts),
    {
        let (tid, policy, ns) = list[i];
        let mut amount: u64 = 0;
        let ghost before = list@.take(i as int);
        let ghost past = amounts;
        if let Some(node) = subgraph.node_weights.get(&tid) {
            amount = weigh(ns, *node);
            if amount > 0 {
                add_u64(&mut sums, policy, amount);
            }
        }
        proof {
            amounts = past.push(amount);
            assert(list@.take(i + 1) =~= before.push(list@[i as int]));
            assert(list@.take(i + 1).drop_last() =~= before);
            assert(amounts.drop_last() =~= past);
            let now = list@.take(i + 1);
            assert forall|k: int| 0 <= k < now.len() implies if nodes.contains_key(
                (#[trigger] now[k]).0,
            ) {
                call_ensures(*weigh, (now[k].2, nodes[now[k].0]), amounts[k])
            } else {
                amounts[k] == 0
            } by {
                if k < i {
                    assert(before[k] == now[k]);
                }
            }
        }
    }
    assert(list@.take(list.len() as int) =~= list@);
    sums
}

/// The time that the threads of `subgraph` spent on each policy. `weigh` says what a time
/// counts for, given how critical its thread is.
pub fn critical_subgraph_to_frame_stats<F: Fn(u64, NodeCriticality) -> u64>(
    frame: &DagFrame,
    subgraph: &CriticalSubgraphResult,
    weigh: F,
) -> (stats: FrameStats)
    requires
        forall|ns: u64, node: NodeCriticality| call_requires(weigh, (ns, node)),
    ensures
        weighed_sums(
            weigh,
            subgraph.node_weights@,
            frame.thread_policy_exec_ns@,
            stats.policy_exec_ns@,
        ),
        weighed_sums(
            weigh,
            subgraph.node_weights@,
            frame.thread_policy_rq_delay_ns@,
            stats.policy_rq_delay_ns@,
        ),
        weighed_sums(
            weigh,
            subgraph.node_weights@,
            frame.thread_policy_futex_wait_ns@,
            stats.policy_futex_wait_ns@,
        ),
{
    FrameStats {
        policy_exec_ns: weigh_policies(&frame.thread_policy_exec_ns, subgraph, &weigh),
        policy_rq_delay_ns: weigh_policies(&frame.thread_policy_rq_delay_ns, subgraph, &weigh),
        policy_futex_wait_ns: weigh_policies(&frame.thread_policy_futex_wait_ns, subgraph, &weigh),
    }
}

/// The times of critical threads on one policy that enter into its weight.
#[derive(Debug, Copy, Clone, PartialEq, Eq, Structural)]
pub struct PolicyTimes {
    pub policy: u32,
    pub exec_ns: u64,
    pub rq_delay_ns: u64,
}

/// The times on each of `policies`, in order, zero where there are none.
pub fn policy_times(stats: &FrameStats, policies: &Vec<u32>) -> (rows: Vec<PolicyTimes>)
    ensures
        rows@ == policies@.map_values(
            |policy: u32|
                PolicyTimes {
                    policy,
                    exec_ns: count(stats.policy_exec_ns@, policy),
                    rq_delay_ns: count(stats.policy_rq_delay_ns@, policy),
                },
        ),
{
    let mut rows: Vec<PolicyTimes> = Vec::new();
    for i in 0..policies.len()
        invariant
            rows@.len() == i,
            forall|k: int|
                0 <= k < i ==> #[trigger] rows@[k] == (PolicyTimes {
                    policy: policies@[k],
                    exec_ns: count(stats.policy_exec_ns@, policies@[k]),
                    rq_delay_ns: count(stats.policy_rq_delay_ns@, policies@[k]),
                }),
    {
        let policy = policies[i];
        rows.push(
            PolicyTimes {
                policy,
                exec_ns: count_of(&stats.policy_exec_ns, policy),
                rq_delay_ns: count_of(&stats.policy_rq_delay_ns, policy),
            },
        );
    }
    rows
}

/// What each entry of `list` counts for, where that depends on the entry alone.
pub open spec fn amounts_of(
    list: Seq<(u32, u32, u64)>,
    worth: spec_fn((u32, u32, u64)) -> u64,
) -> Seq<u64> {
    list.map_values(worth)
}

proof fn lemma_total_remove(
    list: Seq<(u32, u32, u64)>,
    worth: spec_fn((u32, u32, u64)) -> u64,
    j: int,
    policy: u32,
)
    requires
        0 <= j < list.len(),
    ensures
        policy_total(list, amounts_of(list, worth), policy) == policy_total(
            list.remove(j),
            amounts_of(list.remove(j), worth),
            policy,
        ) + (if list[j].1 == policy {
            worth(list[j]) as nat
        } else {
            0
        }),
    decreases list.len(),
{
    let amounts = amounts_of(list, worth);
    let rest = list.drop_last();
    assert(amounts.drop_last() =~= amounts_of(rest, worth));
    if j == list.len() - 1 {
        assert(list.remove(j) =~= rest);
    } else {
        let less = list.remove(j);
        lemma_total_remove(rest, worth, j, policy);
        assert(less.drop_last() =~= rest.remove(j));
        assert(less.last() == list.last());
        assert(amounts_of(less, worth).drop_last() =~= amounts_of(rest.remove(j), worth));
    }
}

proof fn lemma_enumerates_remove(
    list: Seq<(u32, u32, u64)>,
    map: Map<(u32, u32), u64>,
    j: int,
)
    requires
        enumerates(list, map),
        0 <= j < list.len(),
    ensures
        enumerates(list.remove(j), map.remove((list[j].0, list[j].1))),
{
    let key = (list[j].0, list[j].1);
    let less = list.remove(j);
    let left = map.remove(key);
    let back = |i: int| if i < j {
        i
    } else {
        i + 1
    };
    assert forall|i: int| 0 <= i < less.len() implies left.contains_key((less[i].0, less[i].1))
        && left[(less[i].0, less[i].1)] == (#[trigger] less[i]).2 by {
        assert(less[i] == list[back(i)]);
        if back(i) < j {
            assert(list[back(i)].0 != list[j].0 || list[back(i)].1 != list[j].1);
        } else {
            assert(list[j].0 != list[back(i)].0 || list[j].1 != list[back(i)].1);
        }
    }
    assert forall|i: int, k: int| 0 <= i < k < less.len() implies (#[trigger] less[i]).0 != (
    #[trigger] less[k]).0 || less[i].1 != less[k].1 by {
        assert(less[i] == list[back(i)]);
        assert(less[k] == list[back(k)]);
    }
    assert forall|k: (u32, u32)| #[trigger] left.contains_key(k) implies less.contains(
        (k.0, k.1, left[k]),
    ) by {
        let e = (k.0, k.1, map[k]);
        assert(map.contains_key(k));
        let i = choose|i: int| 0 <= i < list.len() && list[i] == e;
        if i < j {
            assert(less[i] == e);
        } else {
            assert(i != j);
            assert(less[i - 1] == e);
        }
    }
}

proof fn lemma_total_same(
    list1: Seq<(u32, u32, u64)>,
    list2: Seq<(u32, u32, u64)>,
    map: Map<(u32, u32), u64>,
    worth: spec_fn((u32, u32, u64)) -> u64,
    policy: u32,
)
    requires
        enumerates(list1, map),
        enumerates(list2, map),
    ensures
        policy_total(list1, amounts_of(list1, worth), policy) == policy_total(
            list2,
            amounts_of(list2, worth),
            policy,
        ),
    decreases list1.len(),
{
    if list1.len() == 0 {
        if list2.len() > 0 {
            let e = list2[0];
            assert(map.contains_key((e.0, e.1)));
            assert(list1.contains((e.0, e.1, map[(e.0, e.1)])));
        }
    } else {
        let last = list1.len() - 1;
        let e = list1[last];
        assert(map.contains_key((e.0, e.1)) && map[(e.0, e.1)] == e.2);
        assert(list2.contains((e.0, e.1, map[(e.0, e.1)])));
        let j = choose|j: int| 0 <= j < list2.len() && list2[j] == e;
        lemma_enumerates_remove(list1, map, last);
        lemma_enumerates_remove(list2, map, j);
        lemma_total_remove(list1, worth, last, policy);
        lemma_total_remove(list2, worth, j, policy);
        lemma_total_same(
            list1.remove(last),
            list2.remove(j),
            map.remove((e.0, e.1)),
            worth,
            policy,
        );
    }
}

/// Where what an entry counts for depends on the entry alone, the order in which the entries
/// of a map are walked makes no difference to the times on the policies.
pub proof fn law_sums_independent_of_order(
    list1: Seq<(u32, u32, u64)>,
    list2: Seq<(u32, u32, u64)>,
    map: Map<(u32, u32), u64>,
    worth: spec_fn((u32, u32, u64)) -> u64,
)
    requires
        enumerates(list1, map),
        enumerates(list2, map),
    ensures
        policy_sums(list1, amounts_of(list1, worth)) == policy_sums(
            list2,
            amounts_of(list2, worth),
        ),
{
    let one = policy_sums(list1, amounts_of(list1, worth));
    let two = policy_sums(list2, amounts_of(list2, worth));
    assert forall|p: u32| #![trigger one.dom().contains(p)] #![trigger two.dom().contains(p)]
        one.dom().contains(p) == two.dom().contains(p) && count(one, p) == count(two, p) by {
        law_policy_sums(list1, amounts_of(list1, worth), p);
        law_policy_sums(list2, amounts_of(list2, worth), p);
        lemma_total_same(list1, list2, map, worth, p);
    }
    assert(one.dom() =~= two.dom());
    assert forall|p: u32| #[trigger] one.dom().contains(p) implies one[p] == two[p] by {
        assert(count(one, p) == count(two, p));
    }
    assert(one =~= two);
}

/// One more entry adds what it counts for to its policy, and to no other.
pub proof fn law_entry_counts_for_its_policy(
    list: Seq<(u32, u32, u64)>,
    amounts: Seq<u64>,
    entry: (u32, u32, u64),
    amount: u64,
    other: u32,
)
    requires
        amounts.len() == list.len(),
        other != entry.1,
    ensures
        policy_total(Seq::empty(), Seq::empty(), other) == 0,
        policy_total(list.push(entry), amounts.push(amount), entry.1) == policy_total(
            list,
            amounts,
            entry.1,
        ) + amount,
        policy_total(list.push(entry), amounts.push(amount), other) == policy_total(
            list,
            amounts,
            other,
        ),
{
    assert(list.push(entry).drop_last() =~= list);
    assert(amounts.push(amount).drop_last() =~= amounts);
}

} // verus!
