//! What one frame left behind: the time each thread ran, waited for a CPU and waited for
//! a futex, and which thread woke which.
use std::collections::HashMap;
use crate::event::DagThreadMetrics;
use crate::key::PairMap;
use vstd::prelude::*;
use vstd::std_specs::hash::*;
use vstd::std_specs::iter::IteratorSpec;

verus! {

broadcast use vstd::std_specs::hash::group_hash_axioms;

/// `x` where it fits into 64 bits, else the largest such number.
pub open spec fn cap(x: int) -> u64 {
    if x > u64::MAX {
        u64::MAX
    } else {
        x as u64
    }
}

/// The number that `map` holds for `key`, zero where it holds none.
pub open spec fn count(map: Map<u32, u64>, key: u32) -> u64 {
    if map.contains_key(key) {
        map[key]
    } else {
        0
    }
}

/// `map` with `delta` added to the entry of `key`.
pub open spec fn added(map: Map<u32, u64>, key: u32, delta: u64) -> Map<u32, u64> {
    map.insert(key, cap(count(map, key) + delta))
}

/// The number that `map` holds for `key`, zero where it holds none.
pub fn count_of(map: &HashMap<u32, u64>, key: u32) -> (n: u64)
    ensures
        n == count(map@, key),
{
    match map.get(&key) {
        Some(v) => *v,
        None => 0,
    }
}

/// Adds `delta` to the entry of `key`, and stops at the largest number.
pub fn add_u64(map: &mut HashMap<u32, u64>, key: u32, delta: u64)
    ensures
        final(map)@ == added(old(map)@, key, delta),
{
    let sum = count_of(map, key).saturating_add(delta);
    map.insert(key, sum);
}

/// The counters of one frame.
pub struct DagFrame {
    pub thread_exec_ns: HashMap<u32, u64>,
    pub thread_rq_delay_ns: HashMap<u32, u64>,
    pub thread_futex_wait_ns: HashMap<u32, u64>,
    /// Keyed by thread and policy.
    pub thread_policy_exec_ns: PairMap,
    /// Keyed by thread and policy.
    pub thread_policy_rq_delay_ns: PairMap,
    /// Keyed by thread and policy.
    pub thread_policy_futex_wait_ns: PairMap,
    /// Keyed by the waking thread and the woken thread.
    pub edges_ns: PairMap,
}

impl DagFrame {
    /// The counters as maps.
    pub open spec fn maps(self) -> FrameMaps {
        FrameMaps {
            ran: self.thread_exec_ns@,
            queued: self.thread_rq_delay_ns@,
            waited: self.thread_futex_wait_ns@,
            policy_ran: self.thread_policy_exec_ns@,
            policy_queued: self.thread_policy_rq_delay_ns@,
            policy_waited: self.thread_policy_futex_wait_ns@,
            edges: self.edges_ns@,
        }
    }

    /// The time that thread `tid` spent in all.
    pub open spec fn total(self, tid: u32) -> int {
        count(self.thread_exec_ns@, tid) + count(self.thread_rq_delay_ns@, tid) + count(
            self.thread_futex_wait_ns@,
            tid,
        )
    }

    /// The total of every thread fits into 64 bits.
    pub open spec fn totals_fit(self) -> bool {
        forall|tid: u32| #[trigger] self.total(tid) <= u64::MAX
    }

    pub fn new() -> (frame: Self)
        ensures
            frame.maps() == FrameMaps::none(),
    {
        DagFrame {
            thread_exec_ns: HashMap::new(),
            thread_rq_delay_ns: HashMap::new(),
            thread_futex_wait_ns: HashMap::new(),
            thread_policy_exec_ns: PairMap::new(),
            thread_policy_rq_delay_ns: PairMap::new(),
            thread_policy_futex_wait_ns: PairMap::new(),
            edges_ns: PairMap::new(),
        }
    }

    /// Forgets the frame.
    pub fn clear(&mut self)
        ensures
            final(self).maps() == FrameMaps::none(),
    {
        self.thread_exec_ns.clear();
        self.thread_rq_delay_ns.clear();
        self.thread_futex_wait_ns.clear();
        self.thread_policy_exec_ns.clear();
        self.thread_policy_rq_delay_ns.clear();
        self.thread_policy_futex_wait_ns.clear();
        self.edges_ns.clear();
    }

    /// The totals of all threads with a counter in `counters` fit.
    fn totals_fit_for(&self, counters: &HashMap<u32, u64>) -> (fit: bool)
        ensures
            fit <==> forall|tid: u32| #[trigger]
                counters@.contains_key(tid) ==> self.total(tid) <= u64::MAX,
    {
        let ghost walk = spec_hash_map_iter(counters).remaining();
        proof {
            axiom_spec_hash_map_iter(counters);
        }
        let mut fit = true;
        for (tid, _ns) in it: counters.iter()
            invariant
                it.seq() == walk,
                fit <==> forall|i: int|
                    0 <= i < it.index() ==> self.total(*(#[trigger] walk[i]).0) <= u64::MAX,
        {
            let total = count_of(&self.thread_exec_ns, *tid) as u128 + count_of(
                &self.thread_rq_delay_ns,
                *tid,
            ) as u128 + count_of(&self.thread_futex_wait_ns, *tid) as u128;
            if total > u64::MAX as u128 {
                fit = false;
            }
        }
        proof {
            if fit {
                assert forall|tid: u32| #[trigger] counters@.contains_key(tid) implies self.total(
                    tid,
                ) <= u64::MAX by {
                    let i = choose|i: int|
                        0 <= i < walk.len() && walk[i] == (&tid, &counters@[tid]);
                    assert(0 <= i < walk.len() && walk[i] == (&tid, &counters@[tid]));
                }
            } else {
                let i = choose|i: int|
                    0 <= i < walk.len() && self.total(*(#[trigger] walk[i]).0) > u64::MAX;
                assert(counters@.contains_key(*walk[i].0));
            }
        }
        fit
    }

    /// The total of every thread fits into 64 bits.
    pub fn all_totals_fit(&self) -> (fit: bool)
        ensures
            fit == self.totals_fit(),
    {
        let fit = self.totals_fit_for(&self.thread_exec_ns) && self.totals_fit_for(
            &self.thread_rq_delay_ns,
        ) && self.totals_fit_for(&self.thread_futex_wait_ns);
        proof {
            if fit {
                assert forall|tid: u32| #[trigger] self.total(tid) <= u64::MAX by {
                    assert(self.thread_exec_ns@.contains_key(tid) ==> self.total(tid) <= u64::MAX);
                    assert(self.thread_rq_delay_ns@.contains_key(tid) ==> self.total(tid)
                        <= u64::MAX);
                    assert(self.thread_futex_wait_ns@.contains_key(tid) ==> self.total(tid)
                        <= u64::MAX);
                }
            }
        }
        fit
    }

    /// The time that thread `tid` spent in all.
    pub fn thread_total_ns(&self, tid: u32) -> (ns: u64)
        requires
            self.total(tid) <= u64::MAX,
        ensures
            ns == self.total(tid),
    {
        count_of(&self.thread_exec_ns, tid) + count_of(&self.thread_rq_delay_ns, tid) + count_of(
            &self.thread_futex_wait_ns,
            tid,
        )
    }
}

/// The counters of one kind after thread `tid` spent `ns` on `policy`: the thread's sum
/// grows, and the entry of thread and policy is set. Nothing changes where `ns` is zero.
pub open spec fn recorded(
    threads: Map<u32, u64>,
    pairs: Map<(u32, u32), u64>,
    tid: u32,
    policy: u32,
    ns: u64,
) -> (Map<u32, u64>, Map<(u32, u32), u64>) {
    if ns > 0 {
        (added(threads, tid, ns), pairs.insert((tid, policy), ns))
    } else {
        (threads, pairs)
    }
}

/// The counters of a frame as maps.
#[verifier::ext_equal]
pub struct FrameMaps {
    pub ran: Map<u32, u64>,
    pub queued: Map<u32, u64>,
    pub waited: Map<u32, u64>,
    pub policy_ran: Map<(u32, u32), u64>,
    pub policy_queued: Map<(u32, u32), u64>,
    pub policy_waited: Map<(u32, u32), u64>,
    pub edges: Map<(u32, u32), u64>,
}

impl FrameMaps {
    /// Nothing happened.
    pub open spec fn none() -> FrameMaps {
        FrameMaps {
            ran: Map::empty(),
            queued: Map::empty(),
            waited: Map::empty(),
            policy_ran: Map::empty(),
            policy_queued: Map::empty(),
            policy_waited: Map::empty(),
            edges: Map::empty(),
        }
    }

    /// The counters of thread `tid` on `policy` taken in.
    pub open spec fn with(self, tid: u32, policy: u32, metrics: DagThreadMetrics) -> FrameMaps {
        let (ran, policy_ran) = recorded(self.ran, self.policy_ran, tid, policy, metrics.exec_ns);
        let (queued, policy_queued) = recorded(self.queued, self.policy_queued, tid, policy, metrics.rq_delay_ns);
        let (waited, policy_waited) = recorded(
            self.waited,
            self.policy_waited,
            tid,
            policy,
            metrics.futex_wait_ns,
        );
        FrameMaps { ran, queued, waited, policy_ran, policy_queued, policy_waited, edges: self.edges }
    }
}

/// Takes the counters of one thread on one policy into `frame`.
pub fn append_tid_policy_metrics(
    frame: &mut DagFrame,
    tid: u32,
    policy: u32,
    metrics: DagThreadMetrics,
)
    ensures
        final(frame).maps() == old(frame).maps().with(tid, policy, metrics),
{
    if metrics.exec_ns > 0 {
        add_u64(&mut frame.thread_exec_ns, tid, metrics.exec_ns);
        frame.thread_policy_exec_ns.insert(tid, policy, metrics.exec_ns);
    }
    if metrics.rq_delay_ns > 0 {
        add_u64(&mut frame.thread_rq_delay_ns, tid, metrics.rq_delay_ns);
        frame.thread_policy_rq_delay_ns.insert(tid, policy, metrics.rq_delay_ns);
    }
    if metrics.futex_wait_ns > 0 {
        add_u64(&mut frame.thread_futex_wait_ns, tid, metrics.futex_wait_ns);
        frame.thread_policy_futex_wait_ns.insert(tid, policy, metrics.futex_wait_ns);
    }
}

/// The order in which two entries with different keys are taken in makes no difference.
pub proof fn law_recorded_commutes(
    threads: Map<u32, u64>,
    pairs: Map<(u32, u32), u64>,
    a: (u32, u32, u64),
    b: (u32, u32, u64),
)
    requires
        (a.0, a.1) != (b.0, b.1),
    ensures
        ({
            let ab = recorded(threads, pairs, a.0, a.1, a.2);
            let ba = recorded(threads, pairs, b.0, b.1, b.2);
            recorded(ab.0, ab.1, b.0, b.1, b.2) == recorded(ba.0, ba.1, a.0, a.1, a.2)
        }),
{
    let ab = recorded(threads, pairs, a.0, a.1, a.2);
    let ba = recorded(threads, pairs, b.0, b.1, b.2);
    assert(recorded(ab.0, ab.1, b.0, b.1, b.2).0 =~= recorded(ba.0, ba.1, a.0, a.1, a.2).0);
    assert(recorded(ab.0, ab.1, b.0, b.1, b.2).1 =~= recorded(ba.0, ba.1, a.0, a.1, a.2).1);
}

/// Time spent on each policy by the threads that mattered.
pub struct FrameStats {
    pub policy_exec_ns: HashMap<u32, u64>,
    pub policy_rq_delay_ns: HashMap<u32, u64>,
    pub policy_futex_wait_ns: HashMap<u32, u64>,
}

impl FrameStats {
    pub fn new() -> (stats: Self)
        ensures
            stats.policy_exec_ns@ == Map::<u32, u64>::empty(),
            stats.policy_rq_delay_ns@ == Map::<u32, u64>::empty(),
            stats.policy_futex_wait_ns@ == Map::<u32, u64>::empty(),
    {
        FrameStats {
            policy_exec_ns: HashMap::new(),
            policy_rq_delay_ns: HashMap::new(),
            policy_futex_wait_ns: HashMap::new(),
        }
    }
}

/// Times add up until they no longer fit.
pub proof fn law_added(map: Map<u32, u64>, key: u32, delta: u64, other: u32)
    ensures
        map.contains_key(key) && map[key] + delta <= u64::MAX ==> added(map, key, delta)[key]
            == map[key] + delta,
        map.contains_key(key) && map[key] + delta > u64::MAX ==> added(map, key, delta)[key]
            == u64::MAX,
        !map.contains_key(key) ==> added(map, key, delta)[key] == delta,
        added(map, key, delta).contains_key(key),
        other != key ==> added(map, key, delta).contains_key(other) == map.contains_key(other)
            && added(map, key, delta)[other] == map[other],
        map.contains_key(other) ==> count(map, other) == map[other],
        !map.contains_key(other) ==> count(map, other) == 0,
{
}

/// The counters that come for a thread on a policy are added to those of the thread, kind by
/// kind, and stand under thread and policy as they came. Those that are zero leave no trace,
/// and neither other threads nor the edges change.
pub proof fn law_counters_add_up(
    maps: FrameMaps,
    tid: u32,
    policy: u32,
    metrics: DagThreadMetrics,
    other: u32,
)
    requires
        other != tid,
        count(maps.ran, tid) + metrics.exec_ns <= u64::MAX,
        count(maps.queued, tid) + metrics.rq_delay_ns <= u64::MAX,
        count(maps.waited, tid) + metrics.futex_wait_ns <= u64::MAX,
    ensures
        ({
            let after = maps.with(tid, policy, metrics);
            &&& count(after.ran, tid) == count(maps.ran, tid) + metrics.exec_ns
            &&& count(after.queued, tid) == count(maps.queued, tid) + metrics.rq_delay_ns
            &&& count(after.waited, tid) == count(maps.waited, tid) + metrics.futex_wait_ns
            &&& count(after.ran, other) == count(maps.ran, other)
            &&& count(after.queued, other) == count(maps.queued, other)
            &&& count(after.waited, other) == count(maps.waited, other)
            &&& metrics.exec_ns > 0 ==> after.policy_ran == maps.policy_ran.insert(
                (tid, policy),
                metrics.exec_ns,
            )
            &&& metrics.rq_delay_ns > 0 ==> after.policy_queued == maps.policy_queued.insert(
                (tid, policy),
                metrics.rq_delay_ns,
            )
            &&& metrics.futex_wait_ns > 0 ==> after.policy_waited == maps.policy_waited.insert(
                (tid, policy),
                metrics.futex_wait_ns,
            )
            &&& metrics.exec_ns == 0 ==> after.ran == maps.ran && after.policy_ran
                == maps.policy_ran
            &&& metrics.rq_delay_ns == 0 ==> after.queued == maps.queued && after.policy_queued
                == maps.policy_queued
            &&& metrics.futex_wait_ns == 0 ==> after.waited == maps.waited && after.policy_waited
                == maps.policy_waited
            &&& after.edges == maps.edges
        }),
{
}

/// The time of a thread is made of the time it ran, the time it waited for a CPU and the time
/// it waited for a futex.
pub proof fn law_thread_total(frame: DagFrame, tid: u32, ran: u64, queued: u64, waited: u64)
    requires
        if ran > 0 {
            frame.maps().ran.contains_key(tid) && frame.maps().ran[tid] == ran
        } else {
            !frame.maps().ran.contains_key(tid)
        },
        if queued > 0 {
            frame.maps().queued.contains_key(tid) && frame.maps().queued[tid] == queued
        } else {
            !frame.maps().queued.contains_key(tid)
        },
        if waited > 0 {
            frame.maps().waited.contains_key(tid) && frame.maps().waited[tid] == waited
        } else {
            !frame.maps().waited.contains_key(tid)
        },
    ensures
        frame.total(tid) == ran + queued + waited,
{
}

} // verus!
