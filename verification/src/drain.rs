//! Taking the counters of a closed bank out of the kernel: in batches where the kernel can
//! do that, else entry by entry.
use crate::dag::{append_tid_policy_metrics, cap, count, recorded, DagFrame, FrameMaps};
use crate::event::DagThreadMetrics;
use crate::key::{key_pair, law_key_round_trip, pair_key, unpack_key, PairMap};
use crate::probe::DAG_BANKS;
use vstd::prelude::*;

verus! {

/// Most entries in one batch.
pub const BATCH_ELEMS: usize = 1024;

/// Number of the kernel command that takes a batch.
pub const BPF_MAP_LOOKUP_AND_DELETE_BATCH: u32 = 25;

/// The name of the map that holds the counters of the threads in `bank`.
pub open spec fn stats_map_name(bank: u32) -> Seq<char> {
    "DAG_THREAD_POLICY_STATS_"@.push((0x30 + bank) as char)
}

/// The name of the map that holds the edges in `bank`.
pub open spec fn edge_map_name(bank: u32) -> Seq<char> {
    "DAG_EDGE_"@.push((0x30 + bank) as char)
}

/// The names of the two maps of a bank, the counters of the threads first.
pub fn dag_bank_map_names(bank: u32) -> (names: Option<(&'static str, &'static str)>)
    ensures
        names is Some <==> bank < DAG_BANKS,
        names matches Some(pair) ==> pair.0@ == stats_map_name(bank) && pair.1@ == edge_map_name(
            bank,
        ),
{
    proof {
        reveal_strlit("DAG_THREAD_POLICY_STATS_");
        reveal_strlit("DAG_THREAD_POLICY_STATS_0");
        reveal_strlit("DAG_THREAD_POLICY_STATS_1");
        reveal_strlit("DAG_THREAD_POLICY_STATS_2");
        reveal_strlit("DAG_THREAD_POLICY_STATS_3");
        reveal_strlit("DAG_THREAD_POLICY_STATS_4");
        reveal_strlit("DAG_THREAD_POLICY_STATS_5");
        reveal_strlit("DAG_THREAD_POLICY_STATS_6");
        reveal_strlit("DAG_THREAD_POLICY_STATS_7");
        reveal_strlit("DAG_EDGE_");
        reveal_strlit("DAG_EDGE_0");
        reveal_strlit("DAG_EDGE_1");
        reveal_strlit("DAG_EDGE_2");
        reveal_strlit("DAG_EDGE_3");
        reveal_strlit("DAG_EDGE_4");
        reveal_strlit("DAG_EDGE_5");
        reveal_strlit("DAG_EDGE_6");
        reveal_strlit("DAG_EDGE_7");
    }
    match bank {
        0 => Some(("DAG_THREAD_POLICY_STATS_0", "DAG_EDGE_0")),
        1 => Some(("DAG_THREAD_POLICY_STATS_1", "DAG_EDGE_1")),
        2 => Some(("DAG_THREAD_POLICY_STATS_2", "DAG_EDGE_2")),
        3 => Some(("DAG_THREAD_POLICY_STATS_3", "DAG_EDGE_3")),
        4 => Some(("DAG_THREAD_POLICY_STATS_4", "DAG_EDGE_4")),
        5 => Some(("DAG_THREAD_POLICY_STATS_5", "DAG_EDGE_5")),
        6 => Some(("DAG_THREAD_POLICY_STATS_6", "DAG_EDGE_6")),
        7 => Some(("DAG_THREAD_POLICY_STATS_7", "DAG_EDGE_7")),
        _ => None,
    }
}

/// No two banks share a map.
pub proof fn law_banks_have_their_own_maps(a: u32, b: u32)
    requires
        a < DAG_BANKS,
        b < DAG_BANKS,
        stats_map_name(a) == stats_map_name(b) || edge_map_name(a) == edge_map_name(b),
    ensures
        a == b,
{
    assert(stats_map_name(a).last() == (0x30 + a) as char);
    assert(stats_map_name(b).last() == (0x30 + b) as char);
    assert(edge_map_name(a).last() == (0x30 + a) as char);
    assert(edge_map_name(b).last() == (0x30 + b) as char);
}

/// The maps of a bank, and the descriptors that batches are taken through.
#[derive(Debug, Copy, Clone)]
pub struct BankMaps {
    pub stats_name: &'static str,
    pub stats_fd: Option<i32>,
    pub edge_name: &'static str,
    pub edge_fd: Option<i32>,
}

/// Entry `i` of `list`, where it has one.
pub open spec fn entry(list: Seq<i32>, i: u32) -> Option<i32> {
    if i < list.len() {
        Some(list[i as int])
    } else {
        None
    }
}

/// The maps of `bank`. There are none where the bank does not exist.
pub fn bank_maps(bank: u32, stats_map_fds: &[i32], edge_map_fds: &[i32]) -> (maps: Option<BankMaps>)
    ensures
        maps is Some <==> bank < DAG_BANKS,
        maps is Some ==> maps->0.stats_name@ == stats_map_name(bank) && maps->0.edge_name@
            == edge_map_name(bank) && maps->0.stats_fd == entry(stats_map_fds@, bank)
            && maps->0.edge_fd == entry(edge_map_fds@, bank),
{
    match dag_bank_map_names(bank) {
        Some((stats_name, edge_name)) => {
            let i = bank as usize;
            let stats_fd = if i < stats_map_fds.len() {
                Some(stats_map_fds[i])
            } else {
                None
            };
            let edge_fd = if i < edge_map_fds.len() {
                Some(edge_map_fds[i])
            } else {
                None
            };
            Some(BankMaps { stats_name, stats_fd, edge_name, edge_fd })
        },
        None => None,
    }
}

/// The counters of a frame after the entries `keys` and `values` were taken in, one after
/// the other.
pub open spec fn stats_absorbed(
    maps: FrameMaps,
    keys: Seq<u64>,
    values: Seq<DagThreadMetrics>,
) -> FrameMaps
    decreases keys.len(),
{
    if keys.len() == 0 {
        maps
    } else {
        let (tid, policy) = key_pair(keys.last());
        stats_absorbed(maps, keys.drop_last(), values.drop_last()).with(tid, policy, values.last())
    }
}

/// The edges after the entries `keys` and `values` were taken in, one after the other.
pub open spec fn edges_absorbed(
    edges: Map<(u32, u32), u64>,
    keys: Seq<u64>,
    values: Seq<u64>,
) -> Map<(u32, u32), u64>
    decreases keys.len(),
{
    if keys.len() == 0 {
        edges
    } else {
        edges_absorbed(edges, keys.drop_last(), values.drop_last()).insert(
            key_pair(keys.last()),
            values.last(),
        )
    }
}

/// Takes the first `taken` entries of a batch of thread counters into `frame`.
pub fn absorb_stats(frame: &mut DagFrame, keys: &[u64], values: &[DagThreadMetrics], taken: usize)
    requires
        taken <= keys@.len(),
        taken <= values@.len(),
    ensures
        final(frame).maps() == stats_absorbed(
            old(frame).maps(),
            keys@.take(taken as int),
            values@.take(taken as int),
        ),
{
    for i in 0..taken
        invariant
            taken <= keys.len(),
            taken <= values.len(),
            frame.maps() == stats_absorbed(
                old(frame).maps(),
                keys@.take(i as int),
                values@.take(i as int),
            ),
    {
        let (tid, policy) = unpack_key(keys[i]);
        append_tid_policy_metrics(frame, tid, policy, values[i]);
        assert(keys@.take(i + 1).drop_last() =~= keys@.take(i as int));
        assert(values@.take(i + 1).drop_last() =~= values@.take(i as int));
    }
}

/// Takes the first `taken` entries of a batch of edges into `out`.
pub fn absorb_edges(out: &mut PairMap, keys: &[u64], values: &[u64], taken: usize)
    requires
        taken <= keys@.len(),
        taken <= values@.len(),
    ensures
        final(out)@ == edges_absorbed(
            old(out)@,
            keys@.take(taken as int),
            values@.take(taken as int),
        ),
{
    for i in 0..taken
        invariant
            taken <= keys.len(),
            taken <= values.len(),
            out@ == edges_absorbed(old(out)@, keys@.take(i as int), values@.take(i as int)),
    {
        let (pred, succ) = unpack_key(keys[i]);
        out.insert(pred, succ, values[i]);
        assert(keys@.take(i + 1).drop_last() =~= keys@.take(i as int));
        assert(values@.take(i + 1).drop_last() =~= values@.take(i as int));
    }
}

/// Where the batches of one map stand.
#[derive(Debug, Copy, Clone, PartialEq, Eq, Structural)]
pub struct BatchCursor {
    /// Where the next batch starts. There is none before the first.
    pub token: Option<u64>,
}

impl BatchCursor {
    pub fn new() -> (cursor: Self)
        ensures
            cursor.token is None,
    {
        BatchCursor { token: None }
    }

    /// A batch of `taken` entries came, and the kernel left off at `out_token`. Another
    /// follows unless the kernel said that the map is at its end or the batch was empty.
    pub fn advance(&mut self, taken: usize, ended: bool, out_token: u64) -> (more: bool)
        ensures
            more == (!ended && taken > 0),
            final(self).token == (if more {
                Some(out_token)
            } else {
                old(self).token
            }),
    {
        if ended || taken == 0 {
            return false;
        }
        self.token = Some(out_token);
        true
    }
}

/// The error numbers that the batch commands are answered with.
#[derive(Debug, Copy, Clone, PartialEq, Eq, Structural)]
pub struct BatchErrnos {
    pub enoent: i32,
    pub einval: i32,
    pub enosys: i32,
    pub eopnotsupp: i32,
}

/// The number of the error at the end of a map, on Linux and on Android.
pub const LINUX_ENOENT: i32 = 2;

/// The number of the error that a malformed command leaves, on Linux and on Android.
pub const LINUX_EINVAL: i32 = 22;

impl BatchErrnos {
    /// The error numbers are those of Linux: on most machines, on MIPS or on SPARC.
    pub open spec fn of_linux(self) -> bool {
        &&& self.enoent == LINUX_ENOENT
        &&& self.einval == LINUX_EINVAL
        &&& {
            ||| self.enosys == 38 && self.eopnotsupp == 95
            ||| self.enosys == 89 && self.eopnotsupp == 122
            ||| self.enosys == 90 && self.eopnotsupp == 45
        }
    }
}

/// `libc::ENOENT`, `libc::EINVAL`, `libc::ENOSYS` and `libc::EOPNOTSUPP`, as `libc` defines
/// them for Linux and for Android, on which alone this package builds. The first two are the
/// same on every machine. Of the other two, only the pairs that some machine has are claimed:
/// which of them it is depends on the machine.
#[verifier::external_body]
fn batch_errnos() -> (errnos: BatchErrnos)
    ensures
        errnos.of_linux(),
{
    BatchErrnos {
        enoent: libc::ENOENT,
        einval: libc::EINVAL,
        enosys: libc::ENOSYS,
        eopnotsupp: libc::EOPNOTSUPP,
    }
}

/// A batch command was answered with `ret`, where `errno` is the error it left. It took
/// `taken` entries, and `Ok` says whether the map is at its end.
pub open spec fn batch_answer(
    ret: i64,
    errno: Option<i32>,
    taken: u32,
    errnos: BatchErrnos,
) -> Result<(usize, bool), Option<i32>> {
    if ret >= 0 {
        Ok((taken as usize, false))
    } else if errno == Some(errnos.enoent) {
        Ok((taken as usize, true))
    } else {
        Err(errno)
    }
}

/// [`batch_answer`] for given error numbers.
pub fn read_batch_answer(ret: i64, errno: Option<i32>, taken: u32, errnos: BatchErrnos) -> (answer:
    Result<(usize, bool), Option<i32>>)
    ensures
        answer == batch_answer(ret, errno, taken, errnos),
{
    if ret >= 0 {
        return Ok((taken as usize, false));
    }
    if let Some(e) = errno {
        if e == errnos.enoent {
            return Ok((taken as usize, true));
        }
    }
    Err(errno)
}

/// What a batch command did that was answered with `ret`: the number of entries it took and
/// whether the map is at its end, or the error.
pub fn bpf_map_lookup_and_delete_batch(ret: i64, errno: Option<i32>, taken: u32) -> (answer: Result<
    (usize, bool),
    Option<i32>,
>)
    ensures
        answer == (if ret >= 0 {
            Ok::<(usize, bool), Option<i32>>((taken as usize, false))
        } else if errno == Some(LINUX_ENOENT) {
            Ok((taken as usize, true))
        } else {
            Err(errno)
        }),
{
    read_batch_answer(ret, errno, taken, batch_errnos())
}

/// `errno` says that the kernel cannot take batches.
pub open spec fn says_unsupported(errno: Option<i32>, errnos: BatchErrnos) -> bool {
    errno is Some && (errno->0 == errnos.einval || errno->0 == errnos.enosys || errno->0
        == errnos.eopnotsupp)
}

/// [`says_unsupported`] for given error numbers.
pub fn unsupported_among(errno: Option<i32>, errnos: BatchErrnos) -> (unsupported: bool)
    ensures
        unsupported == says_unsupported(errno, errnos),
{
    match errno {
        Some(e) => e == errnos.einval || e == errnos.enosys || e == errnos.eopnotsupp,
        None => false,
    }
}

/// On some machine `errno` says that the kernel cannot take batches.
pub open spec fn may_lack_support(errno: i32) -> bool {
    errno == LINUX_EINVAL || errno == 38 || errno == 89 || errno == 90 || errno == 95 || errno
        == 122 || errno == 45
}

/// `errno` says that the kernel cannot take batches: a malformed command on every machine,
/// and the two errors for a missing or unsupported command by their numbers on this one.
pub fn is_batch_not_supported(errno: Option<i32>) -> (unsupported: bool)
    ensures
        exists|errnos: BatchErrnos|
            errnos.of_linux() && unsupported == #[trigger] says_unsupported(errno, errnos),
        errno == Some(LINUX_EINVAL) ==> unsupported,
        unsupported ==> errno is Some && may_lack_support(errno->0),
{
    unsupported_among(errno, batch_errnos())
}

/// Where the end of a map is reached, the kernel is not taken to lack support.
pub proof fn law_end_is_no_lack_of_support(
    ret: i64,
    errno: Option<i32>,
    taken: u32,
    errnos: BatchErrnos,
)
    requires
        errnos.of_linux(),
        ret < 0,
        batch_answer(ret, errno, taken, errnos) is Ok,
    ensures
        !says_unsupported(errno, errnos),
{
}

/// How a map is to be emptied.
#[derive(Debug, Copy, Clone, PartialEq, Eq, Structural)]
pub enum PullStep {
    /// In batches, through the descriptor.
    Batch(i32),
    /// Entry by entry.
    Iterate,
}

/// How a map is to be emptied that has the descriptor `map_fd`. Without one, batches are
/// given up for good.
pub fn pull_start(batch_enabled: &mut bool, map_fd: Option<i32>) -> (step: PullStep)
    ensures
        step == (if *old(batch_enabled) && map_fd is Some {
            PullStep::Batch(map_fd->0)
        } else {
            PullStep::Iterate
        }),
        *final(batch_enabled) == (*old(batch_enabled) && map_fd is Some),
{
    if *batch_enabled {
        match map_fd {
            Some(fd) => return PullStep::Batch(fd),
            None => {
                *batch_enabled = false;
            },
        }
    }
    PullStep::Iterate
}

/// What follows the batches of a map.
#[derive(Debug, Copy, Clone, PartialEq, Eq, Structural)]
pub enum PullEnd {
    Done,
    /// The map is to be emptied entry by entry after all.
    Iterate,
    Fail,
}

/// What follows the batches of a map that ended with `error` (none where all went well),
/// where `unsupported` says what [`is_batch_not_supported`] made of it. Where the kernel
/// cannot take batches, they are given up for good.
pub fn pull_end(batch_enabled: &mut bool, error: bool, unsupported: bool) -> (end: PullEnd)
    ensures
        end == (if !error {
            PullEnd::Done
        } else if unsupported {
            PullEnd::Iterate
        } else {
            PullEnd::Fail
        }),
        *final(batch_enabled) == (*old(batch_enabled) && !(error && unsupported)),
{
    if !error {
        return PullEnd::Done;
    }
    if unsupported {
        *batch_enabled = false;
        return PullEnd::Iterate;
    }
    PullEnd::Fail
}

/// It makes no difference into how many batches the entries of a map are cut.
pub proof fn law_batches_compose(
    maps: FrameMaps,
    keys1: Seq<u64>,
    values1: Seq<DagThreadMetrics>,
    keys2: Seq<u64>,
    values2: Seq<DagThreadMetrics>,
)
    requires
        keys1.len() == values1.len(),
        keys2.len() == values2.len(),
    ensures
        stats_absorbed(stats_absorbed(maps, keys1, values1), keys2, values2) == stats_absorbed(
            maps,
            keys1 + keys2,
            values1 + values2,
        ),
    decreases keys2.len(),
{
    if keys2.len() == 0 {
        assert(keys1 + keys2 =~= keys1);
        assert(values1 + values2 =~= values1);
    } else {
        law_batches_compose(maps, keys1, values1, keys2.drop_last(), values2.drop_last());
        assert((keys1 + keys2).drop_last() =~= keys1 + keys2.drop_last());
        assert((values1 + values2).drop_last() =~= values1 + values2.drop_last());
    }
}

/// The same holds of the edges.
pub proof fn law_edge_batches_compose(
    edges: Map<(u32, u32), u64>,
    keys1: Seq<u64>,
    values1: Seq<u64>,
    keys2: Seq<u64>,
    values2: Seq<u64>,
)
    requires
        keys1.len() == values1.len(),
        keys2.len() == values2.len(),
    ensures
        edges_absorbed(edges_absorbed(edges, keys1, values1), keys2, values2) == edges_absorbed(
            edges,
            keys1 + keys2,
            values1 + values2,
        ),
    decreases keys2.len(),
{
    if keys2.len() == 0 {
        assert(keys1 + keys2 =~= keys1);
        assert(values1 + values2 =~= values1);
    } else {
        law_edge_batches_compose(edges, keys1, values1, keys2.drop_last(), values2.drop_last());
        assert((keys1 + keys2).drop_last() =~= keys1 + keys2.drop_last());
        assert((values1 + values2).drop_last() =~= values1 + values2.drop_last());
    }
}

/// The counters of one kind in a frame made of the entries `keys` with the times `ns`.
pub open spec fn kind_absorbed(keys: Seq<u64>, ns: Seq<u64>) -> (
    Map<u32, u64>,
    Map<(u32, u32), u64>,
)
    decreases keys.len(),
{
    if keys.len() == 0 {
        (Map::empty(), Map::empty())
    } else {
        let (threads, pairs) = kind_absorbed(keys.drop_last(), ns.drop_last());
        let (tid, policy) = key_pair(keys.last());
        recorded(threads, pairs, tid, policy, ns.last())
    }
}

/// The three kinds of counters do not mix: each is made of its own times.
pub proof fn law_kinds_are_separate(keys: Seq<u64>, values: Seq<DagThreadMetrics>)
    requires
        keys.len() == values.len(),
    ensures
        ({
            let maps = stats_absorbed(FrameMaps::none(), keys, values);
            &&& (maps.ran, maps.policy_ran) == kind_absorbed(
                keys,
                values.map_values(|m: DagThreadMetrics| m.exec_ns),
            )
            &&& (maps.queued, maps.policy_queued) == kind_absorbed(
                keys,
                values.map_values(|m: DagThreadMetrics| m.rq_delay_ns),
            )
            &&& (maps.waited, maps.policy_waited) == kind_absorbed(
                keys,
                values.map_values(|m: DagThreadMetrics| m.futex_wait_ns),
            )
            &&& maps.edges == Map::<(u32, u32), u64>::empty()
        }),
    decreases keys.len(),
{
    if keys.len() > 0 {
        let front = values.drop_last();
        law_kinds_are_separate(keys.drop_last(), front);
        let ran = values.map_values(|m: DagThreadMetrics| m.exec_ns);
        let queued = values.map_values(|m: DagThreadMetrics| m.rq_delay_ns);
        let waited = values.map_values(|m: DagThreadMetrics| m.futex_wait_ns);
        assert(ran.drop_last() =~= front.map_values(|m: DagThreadMetrics| m.exec_ns));
        assert(queued.drop_last() =~= front.map_values(|m: DagThreadMetrics| m.rq_delay_ns));
        assert(waited.drop_last() =~= front.map_values(|m: DagThreadMetrics| m.futex_wait_ns));
    }
}

/// The time of thread `tid` over all policies.
pub open spec fn time_in_all(keys: Seq<u64>, ns: Seq<u64>, tid: u32) -> nat
    decreases keys.len(),
{
    if keys.len() == 0 {
        0
    } else {
        time_in_all(keys.drop_last(), ns.drop_last(), tid) + (if key_pair(keys.last()).0 == tid {
            ns.last() as nat
        } else {
            0
        })
    }
}

/// In a frame made of the entries of one map, a thread's time is the sum of its times over
/// all policies, as far as it fits, and each time that is not zero stands under its thread
/// and policy.
pub proof fn law_thread_time_is_sum(keys: Seq<u64>, ns: Seq<u64>, tid: u32, i: int)
    requires
        keys.len() == ns.len(),
        keys.no_duplicates(),
        0 <= i < keys.len(),
    ensures
        count(kind_absorbed(keys, ns).0, tid) == cap(time_in_all(keys, ns, tid) as int),
        kind_absorbed(keys, ns).1.contains_key(key_pair(keys[i])) <==> ns[i] > 0,
        ns[i] > 0 ==> kind_absorbed(keys, ns).1[key_pair(keys[i])] == ns[i],
{
    lemma_thread_time(keys, ns, tid);
    lemma_pair_time(keys, ns, keys[i]);
}

proof fn lemma_thread_time(keys: Seq<u64>, ns: Seq<u64>, tid: u32)
    requires
        keys.len() == ns.len(),
    ensures
        count(kind_absorbed(keys, ns).0, tid) == cap(time_in_all(keys, ns, tid) as int),
    decreases keys.len(),
{
    if keys.len() > 0 {
        lemma_thread_time(keys.drop_last(), ns.drop_last(), tid);
    }
}

proof fn lemma_pair_time(keys: Seq<u64>, ns: Seq<u64>, key: u64)
    requires
        keys.len() == ns.len(),
        keys.no_duplicates(),
    ensures
        ({
            let pairs = kind_absorbed(keys, ns).1;
            &&& !keys.contains(key) ==> !pairs.contains_key(key_pair(key))
            &&& forall|i: int|
                0 <= i < keys.len() && #[trigger] keys[i] == key ==> {
                    &&& pairs.contains_key(key_pair(key)) <==> ns[i] > 0
                    &&& ns[i] > 0 ==> pairs[key_pair(key)] == ns[i]
                }
        }),
    decreases keys.len(),
{
    if keys.len() > 0 {
        let rest = keys.drop_last();
        lemma_pair_time(rest, ns.drop_last(), key);
        let last = keys.last();
        assert forall|i: int| 0 <= i < rest.len() implies rest[i] != last by {
            assert(keys[i] != keys[keys.len() - 1]);
        }
        assert(keys.contains(last)) by {
            assert(keys[keys.len() - 1] == last);
        }
        if rest.contains(key) {
            let i = choose|i: int| 0 <= i < rest.len() && rest[i] == key;
            assert(keys[i] == key);
        }
        if last != key {
            assert(key_pair(last) != key_pair(key)) by {
                law_key_round_trip(last, 0, 0);
                law_key_round_trip(key, 0, 0);
            }
        }
        assert forall|i: int| 0 <= i < keys.len() && #[trigger] keys[i] == key implies ({
            let pairs = kind_absorbed(keys, ns).1;
            &&& pairs.contains_key(key_pair(key)) <==> ns[i] > 0
            &&& ns[i] > 0 ==> pairs[key_pair(key)] == ns[i]
        }) by {
            if i < rest.len() {
                assert(rest[i] == key);
            } else {
                assert(!rest.contains(key));
            }
        }
    }
}

/// One more entry adds its counters to those of the thread and the policy in its key.
pub proof fn law_entry_goes_to_its_thread(
    maps: FrameMaps,
    keys: Seq<u64>,
    values: Seq<DagThreadMetrics>,
    tid: u32,
    policy: u32,
    metrics: DagThreadMetrics,
)
    requires
        keys.len() == values.len(),
    ensures
        stats_absorbed(maps, Seq::empty(), Seq::empty()) == maps,
        stats_absorbed(maps, keys.push(pair_key(tid, policy)), values.push(metrics))
            == stats_absorbed(maps, keys, values).with(tid, policy, metrics),
{
    law_key_round_trip(0, tid, policy);
    assert(keys.push(pair_key(tid, policy)).drop_last() =~= keys);
    assert(values.push(metrics).drop_last() =~= values);
}

/// One more entry sets the edge between the two threads in its key, and no other.
pub proof fn law_entry_sets_its_edge(
    edges: Map<(u32, u32), u64>,
    keys: Seq<u64>,
    values: Seq<u64>,
    pred: u32,
    succ: u32,
    ns: u64,
)
    requires
        keys.len() == values.len(),
    ensures
        edges_absorbed(edges, Seq::empty(), Seq::empty()) == edges,
        edges_absorbed(edges, keys.push(pair_key(pred, succ)), values.push(ns)) == edges_absorbed(
            edges,
            keys,
            values,
        ).insert((pred, succ), ns),
{
    law_key_round_trip(0, pred, succ);
    assert(keys.push(pair_key(pred, succ)).drop_last() =~= keys);
    assert(values.push(ns).drop_last() =~= values);
}

/// One more entry adds its time to that of its thread, and to no other.
pub proof fn law_entry_adds_its_time(
    keys: Seq<u64>,
    ns: Seq<u64>,
    tid: u32,
    policy: u32,
    more: u64,
    other: u32,
)
    requires
        keys.len() == ns.len(),
        other != tid,
    ensures
        time_in_all(Seq::empty(), Seq::empty(), tid) == 0,
        time_in_all(keys.push(pair_key(tid, policy)), ns.push(more), tid) == time_in_all(
            keys,
            ns,
            tid,
        ) + more,
        time_in_all(keys.push(pair_key(tid, policy)), ns.push(more), other) == time_in_all(
            keys,
            ns,
            other,
        ),
{
    law_key_round_trip(0, tid, policy);
    assert(keys.push(pair_key(tid, policy)).drop_last() =~= keys);
    assert(ns.push(more).drop_last() =~= ns);
}

/// A command that worked took its entries and leaves more. One that came to the end of the
/// map took its entries as well. Any other took none, and its error is handed on.
pub proof fn law_batch_answers(
    ret: i64,
    errno: Option<i32>,
    taken: u32,
    errnos: BatchErrnos,
    other: i32,
)
    requires
        errnos.of_linux(),
        other != 2,
    ensures
        ret >= 0 ==> batch_answer(ret, errno, taken, errnos) == Ok::<(usize, bool), Option<i32>>(
            (taken as usize, false),
        ),
        ret < 0 ==> {
            &&& batch_answer(ret, Some(2), taken, errnos) == Ok::<(usize, bool), Option<i32>>(
                (taken as usize, true),
            )
            &&& batch_answer(ret, Some(other), taken, errnos) == Err::<(usize, bool), Option<i32>>(
                Some(other),
            )
            &&& batch_answer(ret, None, taken, errnos) == Err::<(usize, bool), Option<i32>>(None)
        },
        says_unsupported(Some(22), errnos),
        says_unsupported(Some(errnos.enosys), errnos),
        says_unsupported(Some(errnos.eopnotsupp), errnos),
        !says_unsupported(None, errnos),
        says_unsupported(Some(other), errnos) ==> other == 22 || other == errnos.enosys || other
            == errnos.eopnotsupp,
{
}

/// The maps of a bank bear its number at the end of their names.
pub proof fn law_bank_number_ends_the_names(bank: u32, other: u32)
    requires
        bank < 8,
        other < 8,
    ensures
        stats_map_name(bank).last() as u32 == '0' as u32 + bank,
        edge_map_name(bank).last() as u32 == '0' as u32 + bank,
        stats_map_name(bank).drop_last() == stats_map_name(other).drop_last(),
        edge_map_name(bank).drop_last() == edge_map_name(other).drop_last(),
        stats_map_name(bank) != edge_map_name(other),
{
    reveal_strlit("DAG_THREAD_POLICY_STATS_");
    reveal_strlit("DAG_EDGE_");
    assert(stats_map_name(bank).drop_last() =~= "DAG_THREAD_POLICY_STATS_"@);
    assert(stats_map_name(other).drop_last() =~= "DAG_THREAD_POLICY_STATS_"@);
    assert(edge_map_name(bank).drop_last() =~= "DAG_EDGE_"@);
    assert(edge_map_name(other).drop_last() =~= "DAG_EDGE_"@);
    assert(stats_map_name(bank).len() != edge_map_name(other).len());
}

/// The descriptor of a bank is the one at its place in the list.
pub proof fn law_entry_at_its_place(front: Seq<i32>, fd: i32, back: Seq<i32>, i: u32)
    ensures
        front.len() <= u32::MAX ==> entry(front + seq![fd] + back, front.len() as u32) == Some(fd),
        i >= front.len() ==> entry(front, i) is None,
{
    if front.len() <= u32::MAX {
        assert((front + seq![fd] + back)[front.len() as int] == fd);
    }
}

} // verus!
