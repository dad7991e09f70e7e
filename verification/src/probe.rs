//! The decisions of the kernel probes. A probe reads the kernel maps, asks one of these
//! functions what to do, and writes what it is told to. Nothing here touches the heap.
use crate::dag::cap;
use crate::event::{DagThreadMetrics, Event, EventKind};
use crate::key::{pack_tid_policy, pair_key, unpack_key};
use vstd::prelude::*;

verus! {

/// Most CPUs that the sampler knows.
pub const MAX_CPUS: u32 = 32;

/// Number of banks that the counters of a frame rotate through.
pub const DAG_BANKS: u32 = 8;

/// One frame in so many is sampled.
pub const FRAME_SAMPLE_EVERY: u64 = 4;

/// The policy of a CPU that belongs to none.
pub const INVALID_POLICY: u32 = u32::MAX;

/// Shortest run on a CPU that is recorded.
pub const EXEC_MIN_NS: u64 = 30_000;

/// Shortest wait for a CPU that is recorded.
pub const RQ_MIN_NS: u64 = 20_000;

/// Shortest wait for a futex that is recorded.
pub const FUTEX_MIN_NS: u64 = 100_000;

/// Number of the futex system call on AArch64.
pub const FUTEX_NR_AARCH64: i64 = 98;

pub const FUTEX_CMD_MASK: u32 = 0x7f;

pub const FUTEX_WAIT: u32 = 0;

pub const FUTEX_WAKE: u32 = 1;

pub const FUTEX_WAIT_BITSET: u32 = 9;

pub const FUTEX_WAKE_BITSET: u32 = 10;

/// The last wake-up of a thread.
#[derive(Debug, Copy, Clone, PartialEq, Eq, Structural)]
pub struct DagWakeInfo {
    pub ktime_ns: u64,
    pub waker_tid: u32,
    /// Not zero where the frame was sampled at the time.
    pub sampled: u32,
}

/// A thread that waits for a futex.
#[derive(Debug, Copy, Clone, PartialEq, Eq, Structural)]
pub struct PendingWait {
    pub start_ns: u64,
    pub uaddr: u64,
    pub cpu: u32,
    /// Not zero where the frame was sampled at the time.
    pub sampled: u32,
}

/// The last wake-up on a futex address.
#[derive(Debug, Copy, Clone, PartialEq, Eq, Structural)]
pub struct WakeByAddr {
    pub ktime_ns: u64,
    pub cpu: u32,
    pub waker_tid: u32,
    /// Not zero where the frame was sampled at the time.
    pub sampled: u32,
}

/// Frame `frame_id` is sampled: the first is frame 3, and every fourth after it.
pub open spec fn sampled_frame(frame_id: u64) -> bool {
    frame_id % FRAME_SAMPLE_EVERY == FRAME_SAMPLE_EVERY - 1
}

pub fn should_sample_frame(frame_id: u64) -> (sample: bool)
    ensures
        sample == sampled_frame(frame_id),
{
    if frame_id == 0 {
        return false;
    }
    if FRAME_SAMPLE_EVERY <= 1 {
        return true;
    }
    frame_id.wrapping_add(1) % FRAME_SAMPLE_EVERY == 0
}

/// Of any [`FRAME_SAMPLE_EVERY`] frames in a row exactly one is sampled.
pub proof fn law_one_frame_in_four_is_sampled(frame_id: u64)
    requires
        frame_id + FRAME_SAMPLE_EVERY <= u64::MAX,
    ensures
        exists|k: int| 0 <= k < FRAME_SAMPLE_EVERY && #[trigger] sampled_frame((frame_id + k) as u64),
        forall|j: int, k: int|
            0 <= j < FRAME_SAMPLE_EVERY && 0 <= k < FRAME_SAMPLE_EVERY && #[trigger] sampled_frame(
                (frame_id + j) as u64,
            ) && #[trigger] sampled_frame((frame_id + k) as u64) ==> j == k,
{
    let k = FRAME_SAMPLE_EVERY - 1 - frame_id % FRAME_SAMPLE_EVERY;
    assert(sampled_frame((frame_id + k) as u64));
}

/// The flag in the map says that the current frame is sampled.
pub fn sampling_enabled(flag: Option<u32>) -> (enabled: bool)
    ensures
        enabled == (flag is Some && flag->0 != 0),
{
    match flag {
        Some(v) => v != 0,
        None => false,
    }
}

/// The flag to put into the map.
pub fn sample_flag(enabled: bool) -> (flag: u32)
    ensures
        flag == (if enabled {
            1u32
        } else {
            0u32
        }),
{
    if enabled {
        1
    } else {
        0
    }
}

/// The number of the current frame, zero before the first.
pub fn current_frame_id(entry: Option<u64>) -> (frame_id: u64)
    ensures
        frame_id == (match entry {
            Some(v) => v,
            None => 0,
        }),
{
    match entry {
        Some(v) => v,
        None => 0,
    }
}

/// The bank that `entry` names.
pub open spec fn active_bank(entry: Option<u32>) -> u32 {
    match entry {
        Some(v) => v % DAG_BANKS,
        None => 0,
    }
}

/// The bank that counters go to.
pub fn dag_active_bank(entry: Option<u32>) -> (bank: u32)
    ensures
        bank == active_bank(entry),
        bank < DAG_BANKS,
{
    match entry {
        Some(v) => v % DAG_BANKS,
        None => 0,
    }
}

pub fn valid_cpu(cpu: u32) -> (valid: bool)
    ensures
        valid == (cpu < MAX_CPUS),
{
    cpu < MAX_CPUS
}

/// The policy of `cpu`, where `entry` stands in the policy table for it.
pub open spec fn policy_of(cpu: u32, entry: Option<u32>) -> Option<u32> {
    if cpu < MAX_CPUS && entry is Some && entry->0 != INVALID_POLICY {
        entry
    } else {
        None
    }
}

pub fn cpu_to_policy(cpu: u32, entry: Option<u32>) -> (policy: Option<u32>)
    ensures
        policy == policy_of(cpu, entry),
{
    if !valid_cpu(cpu) {
        return None;
    }
    let p = match entry {
        Some(v) => v,
        None => INVALID_POLICY,
    };
    if p == INVALID_POLICY {
        None
    } else {
        Some(p)
    }
}

/// The task that a probe runs in, and whom the sampler is after.
#[derive(Debug, Copy, Clone, PartialEq, Eq, Structural)]
pub struct Task {
    /// The process that the sampler is after, zero where it is after all.
    pub filter_tgid: u32,
    pub tgid: u32,
    pub tid: u32,
    /// The thread is marked as one of the process.
    pub marked: bool,
}

/// What becomes of an event.
#[derive(Debug, Copy, Clone, PartialEq, Eq, Structural)]
pub struct Verdict {
    pub allowed: bool,
    /// The current thread is to be marked as one of the process.
    pub mark: bool,
}

/// The process and the thread that `pid_tgid` packs.
pub fn current_tgid_tid(pid_tgid: u64) -> (pair: (u32, u32))
    ensures
        pair_key(pair.0, pair.1) == pid_tgid,
{
    unpack_key(pid_tgid)
}

/// The thread that `pid_tgid` packs.
pub fn current_tid(pid_tgid: u64) -> (tid: u32)
    ensures
        exists|tgid: u32| #[trigger] pair_key(tgid, tid) == pid_tgid,
{
    current_tgid_tid(pid_tgid).1
}

impl Task {
    /// The current thread belongs to the process that the sampler is after, and is not
    /// marked yet.
    pub open spec fn to_mark(self) -> bool {
        self.filter_tgid != 0 && self.tgid == self.filter_tgid && !self.marked
    }
}

/// An event of the current task counts where the sampler is after all processes or after
/// this one, or where the thread is marked.
pub fn allow_current_task(task: Task) -> (verdict: Verdict)
    ensures
        verdict.allowed == (task.filter_tgid == 0 || task.tgid == task.filter_tgid || task.marked),
        verdict.mark == task.to_mark(),
{
    if task.filter_tgid == 0 {
        return Verdict { allowed: true, mark: false };
    }
    if task.tgid == task.filter_tgid {
        return Verdict { allowed: true, mark: !task.marked };
    }
    Verdict { allowed: task.marked, mark: false }
}

/// An event that concerns two threads counts where the sampler is after all processes,
/// where either thread is marked, or where it happens in the process. Only in the last
/// case is the current thread marked.
pub fn allow_sched_pair(task: Task, a_marked: bool, b_marked: bool) -> (verdict: Verdict)
    ensures
        verdict.allowed == (task.filter_tgid == 0 || a_marked || b_marked || task.tgid
            == task.filter_tgid),
        verdict.mark == (task.to_mark() && !a_marked && !b_marked),
{
    if task.filter_tgid == 0 {
        return Verdict { allowed: true, mark: false };
    }
    if a_marked || b_marked {
        return Verdict { allowed: true, mark: false };
    }
    if task.tgid == task.filter_tgid {
        return Verdict { allowed: true, mark: !task.marked };
    }
    Verdict { allowed: false, mark: false }
}

/// The counters of one thread on one policy in one bank.
#[derive(Debug, Copy, Clone, PartialEq, Eq, Structural)]
pub struct Slot {
    pub bank: u32,
    pub key: u64,
}

/// Where a time of `tid` on `cpu` is recorded: nowhere if the bank does not exist or the CPU
/// has no policy.
pub open spec fn thread_slot(bank: u32, tid: u32, cpu: u32, entry: Option<u32>) -> Option<Slot> {
    match policy_of(cpu, entry) {
        Some(policy) if bank < DAG_BANKS => Some(Slot { bank, key: pair_key(tid, policy) }),
        _ => None,
    }
}

/// Where a time of `tid` on `cpu` is recorded.
pub fn dag_add_thread(bank: u32, tid: u32, cpu: u32, entry: Option<u32>) -> (slot: Option<Slot>)
    ensures
        slot == thread_slot(bank, tid, cpu, entry),
{
    match cpu_to_policy(cpu, entry) {
        Some(policy) => {
            if bank < DAG_BANKS {
                Some(Slot { bank, key: pack_tid_policy(tid, policy) })
            } else {
                None
            }
        },
        None => None,
    }
}

/// Where the edge from `pred` to `succ` is recorded. There is none from or to the idle
/// thread, none from a thread to itself, and none that took no time.
pub open spec fn edge_slot(bank: u32, pred: u32, succ: u32, delta: u64) -> Option<Slot> {
    if pred != 0 && succ != 0 && pred != succ && delta != 0 && bank < DAG_BANKS {
        Some(Slot { bank, key: pair_key(pred, succ) })
    } else {
        None
    }
}

pub fn dag_add_edge(bank: u32, pred: u32, succ: u32, delta: u64) -> (slot: Option<Slot>)
    ensures
        slot == edge_slot(bank, pred, succ, delta),
{
    if pred == 0 || succ == 0 || pred == succ || delta == 0 || bank >= DAG_BANKS {
        return None;
    }
    Some(Slot { bank, key: pack_tid_policy(pred, succ) })
}

/// The counter `cur` with `delta` added, as far as it fits.
pub fn add_hash_u64_u64(cur: Option<u64>, delta: u64) -> (next: u64)
    ensures
        next == (match cur {
            Some(v) => cap(v + delta),
            None => delta,
        }),
{
    match cur {
        Some(v) => v.saturating_add(delta),
        None => delta,
    }
}

/// The counters before anything was recorded.
pub open spec fn metrics_or_zero(cur: Option<DagThreadMetrics>) -> DagThreadMetrics {
    match cur {
        Some(m) => m,
        None => DagThreadMetrics { exec_ns: 0, rq_delay_ns: 0, futex_wait_ns: 0 },
    }
}

/// The counters `cur` with a run of `delta`, none where that is too short to count.
pub open spec fn with_run(cur: Option<DagThreadMetrics>, delta: u64) -> Option<DagThreadMetrics> {
    if delta < EXEC_MIN_NS {
        None
    } else {
        let m = metrics_or_zero(cur);
        Some(DagThreadMetrics { exec_ns: cap(m.exec_ns + delta), ..m })
    }
}

/// The counters `cur` with a run of `delta`. A run that is too short changes nothing.
pub fn add_hash_thread_exec(cur: Option<DagThreadMetrics>, delta: u64) -> (next: Option<
    DagThreadMetrics,
>)
    ensures
        next == (if delta < EXEC_MIN_NS {
            None
        } else {
            let m = metrics_or_zero(cur);
            Some(DagThreadMetrics { exec_ns: cap(m.exec_ns + delta), ..m })
        }),
        next == with_run(cur, delta),
{
    if delta < EXEC_MIN_NS {
        return None;
    }
    let m = cur.unwrap_or(DagThreadMetrics { exec_ns: 0, rq_delay_ns: 0, futex_wait_ns: 0 });
    Some(DagThreadMetrics { exec_ns: m.exec_ns.saturating_add(delta), ..m })
}

/// The counters `cur` with a wait for a CPU of `delta`, none where that is too short to count.
pub open spec fn with_queueing(cur: Option<DagThreadMetrics>, delta: u64) -> Option<DagThreadMetrics> {
    if delta < RQ_MIN_NS {
        None
    } else {
        let m = metrics_or_zero(cur);
        Some(DagThreadMetrics { rq_delay_ns: cap(m.rq_delay_ns + delta), ..m })
    }
}

/// The counters `cur` with a wait for a CPU of `delta`. One that is too short changes
/// nothing.
pub fn add_hash_thread_rq(cur: Option<DagThreadMetrics>, delta: u64) -> (next: Option<
    DagThreadMetrics,
>)
    ensures
        next == (if delta < RQ_MIN_NS {
            None
        } else {
            let m = metrics_or_zero(cur);
            Some(DagThreadMetrics { rq_delay_ns: cap(m.rq_delay_ns + delta), ..m })
        }),
        next == with_queueing(cur, delta),
{
    if delta < RQ_MIN_NS {
        return None;
    }
    let m = cur.unwrap_or(DagThreadMetrics { exec_ns: 0, rq_delay_ns: 0, futex_wait_ns: 0 });
    Some(DagThreadMetrics { rq_delay_ns: m.rq_delay_ns.saturating_add(delta), ..m })
}

/// The counters `cur` with a wait for a futex of `delta`, none where that is too short to count.
pub open spec fn with_futex_wait(cur: Option<DagThreadMetrics>, delta: u64) -> Option<DagThreadMetrics> {
    if delta < FUTEX_MIN_NS {
        None
    } else {
        let m = metrics_or_zero(cur);
        Some(DagThreadMetrics { futex_wait_ns: cap(m.futex_wait_ns + delta), ..m })
    }
}

/// The counters `cur` with a wait for a futex of `delta`. One that is too short changes
/// nothing.
pub fn add_hash_thread_futex(cur: Option<DagThreadMetrics>, delta: u64) -> (next: Option<
    DagThreadMetrics,
>)
    ensures
        next == (if delta < FUTEX_MIN_NS {
            None
        } else {
            let m = metrics_or_zero(cur);
            Some(DagThreadMetrics { futex_wait_ns: cap(m.futex_wait_ns + delta), ..m })
        }),
        next == with_futex_wait(cur, delta),
{
    if delta < FUTEX_MIN_NS {
        return None;
    }
    let m = cur.unwrap_or(DagThreadMetrics { exec_ns: 0, rq_delay_ns: 0, futex_wait_ns: 0 });
    Some(DagThreadMetrics { futex_wait_ns: m.futex_wait_ns.saturating_add(delta), ..m })
}

/// The time since `start_ns`, where a start is known and lies in the past.
pub open spec fn run_ns(start_ns: u64, now: u64) -> Option<u64> {
    if 0 < start_ns < now {
        Some((now - start_ns) as u64)
    } else {
        None
    }
}

/// What a frame boundary does to one CPU.
#[derive(Debug, Copy, Clone, PartialEq, Eq, Structural)]
pub struct SplitPlan {
    /// The run so far, to be recorded for the running thread in the bank that closes.
    pub exec_ns: Option<u64>,
    /// The run of the thread starts anew now.
    pub restart: bool,
}

/// What a frame boundary does to a CPU on which thread `tid` runs since `start_ns`. No thread
/// of interest runs there where `tid` is zero.
pub open spec fn split_plan(tid: u32, start_ns: u64, now: u64, sample: bool) -> SplitPlan {
    SplitPlan {
        exec_ns: if tid != 0 && sample {
            run_ns(start_ns, now)
        } else {
            None
        },
        restart: tid != 0,
    }
}

/// A frame ends while thread `tid` runs on a CPU since `start_ns`. The run is split: what
/// lies before belongs to the frame that ended.
pub fn split_running_exec_dag(tid: u32, start_ns: u64, now: u64, sample: bool) -> (plan: SplitPlan)
    ensures
        plan == split_plan(tid, start_ns, now, sample),
{
    if tid == 0 {
        return SplitPlan { exec_ns: None, restart: false };
    }
    if start_ns > 0 && now > start_ns && sample {
        SplitPlan { exec_ns: Some(now - start_ns), restart: true }
    } else {
        SplitPlan { exec_ns: None, restart: true }
    }
}

/// A frame boundary loses no time: what a run counts for before it and after it adds up to
/// the whole run.
pub proof fn law_split_loses_no_time(start_ns: u64, boundary_ns: u64, end_ns: u64)
    requires
        0 < start_ns < boundary_ns < end_ns,
    ensures
        run_ns(start_ns, boundary_ns)->0 + run_ns(boundary_ns, end_ns)->0 == run_ns(
            start_ns,
            end_ns,
        )->0,
{
}

/// What the end of a frame does.
#[derive(Debug, Copy, Clone, PartialEq, Eq, Structural)]
pub struct FramePlan {
    /// The number of the frame that starts.
    pub next_frame: u64,
    /// The runs of all CPUs are split, and recorded in the bank where this says so.
    pub split: Option<bool>,
    /// The counters of the frame that ended are complete.
    pub publish: Option<Publication>,
    /// The frame that starts is sampled.
    pub sample_next: bool,
}

/// A frame whose counters are complete.
#[derive(Debug, Copy, Clone, PartialEq, Eq, Structural)]
pub struct Publication {
    /// The frame that ended.
    pub frame_id: u64,
    /// The bank that holds its counters.
    pub bank: u32,
    /// The bank that counters go to from now on.
    pub next_bank: u32,
    /// The first argument of the event that tells of it.
    pub arg0: u64,
    /// The second argument of the event that tells of it.
    pub arg1: u64,
}

/// The number of the frame after `frame_id`.
pub open spec fn frame_after(frame_id: u64) -> u64 {
    if frame_id == u64::MAX {
        0
    } else {
        (frame_id + 1) as u64
    }
}

/// The publication of frame `frame_id`, whose counters lie in `bank`.
pub open spec fn publication(frame_id: u64, bank: u32) -> Publication {
    Publication {
        frame_id,
        bank,
        next_bank: ((bank + 1) % (DAG_BANKS as int)) as u32,
        arg0: frame_after(frame_id),
        arg1: bank as u64,
    }
}

/// A frame was handed to the compositor: frame `prev_frame` ends, with its counters in
/// `closed_bank`, and the next one starts. The first call only starts the first frame.
pub fn frame_point(prev_frame: u64, closed_bank: u32) -> (plan: FramePlan)
    requires
        closed_bank < DAG_BANKS,
    ensures
        plan.next_frame == frame_after(prev_frame),
        plan.split == (if prev_frame > 0 {
            Some(sampled_frame(prev_frame))
        } else {
            None
        }),
        plan.publish == (if sampled_frame(prev_frame) {
            Some(publication(prev_frame, closed_bank))
        } else {
            None
        }),
        plan.sample_next == sampled_frame(frame_after(prev_frame)),
{
    let next_frame = prev_frame.wrapping_add(1);
    let mut split: Option<bool> = None;
    let mut publish: Option<Publication> = None;
    if prev_frame > 0 {
        let sample_prev = should_sample_frame(prev_frame);
        split = Some(sample_prev);
        if sample_prev {
            publish = Some(
                Publication {
                    frame_id: prev_frame,
                    bank: closed_bank,
                    next_bank: (closed_bank + 1) % DAG_BANKS,
                    arg0: next_frame,
                    arg1: closed_bank as u64,
                },
            );
        }
    }
    FramePlan { next_frame, split, publish, sample_next: should_sample_frame(next_frame) }
}

/// The event that tells of a publication, sent at `ktime_ns` from `cpu`.
pub fn frame_event(publication: Publication, ktime_ns: u64, pid_tgid: u64, cpu: u32) -> (event:
    Event)
    ensures
        event.ktime_ns == ktime_ns,
        pair_key(event.pid, event.tid) == pid_tgid,
        event.cpu == cpu,
        event.kind == EventKind::FramePoint.code_spec(),
        event.flags == 0,
        event._pad@ == seq![0u8, 0u8],
        event.arg0 == publication.arg0,
        event.arg1 == publication.arg1,
{
    let (pid, tid) = current_tgid_tid(pid_tgid);
    Event::new(
        ktime_ns,
        pid,
        tid,
        cpu,
        EventKind::FramePoint,
        0,
        publication.arg0,
        publication.arg1,
    )
}

/// What a context switch does.
#[derive(Debug, Copy, Clone, PartialEq, Eq)]
pub struct SwitchPlan {
    /// The run of the thread that leaves, to be recorded.
    pub exec_ns: Option<u64>,
    /// No thread of interest runs on the CPU any more.
    pub stop: bool,
    /// The wait of the thread that comes, to be recorded with the thread that woke it.
    pub wait: Option<(u64, u32)>,
    /// The wake-up of the thread that comes is done with.
    pub forget_wakeup: bool,
    /// The thread that comes runs on the CPU from now on.
    pub start: bool,
}

/// What a CPU runs.
#[derive(Debug, Copy, Clone, PartialEq, Eq, Structural)]
pub struct Running {
    /// Zero where no thread of interest runs.
    pub tid: u32,
    pub start_ns: u64,
}

/// What the switch from `prev_tid` to another thread on `cpu` does, where the last wake-up of
/// that thread is `wakeup`. Only threads of interest count. A run that `running` does not
/// know of is not recorded, and a wait is recorded only where its wake-up fell into a sampled
/// frame too.
pub open spec fn switch_plan(
    prev_tid: u32,
    prev_of_interest: bool,
    next_of_interest: bool,
    cpu: u32,
    now: u64,
    sample: bool,
    running: Running,
    wakeup: Option<DagWakeInfo>,
) -> SwitchPlan {
    let stop = prev_of_interest && cpu < MAX_CPUS;
    let start = next_of_interest && cpu < MAX_CPUS;
    SwitchPlan {
        exec_ns: if stop && running.tid == prev_tid && sample {
            run_ns(running.start_ns, now)
        } else {
            None
        },
        stop,
        wait: match wakeup {
            Some(wake) if start && sample && wake.sampled != 0 && now > wake.ktime_ns => Some(
                ((now - wake.ktime_ns) as u64, wake.waker_tid),
            ),
            _ => None,
        },
        forget_wakeup: start && wakeup is Some,
        start,
    }
}

/// On `cpu` thread `prev_tid` leaves and another comes, whose last wake-up is `wakeup`.
pub fn sched_switch(
    prev_tid: u32,
    prev_of_interest: bool,
    next_of_interest: bool,
    cpu: u32,
    now: u64,
    sample: bool,
    running: Running,
    wakeup: Option<DagWakeInfo>,
) -> (plan: SwitchPlan)
    ensures
        plan == switch_plan(
            prev_tid,
            prev_of_interest,
            next_of_interest,
            cpu,
            now,
            sample,
            running,
            wakeup,
        ),
{
    let mut plan = SwitchPlan {
        exec_ns: None,
        stop: false,
        wait: None,
        forget_wakeup: false,
        start: false,
    };
    if prev_of_interest && valid_cpu(cpu) {
        if running.tid == prev_tid {
            if running.start_ns > 0 && now > running.start_ns {
                if sample {
                    plan.exec_ns = Some(now - running.start_ns);
                }
            }
        }
        plan.stop = true;
    }
    if next_of_interest && valid_cpu(cpu) {
        if let Some(wake) = wakeup {
            if now > wake.ktime_ns {
                let delay = now - wake.ktime_ns;
                if sample && wake.sampled != 0 {
                    plan.wait = Some((delay, wake.waker_tid));
                }
            }
            plan.forget_wakeup = true;
        }
        plan.start = true;
    }
    plan
}

/// Something that happens on one CPU.
pub enum CpuEvent {
    /// Thread `prev_tid` leaves and thread `next_tid` comes.
    Switch {
        prev_tid: u32,
        prev_of_interest: bool,
        next_tid: u32,
        next_of_interest: bool,
        wakeup: Option<DagWakeInfo>,
    },
    /// A frame ends.
    FrameEnd,
}

/// What a CPU runs, and the running time that was recorded on it so far.
pub struct CpuAccount {
    pub running: Running,
    pub recorded_ns: nat,
}

/// The time in `ns`, zero where there is none.
pub open spec fn or_zero(ns: Option<u64>) -> nat {
    match ns {
        Some(v) => v as nat,
        None => 0,
    }
}

impl CpuAccount {
    /// The account after `event` at `now`.
    pub open spec fn after(self, event: CpuEvent, cpu: u32, now: u64, sample: bool) -> CpuAccount {
        match event {
            CpuEvent::Switch { prev_tid, prev_of_interest, next_tid, next_of_interest, wakeup } => {
                let plan = switch_plan(
                    prev_tid,
                    prev_of_interest,
                    next_of_interest,
                    cpu,
                    now,
                    sample,
                    self.running,
                    wakeup,
                );
                CpuAccount {
                    running: if plan.start {
                        Running { tid: next_tid, start_ns: now }
                    } else if plan.stop {
                        Running { tid: 0, start_ns: 0 }
                    } else {
                        self.running
                    },
                    recorded_ns: self.recorded_ns + or_zero(plan.exec_ns),
                }
            },
            CpuEvent::FrameEnd => {
                let plan = split_plan(self.running.tid, self.running.start_ns, now, sample);
                CpuAccount {
                    running: if plan.restart {
                        Running { start_ns: now, ..self.running }
                    } else {
                        self.running
                    },
                    recorded_ns: self.recorded_ns + or_zero(plan.exec_ns),
                }
            },
        }
    }

    /// The account after `events`, each with its time and whether the frame was sampled.
    pub open spec fn after_all(self, events: Seq<(CpuEvent, u64, bool)>, cpu: u32) -> CpuAccount
        decreases events.len(),
    {
        if events.len() == 0 {
            self
        } else {
            let (event, now, sample) = events.last();
            self.after_all(events.drop_last(), cpu).after(event, cpu, now, sample)
        }
    }
}

/// No event comes before one that stands before it, nor before `since_ns`.
pub open spec fn in_time(events: Seq<(CpuEvent, u64, bool)>, since_ns: u64) -> bool {
    &&& forall|i: int| 0 <= i < events.len() ==> since_ns <= (#[trigger] events[i]).1
    &&& forall|i: int, j: int|
        0 <= i < j < events.len() ==> (#[trigger] events[i]).1 <= (#[trigger] events[j]).1
}

/// When the last of `events` came, `since_ns` where there are none.
pub open spec fn last_ns(events: Seq<(CpuEvent, u64, bool)>, since_ns: u64) -> u64 {
    if events.len() == 0 {
        since_ns
    } else {
        events.last().1
    }
}

/// On no CPU is running time recorded twice: whatever happens on it, the time recorded since
/// a moment at which nothing ran is at most the time that passed.
pub proof fn law_running_time_is_counted_once(
    events: Seq<(CpuEvent, u64, bool)>,
    cpu: u32,
    since_ns: u64,
)
    requires
        in_time(events, since_ns),
    ensures
        ({
            let idle = CpuAccount { running: Running { tid: 0, start_ns: 0 }, recorded_ns: 0 };
            let account = idle.after_all(events, cpu);
            account.recorded_ns + since_ns <= last_ns(events, since_ns)
        }),
{
    lemma_account(events, cpu, since_ns);
}

proof fn lemma_account(events: Seq<(CpuEvent, u64, bool)>, cpu: u32, since_ns: u64)
    requires
        in_time(events, since_ns),
    ensures
        ({
            let idle = CpuAccount { running: Running { tid: 0, start_ns: 0 }, recorded_ns: 0 };
            let account = idle.after_all(events, cpu);
            &&& account.recorded_ns + since_ns <= last_ns(events, since_ns)
            &&& account.running.start_ns > 0 ==> account.recorded_ns + since_ns
                <= account.running.start_ns <= last_ns(events, since_ns)
        }),
    decreases events.len(),
{
    if events.len() > 0 {
        let front = events.drop_last();
        assert(in_time(front, since_ns)) by {
            assert forall|i: int| 0 <= i < front.len() implies since_ns <= (#[trigger] front[i]).1 by {
                assert(front[i] == events[i]);
            }
            assert forall|i: int, j: int| 0 <= i < j < front.len() implies (#[trigger] front[i]).1
                <= (#[trigger] front[j]).1 by {
                assert(front[i] == events[i] && front[j] == events[j]);
            }
        }
        lemma_account(front, cpu, since_ns);
        assert(last_ns(front, since_ns) <= events.last().1) by {
            if front.len() > 0 {
                assert(events[front.len() - 1].1 <= events[events.len() - 1].1);
                assert(front.last() == events[front.len() - 1]);
            }
        }
    }
}

/// Thread `waker_tid` woke another: the wake-up to remember, where that one is of interest.
pub fn sched_wakeup(waker_tid: u32, wakee_of_interest: bool, now: u64, sample: bool) -> (wakeup:
    Option<DagWakeInfo>)
    ensures
        wakeup == (if wakee_of_interest {
            Some(
                DagWakeInfo {
                    ktime_ns: now,
                    waker_tid,
                    sampled: if sample {
                        1
                    } else {
                        0
                    },
                },
            )
        } else {
            None
        }),
{
    if wakee_of_interest {
        Some(DagWakeInfo { ktime_ns: now, waker_tid, sampled: sample_flag(sample) })
    } else {
        None
    }
}

/// What a futex call starts.
#[derive(Debug, Copy, Clone, PartialEq, Eq, Structural)]
pub enum FutexPlan {
    /// The thread waits.
    Wait(PendingWait),
    /// The thread wakes those that wait on the address.
    Wake(WakeByAddr),
    Nothing,
}

/// The command in `op` waits.
pub open spec fn futex_waits(op: u32) -> bool {
    op & FUTEX_CMD_MASK == FUTEX_WAIT || op & FUTEX_CMD_MASK == FUTEX_WAIT_BITSET
}

/// The command in `op` wakes.
pub open spec fn futex_wakes(op: u32) -> bool {
    op & FUTEX_CMD_MASK == FUTEX_WAKE || op & FUTEX_CMD_MASK == FUTEX_WAKE_BITSET
}

/// What a futex call with `op` on `uaddr` starts.
pub open spec fn futex_plan(
    uaddr: u64,
    op: u32,
    tid: u32,
    cpu: u32,
    now: u64,
    sample: bool,
) -> FutexPlan {
    let sampled: u32 = if sample {
        1
    } else {
        0
    };
    if futex_waits(op) {
        FutexPlan::Wait(PendingWait { start_ns: now, uaddr, cpu, sampled })
    } else if futex_wakes(op) {
        FutexPlan::Wake(WakeByAddr { ktime_ns: now, cpu, waker_tid: tid, sampled })
    } else {
        FutexPlan::Nothing
    }
}

/// Thread `tid` enters a futex call on `cpu`.
pub fn handle_futex_enter_dag(uaddr: u64, op: u32, tid: u32, cpu: u32, now: u64, sample: bool) -> (
plan: FutexPlan)
    ensures
        plan == futex_plan(uaddr, op, tid, cpu, now, sample),
{
    let cmd = op & FUTEX_CMD_MASK;
    if cmd == FUTEX_WAIT || cmd == FUTEX_WAIT_BITSET {
        FutexPlan::Wait(PendingWait { start_ns: now, uaddr, cpu, sampled: sample_flag(sample) })
    } else if cmd == FUTEX_WAKE || cmd == FUTEX_WAKE_BITSET {
        FutexPlan::Wake(
            WakeByAddr { ktime_ns: now, cpu, waker_tid: tid, sampled: sample_flag(sample) },
        )
    } else {
        FutexPlan::Nothing
    }
}

/// What the end of a futex call does.
#[derive(Debug, Copy, Clone, PartialEq, Eq)]
pub struct FutexExitPlan {
    /// The wait, to be recorded on the CPU.
    pub wait: Option<(u64, u32)>,
    /// The thread that ended the wait, to be recorded with the wait as an edge.
    pub waker: Option<u32>,
}

/// The wake-up came during the wait.
pub open spec fn wake_ends_wait(wake: WakeByAddr, pending: PendingWait, now: u64) -> bool {
    pending.start_ns <= wake.ktime_ns <= now
}

/// What a futex wait that ends at `now` does, where `wake` is the last wake-up on its
/// address. A wait is recorded where the frame is sampled now and was so when it began; an
/// edge only where the wake-up fell into a sampled frame too. The wait counts for the CPU
/// of the thread that ended it.
pub open spec fn futex_exit_plan(
    pending: PendingWait,
    wake: Option<WakeByAddr>,
    now: u64,
    sampling: bool,
) -> FutexExitPlan {
    let sample = now > pending.start_ns && sampling && pending.sampled != 0;
    let ended = wake is Some && wake_ends_wait(wake->0, pending, now);
    FutexExitPlan {
        wait: if sample {
            Some(
                (
                    (now - pending.start_ns) as u64,
                    if ended {
                        wake->0.cpu
                    } else {
                        pending.cpu
                    },
                ),
            )
        } else {
            None
        },
        waker: if sample && ended && wake->0.sampled != 0 {
            Some(wake->0.waker_tid)
        } else {
            None
        },
    }
}

/// A futex call ends in which the thread waited since `pending`.
pub fn handle_futex_exit_dag(
    pending: PendingWait,
    wake: Option<WakeByAddr>,
    now: u64,
    sampling: bool,
) -> (plan: FutexExitPlan)
    ensures
        plan == futex_exit_plan(pending, wake, now, sampling),
{
    if now <= pending.start_ns {
        return FutexExitPlan { wait: None, waker: None };
    }
    let wait_ns = now - pending.start_ns;
    let sample = sampling && pending.sampled != 0;
    let mut attr_cpu = pending.cpu;
    let mut waker: Option<u32> = None;
    if let Some(wake) = wake {
        if wake.ktime_ns >= pending.start_ns && wake.ktime_ns <= now {
            attr_cpu = wake.cpu;
            if sample && wake.sampled != 0 {
                waker = Some(wake.waker_tid);
            }
        }
    }
    if sample {
        FutexExitPlan { wait: Some((wait_ns, attr_cpu)), waker }
    } else {
        FutexExitPlan { wait: None, waker }
    }
}

/// A system call with number `id` and arguments `args` is entered: what it starts if it is
/// a futex call.
pub fn raw_sys_enter(id: i64, args: [u64; 6], tid: u32, cpu: u32, now: u64, sample: bool) -> (plan:
    FutexPlan)
    ensures
        plan == (if id == FUTEX_NR_AARCH64 {
            futex_plan(args[0], args[1] as u32, tid, cpu, now, sample)
        } else {
            FutexPlan::Nothing
        }),
{
    if id != FUTEX_NR_AARCH64 {
        return FutexPlan::Nothing;
    }
    handle_futex_enter_dag(args[0], #[verifier::truncate] (args[1] as u32), tid, cpu, now, sample)
}

/// The end of a system call with number `id` is that of a futex call.
pub fn raw_sys_exit(id: i64) -> (futex: bool)
    ensures
        futex == (id == FUTEX_NR_AARCH64),
{
    id == FUTEX_NR_AARCH64
}

/// A futex call with the 64-bit argument `op` is entered.
pub fn sys_enter_futex(uaddr: u64, op: u64, tid: u32, cpu: u32, now: u64, sample: bool) -> (plan:
    FutexPlan)
    ensures
        plan == futex_plan(uaddr, op as u32, tid, cpu, now, sample),
{
    handle_futex_enter_dag(uaddr, #[verifier::truncate] (op as u32), tid, cpu, now, sample)
}

/// The run of a thread of interest that leaves a CPU is recorded in full in a sampled frame,
/// whoever comes next: from when the CPU was known to run it until now. A run that the CPU is
/// not known to have begun, or not before now, is not recorded, nor is any outside a sampled
/// frame or on a CPU that is not known.
pub proof fn law_leaving_run_is_recorded(
    prev_tid: u32,
    prev_of_interest: bool,
    next_of_interest: bool,
    cpu: u32,
    now: u64,
    sample: bool,
    running: Running,
    wakeup: Option<DagWakeInfo>,
)
    ensures
        ({
            let plan = switch_plan(
                prev_tid,
                prev_of_interest,
                next_of_interest,
                cpu,
                now,
                sample,
                running,
                wakeup,
            );
            let known = prev_of_interest && cpu < 32 && running.tid == prev_tid && 0
                < running.start_ns && running.start_ns < now;
            &&& known && sample ==> plan.exec_ns is Some && plan.exec_ns->0 + running.start_ns
                == now
            &&& !(known && sample) ==> plan.exec_ns is None
            &&& plan.stop <==> prev_of_interest && cpu < 32
            &&& plan.start <==> next_of_interest && cpu < 32
        }),
{
}

/// The wait of a thread of interest that comes to a CPU is recorded in full, with the thread
/// that woke it, where both the wake-up and now fall into sampled frames, whoever leaves. The
/// wake-up counts once: it is forgotten whether or not it was recorded.
pub proof fn law_wait_for_cpu_is_recorded(
    prev_tid: u32,
    prev_of_interest: bool,
    next_of_interest: bool,
    cpu: u32,
    now: u64,
    sample: bool,
    running: Running,
    wakeup: Option<DagWakeInfo>,
)
    ensures
        ({
            let plan = switch_plan(
                prev_tid,
                prev_of_interest,
                next_of_interest,
                cpu,
                now,
                sample,
                running,
                wakeup,
            );
            let comes = next_of_interest && cpu < 32;
            match wakeup {
                Some(wake) => {
                    &&& comes && sample && wake.sampled != 0 && wake.ktime_ns < now ==> plan.wait
                        == Some(((now - wake.ktime_ns) as u64, wake.waker_tid))
                    &&& !(comes && sample && wake.sampled != 0 && wake.ktime_ns < now)
                        ==> plan.wait is None
                    &&& plan.forget_wakeup <==> comes
                },
                None => plan.wait is None && !plan.forget_wakeup,
            }
        }),
{
}

/// The thread of interest that a CPU runs after `events`, by the switches alone.
pub open spec fn on_cpu(events: Seq<(CpuEvent, u64, bool)>) -> Option<u32>
    decreases events.len(),
{
    if events.len() == 0 {
        None
    } else {
        match events.last().0 {
            CpuEvent::Switch { next_tid, next_of_interest, .. } => if next_of_interest {
                Some(next_tid)
            } else {
                None
            },
            CpuEvent::FrameEnd => on_cpu(events.drop_last()),
        }
    }
}

/// Up to the last of `events`, the time for which a thread of interest was on the CPU.
pub open spec fn interest_ns(events: Seq<(CpuEvent, u64, bool)>, since_ns: u64) -> int
    decreases events.len(),
{
    if events.len() == 0 {
        0
    } else {
        let front = events.drop_last();
        interest_ns(front, since_ns) + (if on_cpu(front) is Some {
            events.last().1 - last_ns(front, since_ns)
        } else {
            0
        })
    }
}

/// `event` can follow `front` on a CPU: the thread that leaves is the one that was there, and
/// only the idle thread has the number zero.
pub open spec fn can_follow(front: Seq<(CpuEvent, u64, bool)>, event: CpuEvent) -> bool {
    match event {
        CpuEvent::Switch { prev_tid, prev_of_interest, next_tid, next_of_interest, .. } => {
            &&& prev_of_interest == (on_cpu(front) is Some)
            &&& prev_of_interest ==> on_cpu(front) == Some(prev_tid)
            &&& next_of_interest ==> next_tid != 0
        },
        CpuEvent::FrameEnd => true,
    }
}

/// `events` can happen on a CPU one after the other.
pub open spec fn can_happen(events: Seq<(CpuEvent, u64, bool)>) -> bool
    decreases events.len(),
{
    events.len() > 0 ==> can_happen(events.drop_last()) && can_follow(
        events.drop_last(),
        events.last().0,
    )
}

/// In sampled frames no running time is lost and none is made up: the time recorded on a CPU
/// is the time for which a thread of interest was on it, however the switches and the ends of
/// frames fall.
pub proof fn law_sampled_running_time_is_exact(
    events: Seq<(CpuEvent, u64, bool)>,
    cpu: u32,
    since_ns: u64,
)
    requires
        in_time(events, since_ns),
        can_happen(events),
        since_ns > 0,
        cpu < 32,
        forall|i: int| 0 <= i < events.len() ==> (#[trigger] events[i]).2,
    ensures
        ({
            let idle = CpuAccount { running: Running { tid: 0, start_ns: 0 }, recorded_ns: 0 };
            idle.after_all(events, cpu).recorded_ns == interest_ns(events, since_ns)
        }),
{
    lemma_exact(events, cpu, since_ns);
}

proof fn lemma_exact(events: Seq<(CpuEvent, u64, bool)>, cpu: u32, since_ns: u64)
    requires
        in_time(events, since_ns),
        can_happen(events),
        since_ns > 0,
        cpu < 32,
        forall|i: int| 0 <= i < events.len() ==> (#[trigger] events[i]).2,
    ensures
        ({
            let idle = CpuAccount { running: Running { tid: 0, start_ns: 0 }, recorded_ns: 0 };
            let account = idle.after_all(events, cpu);
            &&& account.recorded_ns == interest_ns(events, since_ns)
            &&& on_cpu(events) is Some ==> account.running == (Running {
                tid: on_cpu(events)->0,
                start_ns: last_ns(events, since_ns),
            }) && on_cpu(events)->0 != 0
            &&& on_cpu(events) is None ==> account.running.tid == 0
            &&& last_ns(events, since_ns) >= since_ns
        }),
    decreases events.len(),
{
    if events.len() > 0 {
        let front = events.drop_last();
        assert(in_time(front, since_ns)) by {
            assert forall|i: int| 0 <= i < front.len() implies since_ns <= (#[trigger] front[i]).1 by {
                assert(front[i] == events[i]);
            }
            assert forall|i: int, j: int| 0 <= i < j < front.len() implies (#[trigger] front[i]).1
                <= (#[trigger] front[j]).1 by {
                assert(front[i] == events[i] && front[j] == events[j]);
            }
        }
        assert forall|i: int| 0 <= i < front.len() implies (#[trigger] front[i]).2 by {
            assert(front[i] == events[i]);
        }
        lemma_exact(front, cpu, since_ns);
        assert(events[events.len() - 1] == events.last());
        assert(last_ns(front, since_ns) <= events.last().1) by {
            if front.len() > 0 {
                assert(events[front.len() - 1].1 <= events[events.len() - 1].1);
                assert(front.last() == events[front.len() - 1]);
            }
        }
    }
}

/// At the end of a sampled frame the run so far of each thread on a CPU is recorded, and every
/// such run begins anew, sampled or not.
pub proof fn law_frame_end_records_runs(tid: u32, start_ns: u64, now: u64, sample: bool)
    ensures
        ({
            let plan = split_plan(tid, start_ns, now, sample);
            &&& plan.restart <==> tid != 0
            &&& tid != 0 && sample && 0 < start_ns && start_ns < now ==> plan.exec_ns is Some
                && plan.exec_ns->0 + start_ns == now
            &&& tid == 0 || !sample || start_ns == 0 || start_ns >= now ==> plan.exec_ns is None
        }),
{
}

/// The first frame that is sampled is the third, and what holds of a frame holds of the fourth
/// after it.
pub proof fn law_every_fourth_frame_from_the_third(frame_id: u64)
    requires
        frame_id + 4 <= u64::MAX,
    ensures
        !sampled_frame(0) && !sampled_frame(1) && !sampled_frame(2) && sampled_frame(3),
        sampled_frame((frame_id + 4) as u64) == sampled_frame(frame_id),
{
}

/// What a futex call starts depends on its command alone, whatever flags stand above it: the
/// two that wait start a wait at this moment, the two that wake tell of a wake-up, and all
/// others do nothing.
pub proof fn law_futex_commands(
    uaddr: u64,
    op: u32,
    tid: u32,
    cpu: u32,
    now: u64,
    sample: bool,
)
    ensures
        ({
            let plan = futex_plan(uaddr, op, tid, cpu, now, sample);
            let command = op % 128;
            &&& command == 0 || command == 9 ==> {
                &&& plan matches FutexPlan::Wait(wait)
                &&& wait.start_ns == now
                &&& wait.uaddr == uaddr
                &&& wait.cpu == cpu
                &&& wait.sampled != 0 <==> sample
            }
            &&& command == 1 || command == 10 ==> {
                &&& plan matches FutexPlan::Wake(wake)
                &&& wake.ktime_ns == now
                &&& wake.waker_tid == tid
                &&& wake.cpu == cpu
                &&& wake.sampled != 0 <==> sample
            }
            &&& command != 0 && command != 1 && command != 9 && command != 10 ==> plan
                == FutexPlan::Nothing
        }),
{
    assert(op & 0x7f == op % 128) by (bit_vector);
}

/// A wait for a futex that began in a sampled frame and ends in one is recorded in full: from
/// its begin until now. It counts for the CPU of the thread whose wake-up fell between, if
/// there was one, and that thread is recorded with it if its wake-up was sampled too. All
/// other waits leave nothing behind.
pub proof fn law_futex_wait_is_recorded(
    pending: PendingWait,
    wake: Option<WakeByAddr>,
    now: u64,
    sampling: bool,
)
    ensures
        ({
            let plan = futex_exit_plan(pending, wake, now, sampling);
            let counts = sampling && pending.sampled != 0 && pending.start_ns < now;
            &&& counts ==> {
                &&& plan.wait matches Some((wait_ns, cpu))
                &&& wait_ns + pending.start_ns == now
                &&& match wake {
                    None => cpu == pending.cpu && plan.waker is None,
                    Some(w) => if pending.start_ns <= w.ktime_ns && w.ktime_ns <= now {
                        cpu == w.cpu && plan.waker == (if w.sampled != 0 {
                            Some(w.waker_tid)
                        } else {
                            None
                        })
                    } else {
                        cpu == pending.cpu && plan.waker is None
                    },
                }
            }
            &&& !counts ==> plan.wait is None && plan.waker is None
        }),
{
}

/// The time of a thread on a CPU goes to the bank and to the policy of the CPU, under the
/// thread, and nowhere else; it is lost only where the bank or the CPU does not exist or the
/// CPU has no policy.
pub proof fn law_thread_times_find_their_slot(bank: u32, tid: u32, cpu: u32, entry: Option<u32>)
    ensures
        ({
            let slot = thread_slot(bank, tid, cpu, entry);
            &&& slot is Some <==> bank < 8 && cpu < 32 && entry is Some && entry->0 != u32::MAX
            &&& slot is Some ==> slot->0.bank == bank && slot->0.key == tid as u64 * 0x1_0000_0000
                + entry->0
        }),
{
}

/// An edge goes to the bank, under the thread that woke and the one that was woken. There is
/// none from or to the idle thread, none from a thread to itself, and none that took no time.
pub proof fn law_edges_find_their_slot(bank: u32, pred: u32, succ: u32, delta: u64)
    ensures
        ({
            let slot = edge_slot(bank, pred, succ, delta);
            &&& slot is Some <==> bank < 8 && pred > 0 && succ > 0 && pred != succ && delta > 0
            &&& slot is Some ==> slot->0.bank == bank && slot->0.key == pred as u64
                * 0x1_0000_0000 + succ
        }),
{
}

/// A frame that ends is published under its own number and with the bank that its counters are
/// in; the counters of the next go to the bank after it, and the event tells of the number
/// after it.
pub proof fn law_publication(frame_id: u64, bank: u32)
    requires
        bank < 8,
        frame_id < u64::MAX,
    ensures
        ({
            let p = publication(frame_id, bank);
            &&& p.frame_id == frame_id
            &&& p.bank == bank
            &&& bank < 7 ==> p.next_bank == bank + 1
            &&& bank == 7 ==> p.next_bank == 0
            &&& p.arg0 == frame_id + 1
            &&& p.arg1 == bank
        }),
{
}

/// The bank that counters go to is the one that the entry names, counted round.
pub proof fn law_active_bank(bank: u32)
    ensures
        active_bank(None) == 0,
        bank < 8 ==> active_bank(Some(bank)) == bank,
        bank + 8 <= u32::MAX ==> active_bank(Some((bank + 8) as u32)) == active_bank(Some(bank)),
{
}

/// A thread is marked once, and only where the sampler is after its process.
pub proof fn law_marks(task: Task)
    ensures
        task.to_mark() ==> task.tgid == task.filter_tgid && task.tgid != 0 && !(Task {
            marked: true,
            ..task
        }).to_mark(),
        task.filter_tgid == task.tgid && task.tgid != 0 ==> task.to_mark() != task.marked,
{
}

/// Counters begin at zero and go on from where they are.
pub proof fn law_counters_begin_at_zero(cur: DagThreadMetrics)
    ensures
        metrics_or_zero(Some(cur)) == cur,
        metrics_or_zero(None).exec_ns == 0,
        metrics_or_zero(None).rq_delay_ns == 0,
        metrics_or_zero(None).futex_wait_ns == 0,
{
}

/// A CPU has the policy that stands in the table for it, unless that is the mark for none.
pub proof fn law_policy_in_the_table(cpu: u32, policy: u32)
    ensures
        policy_of(cpu, None) is None,
        policy_of(cpu, Some(u32::MAX)) is None,
        cpu < 32 && policy < u32::MAX ==> policy_of(cpu, Some(policy)) == Some(policy),
        cpu >= 32 ==> policy_of(cpu, Some(policy)) is None,
{
}

/// A run that lasts for 30 microseconds or more is added to the time that the thread ran, one
/// that is shorter is dropped. The other counters stay.
pub proof fn law_runs_are_added(cur: DagThreadMetrics, delta: u64)
    ensures
        with_run(Some(cur), delta) is Some <==> delta >= 30_000,
        with_run(None, delta) is Some <==> delta >= 30_000,
        with_run(None, delta) matches Some(next) ==> next == (DagThreadMetrics {
            exec_ns: delta,
            rq_delay_ns: 0,
            futex_wait_ns: 0,
        }),
        with_run(Some(cur), delta) matches Some(next) ==> {
            &&& cur.exec_ns + delta <= u64::MAX ==> next.exec_ns == cur.exec_ns + delta
            &&& cur.exec_ns + delta > u64::MAX ==> next.exec_ns == u64::MAX
            &&& next.rq_delay_ns == cur.rq_delay_ns
            &&& next.futex_wait_ns == cur.futex_wait_ns
        },
{
}

/// A wait for a CPU that lasts for 20 microseconds or more is added to the time that the thread
/// waited for one, a shorter one is dropped. The other counters stay.
pub proof fn law_waits_for_a_cpu_are_added(cur: DagThreadMetrics, delta: u64)
    ensures
        with_queueing(Some(cur), delta) is Some <==> delta >= 20_000,
        with_queueing(None, delta) is Some <==> delta >= 20_000,
        with_queueing(None, delta) matches Some(next) ==> next == (DagThreadMetrics {
            exec_ns: 0,
            rq_delay_ns: delta,
            futex_wait_ns: 0,
        }),
        with_queueing(Some(cur), delta) matches Some(next) ==> {
            &&& cur.rq_delay_ns + delta <= u64::MAX ==> next.rq_delay_ns == cur.rq_delay_ns + delta
            &&& cur.rq_delay_ns + delta > u64::MAX ==> next.rq_delay_ns == u64::MAX
            &&& next.exec_ns == cur.exec_ns
            &&& next.futex_wait_ns == cur.futex_wait_ns
        },
{
}

/// A wait for a futex that lasts for 100 microseconds or more is added to the time that the
/// thread waited for one, a shorter one is dropped. The other counters stay.
pub proof fn law_waits_for_a_futex_are_added(cur: DagThreadMetrics, delta: u64)
    ensures
        with_futex_wait(Some(cur), delta) is Some <==> delta >= 100_000,
        with_futex_wait(None, delta) is Some <==> delta >= 100_000,
        with_futex_wait(None, delta) matches Some(next) ==> next == (DagThreadMetrics {
            exec_ns: 0,
            rq_delay_ns: 0,
            futex_wait_ns: delta,
        }),
        with_futex_wait(Some(cur), delta) matches Some(next) ==> {
            &&& cur.futex_wait_ns + delta <= u64::MAX ==> next.futex_wait_ns == cur.futex_wait_ns
                + delta
            &&& cur.futex_wait_ns + delta > u64::MAX ==> next.futex_wait_ns == u64::MAX
            &&& next.exec_ns == cur.exec_ns
            &&& next.rq_delay_ns == cur.rq_delay_ns
        },
{
}

} // verus!
