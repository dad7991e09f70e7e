//! The worker that keeps the newest weights of the watched processes at hand.
use std::collections::HashMap;
use crate::analyzer::TimedPolicyWeights;
use crate::pids::{distinct, holds_pid, lemma_push_contains, lemma_without, vec_without};
use crate::target::elapsed;
use vstd::prelude::*;
use vstd::std_specs::hash::*;
use vstd::std_specs::iter::IteratorSpec;

verus! {

broadcast use vstd::std_specs::hash::group_hash_axioms;

/// How long the worker waits for weights at a time: 20 milliseconds.
pub const CPCS_RECV_TIMEOUT_NS: u128 = 20_000_000;

/// Weights that are older count for nothing: two seconds.
pub const CPCS_STALE_TIMEOUT_NS: u128 = 2_000_000_000;

/// What the worker is told to do.
#[derive(Debug, Copy, Clone, PartialEq, Eq, Structural)]
pub enum CpcsWorkerCmd {
    Attach(i32),
    Detach(i32),
}

/// What the worker has to do next.
#[derive(Debug, Copy, Clone, PartialEq, Eq, Structural)]
pub enum WorkerAction {
    /// Wait for a command.
    WaitCommand,
    /// Take a command if there is one.
    TryCommand,
    /// Watch the process.
    Attach(i32),
    /// Stop watching the process.
    Detach(i32),
    /// Wait for weights.
    Receive,
    /// Nothing: the worker is done.
    Exit,
}

/// What the worker did.
pub enum WorkerInput<D> {
    Start,
    /// This command came.
    Command(CpcsWorkerCmd),
    /// No command came, and these processes are watched.
    NoCommand(Vec<i32>),
    /// No command will come any more.
    Disconnected,
    /// The process is watched now, or it could not be.
    Attached(bool),
    /// The process is no longer watched.
    Detached,
    /// These weights came, if any, and these processes are watched.
    Received(Option<(i32, D)>, Vec<i32>),
    /// No weights will come any more.
    ReceiveFailed,
}

/// Where the worker stands.
#[derive(Debug, Copy, Clone, PartialEq, Eq, Structural)]
pub enum WorkerStage {
    Idle,
    /// It waits for a command.
    Blocking,
    /// It takes commands while there are some.
    Draining,
    /// It watches a process; it waited for a command before that, or took one.
    Attaching(i32, bool),
    /// It stops watching a process; it waited for a command before that, or took one.
    Detaching(i32, bool),
    /// It waits for weights.
    Receiving,
    Ended,
}

/// The weights in `latest` that are not too old.
pub open spec fn fresh_only<D>(
    latest: Map<i32, TimedPolicyWeights<D>>,
    now_ns: u128,
) -> Map<i32, TimedPolicyWeights<D>> {
    latest.restrict(
        Set::new(
            |pid: i32|
                latest.contains_key(pid) && elapsed(latest[pid].received_at_ns, now_ns)
                    <= CPCS_STALE_TIMEOUT_NS,
        ),
    )
}

/// The state of the worker.
#[verifier::ext_equal]
pub struct WorkerModel<D> {
    pub attached: Set<i32>,
    pub latest: Map<i32, TimedPolicyWeights<D>>,
    pub stage: WorkerStage,
}

impl<D> WorkerModel<D> {
    /// Only watched processes have weights.
    pub open spec fn consistent(self) -> bool {
        forall|pid: i32| #[trigger] self.latest.contains_key(pid) ==> self.attached.contains(pid)
    }

    /// The worker goes round. Where nothing is watched, it waits for commands and does not
    /// spin.
    pub open spec fn top(self) -> (WorkerModel<D>, WorkerAction) {
        if self.attached == Set::<i32>::empty() {
            (WorkerModel { stage: WorkerStage::Blocking, ..self }, WorkerAction::WaitCommand)
        } else {
            (WorkerModel { stage: WorkerStage::Draining, ..self }, WorkerAction::TryCommand)
        }
    }

    /// A command is done with.
    pub open spec fn command_done(self, blocking: bool) -> (WorkerModel<D>, WorkerAction) {
        if blocking {
            self.top()
        } else {
            (WorkerModel { stage: WorkerStage::Draining, ..self }, WorkerAction::TryCommand)
        }
    }

    /// The command `cmd` came.
    pub open spec fn command(self, cmd: CpcsWorkerCmd, blocking: bool) -> (
        WorkerModel<D>,
        WorkerAction,
    ) {
        match cmd {
            CpcsWorkerCmd::Attach(pid) => if self.attached.contains(pid) {
                self.command_done(blocking)
            } else {
                (
                    WorkerModel {
                        attached: self.attached.insert(pid),
                        stage: WorkerStage::Attaching(pid, blocking),
                        ..self
                    },
                    WorkerAction::Attach(pid),
                )
            },
            CpcsWorkerCmd::Detach(pid) => {
                let gone = WorkerModel {
                    attached: self.attached.remove(pid),
                    latest: self.latest.remove(pid),
                    ..self
                };
                if self.attached.contains(pid) {
                    (
                        WorkerModel { stage: WorkerStage::Detaching(pid, blocking), ..gone },
                        WorkerAction::Detach(pid),
                    )
                } else {
                    gone.command_done(blocking)
                }
            },
        }
    }

    /// The processes `live` are watched: what is known of others is forgotten.
    pub open spec fn reconciled(self, live: Seq<i32>) -> WorkerModel<D> {
        if self.attached == live.to_set() {
            self
        } else {
            WorkerModel {
                attached: live.to_set(),
                latest: self.latest.restrict(live.to_set()),
                ..self
            }
        }
    }

    /// The worker is done.
    pub open spec fn ended(self) -> (WorkerModel<D>, WorkerAction) {
        (WorkerModel { stage: WorkerStage::Ended, ..self }, WorkerAction::Exit)
    }

    /// Weights came, if any.
    pub open spec fn received(self, got: Option<(i32, D)>, now_ns: u128) -> WorkerModel<D> {
        match got {
            Some((pid, data)) => WorkerModel {
                latest: fresh_only(
                    self.latest.insert(pid, TimedPolicyWeights { received_at_ns: now_ns, data }),
                    now_ns,
                ),
                ..self
            },
            None => self,
        }
    }

    /// `input` answers what was asked for.
    pub open spec fn accepts(self, input: WorkerInput<D>) -> bool {
        match (self.stage, input) {
            (WorkerStage::Idle, WorkerInput::Start) => true,
            (WorkerStage::Blocking, WorkerInput::Command(_)) => true,
            (WorkerStage::Blocking, WorkerInput::Disconnected) => true,
            (WorkerStage::Draining, WorkerInput::Command(_)) => true,
            (WorkerStage::Draining, WorkerInput::NoCommand(_)) => true,
            (WorkerStage::Draining, WorkerInput::Disconnected) => true,
            (WorkerStage::Attaching(_, _), WorkerInput::Attached(_)) => true,
            (WorkerStage::Detaching(_, _), WorkerInput::Detached) => true,
            (WorkerStage::Receiving, WorkerInput::Received(_, _)) => true,
            (WorkerStage::Receiving, WorkerInput::ReceiveFailed) => true,
            _ => false,
        }
    }

    /// The state and the action that follow `input`.
    pub open spec fn step(self, input: WorkerInput<D>, now_ns: u128) -> (
        WorkerModel<D>,
        WorkerAction,
    ) {
        match (self.stage, input) {
            (WorkerStage::Idle, WorkerInput::Start) => self.top(),
            (WorkerStage::Blocking, WorkerInput::Command(cmd)) => self.command(cmd, true),
            (WorkerStage::Draining, WorkerInput::Command(cmd)) => self.command(cmd, false),
            (WorkerStage::Attaching(pid, blocking), WorkerInput::Attached(ok)) => if ok {
                self.command_done(blocking)
            } else {
                WorkerModel { attached: self.attached.remove(pid), ..self }.command_done(blocking)
            },
            (WorkerStage::Detaching(_, blocking), WorkerInput::Detached) => self.command_done(
                blocking,
            ),
            (WorkerStage::Draining, WorkerInput::NoCommand(live)) => {
                let next = self.reconciled(live@);
                if next.attached == Set::<i32>::empty() {
                    next.top()
                } else {
                    (
                        WorkerModel { stage: WorkerStage::Receiving, ..next },
                        WorkerAction::Receive,
                    )
                }
            },
            (WorkerStage::Receiving, WorkerInput::Received(got, live)) => self.received(
                got,
                now_ns,
            ).reconciled(live@).top(),
            _ => self.ended(),
        }
    }
}

/// The worker.
#[derive(Debug)]
pub struct CpcsWorker {
    /// The processes that it watches, each once.
    pub attached: Vec<i32>,
    pub stage: WorkerStage,
}

/// The processes that have weights.
fn key_list<D>(latest: &HashMap<i32, TimedPolicyWeights<D>>) -> (keys: Vec<i32>)
    ensures
        forall|pid: i32| #[trigger] keys@.contains(pid) <==> latest@.contains_key(pid),
{
    let mut keys: Vec<i32> = Vec::new();
    let ghost walk = spec_hash_map_iter(latest).remaining();
    proof {
        axiom_spec_hash_map_iter(latest);
    }
    for (pid, _item) in it: latest.iter()
        invariant
            it.seq() == walk,
            keys@.len() == it.index(),
            forall|i: int| 0 <= i < keys@.len() ==> #[trigger] keys@[i] == *walk[i].0,
    {
        keys.push(*pid);
    }
    proof {
        let map = latest@;
        assert forall|pid: i32| #[trigger] keys@.contains(pid) <==> map.contains_key(pid) by {
            if keys@.contains(pid) {
                let i = choose|i: int| 0 <= i < keys@.len() && keys@[i] == pid;
                assert(map.contains_key(*walk[i].0) && map[*walk[i].0] == *walk[i].1);
            }
            if map.contains_key(pid) {
                let i = choose|i: int| 0 <= i < walk.len() && walk[i] == (&pid, &map[pid]);
                assert(0 <= i < walk.len() && walk[i] == (&pid, &map[pid]));
                assert(keys@[i] == pid);
            }
        }
    }
    keys
}

/// Drops the weights of all processes that `keep` does not hold.
fn retain_pids<D>(latest: &mut HashMap<i32, TimedPolicyWeights<D>>, keep: &Vec<i32>)
    ensures
        final(latest)@ == old(latest)@.restrict(keep@.to_set()),
{
    let keys = key_list(latest);
    let ghost was = latest@;
    for i in 0..keys.len()
        invariant
            forall|pid: i32| #[trigger]
                latest@.contains_key(pid) <==> was.contains_key(pid) && (keep@.contains(pid)
                    || !keys@.take(i as int).contains(pid)),
            forall|pid: i32| #[trigger] latest@.contains_key(pid) ==> latest@[pid] == was[pid],
    {
        let pid = keys[i];
        proof {
            assert(keys@.take(i + 1) =~= keys@.take(i as int).push(pid));
            lemma_push_contains(keys@.take(i as int), pid);
        }
        if !holds_pid(keep, pid) {
            latest.remove(&pid);
        }
    }
    proof {
        assert(keys@.take(keys@.len() as int) =~= keys@);
        assert forall|pid: i32| latest@.contains_key(pid) <==> was.restrict(
            keep@.to_set(),
        ).contains_key(pid) by {
            assert(keys@.contains(pid) <==> was.contains_key(pid));
        }
        assert(latest@ =~= was.restrict(keep@.to_set()));
    }
}

/// Drops the weights that are too old.
fn retain_fresh<D>(latest: &mut HashMap<i32, TimedPolicyWeights<D>>, now_ns: u128)
    ensures
        final(latest)@ == fresh_only(old(latest)@, now_ns),
{
    let keys = key_list(latest);
    let ghost was = latest@;
    for i in 0..keys.len()
        invariant
            forall|pid: i32| #[trigger]
                latest@.contains_key(pid) <==> was.contains_key(pid) && (elapsed(
                    was[pid].received_at_ns,
                    now_ns,
                ) <= CPCS_STALE_TIMEOUT_NS || !keys@.take(i as int).contains(pid)),
            forall|pid: i32| #[trigger] latest@.contains_key(pid) ==> latest@[pid] == was[pid],
    {
        let pid = keys[i];
        proof {
            assert(keys@.take(i + 1) =~= keys@.take(i as int).push(pid));
            lemma_push_contains(keys@.take(i as int), pid);
        }
        let stale = match latest.get(&pid) {
            Some(item) => now_ns.saturating_sub(item.received_at_ns) > CPCS_STALE_TIMEOUT_NS,
            None => false,
        };
        if stale {
            latest.remove(&pid);
        }
    }
    proof {
        assert(keys@.take(keys@.len() as int) =~= keys@);
        assert forall|pid: i32| latest@.contains_key(pid) <==> fresh_only(was, now_ns).contains_key(
            pid,
        ) by {
            assert(keys@.contains(pid) <==> was.contains_key(pid));
        }
        assert(latest@ =~= fresh_only(was, now_ns));
    }
}

fn all_in(a: &Vec<i32>, b: &Vec<i32>) -> (res: bool)
    ensures
        res <==> a@.to_set().subset_of(b@.to_set()),
{
    for i in 0..a.len()
        invariant
            forall|k: int| 0 <= k < i ==> b@.contains(#[trigger] a@[k]),
    {
        if !holds_pid(b, a[i]) {
            assert(a@.contains(a@[i as int]));
            assert(a@.to_set().contains(a@[i as int]));
            return false;
        }
    }
    true
}

impl CpcsWorker {
    /// No process stands in the list twice.
    pub open spec fn wf(self) -> bool {
        self.attached@.no_duplicates()
    }

    /// The state together with the weights `latest`.
    pub open spec fn with_latest<D>(
        self,
        latest: Map<i32, TimedPolicyWeights<D>>,
    ) -> WorkerModel<D> {
        WorkerModel { attached: self.attached@.to_set(), latest, stage: self.stage }
    }

    /// A worker that watches nothing.
    pub fn new() -> (worker: Self)
        ensures
            worker.wf(),
            worker.attached@ == Seq::<i32>::empty(),
            worker.stage == WorkerStage::Idle,
    {
        CpcsWorker { attached: Vec::new(), stage: WorkerStage::Idle }
    }

    fn top(&mut self) -> (action: WorkerAction)
        ensures
            final(self).attached == old(self).attached,
            action == (if old(self).attached@.to_set() == Set::<i32>::empty() {
                WorkerAction::WaitCommand
            } else {
                WorkerAction::TryCommand
            }),
            final(self).stage == (if action == WorkerAction::WaitCommand {
                WorkerStage::Blocking
            } else {
                WorkerStage::Draining
            }),
    {
        if self.attached.len() == 0 {
            assert(self.attached@.to_set() =~= Set::<i32>::empty());
            self.stage = WorkerStage::Blocking;
            WorkerAction::WaitCommand
        } else {
            assert(self.attached@.to_set().contains(self.attached@[0]));
            self.stage = WorkerStage::Draining;
            WorkerAction::TryCommand
        }
    }

    fn command_done(&mut self, blocking: bool) -> (action: WorkerAction)
        ensures
            final(self).attached == old(self).attached,
            action == (if blocking && old(self).attached@.to_set() == Set::<i32>::empty() {
                WorkerAction::WaitCommand
            } else {
                WorkerAction::TryCommand
            }),
            final(self).stage == (if action == WorkerAction::WaitCommand {
                WorkerStage::Blocking
            } else {
                WorkerStage::Draining
            }),
    {
        if blocking {
            self.top()
        } else {
            self.stage = WorkerStage::Draining;
            WorkerAction::TryCommand
        }
    }

    /// Does what `cmd` says, or says what has to be done for it.
    pub fn handle_cpcs_cmd<D>(
        &mut self,
        latest: &mut HashMap<i32, TimedPolicyWeights<D>>,
        cmd: CpcsWorkerCmd,
        blocking: bool,
    ) -> (action: WorkerAction)
        requires
            old(self).wf(),
        ensures
            final(self).wf(),
            (final(self).with_latest(final(latest)@), action) == old(self).with_latest(
                old(latest)@,
            ).command(cmd, blocking),
    {
        match cmd {
            CpcsWorkerCmd::Attach(pid) => {
                if holds_pid(&self.attached, pid) {
                    return self.command_done(blocking);
                }
                let ghost was = self.attached@;
                self.attached.push(pid);
                self.stage = WorkerStage::Attaching(pid, blocking);
                proof {
                    lemma_push_contains(was, pid);
                    assert(self.attached@.to_set() =~= was.to_set().insert(pid));
                }
                WorkerAction::Attach(pid)
            },
            CpcsWorkerCmd::Detach(pid) => {
                let ghost was = self.attached@;
                let known = holds_pid(&self.attached, pid);
                let rest = vec_without(&self.attached, pid);
                self.attached = rest;
                latest.remove(&pid);
                proof {
                    lemma_without(was, pid);
                    assert(self.attached@.to_set() =~= was.to_set().remove(pid));
                }
                if known {
                    self.stage = WorkerStage::Detaching(pid, blocking);
                    return WorkerAction::Detach(pid);
                }
                self.command_done(blocking)
            },
        }
    }

    /// Takes over which processes are watched. What is known of others is forgotten.
    pub fn reconcile_worker_attached<D>(
        &mut self,
        latest: &mut HashMap<i32, TimedPolicyWeights<D>>,
        live: &Vec<i32>,
    )
        requires
            old(self).wf(),
        ensures
            final(self).wf(),
            final(self).with_latest(final(latest)@) == old(self).with_latest(
                old(latest)@,
            ).reconciled(live@),
    {
        if all_in(&self.attached, live) && all_in(live, &self.attached) {
            assert(self.attached@.to_set() =~= live@.to_set());
            return;
        }
        let list = distinct(live);
        retain_pids(latest, live);
        self.attached = list;
        proof {
            assert forall|p: i32| self.attached@.to_set().contains(p) <==> live@.to_set().contains(
                p,
            ) by {
                assert(self.attached@.contains(p) <==> live@.contains(p));
            }
            assert(self.attached@.to_set() =~= live@.to_set());
        }
    }

    /// One step of the worker: `input` tells what came of the last action, the result is the
    /// next one. `latest` holds the newest weights of each process.
    pub fn cpcs_worker_loop<D>(
        &mut self,
        latest: &mut HashMap<i32, TimedPolicyWeights<D>>,
        input: WorkerInput<D>,
        now_ns: u128,
    ) -> (action: WorkerAction)
        requires
            old(self).wf(),
            old(self).with_latest(old(latest)@).accepts(input),
        ensures
            final(self).wf(),
            (final(self).with_latest(final(latest)@), action) == old(self).with_latest(
                old(latest)@,
            ).step(input, now_ns),
    {
        match (self.stage, input) {
            (WorkerStage::Idle, WorkerInput::Start) => self.top(),
            (WorkerStage::Blocking, WorkerInput::Command(cmd)) => {
                self.handle_cpcs_cmd(latest, cmd, true)
            },
            (WorkerStage::Draining, WorkerInput::Command(cmd)) => {
                self.handle_cpcs_cmd(latest, cmd, false)
            },
            (WorkerStage::Attaching(pid, blocking), WorkerInput::Attached(ok)) => {
                if !ok {
                    let ghost was = self.attached@;
                    let rest = vec_without(&self.attached, pid);
                    self.attached = rest;
                    proof {
                        lemma_without(was, pid);
                        assert(self.attached@.to_set() =~= was.to_set().remove(pid));
                    }
                }
                self.command_done(blocking)
            },
            (WorkerStage::Detaching(_, blocking), WorkerInput::Detached) => {
                self.command_done(blocking)
            },
            (WorkerStage::Draining, WorkerInput::NoCommand(live)) => {
                self.reconcile_worker_attached(latest, &live);
                if self.attached.len() == 0 {
                    assert(self.attached@.to_set() =~= Set::<i32>::empty());
                    return self.top();
                }
                assert(self.attached@.to_set().contains(self.attached@[0]));
                self.stage = WorkerStage::Receiving;
                WorkerAction::Receive
            },
            (WorkerStage::Receiving, WorkerInput::Received(got, live)) => {
                if let Some((pid, data)) = got {
                    latest.insert(pid, TimedPolicyWeights { received_at_ns: now_ns, data });
                    retain_fresh(latest, now_ns);
                }
                self.reconcile_worker_attached(latest, &live);
                self.top()
            },
            _ => {
                self.stage = WorkerStage::Ended;
                WorkerAction::Exit
            },
        }
    }
}

/// The newest weights of `pid`, unless they are too old.
pub fn cpcs_weights_for<D>(
    latest: &HashMap<i32, TimedPolicyWeights<D>>,
    pid: i32,
    now_ns: u128,
) -> (data: Option<&D>)
    ensures
        match data {
            Some(d) => latest@.contains_key(pid) && elapsed(latest@[pid].received_at_ns, now_ns)
                <= CPCS_STALE_TIMEOUT_NS && *d == latest@[pid].data,
            None => !latest@.contains_key(pid) || elapsed(latest@[pid].received_at_ns, now_ns)
                > CPCS_STALE_TIMEOUT_NS,
        },
{
    match latest.get(&pid) {
        Some(item) => {
            if now_ns.saturating_sub(item.received_at_ns) > CPCS_STALE_TIMEOUT_NS {
                None
            } else {
                Some(&item.data)
            }
        },
        None => None,
    }
}

/// Only watched processes have weights, whatever happens, as long as weights come only from
/// processes that are watched when they come.
pub proof fn law_only_watched_have_weights<D>(
    m: WorkerModel<D>,
    input: WorkerInput<D>,
    now_ns: u128,
)
    requires
        m.consistent(),
        m.accepts(input),
        input matches WorkerInput::Received(Some((pid, _)), live) ==> live@.contains(pid),
        m.stage matches WorkerStage::Attaching(pid, _) ==> !m.latest.contains_key(pid),
    ensures
        m.step(input, now_ns).0.consistent(),
        m.step(input, now_ns).0.stage matches WorkerStage::Attaching(pid, _) ==> !m.step(
            input,
            now_ns,
        ).0.latest.contains_key(pid),
{
}

/// The worker waits for weights only while it watches something, and it waits for a command
/// only while it watches nothing.
pub proof fn law_worker_never_waits_in_vain<D>(
    m: WorkerModel<D>,
    input: WorkerInput<D>,
    now_ns: u128,
)
    requires
        m.accepts(input),
    ensures
        m.step(input, now_ns).1 == WorkerAction::Receive ==> m.step(input, now_ns).0.attached
            != Set::<i32>::empty(),
        m.step(input, now_ns).1 == WorkerAction::WaitCommand ==> m.step(input, now_ns).0.attached
            == Set::<i32>::empty(),
{
}

/// Weights are kept for two seconds. Nothing is made up, and what is kept stays as it was.
pub proof fn law_weights_are_kept_for_two_seconds<D>(
    latest: Map<i32, TimedPolicyWeights<D>>,
    now_ns: u128,
    pid: i32,
)
    ensures
        ({
            let kept = fresh_only(latest, now_ns);
            &&& kept.contains_key(pid) <==> latest.contains_key(pid) && now_ns
                <= latest[pid].received_at_ns + 2_000_000_000
            &&& kept.contains_key(pid) ==> kept[pid] == latest[pid]
        }),
{
}

/// A process that is not watched is attached when that is asked for, and stays unless it
/// cannot be. One that is watched already is left alone.
pub proof fn law_attach_command<D>(m: WorkerModel<D>, pid: i32, ok: bool, now_ns: u128)
    requires
        m.stage == WorkerStage::Blocking || m.stage == WorkerStage::Draining,
    ensures
        ({
            let (next, action) = m.step(WorkerInput::Command(CpcsWorkerCmd::Attach(pid)), now_ns);
            &&& m.attached.contains(pid) ==> action == WorkerAction::TryCommand && next.attached
                == m.attached
            &&& !m.attached.contains(pid) ==> {
                let (done, _) = next.step(WorkerInput::Attached(ok), now_ns);
                &&& action == WorkerAction::Attach(pid)
                &&& ok ==> done.attached == m.attached.insert(pid)
                &&& !ok ==> done.attached == m.attached
                &&& done.latest == m.latest
            }
            &&& next.latest == m.latest
        }),
{
    if !m.attached.contains(pid) {
        assert(m.attached.insert(pid).remove(pid) =~= m.attached);
    }
}

/// A process that is detached is neither watched any more, nor are its weights kept, and no
/// other is touched. The kernel is told only where it was watched.
pub proof fn law_detach_command<D>(m: WorkerModel<D>, pid: i32, other: i32, now_ns: u128)
    requires
        m.stage == WorkerStage::Blocking || m.stage == WorkerStage::Draining,
        other != pid,
    ensures
        ({
            let (next, action) = m.step(WorkerInput::Command(CpcsWorkerCmd::Detach(pid)), now_ns);
            &&& action == WorkerAction::Detach(pid) <==> m.attached.contains(pid)
            &&& !next.attached.contains(pid)
            &&& !next.latest.contains_key(pid)
            &&& next.attached.contains(other) == m.attached.contains(other)
            &&& next.latest.contains_key(other) == m.latest.contains_key(other)
            &&& m.latest.contains_key(other) ==> next.latest[other] == m.latest[other]
            &&& m.attached.contains(pid) ==> next.step(WorkerInput::Detached, now_ns).0.attached
                == next.attached
        }),
{
}

/// Weights that come from a watched process are its newest from then on. Those of others are
/// kept while they are watched and no older than two seconds.
pub proof fn law_weights_that_come_are_kept<D>(
    m: WorkerModel<D>,
    pid: i32,
    data: D,
    live: Vec<i32>,
    other: i32,
    now_ns: u128,
)
    requires
        m.stage == WorkerStage::Receiving,
        m.consistent(),
        live@.contains(pid),
        other != pid,
    ensures
        ({
            let (next, _) = m.step(WorkerInput::Received(Some((pid, data)), live), now_ns);
            &&& next.latest.contains_key(pid)
            &&& next.latest[pid] == (TimedPolicyWeights { received_at_ns: now_ns, data })
            &&& next.latest.contains_key(other) <==> m.latest.contains_key(other) && live@.contains(
                other,
            ) && now_ns <= m.latest[other].received_at_ns + 2_000_000_000
            &&& next.latest.contains_key(other) ==> next.latest[other] == m.latest[other]
            &&& next.attached.contains(other) <==> live@.contains(other)
        }),
{
    assert(live@.to_set().contains(pid));
    assert(live@.to_set().contains(other) <==> live@.contains(other));
}

/// Where no weights come in time, nothing is forgotten but what is no longer watched.
pub proof fn law_no_weights_no_change<D>(
    m: WorkerModel<D>,
    live: Vec<i32>,
    other: i32,
    now_ns: u128,
)
    requires
        m.stage == WorkerStage::Receiving,
        m.consistent(),
    ensures
        ({
            let (next, _) = m.step(WorkerInput::Received(None, live), now_ns);
            &&& next.latest.contains_key(other) <==> m.latest.contains_key(other) && live@.contains(
                other,
            )
            &&& next.latest.contains_key(other) ==> next.latest[other] == m.latest[other]
            &&& next.attached.contains(other) <==> live@.contains(other)
        }),
{
    assert(live@.to_set().contains(other) <==> live@.contains(other));
}

/// When there are no more commands, weights are waited for if anything is watched, else
/// commands. When no command will come any more, or no weights, the worker is done.
pub proof fn law_worker_goes_round<D>(m: WorkerModel<D>, live: Vec<i32>, now_ns: u128)
    requires
        m.stage == WorkerStage::Draining,
    ensures
        ({
            let (next, action) = m.step(WorkerInput::NoCommand(live), now_ns);
            &&& live@.len() > 0 ==> action == WorkerAction::Receive && next.step(
                WorkerInput::ReceiveFailed,
                now_ns,
            ).1 == WorkerAction::Exit
            &&& live@.len() == 0 ==> action == WorkerAction::WaitCommand
            &&& m.step(WorkerInput::Disconnected, now_ns).1 == WorkerAction::Exit
            &&& next.step(WorkerInput::Disconnected, now_ns).1 == WorkerAction::Exit
        }),
{
    if live@.len() > 0 {
        assert(live@.contains(live@[0]));
        assert(live@.to_set().contains(live@[0]));
    } else {
        assert(live@.to_set() =~= Set::<i32>::empty());
    }
}

/// After a command more are taken, until there are none. A worker that waits for commands
/// and still watches nothing waits on.
pub proof fn law_commands_are_taken_while_there_are_some<D>(
    m: WorkerModel<D>,
    cmd: CpcsWorkerCmd,
    ok: bool,
    now_ns: u128,
)
    requires
        m.stage == WorkerStage::Draining || m.stage == WorkerStage::Blocking,
    ensures
        ({
            let (next, action) = m.step(WorkerInput::Command(cmd), now_ns);
            let (done, then_do) = match action {
                WorkerAction::Attach(_) => next.step(WorkerInput::Attached(ok), now_ns),
                WorkerAction::Detach(_) => next.step(WorkerInput::Detached, now_ns),
                _ => (next, action),
            };
            &&& m.stage == WorkerStage::Draining || done.attached != Set::<i32>::empty() ==> then_do
                == WorkerAction::TryCommand && done.stage == WorkerStage::Draining
            &&& m.stage == WorkerStage::Blocking && done.attached == Set::<i32>::empty() ==> then_do
                == WorkerAction::WaitCommand && done.stage == WorkerStage::Blocking
        }),
{
}

} // verus!
