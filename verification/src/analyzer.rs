//! The watched processes and the newest weights of each: who is attached, whose events are
//! waiting, and how long to wait for more.
use std::collections::{HashMap, VecDeque};
use crate::pids::{
    copy_of, deque_without, holds_pid, lemma_without, lemma_without_absent, tail_of, vec_without,
    without,
};
use crate::target::{elapsed, ClosedFrame};
use crate::usage::Share;
use vstd::prelude::*;
use vstd::std_specs::hash::*;

verus! {

broadcast use vstd::std_specs::hash::group_hash_axioms;

/// Most events that one poll brings.
pub const EVENT_MAX: usize = 1024;

/// Weights that are older are probed for directly: 300 milliseconds.
pub const DIRECT_PROBE_STALE_AFTER_NS: u128 = 300_000_000;

pub const DEFAULT_UPROBE_SYMBOL: &'static str =
    "_ZN7android7Surface11queueBufferEP19ANativeWindowBufferiPNS_24SurfaceQueueBufferOutputE";

pub const LEGACY_UPROBE_SYMBOL: &'static str =
    "_ZN7android7Surface11queueBufferEP19ANativeWindowBufferi";

pub const DEFAULT_UPROBE_LIB: &'static str = "/system/lib64/libgui.so";

/// The settings that decide what is done. Those that only enter into the weights are not
/// among them.
#[derive(Debug, Clone)]
pub struct AnalyzerConfig {
    pub uprobe_symbol: String,
    pub uprobe_lib: String,
    /// Look for events without being told of any where the newest weights are too old.
    pub direct_probe_fallback: bool,
    pub subgraph_slack_ns: u64,
    pub subgraph_tau_ns: u64,
    /// Weights that are older count for nothing.
    pub stale_timeout_ns: u128,
}

impl Default for AnalyzerConfig {
    fn default() -> (cfg: Self)
        ensures
            cfg.uprobe_symbol@ == DEFAULT_UPROBE_SYMBOL@,
            cfg.uprobe_lib@ == DEFAULT_UPROBE_LIB@,
            cfg.direct_probe_fallback,
            cfg.subgraph_slack_ns == 300_000,
            cfg.subgraph_tau_ns == 300_000,
            cfg.stale_timeout_ns == 2_000_000_000,
    {
        AnalyzerConfig {
            uprobe_symbol: DEFAULT_UPROBE_SYMBOL.to_owned(),
            uprobe_lib: DEFAULT_UPROBE_LIB.to_owned(),
            direct_probe_fallback: true,
            subgraph_slack_ns: 300_000,
            subgraph_tau_ns: 300_000,
            stale_timeout_ns: 2_000_000_000,
        }
    }
}

/// What is to be known of the settings that enter into the weights.
#[derive(Debug, Copy, Clone, PartialEq, Eq, Structural)]
pub struct WeightSettings {
    /// The share of the old score is not in `[0, 1]`.
    pub ema_lambda_outside: bool,
    /// The share of the normalised score is not in `[0, 1]`.
    pub norm_mix_outside: bool,
    /// One of the three weights is below zero.
    pub weight_negative: bool,
    /// The weights of running and of waiting for a CPU together are not above zero.
    pub weights_vanish: bool,
    /// The least weight of a policy is below zero.
    pub floor_negative: bool,
}

/// Why settings are refused.
#[derive(Debug, Copy, Clone, PartialEq, Eq, Structural)]
pub enum ConfigError {
    EmaLambda,
    NormMix,
    NegativeWeight,
    NoWeight,
    Tau,
    ClusterFloor,
}

impl ConfigError {
    /// The reason in words.
    pub fn message(self) -> (text: &'static str)
        ensures
            text@ == (match self {
                ConfigError::EmaLambda => "ema_lambda must be in [0, 1]"@,
                ConfigError::NormMix => "norm_mix must be in [0, 1]"@,
                ConfigError::NegativeWeight => "rq/futex/exec weights must be >= 0"@,
                ConfigError::NoWeight => "at least one of rq/exec weight must be > 0"@,
                ConfigError::Tau => "subgraph_tau_ns must be > 0"@,
                ConfigError::ClusterFloor => "min_cluster_weight must be >= 0"@,
            }),
    {
        match self {
            ConfigError::EmaLambda => "ema_lambda must be in [0, 1]",
            ConfigError::NormMix => "norm_mix must be in [0, 1]",
            ConfigError::NegativeWeight => "rq/futex/exec weights must be >= 0",
            ConfigError::NoWeight => "at least one of rq/exec weight must be > 0",
            ConfigError::Tau => "subgraph_tau_ns must be > 0",
            ConfigError::ClusterFloor => "min_cluster_weight must be >= 0",
        }
    }
}

/// The first reason to refuse the settings.
pub open spec fn config_error(weights: WeightSettings, tau_ns: u64) -> Option<ConfigError> {
    if weights.ema_lambda_outside {
        Some(ConfigError::EmaLambda)
    } else if weights.norm_mix_outside {
        Some(ConfigError::NormMix)
    } else if weights.weight_negative {
        Some(ConfigError::NegativeWeight)
    } else if weights.weights_vanish {
        Some(ConfigError::NoWeight)
    } else if tau_ns == 0 {
        Some(ConfigError::Tau)
    } else if weights.floor_negative {
        Some(ConfigError::ClusterFloor)
    } else {
        None
    }
}

/// Refuses settings that make no sense.
pub fn validate_config(cfg: &AnalyzerConfig, weights: WeightSettings) -> (res: Result<
    (),
    ConfigError,
>)
    ensures
        match res {
            Ok(_) => config_error(weights, cfg.subgraph_tau_ns) is None,
            Err(e) => config_error(weights, cfg.subgraph_tau_ns) == Some(e),
        },
{
    if weights.ema_lambda_outside {
        return Err(ConfigError::EmaLambda);
    }
    if weights.norm_mix_outside {
        return Err(ConfigError::NormMix);
    }
    if weights.weight_negative {
        return Err(ConfigError::NegativeWeight);
    }
    if weights.weights_vanish {
        return Err(ConfigError::NoWeight);
    }
    if cfg.subgraph_tau_ns == 0 {
        return Err(ConfigError::Tau);
    }
    if weights.floor_negative {
        return Err(ConfigError::ClusterFloor);
    }
    Ok(())
}

/// The token that a process is polled under.
pub fn pid_to_token(pid: i32) -> (token: usize)
    ensures
        token == pid as usize,
{
    #[verifier::truncate] (pid as usize)
}

/// The process that is polled under `token`.
pub fn token_to_pid(token: usize) -> (pid: i32)
    ensures
        pid == token as i32,
{
    #[verifier::truncate] (token as i32)
}

/// The process comes back out of its token.
pub proof fn law_token_round_trip(pid: i32)
    ensures
        (pid as usize) as i32 == pid,
{
    assert((pid as usize) as i32 == pid) by (bit_vector);
}

/// The weight of each policy, as one frame of a process gave it.
#[derive(Debug, Clone)]
pub struct PolicyWeights<W> {
    pub pid: i32,
    pub frame_id: u64,
    pub confidence: Share,
    pub policy_weights: HashMap<i32, W>,
}

/// The weight of one policy.
#[derive(Debug, Copy, Clone)]
pub struct PolicyWeightRow<W> {
    pub policy: u32,
    pub weight: W,
}

/// The weight of each policy in `rows`. The last row of a policy counts.
pub open spec fn weights_in<W>(rows: Seq<PolicyWeightRow<W>>) -> Map<i32, W>
    decreases rows.len(),
{
    if rows.len() == 0 {
        Map::empty()
    } else {
        weights_in(rows.drop_last()).insert(rows.last().policy as i32, rows.last().weight)
    }
}

/// The weights that `frame` of process `pid` gave. There are none without rows.
pub fn frame_weights<W: Copy>(
    pid: i32,
    frame: ClosedFrame,
    confidence: Share,
    rows: &Vec<PolicyWeightRow<W>>,
) -> (weights: Option<PolicyWeights<W>>)
    ensures
        match weights {
            Some(w) => {
                &&& rows@.len() > 0
                &&& w.pid == pid
                &&& w.frame_id == frame.frame_id
                &&& w.confidence == confidence
                &&& w.policy_weights@ == weights_in(rows@)
            },
            None => rows@.len() == 0,
        },
{
    if rows.len() == 0 {
        return None;
    }
    let mut policy_weights: HashMap<i32, W> = HashMap::new();
    for i in 0..rows.len()
        invariant
            policy_weights@ == weights_in(rows@.take(i as int)),
    {
        let row = rows[i];
        assert(rows@.take(i + 1).drop_last() =~= rows@.take(i as int));
        policy_weights.insert(#[verifier::truncate] (row.policy as i32), row.weight);
    }
    assert(rows@.take(rows@.len() as int) =~= rows@);
    Some(PolicyWeights { pid, frame_id: frame.frame_id, confidence, policy_weights })
}

/// The newest weights of a process.
#[derive(Debug, Clone)]
pub struct TimedPolicyWeights<D> {
    pub received_at_ns: u128,
    pub data: D,
}

/// What an update of a process came to.
pub enum Update<D> {
    /// The process gave weights.
    Weights(D),
    /// There was nothing to be had.
    Nothing,
    /// It failed, and the process is no longer watched. Says whether the poll was set up anew
    /// for the others.
    Failed(bool),
}

/// What waiting for weights came to.
#[derive(Debug, Copy, Clone, PartialEq, Eq, Structural)]
pub enum RecvEnd {
    /// The process gave weights.
    Got(i32),
    Timeout,
    Disconnected,
}

/// What has to be done next while waiting for weights.
#[derive(Debug, Copy, Clone, PartialEq, Eq, Structural)]
pub enum RecvAction {
    /// Update the process.
    Update(i32),
    /// Wait for events for at most so many nanoseconds.
    Poll(u128),
    /// Nothing: the waiting is over.
    End(RecvEnd),
}

/// What was done while waiting for weights.
pub enum RecvInput<D> {
    /// Weights are asked for.
    Start,
    /// The process was updated.
    Updated(Update<D>),
    /// These processes have events.
    Polled(Vec<i32>),
    /// Waiting for events failed.
    PollFailed,
}

/// Where the waiting stands.
#[derive(Debug, Copy, Clone, PartialEq, Eq, Structural)]
pub enum RecvStage {
    Idle,
    /// A process that had an event is being updated.
    Draining(i32),
    /// Events are being waited for; the time was up before.
    Polling(bool),
    /// A process is being updated that may have no event.
    Probing(i32),
}

/// One wait for weights.
pub struct RecvRun {
    pub deadline_ns: u128,
    pub polled_once: bool,
    pub stage: RecvStage,
    /// The processes that remain to be probed.
    pub probes: Vec<i32>,
}

impl RecvRun {
    /// A wait that ends at `deadline_ns`.
    pub fn new(deadline_ns: u128) -> (run: Self)
        ensures
            run.deadline_ns == deadline_ns,
            !run.polled_once,
            run.stage == RecvStage::Idle,
            run.probes@ == Seq::<i32>::empty(),
    {
        RecvRun { deadline_ns, polled_once: false, stage: RecvStage::Idle, probes: Vec::new() }
    }
}

/// The watched processes.
pub struct Analyzer<D> {
    /// In the order in which they were attached.
    pub attached: Vec<i32>,
    /// Processes with an event that has not been looked at.
    pub buffer: VecDeque<i32>,
    pub latest: HashMap<i32, TimedPolicyWeights<D>>,
    /// There is something to poll.
    pub polling: bool,
    pub direct_probe_fallback: bool,
    pub stale_timeout_ns: u128,
}

/// The state of a wait and of the processes it is about.
#[verifier::ext_equal]
pub struct RecvModel<D> {
    pub attached: Seq<i32>,
    pub buffer: Seq<i32>,
    pub latest: Map<i32, TimedPolicyWeights<D>>,
    pub polling: bool,
    pub direct_probe_fallback: bool,
    pub stale_timeout_ns: u128,
    pub deadline_ns: u128,
    pub polled_once: bool,
    pub stage: RecvStage,
    pub probes: Seq<i32>,
}

/// `list` from its first member in `attached` on.
pub open spec fn from_attached(list: Seq<i32>, attached: Seq<i32>) -> Seq<i32>
    decreases list.len(),
{
    if list.len() > 0 && !attached.contains(list[0]) {
        from_attached(list.drop_first(), attached)
    } else {
        list
    }
}

/// The newest weights of `pid` are missing or too old.
pub open spec fn lacks<D>(
    latest: Map<i32, TimedPolicyWeights<D>>,
    pid: i32,
    now_ns: u128,
) -> bool {
    !latest.contains_key(pid) || elapsed(latest[pid].received_at_ns, now_ns)
        >= DIRECT_PROBE_STALE_AFTER_NS
}

/// Some of the processes `attached` lacks weights.
pub open spec fn some_lack<D>(
    attached: Seq<i32>,
    latest: Map<i32, TimedPolicyWeights<D>>,
    now_ns: u128,
) -> bool {
    exists|i: int| 0 <= i < attached.len() && lacks(latest, #[trigger] attached[i], now_ns)
}

impl<D> RecvModel<D> {
    /// The state with `pid` no longer watched.
    pub open spec fn detached(self, pid: i32) -> RecvModel<D> {
        if self.attached.contains(pid) {
            RecvModel {
                attached: without(self.attached, pid),
                buffer: without(self.buffer, pid),
                latest: self.latest.remove(pid),
                polling: self.polling && without(self.attached, pid).len() > 0,
                ..self
            }
        } else {
            self
        }
    }

    /// The state after the poll was set up anew for the watched processes, or that failed.
    pub open spec fn registered(self, ok: bool) -> RecvModel<D> {
        RecvModel { polling: self.attached.len() > 0 && (ok || self.polling), ..self }
    }

    /// The state after `pid` was updated.
    pub open spec fn updated(self, pid: i32, update: Update<D>, now_ns: u128) -> RecvModel<D> {
        match update {
            Update::Weights(data) => RecvModel {
                latest: self.latest.insert(
                    pid,
                    TimedPolicyWeights { received_at_ns: now_ns, data },
                ),
                ..self
            },
            Update::Nothing => self,
            Update::Failed(ok) => self.detached(pid).registered(ok),
        }
    }

    /// The waiting is over.
    pub open spec fn ended(self, end: RecvEnd) -> (RecvModel<D>, RecvAction) {
        (RecvModel { stage: RecvStage::Idle, ..self }, RecvAction::End(end))
    }

    /// The next process is probed, unless none remains.
    pub open spec fn probe_next(self) -> (RecvModel<D>, RecvAction) {
        let rest = from_attached(self.probes, self.attached);
        if rest.len() > 0 {
            (
                RecvModel { probes: rest.drop_first(), stage: RecvStage::Probing(rest[0]), ..self },
                RecvAction::Update(rest[0]),
            )
        } else {
            RecvModel { probes: rest, ..self }.ended(RecvEnd::Timeout)
        }
    }

    /// The time is up: the processes are probed, if that may help.
    pub open spec fn time_up(self, now_ns: u128) -> (RecvModel<D>, RecvAction) {
        if self.direct_probe_fallback && some_lack(self.attached, self.latest, now_ns) {
            RecvModel { probes: self.attached, ..self }.probe_next()
        } else {
            self.ended(RecvEnd::Timeout)
        }
    }

    /// No event is waiting any more: more are waited for, unless the time is up.
    pub open spec fn drained(self, now_ns: u128) -> (RecvModel<D>, RecvAction) {
        let timed_out = now_ns >= self.deadline_ns;
        if timed_out && self.polled_once {
            self.time_up(now_ns)
        } else if !self.polling {
            self.ended(RecvEnd::Timeout)
        } else {
            (
                RecvModel { stage: RecvStage::Polling(timed_out), ..self },
                RecvAction::Poll(
                    if timed_out {
                        0
                    } else {
                        (self.deadline_ns - now_ns) as u128
                    },
                ),
            )
        }
    }

    /// The next process that has an event is updated.
    pub open spec fn drain(self, now_ns: u128) -> (RecvModel<D>, RecvAction) {
        let rest = from_attached(self.buffer, self.attached);
        if rest.len() > 0 {
            (
                RecvModel {
                    buffer: rest.drop_first(),
                    stage: RecvStage::Draining(rest[0]),
                    ..self
                },
                RecvAction::Update(rest[0]),
            )
        } else {
            RecvModel { buffer: rest, ..self }.drained(now_ns)
        }
    }

    /// `input` answers what was asked for.
    pub open spec fn accepts(self, input: RecvInput<D>) -> bool {
        match (self.stage, input) {
            (RecvStage::Idle, RecvInput::Start) => true,
            (RecvStage::Draining(pid), RecvInput::Updated(_)) => self.attached.contains(pid),
            (RecvStage::Probing(pid), RecvInput::Updated(_)) => self.attached.contains(pid),
            (RecvStage::Polling(_), RecvInput::Polled(_)) => true,
            (RecvStage::Polling(_), RecvInput::PollFailed) => true,
            _ => false,
        }
    }

    /// The state and the action that follow `input`.
    pub open spec fn step(self, input: RecvInput<D>, now_ns: u128) -> (RecvModel<D>, RecvAction) {
        match (self.stage, input) {
            (RecvStage::Draining(pid), RecvInput::Updated(update)) => {
                let next = self.updated(pid, update, now_ns);
                if update is Weights {
                    next.ended(RecvEnd::Got(pid))
                } else {
                    next.drain(now_ns)
                }
            },
            (RecvStage::Probing(pid), RecvInput::Updated(update)) => {
                let next = self.updated(pid, update, now_ns);
                if update is Weights {
                    next.ended(RecvEnd::Got(pid))
                } else {
                    next.probe_next()
                }
            },
            (RecvStage::Polling(timed_out), RecvInput::Polled(pids)) => {
                let polled = RecvModel {
                    polled_once: true,
                    buffer: self.buffer + pids@,
                    ..self
                };
                if pids@.len() == 0 && timed_out {
                    polled.time_up(now_ns)
                } else {
                    polled.drain(now_ns)
                }
            },
            (RecvStage::Polling(_), RecvInput::PollFailed) => self.ended(RecvEnd::Disconnected),
            _ => self.drain(now_ns),
        }
    }
}

impl<D> Analyzer<D> {
    /// No process is attached twice, only attached processes have weights, and nothing is
    /// polled while no process is attached.
    pub open spec fn wf(self) -> bool {
        &&& self.attached@.no_duplicates()
        &&& self.polling ==> self.attached@.len() > 0
        &&& forall|pid: i32| #[trigger]
            self.latest@.contains_key(pid) ==> self.attached@.contains(pid)
    }

    /// The state together with that of `run`.
    pub open spec fn with_run(self, run: RecvRun) -> RecvModel<D> {
        RecvModel {
            attached: self.attached@,
            buffer: self.buffer@,
            latest: self.latest@,
            polling: self.polling,
            direct_probe_fallback: self.direct_probe_fallback,
            stale_timeout_ns: self.stale_timeout_ns,
            deadline_ns: run.deadline_ns,
            polled_once: run.polled_once,
            stage: run.stage,
            probes: run.probes@,
        }
    }

    /// No process is watched, and the settings are the usual ones.
    pub fn new() -> (analyzer: Self)
        ensures
            analyzer.wf(),
            analyzer.attached@ == Seq::<i32>::empty(),
            analyzer.buffer@ == Seq::<i32>::empty(),
            analyzer.latest@ == Map::<i32, TimedPolicyWeights<D>>::empty(),
            !analyzer.polling,
            analyzer.direct_probe_fallback,
            analyzer.stale_timeout_ns == 2_000_000_000,
    {
        Self::with_config(&AnalyzerConfig::default())
    }

    /// No process is watched.
    pub fn with_config(cfg: &AnalyzerConfig) -> (analyzer: Self)
        ensures
            analyzer.wf(),
            analyzer.attached@ == Seq::<i32>::empty(),
            analyzer.buffer@ == Seq::<i32>::empty(),
            analyzer.latest@ == Map::<i32, TimedPolicyWeights<D>>::empty(),
            !analyzer.polling,
            analyzer.direct_probe_fallback == cfg.direct_probe_fallback,
            analyzer.stale_timeout_ns == cfg.stale_timeout_ns,
    {
        Analyzer {
            attached: Vec::new(),
            buffer: VecDeque::with_capacity(EVENT_MAX),
            latest: HashMap::new(),
            polling: false,
            direct_probe_fallback: cfg.direct_probe_fallback,
            stale_timeout_ns: cfg.stale_timeout_ns,
        }
    }

    /// `pid` is watched.
    #[must_use]
    pub fn contains(&self, pid: i32) -> (b: bool)
        ensures
            b == self.attached@.contains(pid),
    {
        holds_pid(&self.attached, pid)
    }

    /// The watched processes.
    pub fn pids(&self) -> (pids: Vec<i32>)
        ensures
            pids@ == self.attached@,
    {
        copy_of(&self.attached)
    }

    /// Watches `pid` from now on. Says whether it was not watched before.
    pub fn attach_app(&mut self, pid: i32) -> (new: bool)
        requires
            old(self).wf(),
        ensures
            final(self).wf(),
            new == !old(self).attached@.contains(pid),
            final(self).attached@ == (if new {
                old(self).attached@.push(pid)
            } else {
                old(self).attached@
            }),
            *final(self) == (Analyzer { attached: final(self).attached, ..*old(self) }),
    {
        if self.contains(pid) {
            return false;
        }
        self.attached.push(pid);
        proof {
            let was = old(self).attached@;
            assert forall|p: i32| #[trigger] self.latest@.contains_key(p) implies self.attached@.contains(p) by {
                let k = choose|k: int| 0 <= k < was.len() && was[k] == p;
                assert(self.attached@[k] == p);
            }
        }
        true
    }

    /// Stops watching `pid`, and forgets its events and weights. Nothing is polled any more
    /// where it was the last. Says whether it was watched.
    pub fn detach_app(&mut self, pid: i32) -> (was_attached: bool)
        requires
            old(self).wf(),
        ensures
            final(self).wf(),
            was_attached == old(self).attached@.contains(pid),
            final(self).attached@ == without(old(self).attached@, pid),
            was_attached ==> final(self).buffer@ == without(old(self).buffer@, pid),
            !was_attached ==> final(self).buffer@ == old(self).buffer@,
            final(self).latest@ == old(self).latest@.remove(pid),
            final(self).polling == (old(self).polling && final(self).attached@.len() > 0),
            *final(self) == (Analyzer {
                attached: final(self).attached,
                buffer: final(self).buffer,
                latest: final(self).latest,
                polling: final(self).polling,
                ..*old(self)
            }),
    {
        if !self.contains(pid) {
            proof {
                lemma_without_absent(self.attached@, pid);
                assert(self.latest@.remove(pid) =~= self.latest@);
            }
            return false;
        }
        let attached = vec_without(&self.attached, pid);
        let buffer = deque_without(&self.buffer, pid);
        self.latest.remove(&pid);
        self.attached = attached;
        self.buffer = buffer;
        if self.attached.len() == 0 {
            self.polling = false;
        }
        proof {
            lemma_without(old(self).attached@, pid);
        }
        true
    }

    /// Stops watching all processes.
    pub fn detach_apps(&mut self)
        ensures
            final(self).wf(),
            final(self).attached@ == Seq::<i32>::empty(),
            final(self).buffer@ == Seq::<i32>::empty(),
            final(self).latest@ == Map::<i32, TimedPolicyWeights<D>>::empty(),
            !final(self).polling,
            final(self).direct_probe_fallback == old(self).direct_probe_fallback,
            final(self).stale_timeout_ns == old(self).stale_timeout_ns,
    {
        self.attached.clear();
        self.buffer.clear();
        self.latest.clear();
        self.polling = false;
    }

    /// The watched processes changed, and the poll was set up for them anew, or that failed.
    /// Without processes there is nothing to poll; where it failed, the old poll stays.
    pub fn register_poll(&mut self, registered: bool)
        requires
            old(self).wf(),
        ensures
            final(self).wf(),
            final(self).polling == (old(self).attached@.len() > 0 && (registered
                || old(self).polling)),
            *final(self) == (Analyzer { polling: final(self).polling, ..*old(self) }),
    {
        if self.attached.len() == 0 {
            self.polling = false;
        } else if registered {
            self.polling = true;
        }
    }

    /// The newest weights of `pid`, unless they are too old.
    pub fn latest_for(&self, pid: i32, now_ns: u128) -> (data: Option<&D>)
        ensures
            match data {
                Some(d) => self.latest@.contains_key(pid) && elapsed(
                    self.latest@[pid].received_at_ns,
                    now_ns,
                ) <= self.stale_timeout_ns && *d == self.latest@[pid].data,
                None => !self.latest@.contains_key(pid) || elapsed(
                    self.latest@[pid].received_at_ns,
                    now_ns,
                ) > self.stale_timeout_ns,
            },
    {
        match self.latest.get(&pid) {
            Some(item) => {
                if now_ns.saturating_sub(item.received_at_ns) > self.stale_timeout_ns {
                    None
                } else {
                    Some(&item.data)
                }
            },
            None => None,
        }
    }

    /// Some process is to be probed though it may have no event.
    pub fn should_direct_probe(&self, now_ns: u128) -> (probe: bool)
        ensures
            probe == (self.direct_probe_fallback && some_lack(
                self.attached@,
                self.latest@,
                now_ns,
            )),
    {
        if !self.direct_probe_fallback {
            return false;
        }
        for i in 0..self.attached.len()
            invariant
                self.direct_probe_fallback,
                forall|k: int|
                    0 <= k < i ==> !lacks(self.latest@, #[trigger] self.attached@[k], now_ns),
        {
            let lacking = match self.latest.get(&self.attached[i]) {
                Some(item) => now_ns.saturating_sub(item.received_at_ns)
                    >= DIRECT_PROBE_STALE_AFTER_NS,
                None => true,
            };
            if lacking {
                assert(lacks(self.latest@, self.attached@[i as int], now_ns));
                return true;
            }
        }
        false
    }

    /// Takes in what an update of `pid` came to.
    pub fn process_pid_update(&mut self, pid: i32, update: Update<D>, now_ns: u128) -> (got: bool)
        requires
            old(self).wf(),
            old(self).attached@.contains(pid),
        ensures
            final(self).wf(),
            got == (update is Weights),
            forall|run: RecvRun| #[trigger]
                final(self).with_run(run) == old(self).with_run(run).updated(pid, update, now_ns),
    {
        match update {
            Update::Weights(data) => {
                self.latest.insert(pid, TimedPolicyWeights { received_at_ns: now_ns, data });
                true
            },
            Update::Nothing => false,
            Update::Failed(registered) => {
                self.detach_app(pid);
                self.register_poll(registered);
                false
            },
        }
    }

    fn probe_next(&mut self, run: &mut RecvRun) -> (action: RecvAction)
        requires
            old(self).wf(),
        ensures
            *final(self) == *old(self),
            (final(self).with_run(*final(run)), action) == old(self).with_run(
                *old(run),
            ).probe_next(),
    {
        let ghost m = self.with_run(*old(run));
        let mut i: usize = 0;
        let probes = copy_of(&run.probes);
        assert(probes@.skip(0) =~= probes@);
        while i < probes.len() && !self.contains(probes[i])
            invariant
                i <= probes@.len(),
                from_attached(probes@.skip(i as int), self.attached@) == from_attached(
                    probes@,
                    self.attached@,
                ),
            decreases probes@.len() - i,
        {
            assert(probes@.skip(i as int).drop_first() =~= probes@.skip(i + 1));
            i = i + 1;
        }
        let ghost rest = probes@.skip(i as int);
        if i == probes.len() {
            run.probes = Vec::new();
            run.stage = RecvStage::Idle;
            assert(rest =~= Seq::empty());
            return RecvAction::End(RecvEnd::Timeout);
        }
        let pid = probes[i];
        run.probes = tail_of(&probes, i + 1);
        run.stage = RecvStage::Probing(pid);
        assert(rest[0] == pid);
        assert(rest.drop_first() =~= probes@.skip(i + 1));
        RecvAction::Update(pid)
    }

    fn time_up(&mut self, run: &mut RecvRun, now_ns: u128) -> (action: RecvAction)
        requires
            old(self).wf(),
        ensures
            *final(self) == *old(self),
            (final(self).with_run(*final(run)), action) == old(self).with_run(*old(run)).time_up(
                now_ns,
            ),
    {
        if self.should_direct_probe(now_ns) {
            run.probes = self.pids();
            self.probe_next(run)
        } else {
            run.stage = RecvStage::Idle;
            RecvAction::End(RecvEnd::Timeout)
        }
    }

    fn drain(&mut self, run: &mut RecvRun, now_ns: u128) -> (action: RecvAction)
        requires
            old(self).wf(),
        ensures
            final(self).wf(),
            (final(self).with_run(*final(run)), action) == old(self).with_run(*old(run)).drain(
                now_ns,
            ),
    {
        while self.buffer.len() > 0
            invariant
                self.wf(),
                *run == *old(run),
                *self == (Analyzer { buffer: self.buffer, ..*old(self) }),
                from_attached(self.buffer@, self.attached@) == from_attached(
                    old(self).buffer@,
                    old(self).attached@,
                ),
            decreases self.buffer@.len(),
        {
            let ghost waiting = self.buffer@;
            let pid = self.buffer.pop_front().unwrap();
            assert(self.buffer@ =~= waiting.drop_first());
            if self.contains(pid) {
                run.stage = RecvStage::Draining(pid);
                return RecvAction::Update(pid);
            }
        }
        let timed_out = now_ns >= run.deadline_ns;
        assert(self.buffer@ =~= from_attached(old(self).buffer@, old(self).attached@));
        if timed_out && run.polled_once {
            return self.time_up(run, now_ns);
        }
        let remain: u128 = if timed_out {
            0
        } else {
            run.deadline_ns - now_ns
        };
        if !self.polling {
            run.stage = RecvStage::Idle;
            return RecvAction::End(RecvEnd::Timeout);
        }
        run.stage = RecvStage::Polling(timed_out);
        RecvAction::Poll(remain)
    }

    /// One step of a wait for weights: `input` tells what came of the last action, the result
    /// is the next one. Where an update failed, its process is no longer watched afterwards.
    pub fn recv_timeout(&mut self, run: &mut RecvRun, input: RecvInput<D>, now_ns: u128) -> (action:
        RecvAction)
        requires
            old(self).wf(),
            old(self).with_run(*old(run)).accepts(input),
        ensures
            final(self).wf(),
            (final(self).with_run(*final(run)), action) == old(self).with_run(*old(run)).step(
                input,
                now_ns,
            ),
    {
        match (run.stage, input) {
            (RecvStage::Draining(pid), RecvInput::Updated(update)) => {
                if self.process_pid_update(pid, update, now_ns) {
                    run.stage = RecvStage::Idle;
                    return RecvAction::End(RecvEnd::Got(pid));
                }
                self.drain(run, now_ns)
            },
            (RecvStage::Probing(pid), RecvInput::Updated(update)) => {
                if self.process_pid_update(pid, update, now_ns) {
                    run.stage = RecvStage::Idle;
                    return RecvAction::End(RecvEnd::Got(pid));
                }
                self.probe_next(run)
            },
            (RecvStage::Polling(timed_out), RecvInput::Polled(pids)) => {
                run.polled_once = true;
                let ghost waiting = self.buffer@;
                for i in 0..pids.len()
                    invariant
                        self.wf(),
                        *self == (Analyzer { buffer: self.buffer, ..*old(self) }),
                        self.buffer@ == waiting + pids@.take(i as int),
                {
                    self.buffer.push_back(pids[i]);
                    assert(waiting + pids@.take(i + 1) =~= (waiting + pids@.take(i as int)).push(
                        pids@[i as int],
                    ));
                }
                assert(pids@.take(pids@.len() as int) =~= pids@);
                if pids.len() == 0 && timed_out {
                    return self.time_up(run, now_ns);
                }
                self.drain(run, now_ns)
            },
            (RecvStage::Polling(_), RecvInput::PollFailed) => {
                run.stage = RecvStage::Idle;
                RecvAction::End(RecvEnd::Disconnected)
            },
            _ => self.drain(run, now_ns),
        }
    }
}

/// Processes are probed only after events were waited for.
pub open spec fn probes_last<D>(m: RecvModel<D>) -> bool {
    m.stage is Probing ==> m.polled_once
}

/// Where weights are said to be there, they came just now and are kept.
pub proof fn law_got_is_fresh<D>(m: RecvModel<D>, input: RecvInput<D>, now_ns: u128, pid: i32)
    requires
        m.accepts(input),
        m.step(input, now_ns).1 == RecvAction::End(RecvEnd::Got(pid)),
    ensures
        m.step(input, now_ns).0.attached.contains(pid),
        m.step(input, now_ns).0.latest.contains_key(pid),
        m.step(input, now_ns).0.latest[pid].received_at_ns == now_ns,
{
}

/// As long as there is something to poll, a wait does not time out before it has waited for
/// events at least once, however short it is.
pub proof fn law_no_timeout_without_poll<D>(m: RecvModel<D>, input: RecvInput<D>, now_ns: u128)
    requires
        m.accepts(input),
        probes_last(m),
    ensures
        probes_last(m.step(input, now_ns).0),
        m.step(input, now_ns).1 == RecvAction::End(RecvEnd::Timeout) ==> m.step(
            input,
            now_ns,
        ).0.polled_once || !m.step(input, now_ns).0.polling,
{
}

/// A wait does not time out while there is time left and something to poll.
pub proof fn law_no_early_timeout<D>(m: RecvModel<D>, input: RecvInput<D>, now_ns: u128)
    requires
        m.accepts(input),
        m.step(input, now_ns).1 == RecvAction::End(RecvEnd::Timeout),
    ensures
        now_ns >= m.deadline_ns || !m.step(input, now_ns).0.polling || m.stage is Probing
            || m.stage == RecvStage::Polling(true),
{
}

/// Events are waited for no longer than until the deadline.
pub proof fn law_poll_ends_at_deadline<D>(
    m: RecvModel<D>,
    input: RecvInput<D>,
    now_ns: u128,
    remain_ns: u128,
)
    requires
        m.accepts(input),
        m.step(input, now_ns).1 == RecvAction::Poll(remain_ns),
    ensures
        remain_ns == elapsed(now_ns, m.deadline_ns),
{
}

/// Settings are refused for a reason that holds, and for the first that does; where none
/// holds they are taken.
pub proof fn law_settings_are_refused_for_a_reason(weights: WeightSettings, tau_ns: u64)
    ensures
        config_error(weights, tau_ns) is None <==> !weights.ema_lambda_outside
            && !weights.norm_mix_outside && !weights.weight_negative && !weights.weights_vanish
            && tau_ns > 0 && !weights.floor_negative,
        config_error(weights, tau_ns) == Some(ConfigError::EmaLambda)
            <==> weights.ema_lambda_outside,
        config_error(weights, tau_ns) == Some(ConfigError::NormMix) ==> weights.norm_mix_outside,
        config_error(weights, tau_ns) == Some(ConfigError::NegativeWeight) ==> weights.weight_negative
            && !weights.norm_mix_outside,
        config_error(weights, tau_ns) == Some(ConfigError::NoWeight) ==> weights.weights_vanish
            && !weights.weight_negative && !weights.norm_mix_outside,
        config_error(weights, tau_ns) == Some(ConfigError::Tau) ==> tau_ns == 0
            && !weights.weights_vanish && !weights.weight_negative && !weights.norm_mix_outside,
        config_error(weights, tau_ns) == Some(ConfigError::ClusterFloor) ==> weights.floor_negative
            && tau_ns > 0 && !weights.weights_vanish && !weights.weight_negative
            && !weights.norm_mix_outside,
{
}

/// The last row of a policy says what its weight is.
pub proof fn law_last_row_counts<W>(
    rows: Seq<PolicyWeightRow<W>>,
    row: PolicyWeightRow<W>,
    other: i32,
)
    requires
        row.policy <= i32::MAX,
        other != row.policy,
    ensures
        weights_in(Seq::<PolicyWeightRow<W>>::empty()) == Map::<i32, W>::empty(),
        ({
            let before = weights_in(rows);
            let after = weights_in(rows.push(row));
            &&& after.contains_key(row.policy as i32)
            &&& after[row.policy as i32] == row.weight
            &&& after.contains_key(other) == before.contains_key(other)
            &&& before.contains_key(other) ==> after[other] == before[other]
        }),
{
    assert(rows.push(row).drop_last() =~= rows);
}

proof fn lemma_from_attached(list: Seq<i32>, attached: Seq<i32>, i: int)
    requires
        0 <= i <= list.len(),
        forall|j: int| 0 <= j < i ==> !attached.contains(#[trigger] list[j]),
        i < list.len() ==> attached.contains(list[i]),
    ensures
        from_attached(list, attached) == list.skip(i),
    decreases list.len(),
{
    if i > 0 {
        let rest = list.drop_first();
        assert(!attached.contains(list[0]));
        assert forall|j: int| 0 <= j < i - 1 implies !attached.contains(#[trigger] rest[j]) by {
            assert(rest[j] == list[j + 1]);
        }
        lemma_from_attached(rest, attached, i - 1);
        assert(rest.skip(i - 1) =~= list.skip(i));
    } else {
        assert(list.skip(0) =~= list);
    }
}

/// Of the processes that have an event the first that is watched is updated. Those before it
/// are passed over, and those behind it have to wait.
pub proof fn law_first_watched_process_is_updated<D>(
    m: RecvModel<D>,
    input: RecvInput<D>,
    now_ns: u128,
    i: int,
)
    requires
        m.stage == RecvStage::Idle,
        input is Start,
        0 <= i < m.buffer.len(),
        m.attached.contains(m.buffer[i]),
        forall|j: int| 0 <= j < i ==> !m.attached.contains(#[trigger] m.buffer[j]),
    ensures
        m.step(input, now_ns).1 == RecvAction::Update(m.buffer[i]),
        m.step(input, now_ns).0.buffer == m.buffer.skip(i + 1),
        m.step(input, now_ns).0.attached == m.attached,
        m.step(input, now_ns).0.latest == m.latest,
{
    lemma_from_attached(m.buffer, m.attached, i);
    assert(m.buffer.skip(i).drop_first() =~= m.buffer.skip(i + 1));
}

/// Where no watched process has an event, events are waited for until the deadline, and once
/// at least. After that the processes are probed in order if one of them has had no weights
/// for 300 milliseconds and that may be done; else the wait is over.
pub proof fn law_no_event_is_waiting<D>(m: RecvModel<D>, input: RecvInput<D>, now_ns: u128, k: int)
    requires
        m.stage == RecvStage::Idle,
        input is Start,
        forall|j: int| 0 <= j < m.buffer.len() ==> !m.attached.contains(#[trigger] m.buffer[j]),
        0 <= k < m.attached.len(),
    ensures
        ({
            let (next, action) = m.step(input, now_ns);
            let up = now_ns >= m.deadline_ns && m.polled_once;
            let lacking = !m.latest.contains_key(m.attached[k]) || now_ns
                >= m.latest[m.attached[k]].received_at_ns + 300_000_000;
            let fresh = forall|j: int|
                0 <= j < m.attached.len() ==> m.latest.contains_key(#[trigger] m.attached[j])
                    && now_ns < m.latest[m.attached[j]].received_at_ns + 300_000_000;
            &&& !up && m.polling && now_ns < m.deadline_ns ==> action == RecvAction::Poll(
                (m.deadline_ns - now_ns) as u128,
            )
            &&& !up && m.polling && now_ns >= m.deadline_ns ==> action == RecvAction::Poll(0)
            &&& !up && !m.polling ==> action == RecvAction::End(RecvEnd::Timeout)
            &&& up && m.direct_probe_fallback && lacking ==> action == RecvAction::Update(
                m.attached[0],
            ) && next.probes == m.attached.skip(1)
            &&& up && !m.direct_probe_fallback ==> action == RecvAction::End(RecvEnd::Timeout)
            &&& up && fresh ==> action == RecvAction::End(RecvEnd::Timeout)
            &&& next.buffer.len() == 0
        }),
{
    lemma_from_attached(m.buffer, m.attached, m.buffer.len() as int);
    assert(m.attached.contains(m.attached[0]));
    lemma_from_attached(m.attached, m.attached, 0);
    assert(m.attached.skip(0).drop_first() =~= m.attached.skip(1));
    let at = m.attached[k];
    assert(lacks(m.latest, at, now_ns) ==> some_lack(m.attached, m.latest, now_ns));
}

/// Weights end the wait, whichever way they came, and they are the newest of their process
/// from then on. Those of other processes stay.
pub proof fn law_weights_end_the_wait<D>(
    m: RecvModel<D>,
    pid: i32,
    data: D,
    now_ns: u128,
    other: i32,
)
    requires
        m.stage == RecvStage::Draining(pid) || m.stage == RecvStage::Probing(pid),
        other != pid,
    ensures
        ({
            let (next, action) = m.step(RecvInput::Updated(Update::Weights(data)), now_ns);
            &&& action == RecvAction::End(RecvEnd::Got(pid))
            &&& next.latest.contains_key(pid)
            &&& next.latest[pid] == (TimedPolicyWeights { received_at_ns: now_ns, data })
            &&& next.latest.contains_key(other) == m.latest.contains_key(other)
            &&& m.latest.contains_key(other) ==> next.latest[other] == m.latest[other]
            &&& next.attached == m.attached
            &&& next.buffer == m.buffer
        }),
{
}

/// A process whose update fails is no longer watched, has no events waiting and keeps no
/// weights. All other processes stay watched and keep theirs.
pub proof fn law_failed_process_is_dropped<D>(
    m: RecvModel<D>,
    pid: i32,
    ok: bool,
    now_ns: u128,
    other: i32,
)
    requires
        m.stage == RecvStage::Draining(pid) || m.stage == RecvStage::Probing(pid),
        m.attached.contains(pid),
        other != pid,
    ensures
        ({
            let (next, action) = m.step(RecvInput::Updated(Update::Failed(ok)), now_ns);
            &&& !next.attached.contains(pid)
            &&& !next.buffer.contains(pid)
            &&& !next.latest.contains_key(pid)
            &&& next.attached.contains(other) == m.attached.contains(other)
            &&& next.latest.contains_key(other) == m.latest.contains_key(other)
            &&& m.latest.contains_key(other) ==> next.latest[other] == m.latest[other]
            &&& next.polling ==> next.attached.len() > 0
            &&& ok && next.attached.len() > 0 ==> next.polling
            &&& action != RecvAction::Update(pid)
        }),
{
    lemma_without(m.attached, pid);
    lemma_without(m.buffer, pid);
    let gone = m.detached(pid).registered(ok);
    lemma_from_attached_part(gone.buffer, gone.attached);
    lemma_from_attached_part(gone.probes, gone.attached);
    lemma_from_attached_part(gone.attached, gone.attached);
}

proof fn lemma_from_attached_part(list: Seq<i32>, attached: Seq<i32>)
    ensures
        ({
            let rest = from_attached(list, attached);
            &&& rest.len() > 0 ==> attached.contains(rest[0])
            &&& forall|p: i32| #[trigger] rest.contains(p) ==> list.contains(p)
            &&& rest.len() > 0 ==> forall|p: i32| #[trigger]
                rest.drop_first().contains(p) ==> list.contains(p)
        }),
    decreases list.len(),
{
    let rest = from_attached(list, attached);
    if list.len() > 0 && !attached.contains(list[0]) {
        let tail = list.drop_first();
        lemma_from_attached_part(tail, attached);
        assert forall|p: i32| #[trigger] tail.contains(p) implies list.contains(p) by {
            let k = choose|k: int| 0 <= k < tail.len() && tail[k] == p;
            assert(list[k + 1] == p);
        }
    }
    if rest.len() > 0 {
        assert forall|p: i32| #[trigger] rest.drop_first().contains(p) implies rest.contains(p) by {
            let k = choose|k: int| 0 <= k < rest.drop_first().len() && rest.drop_first()[k] == p;
            assert(rest[k + 1] == p);
        }
    }
}

/// The events that come are looked at in the order in which they came, after those that were
/// waiting. Where waiting for them fails, so does the wait.
pub proof fn law_events_come_last<D>(
    m: RecvModel<D>,
    timed_out: bool,
    pids: Vec<i32>,
    now_ns: u128,
    i: int,
)
    requires
        m.stage == RecvStage::Polling(timed_out),
        m.buffer.len() == 0,
        0 <= i < pids@.len(),
        m.attached.contains(pids@[i]),
        forall|j: int| 0 <= j < i ==> !m.attached.contains(#[trigger] pids@[j]),
    ensures
        m.step(RecvInput::Polled(pids), now_ns).1 == RecvAction::Update(pids@[i]),
        m.step(RecvInput::Polled(pids), now_ns).0.buffer == pids@.skip(i + 1),
        m.step(RecvInput::Polled(pids), now_ns).0.polled_once,
        m.step(RecvInput::PollFailed, now_ns).1 == RecvAction::End(RecvEnd::Disconnected),
{
    assert(m.buffer + pids@ =~= pids@);
    lemma_from_attached(pids@, m.attached, i);
    assert(pids@.skip(i).drop_first() =~= pids@.skip(i + 1));
}

/// Processes are probed one after the other, those that are no longer watched are passed over,
/// and when none is left the wait is over.
pub proof fn law_probes_go_on<D>(m: RecvModel<D>, pid: i32, now_ns: u128, i: int)
    requires
        m.stage == RecvStage::Probing(pid),
        0 <= i <= m.probes.len(),
        i < m.probes.len() ==> m.attached.contains(m.probes[i]),
        forall|j: int| 0 <= j < i ==> !m.attached.contains(#[trigger] m.probes[j]),
    ensures
        ({
            let (next, action) = m.step(RecvInput::Updated(Update::Nothing), now_ns);
            &&& i < m.probes.len() ==> action == RecvAction::Update(m.probes[i]) && next.probes
                == m.probes.skip(i + 1)
            &&& i == m.probes.len() ==> action == RecvAction::End(RecvEnd::Timeout)
            &&& next.latest == m.latest
            &&& next.attached == m.attached
        }),
{
    lemma_from_attached(m.probes, m.attached, i);
    if i < m.probes.len() {
        assert(m.probes.skip(i).drop_first() =~= m.probes.skip(i + 1));
    }
}

} // verus!
