//! The main loop of the scheduler: when it takes over the frequencies of a game, and when it
//! lets go of them.
use crate::pids::{holds_pid, inside, outside, vec_without, without};
use crate::target::elapsed;
use vstd::prelude::*;

verus! {

/// `likely_stable::likely` hands its argument back; it only tells the compiler which way the
/// branch mostly goes.
pub assume_specification[ likely_stable::likely ](b: bool) -> (r: bool)
    ensures
        r == b,
;

/// `likely_stable::unlikely` hands its argument back; it only tells the compiler which way
/// the branch mostly goes.
pub assume_specification[ likely_stable::unlikely ](b: bool) -> (r: bool)
    ensures
        r == b,
;

/// How long a game has to run before the scheduler takes over: three seconds.
pub const DELAY_TIME_NS: u128 = 3_000_000_000;

/// Least time between two restarts of the frame analyzer: one second.
pub const RESTART_INTERVAL_NS: u128 = 1_000_000_000;

/// How much the scheduler saves.
#[derive(Debug, Copy, Clone, PartialEq, Eq, Structural)]
pub enum Mode {
    Powersave,
    Balance,
    Performance,
    Fast,
}

/// What the scheduler does.
#[derive(Debug, Copy, Clone, PartialEq, Eq, Structural)]
pub enum State {
    NotWorking,
    /// It will take over in a while.
    Waiting,
    Working,
}

/// Whether the frames of a game tell anything yet.
#[derive(Debug, Copy, Clone, PartialEq, Eq, Structural)]
pub enum BufferWorkingState {
    Unusable,
    Usable,
}

/// The game whose frames are looked at.
#[derive(Debug, Copy, Clone, PartialEq, Eq, Structural)]
pub struct Game {
    pub pid: i32,
    pub working_state: BufferWorkingState,
}

/// What starting the scheduler comes to.
#[derive(Debug, Copy, Clone, PartialEq, Eq, Structural)]
pub enum Enabled {
    /// Nothing changes.
    Unchanged,
    /// The wait began.
    Started,
    /// The scheduler takes over the game.
    TookOver(i32),
}

/// What looking after the game in front comes to.
#[derive(Debug)]
pub struct Retained {
    /// The processes that are no longer watched.
    pub detach: Vec<i32>,
    /// The game that is gone. Its frames are no longer looked at.
    pub unload: Option<i32>,
    /// The scheduler let go of the frequencies.
    pub stopped: bool,
    pub enabled: Enabled,
}

/// What to do with a frame.
#[derive(Debug, Copy, Clone, PartialEq, Eq, Structural)]
pub enum FrameStep {
    /// Nothing.
    Ignore,
    /// Add it to the frames of the game.
    Push,
    /// Begin a new game with it.
    Begin,
}

/// What follows a frame, or the lack of one.
#[derive(Debug, Copy, Clone, PartialEq, Eq, Structural)]
pub enum Follow {
    Nothing,
    /// Set the frequencies.
    DoPolicy,
    /// Let go of the frequencies.
    Disable,
    /// Restart the frame analyzer and let go of the frequencies.
    RestartAndDisable,
}

/// The scheduler.
#[derive(Debug)]
pub struct Looper {
    pub mode: Mode,
    pub working_state: State,
    /// When the wait began.
    pub delay_timer_ns: u128,
    /// The game whose frames are looked at.
    pub buffer: Option<Game>,
    pub restart_counter: u8,
    pub restart_timer_ns: u128,
    /// The processes that the worker was told to watch, each once.
    pub cpcs_attached: Vec<i32>,
}

impl Looper {
    /// The scheduler has a game while it works, no process is watched twice, and the counter
    /// stands at zero or one.
    pub open spec fn wf(self) -> bool {
        &&& self.working_state == State::Working ==> self.buffer is Some
        &&& self.cpcs_attached@.no_duplicates()
        &&& self.restart_counter <= 1
    }

    /// A scheduler that was made at `now_ns` and does nothing.
    pub fn new(now_ns: u128) -> (looper: Self)
        ensures
            looper.wf(),
            looper.mode == Mode::Balance,
            looper.working_state == State::NotWorking,
            looper.delay_timer_ns == now_ns,
            looper.buffer is None,
            looper.restart_counter == 0,
            looper.restart_timer_ns == now_ns,
            looper.cpcs_attached@ == Seq::<i32>::empty(),
    {
        Looper {
            mode: Mode::Balance,
            working_state: State::NotWorking,
            delay_timer_ns: now_ns,
            buffer: None,
            restart_counter: 0,
            restart_timer_ns: now_ns,
            cpcs_attached: Vec::new(),
        }
    }

    /// The mode is `new_mode`, if it could be read. Where it changed while the scheduler
    /// works, the result is the game to begin anew with.
    pub fn switch_mode(&mut self, new_mode: Option<Mode>) -> (restart: Option<i32>)
        requires
            old(self).wf(),
        ensures
            final(self).wf(),
            final(self).mode == (match new_mode {
                Some(mode) => mode,
                None => old(self).mode,
            }),
            *final(self) == (Looper { mode: final(self).mode, ..*old(self) }),
            restart == (if final(self).mode != old(self).mode && old(self).working_state
                == State::Working {
                Some(old(self).buffer->0.pid)
            } else {
                None
            }),
    {
        if let Some(mode) = new_mode {
            if likely_stable::likely(self.mode != mode) {
                self.mode = mode;
                if self.working_state == State::Working {
                    return match self.buffer {
                        Some(game) => Some(game.pid),
                        None => None,
                    };
                }
            }
        }
        None
    }

    /// Process `pid` is in front and wanted. Says whether the worker has to be told of it.
    pub fn update_analyzer(&mut self, pid: i32) -> (tell: bool)
        requires
            old(self).wf(),
        ensures
            final(self).wf(),
            tell == !old(self).cpcs_attached@.contains(pid),
            final(self).cpcs_attached@ == (if tell {
                old(self).cpcs_attached@.push(pid)
            } else {
                old(self).cpcs_attached@
            }),
            *final(self) == (Looper { cpcs_attached: final(self).cpcs_attached, ..*old(self) }),
    {
        if holds_pid(&self.cpcs_attached, pid) {
            return false;
        }
        self.cpcs_attached.push(pid);
        true
    }

    /// The worker could not be told of `pid`.
    pub fn attach_refused(&mut self, pid: i32)
        requires
            old(self).wf(),
        ensures
            final(self).wf(),
            final(self).cpcs_attached@ == without(old(self).cpcs_attached@, pid),
            *final(self) == (Looper { cpcs_attached: final(self).cpcs_attached, ..*old(self) }),
    {
        let rest = vec_without(&self.cpcs_attached, pid);
        proof {
            crate::pids::lemma_without(self.cpcs_attached@, pid);
        }
        self.cpcs_attached = rest;
    }

    /// The frame analyzer is to be restarted where the frames of the game tell nothing at
    /// `now_ns`.
    pub open spec fn restarts(self, now_ns: u128) -> bool {
        self.restart_counter == 1 && elapsed(self.restart_timer_ns, now_ns) >= RESTART_INTERVAL_NS
    }

    /// The counter and the timer after the frames of the game told nothing at `now_ns`.
    pub open spec fn told_nothing(self, now_ns: u128) -> (u8, u128) {
        if self.restarts(now_ns) {
            (0, now_ns)
        } else {
            (1, self.restart_timer_ns)
        }
    }

    /// The frames of the game tell nothing. Says whether the frame analyzer is to be
    /// restarted: at every second time, and at most once in a second.
    pub fn restart_analyzer(&mut self, now_ns: u128) -> (restart: bool)
        requires
            old(self).wf(),
        ensures
            final(self).wf(),
            restart == (old(self).restart_counter == 1 && elapsed(
                old(self).restart_timer_ns,
                now_ns,
            ) >= RESTART_INTERVAL_NS),
            final(self).restart_counter == (if restart {
                0u8
            } else {
                1u8
            }),
            final(self).restart_timer_ns == (if restart {
                now_ns
            } else {
                old(self).restart_timer_ns
            }),
            *final(self) == (Looper {
                restart_counter: final(self).restart_counter,
                restart_timer_ns: final(self).restart_timer_ns,
                ..*old(self)
            }),
            restart == old(self).restarts(now_ns),
            (final(self).restart_counter, final(self).restart_timer_ns) == old(self).told_nothing(
                now_ns,
            ),
    {
        if self.restart_counter == 1 {
            if now_ns.saturating_sub(self.restart_timer_ns) >= RESTART_INTERVAL_NS {
                self.restart_timer_ns = now_ns;
                self.restart_counter = 0;
                return true;
            }
        } else {
            self.restart_counter = self.restart_counter + 1;
        }
        false
    }

    /// The game whose frequencies are to be set. There is none unless the scheduler works.
    pub fn do_policy(&self) -> (pid: Option<i32>)
        ensures
            pid == (if self.working_state == State::Working && self.buffer is Some {
                Some(self.buffer->0.pid)
            } else {
                None
            }),
    {
        if likely_stable::unlikely(self.working_state != State::Working) {
            return None;
        }
        match self.buffer {
            Some(game) => Some(game.pid),
            None => None,
        }
    }

    /// Stops watching the processes that are no longer in front. The result lists them.
    pub fn prune_stale_cpcs_attachments(&mut self, topapps: &Vec<i32>) -> (stale: Vec<i32>)
        requires
            old(self).wf(),
        ensures
            final(self).wf(),
            stale@ == old(self).cpcs_attached@.filter(|pid: i32| !topapps@.contains(pid)),
            final(self).cpcs_attached@ == old(self).cpcs_attached@.filter(
                |pid: i32| topapps@.contains(pid),
            ),
            *final(self) == (Looper { cpcs_attached: final(self).cpcs_attached, ..*old(self) }),
    {
        let stale = outside(&self.cpcs_attached, topapps);
        let kept = inside(&self.cpcs_attached, topapps);
        proof {
            lemma_filter_no_duplicates(self.cpcs_attached@, |pid: i32| topapps@.contains(pid));
        }
        self.cpcs_attached = kept;
        stale
    }

    /// Lets go of the frequencies. Says whether the scheduler worked.
    pub fn disable_fas(&mut self) -> (stopped: bool)
        requires
            old(self).cpcs_attached@.no_duplicates(),
            old(self).restart_counter <= 1,
        ensures
            final(self).wf(),
            stopped == (old(self).working_state == State::Working),
            final(self).working_state == State::NotWorking,
            *final(self) == (Looper { working_state: State::NotWorking, ..*old(self) }),
    {
        match self.working_state {
            State::Working => {
                self.working_state = State::NotWorking;
                true
            },
            State::Waiting => {
                self.working_state = State::NotWorking;
                false
            },
            State::NotWorking => false,
        }
    }

    /// What [`Looper::enable_fas`] comes to at `now_ns`.
    pub open spec fn enabled(self, now_ns: u128) -> Enabled {
        match self.working_state {
            State::NotWorking => Enabled::Started,
            State::Waiting => if elapsed(self.delay_timer_ns, now_ns) > DELAY_TIME_NS {
                Enabled::TookOver(self.buffer->0.pid)
            } else {
                Enabled::Unchanged
            },
            State::Working => Enabled::Unchanged,
        }
    }

    /// Starts the scheduler: it waits for a while, then takes over the game, which must be
    /// there by then.
    pub fn enable_fas(&mut self, now_ns: u128) -> (enabled: Enabled)
        requires
            old(self).wf(),
            old(self).working_state == State::Waiting && elapsed(
                old(self).delay_timer_ns,
                now_ns,
            ) > DELAY_TIME_NS ==> old(self).buffer is Some,
        ensures
            final(self).wf(),
            enabled == old(self).enabled(now_ns),
            final(self).working_state == (match enabled {
                Enabled::Started => State::Waiting,
                Enabled::TookOver(_) => State::Working,
                Enabled::Unchanged => old(self).working_state,
            }),
            final(self).delay_timer_ns == (if enabled == Enabled::Started {
                now_ns
            } else {
                old(self).delay_timer_ns
            }),
            *final(self) == (Looper {
                working_state: final(self).working_state,
                delay_timer_ns: final(self).delay_timer_ns,
                ..*old(self)
            }),
    {
        match self.working_state {
            State::NotWorking => {
                self.working_state = State::Waiting;
                self.delay_timer_ns = now_ns;
                Enabled::Started
            },
            State::Waiting => {
                if now_ns.saturating_sub(self.delay_timer_ns) > DELAY_TIME_NS {
                    if let Some(game) = self.buffer {
                        self.working_state = State::Working;
                        return Enabled::TookOver(game.pid);
                    }
                }
                Enabled::Unchanged
            },
            State::Working => Enabled::Unchanged,
        }
    }

    /// The game that is gone where the processes `topapps` are in front.
    pub open spec fn gone(self, topapps: Seq<i32>) -> Option<i32> {
        match self.buffer {
            Some(game) => if topapps.contains(game.pid) {
                None
            } else {
                Some(game.pid)
            },
            None => None,
        }
    }

    /// Looks after the game in front. A game that is no longer there is forgotten. Without a
    /// game, and while its frames tell nothing, the scheduler lets go of the frequencies;
    /// else it is started.
    pub fn retain_topapp(&mut self, topapps: &Vec<i32>, now_ns: u128) -> (retained: Retained)
        requires
            old(self).wf(),
        ensures
            final(self).wf(),
            retained.detach@ == old(self).cpcs_attached@.filter(|pid: i32| !topapps@.contains(pid)),
            final(self).cpcs_attached@ == old(self).cpcs_attached@.filter(
                |pid: i32| topapps@.contains(pid),
            ),
            retained.unload == old(self).gone(topapps@),
            final(self).buffer == (if retained.unload is Some {
                None
            } else {
                old(self).buffer
            }),
            ({
                let usable = final(self).buffer is Some && final(self).buffer->0.working_state
                    == BufferWorkingState::Usable;
                if usable {
                    &&& !retained.stopped
                    &&& retained.enabled == old(self).enabled(now_ns)
                    &&& final(self).working_state == (match retained.enabled {
                        Enabled::Started => State::Waiting,
                        Enabled::TookOver(_) => State::Working,
                        Enabled::Unchanged => old(self).working_state,
                    })
                    &&& final(self).delay_timer_ns == (if retained.enabled == Enabled::Started {
                        now_ns
                    } else {
                        old(self).delay_timer_ns
                    })
                } else {
                    &&& retained.stopped == (old(self).working_state == State::Working)
                    &&& retained.enabled == Enabled::Unchanged
                    &&& final(self).working_state == State::NotWorking
                    &&& final(self).delay_timer_ns == old(self).delay_timer_ns
                }
            }),
            final(self).mode == old(self).mode,
            final(self).restart_counter == old(self).restart_counter,
            final(self).restart_timer_ns == old(self).restart_timer_ns,
    {
        let detach = self.prune_stale_cpcs_attachments(topapps);
        let mut unload: Option<i32> = None;
        if let Some(game) = self.buffer {
            if !holds_pid(topapps, game.pid) {
                unload = Some(game.pid);
                self.buffer = None;
            }
        }
        let usable = match self.buffer {
            Some(game) => game.working_state == BufferWorkingState::Usable,
            None => false,
        };
        if !usable {
            let stopped = self.disable_fas();
            return Retained { detach, unload, stopped, enabled: Enabled::Unchanged };
        }
        let enabled = self.enable_fas(now_ns);
        Retained { detach, unload, stopped: false, enabled }
    }

    /// What to do with a frame of process `pid` that took `frametime_ns`. Frames of processes
    /// that are not in front and frames that took no time are ignored.
    pub fn buffer_update(&self, pid: i32, frametime_ns: u128, topapps: &Vec<i32>) -> (step:
        FrameStep)
        ensures
            step == (if !topapps@.contains(pid) || frametime_ns == 0 {
                FrameStep::Ignore
            } else if self.buffer is Some {
                FrameStep::Push
            } else {
                FrameStep::Begin
            }),
    {
        if likely_stable::unlikely(!holds_pid(topapps, pid) || frametime_ns == 0) {
            return FrameStep::Ignore;
        }
        match self.buffer {
            Some(_) => FrameStep::Push,
            None => FrameStep::Begin,
        }
    }

    /// A new game began: its frames tell nothing yet.
    pub fn begin_game(&mut self, pid: i32) -> (working_state: BufferWorkingState)
        requires
            old(self).wf(),
        ensures
            final(self).wf(),
            working_state == BufferWorkingState::Unusable,
            final(self).buffer == Some(Game { pid, working_state }),
            *final(self) == (Looper { buffer: final(self).buffer, ..*old(self) }),
    {
        self.buffer = Some(Game { pid, working_state: BufferWorkingState::Unusable });
        BufferWorkingState::Unusable
    }

    /// The frames of the game tell something, or nothing any more.
    pub fn set_working_state(&mut self, working_state: BufferWorkingState)
        requires
            old(self).wf(),
        ensures
            final(self).wf(),
            final(self).buffer == (match old(self).buffer {
                Some(game) => Some(Game { working_state, ..game }),
                None => None,
            }),
            *final(self) == (Looper { buffer: final(self).buffer, ..*old(self) }),
    {
        if let Some(game) = self.buffer {
            self.buffer = Some(Game { working_state, ..game });
        }
    }

    /// What follows a frame that left the frames of the game in this state, if it was not
    /// ignored.
    pub fn after_frame(state: Option<BufferWorkingState>) -> (follow: Follow)
        ensures
            follow == (match state {
                Some(BufferWorkingState::Usable) => Follow::DoPolicy,
                Some(BufferWorkingState::Unusable) => Follow::Disable,
                None => Follow::Nothing,
            }),
    {
        match state {
            Some(BufferWorkingState::Usable) => Follow::DoPolicy,
            Some(BufferWorkingState::Unusable) => Follow::Disable,
            None => Follow::Nothing,
        }
    }

    /// What follows where no frame came in time.
    pub fn after_jank(&self) -> (follow: Follow)
        ensures
            follow == (match self.buffer {
                Some(game) => match game.working_state {
                    BufferWorkingState::Usable => Follow::DoPolicy,
                    BufferWorkingState::Unusable => Follow::RestartAndDisable,
                },
                None => Follow::Nothing,
            }),
    {
        match self.buffer {
            Some(game) => match game.working_state {
                BufferWorkingState::Usable => Follow::DoPolicy,
                BufferWorkingState::Unusable => Follow::RestartAndDisable,
            },
            None => Follow::Nothing,
        }
    }
}

/// A game is taken over only after the scheduler has waited for more than
/// [`DELAY_TIME_NS`] since it was started.
pub proof fn law_takeover_needs_wait(
    before: Looper,
    started_ns: u128,
    waiting: Looper,
    now_ns: u128,
)
    requires
        before.enabled(started_ns) == Enabled::Started,
        waiting.working_state == State::Waiting,
        waiting.delay_timer_ns == started_ns,
    ensures
        waiting.enabled(now_ns) is TookOver <==> now_ns > started_ns + DELAY_TIME_NS,
        before.enabled(now_ns) !is TookOver,
{
}

proof fn lemma_filter_no_duplicates(list: Seq<i32>, keep: spec_fn(i32) -> bool)
    requires
        list.no_duplicates(),
    ensures
        list.filter(keep).no_duplicates(),
        forall|p: i32| #[trigger] list.filter(keep).contains(p) ==> list.contains(p),
    decreases list.len(),
{
    reveal(Seq::filter);
    if list.len() > 0 {
        let rest = list.drop_last();
        let last = list.last();
        assert(rest.no_duplicates()) by {
            assert forall|i: int, j: int|
                0 <= i < rest.len() && 0 <= j < rest.len() && i != j implies rest[i] != rest[j] by {
                assert(list[i] != list[j]);
            }
        }
        lemma_filter_no_duplicates(rest, keep);
        let was = rest.filter(keep);
        assert(list[list.len() - 1] == last);
        assert forall|p: i32| #[trigger] rest.contains(p) implies list.contains(p) && p != last by {
            let k = choose|k: int| 0 <= k < rest.len() && rest[k] == p;
            assert(list[k] == p);
            assert(list[k] != list[list.len() - 1]);
        }
        if keep(last) {
            crate::pids::lemma_push_contains(was, last);
            if was.contains(last) {
                assert(rest.contains(last));
            }
        }
    }
}

/// A game is gone where it is not among the processes in front.
pub proof fn law_game_not_in_front_is_gone(looper: Looper, topapps: Seq<i32>, pid: i32)
    ensures
        looper.gone(topapps) == Some(pid) <==> looper.buffer is Some && looper.buffer->0.pid == pid
            && !topapps.contains(pid),
        looper.buffer is None ==> looper.gone(topapps) is None,
{
}

/// Starting the scheduler begins the wait where it does nothing, and changes nothing where it
/// works. Where it waits, it takes over its own game once more than three seconds have
/// passed.
pub proof fn law_enabling(looper: Looper, now_ns: u128)
    ensures
        looper.enabled(now_ns) == Enabled::Started <==> looper.working_state == State::NotWorking,
        looper.enabled(now_ns) is TookOver <==> looper.working_state == State::Waiting && now_ns
            > looper.delay_timer_ns + 3_000_000_000,
        looper.enabled(now_ns) matches Enabled::TookOver(pid) ==> pid == looper.buffer->0.pid,
{
}

/// The frame analyzer is restarted at the second time that the frames tell nothing and no
/// earlier, and after a restart at the second time again, but not within a second of the last
/// restart. A time at which it is not restarted for that is made up for at the next.
pub proof fn law_restarts_are_rare(
    first: Looper,
    first_ns: u128,
    second: Looper,
    second_ns: u128,
    third: Looper,
    third_ns: u128,
)
    requires
        first.restart_counter == 0,
        (second.restart_counter, second.restart_timer_ns) == first.told_nothing(first_ns),
        (third.restart_counter, third.restart_timer_ns) == second.told_nothing(second_ns),
    ensures
        !first.restarts(first_ns),
        second.restarts(second_ns) <==> second_ns >= first.restart_timer_ns + 1_000_000_000,
        second.restarts(second_ns) ==> !third.restarts(third_ns) && third.restart_timer_ns
            == second_ns && third.restart_counter == 0,
        !second.restarts(second_ns) ==> (third.restarts(third_ns) <==> third_ns
            >= first.restart_timer_ns + 1_000_000_000),
{
}

} // verus!
