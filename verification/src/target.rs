//! One watched process on the user side: from an event in the ring buffer to the frame whose
//! counters are worth analysing.
use crate::event::{Event, EventKind};
use crate::probe::{publication, DAG_BANKS};
use vstd::prelude::*;

verus! {

/// How often the threads of the process are looked up again: every two seconds.
pub const TID_REFRESH_NS: u128 = 2_000_000_000;

/// The time from `since_ns` to `now_ns`, zero where that lies ahead.
pub open spec fn elapsed(since_ns: u128, now_ns: u128) -> u128 {
    if now_ns > since_ns {
        (now_ns - since_ns) as u128
    } else {
        0
    }
}

/// A frame whose counters are complete, as an event tells of it.
#[derive(Debug, Copy, Clone, PartialEq, Eq, Structural)]
pub struct ClosedFrame {
    pub frame_id: u64,
    /// The bank that holds the counters.
    pub bank: u32,
    /// The thread that ended the frame.
    pub tail_tid: u32,
}

/// The frame that `event` tells of. The first frame has the number one, and the event bears
/// the number of the frame after it.
pub open spec fn closed_frame(event: Event) -> Option<ClosedFrame> {
    if event.kind == EventKind::FramePoint.code_spec() && event.arg0 > 1 && (event.arg1 as u32)
        < DAG_BANKS {
        Some(
            ClosedFrame {
                frame_id: (event.arg0 - 1) as u64,
                bank: event.arg1 as u32,
                tail_tid: event.tid,
            },
        )
    } else {
        None
    }
}

/// The frame that `event` tells of.
pub fn closed_frame_of(event: &Event) -> (frame: Option<ClosedFrame>)
    ensures
        frame == closed_frame(*event),
{
    if event.kind != EventKind::FramePoint.code() {
        return None;
    }
    let frame_id = event.arg0.saturating_sub(1);
    if frame_id == 0 {
        return None;
    }
    let bank = #[verifier::truncate] (event.arg1 as u32);
    if bank >= DAG_BANKS {
        return None;
    }
    Some(ClosedFrame { frame_id, bank, tail_tid: event.tid })
}

/// What an update of a process came to.
#[derive(Debug, Copy, Clone, PartialEq, Eq, Structural)]
pub enum UpdateOutcome {
    /// No event was waiting.
    RingEmpty,
    /// The event was of no use.
    Skipped,
    /// The frame gave weights.
    Weights(ClosedFrame),
    /// Something failed on the way.
    Failed,
}

/// Where an update stands.
#[derive(Debug, Copy, Clone, PartialEq, Eq, Structural)]
pub enum UpdateStage {
    Idle,
    Refreshing,
    Taking,
    Checking(ClosedFrame),
    Collecting(ClosedFrame),
    Weighing(ClosedFrame),
}

/// What has to be done next for an update.
#[derive(Debug, Copy, Clone, PartialEq, Eq, Structural)]
pub enum UpdateAction {
    /// Look the threads of the process up.
    RefreshTids,
    /// Take an event from the ring buffer.
    TakeEvent,
    /// Read which frame the bank holds.
    ReadBankFrameId(u32),
    /// Empty the bank into the frame.
    Collect(u32),
    /// Work out the weights of the frame.
    Weigh(ClosedFrame),
    /// Nothing: the update is over.
    End(UpdateOutcome),
}

/// What was done for an update.
#[derive(Copy, Clone)]
pub enum UpdateInput {
    /// An update is asked for.
    Start,
    /// The threads were looked up.
    Refreshed,
    /// This event was taken, if there was one.
    Taken(Option<Event>),
    /// The bank holds this frame.
    BankFrameId(u64),
    /// The bank is empty and the frame filled.
    Collected,
    /// The weights are there; some policy has one, or none has.
    Weighed(bool),
    /// It did not work.
    Failed,
}

impl UpdateStage {
    /// `input` answers what was asked for at this stage.
    pub open spec fn accepts(self, input: UpdateInput) -> bool {
        match (self, input) {
            (UpdateStage::Idle, UpdateInput::Start) => true,
            (UpdateStage::Refreshing, UpdateInput::Refreshed) => true,
            (UpdateStage::Taking, UpdateInput::Taken(_)) => true,
            (UpdateStage::Checking(_), UpdateInput::BankFrameId(_)) => true,
            (UpdateStage::Collecting(_), UpdateInput::Collected) => true,
            (UpdateStage::Weighing(_), UpdateInput::Weighed(_)) => true,
            (UpdateStage::Idle, UpdateInput::Failed) => false,
            (_, UpdateInput::Failed) => true,
            _ => false,
        }
    }
}

/// The stage and the action that follow `input`, where the threads were last looked up at
/// `refreshed_ns`.
pub open spec fn update_step(
    stage: UpdateStage,
    refreshed_ns: u128,
    input: UpdateInput,
    now_ns: u128,
) -> (UpdateStage, UpdateAction) {
    match (stage, input) {
        (UpdateStage::Idle, UpdateInput::Start) => {
            if elapsed(refreshed_ns, now_ns) >= TID_REFRESH_NS {
                (UpdateStage::Refreshing, UpdateAction::RefreshTids)
            } else {
                (UpdateStage::Taking, UpdateAction::TakeEvent)
            }
        },
        (UpdateStage::Refreshing, UpdateInput::Refreshed) => {
            (UpdateStage::Taking, UpdateAction::TakeEvent)
        },
        (UpdateStage::Taking, UpdateInput::Taken(None)) => {
            (UpdateStage::Idle, UpdateAction::End(UpdateOutcome::RingEmpty))
        },
        (UpdateStage::Taking, UpdateInput::Taken(Some(event))) => {
            match closed_frame(event) {
                Some(frame) => (
                    UpdateStage::Checking(frame),
                    UpdateAction::ReadBankFrameId(frame.bank),
                ),
                None => (UpdateStage::Idle, UpdateAction::End(UpdateOutcome::Skipped)),
            }
        },
        (UpdateStage::Checking(frame), UpdateInput::BankFrameId(frame_id)) => {
            if frame_id == frame.frame_id {
                (UpdateStage::Collecting(frame), UpdateAction::Collect(frame.bank))
            } else {
                (UpdateStage::Idle, UpdateAction::End(UpdateOutcome::Skipped))
            }
        },
        (UpdateStage::Collecting(frame), UpdateInput::Collected) => {
            (UpdateStage::Weighing(frame), UpdateAction::Weigh(frame))
        },
        (UpdateStage::Weighing(frame), UpdateInput::Weighed(some)) => {
            (
                UpdateStage::Idle,
                UpdateAction::End(
                    if some {
                        UpdateOutcome::Weights(frame)
                    } else {
                        UpdateOutcome::Skipped
                    },
                ),
            )
        },
        _ => (UpdateStage::Idle, UpdateAction::End(UpdateOutcome::Failed)),
    }
}

/// A watched process.
#[derive(Debug)]
pub struct AnalyzeTarget {
    pub pid: i32,
    /// When the threads of the process were last looked up.
    pub last_tid_refresh_ns: u128,
    pub stage: UpdateStage,
}

impl AnalyzeTarget {
    /// A process whose threads were looked up at `now_ns`.
    pub fn new(pid: i32, now_ns: u128) -> (target: Self)
        ensures
            target.pid == pid,
            target.last_tid_refresh_ns == now_ns,
            target.stage == UpdateStage::Idle,
    {
        AnalyzeTarget { pid, last_tid_refresh_ns: now_ns, stage: UpdateStage::Idle }
    }

    /// One step of an update: `input` tells what came of the last action, the result is the
    /// next one.
    pub fn update(&mut self, input: UpdateInput, now_ns: u128) -> (action: UpdateAction)
        requires
            old(self).stage.accepts(input),
        ensures
            (final(self).stage, action) == update_step(
                old(self).stage,
                old(self).last_tid_refresh_ns,
                input,
                now_ns,
            ),
            final(self).pid == old(self).pid,
            final(self).last_tid_refresh_ns == (if input is Refreshed {
                now_ns
            } else {
                old(self).last_tid_refresh_ns
            }),
    {
        let mut end = UpdateOutcome::Failed;
        match (self.stage, input) {
            (UpdateStage::Idle, UpdateInput::Start) => {
                if now_ns.saturating_sub(self.last_tid_refresh_ns) >= TID_REFRESH_NS {
                    self.stage = UpdateStage::Refreshing;
                    return UpdateAction::RefreshTids;
                }
                self.stage = UpdateStage::Taking;
                return UpdateAction::TakeEvent;
            },
            (UpdateStage::Refreshing, UpdateInput::Refreshed) => {
                self.last_tid_refresh_ns = now_ns;
                self.stage = UpdateStage::Taking;
                return UpdateAction::TakeEvent;
            },
            (UpdateStage::Taking, UpdateInput::Taken(None)) => {
                end = UpdateOutcome::RingEmpty;
            },
            (UpdateStage::Taking, UpdateInput::Taken(Some(event))) => {
                if let Some(frame) = closed_frame_of(&event) {
                    self.stage = UpdateStage::Checking(frame);
                    return UpdateAction::ReadBankFrameId(frame.bank);
                }
                end = UpdateOutcome::Skipped;
            },
            (UpdateStage::Checking(frame), UpdateInput::BankFrameId(frame_id)) => {
                if frame_id == frame.frame_id {
                    self.stage = UpdateStage::Collecting(frame);
                    return UpdateAction::Collect(frame.bank);
                }
                end = UpdateOutcome::Skipped;
            },
            (UpdateStage::Collecting(frame), UpdateInput::Collected) => {
                self.stage = UpdateStage::Weighing(frame);
                return UpdateAction::Weigh(frame);
            },
            (UpdateStage::Weighing(frame), UpdateInput::Weighed(some)) => {
                end = if some {
                    UpdateOutcome::Weights(frame)
                } else {
                    UpdateOutcome::Skipped
                };
            },
            _ => {},
        }
        self.stage = UpdateStage::Idle;
        UpdateAction::End(end)
    }
}

/// A frame that the kernel side published is the frame that the user side reads out of the
/// event, and it is analysed as long as its bank still holds it.
pub proof fn law_published_frame_is_analysed(event: Event, frame_id: u64, bank: u32, now_ns: u128)
    requires
        0 < frame_id < u64::MAX,
        bank < DAG_BANKS,
        event.kind == EventKind::FramePoint.code_spec(),
        event.arg0 == publication(frame_id, bank).arg0,
        event.arg1 == publication(frame_id, bank).arg1,
    ensures
        closed_frame(event) == Some(ClosedFrame { frame_id, bank, tail_tid: event.tid }),
        forall|held: u64| #[trigger]
            update_step(
                UpdateStage::Checking(closed_frame(event)->0),
                now_ns,
                UpdateInput::BankFrameId(held),
                now_ns,
            ).1 == (if held == frame_id {
                UpdateAction::Collect(bank)
            } else {
                UpdateAction::End(UpdateOutcome::Skipped)
            }),
{
    assert(bank as u64 as u32 == bank);
}

/// While fewer than [`DAG_BANKS`] frames were published since, the bank of a published frame
/// is not written to again: the banks that follow are all others.
pub proof fn law_banks_rotate(bank: u32, k: nat)
    requires
        bank < DAG_BANKS,
        0 < k < DAG_BANKS,
    ensures
        bank_after(bank, k) != bank,
        bank_after(bank, DAG_BANKS as nat) == bank,
{
    lemma_bank_after(bank, k);
    lemma_bank_after(bank, DAG_BANKS as nat);
}

/// The bank in use after `k` more publications.
pub open spec fn bank_after(bank: u32, k: nat) -> u32
    decreases k,
{
    if k == 0 {
        bank
    } else {
        publication(0, bank_after(bank, (k - 1) as nat)).next_bank
    }
}

proof fn lemma_bank_after(bank: u32, k: nat)
    requires
        bank < DAG_BANKS,
    ensures
        bank_after(bank, k) == (bank + k) % (DAG_BANKS as int),
    decreases k,
{
    if k > 0 {
        lemma_bank_after(bank, (k - 1) as nat);
    }
}

/// An event tells of a frame where it is of the right kind, a frame came before the one that
/// it numbers, and the bank exists. The frame is the one before, in that bank, and the
/// thread that the event came from ended it.
pub proof fn law_event_of_use(event: Event)
    requires
        event.arg1 <= u32::MAX,
    ensures
        closed_frame(event) is Some <==> event.kind == 1 && event.arg0 >= 2 && event.arg1 < 8,
        closed_frame(event) matches Some(frame) ==> {
            &&& frame.frame_id + 1 == event.arg0
            &&& frame.bank == event.arg1
            &&& frame.tail_tid == event.tid
        },
{
}

/// An update begins with a look at the threads where the last was two seconds ago or more,
/// else with an event.
pub proof fn law_threads_are_looked_up_every_two_seconds(refreshed_ns: u128, now_ns: u128)
    ensures
        ({
            let step = update_step(UpdateStage::Idle, refreshed_ns, UpdateInput::Start, now_ns);
            &&& now_ns >= refreshed_ns + 2_000_000_000 ==> step.1 == UpdateAction::RefreshTids
            &&& now_ns < refreshed_ns + 2_000_000_000 ==> step.1 == UpdateAction::TakeEvent
            &&& update_step(step.0, refreshed_ns, UpdateInput::Refreshed, now_ns).1 == (if step.1
                == UpdateAction::RefreshTids {
                UpdateAction::TakeEvent
            } else {
                UpdateAction::End(UpdateOutcome::Failed)
            })
        }),
{
}

/// The state of an update after `inputs`, and what it asked for last.
pub open spec fn update_run(refreshed_ns: u128, inputs: Seq<UpdateInput>, now_ns: u128) -> (
    UpdateStage,
    UpdateAction,
)
    decreases inputs.len(),
{
    if inputs.len() == 0 {
        (UpdateStage::Idle, UpdateAction::End(UpdateOutcome::RingEmpty))
    } else {
        update_step(
            update_run(refreshed_ns, inputs.drop_last(), now_ns).0,
            refreshed_ns,
            inputs.last(),
            now_ns,
        )
    }
}

/// An event of use leads to weights: its bank is read, found to hold the frame, emptied and
/// weighed, in this order. Where the bank holds another frame, it is left alone.
pub proof fn law_event_leads_to_weights(
    refreshed_ns: u128,
    now_ns: u128,
    event: Event,
    held: u64,
    some: bool,
)
    requires
        now_ns < refreshed_ns + 2_000_000_000,
        event.kind == 1,
        event.arg0 >= 2,
        event.arg1 < 8,
    ensures
        ({
            let bank = event.arg1 as u32;
            let frame = ClosedFrame { frame_id: (event.arg0 - 1) as u64, bank, tail_tid: event.tid };
            let start = seq![UpdateInput::Start];
            let taken = start.push(UpdateInput::Taken(Some(event)));
            let read = taken.push(UpdateInput::BankFrameId(held));
            let emptied = read.push(UpdateInput::Collected);
            let weighed = emptied.push(UpdateInput::Weighed(some));
            let run = |inputs: Seq<UpdateInput>| update_run(refreshed_ns, inputs, now_ns).1;
            &&& run(start) == UpdateAction::TakeEvent
            &&& run(start.push(UpdateInput::Taken(None))) == UpdateAction::End(
                UpdateOutcome::RingEmpty,
            )
            &&& run(taken) == UpdateAction::ReadBankFrameId(bank)
            &&& held + 1 != event.arg0 ==> run(read) == UpdateAction::End(UpdateOutcome::Skipped)
            &&& held + 1 == event.arg0 ==> {
                &&& run(read) == UpdateAction::Collect(bank)
                &&& run(emptied) == UpdateAction::Weigh(frame)
                &&& run(weighed) == UpdateAction::End(
                    if some {
                        UpdateOutcome::Weights(frame)
                    } else {
                        UpdateOutcome::Skipped
                    },
                )
            }
        }),
{
    let start = seq![UpdateInput::Start];
    let taken = start.push(UpdateInput::Taken(Some(event)));
    let read = taken.push(UpdateInput::BankFrameId(held));
    let emptied = read.push(UpdateInput::Collected);
    let weighed = emptied.push(UpdateInput::Weighed(some));
    law_event_of_use(event);
    assert(start.drop_last() =~= Seq::empty());
    assert(update_run(refreshed_ns, Seq::empty(), now_ns).0 == UpdateStage::Idle);
    assert(start.push(UpdateInput::Taken(None)).drop_last() =~= start);
    assert(taken.drop_last() =~= start);
    assert(read.drop_last() =~= taken);
    assert(emptied.drop_last() =~= read);
    assert(weighed.drop_last() =~= emptied);
}

/// Whatever fails ends the update, and an update that has ended can be asked for again.
pub proof fn law_failure_ends_the_update(
    stage: UpdateStage,
    refreshed_ns: u128,
    input: UpdateInput,
    now_ns: u128,
)
    requires
        stage.accepts(input),
    ensures
        ({
            let step = update_step(stage, refreshed_ns, input, now_ns);
            &&& input is Failed <==> step.1 == UpdateAction::End(UpdateOutcome::Failed)
            &&& step.1 is End <==> step.0 == UpdateStage::Idle
        }),
{
}

/// The time that has passed is the difference, and none where the start lies ahead.
pub proof fn law_elapsed(since_ns: u128, now_ns: u128)
    ensures
        now_ns >= since_ns ==> since_ns + elapsed(since_ns, now_ns) == now_ns,
        now_ns <= since_ns ==> elapsed(since_ns, now_ns) == 0,
{
}

} // verus!
