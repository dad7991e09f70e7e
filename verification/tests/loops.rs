use fas_rs::analyzer::TimedPolicyWeights;
use fas_rs::looper::{
    BufferWorkingState, Enabled, Follow, FrameStep, Game, Looper, Mode, State,
};
use fas_rs::worker::{
    cpcs_weights_for, CpcsWorker, CpcsWorkerCmd, WorkerAction, WorkerInput, WorkerStage,
};
use std::collections::HashMap;

const S: u128 = 1_000_000_000;

fn playing(pid: i32) -> Looper {
    let mut looper = Looper::new(0);
    looper.begin_game(pid);
    looper.set_working_state(BufferWorkingState::Usable);
    assert_eq!(looper.enable_fas(0), Enabled::Started);
    assert_eq!(looper.enable_fas(3 * S + 1), Enabled::TookOver(pid));
    looper
}

#[test]
fn takeover_needs_a_wait() {
    let mut looper = Looper::new(0);
    assert_eq!(looper.mode, Mode::Balance);
    assert_eq!(looper.begin_game(10), BufferWorkingState::Unusable);
    assert_eq!(looper.enable_fas(5), Enabled::Started);
    assert_eq!(looper.working_state, State::Waiting);
    assert_eq!(looper.enable_fas(5 + 3 * S), Enabled::Unchanged);
    assert_eq!(looper.enable_fas(6 + 3 * S), Enabled::TookOver(10));
    assert_eq!(looper.working_state, State::Working);
    assert_eq!(looper.enable_fas(9 * S), Enabled::Unchanged);
}

#[test]
fn wait_begins_without_a_game() {
    let mut looper = Looper::new(0);
    assert_eq!(looper.enable_fas(5), Enabled::Started);
    assert_eq!(looper.enable_fas(6), Enabled::Unchanged);
    assert_eq!(looper.working_state, State::Waiting);
}

#[test]
fn mode_switch_restarts_the_game() {
    let mut looper = Looper::new(0);
    assert_eq!(looper.switch_mode(Some(Mode::Fast)), None);
    assert_eq!(looper.mode, Mode::Fast);
    let mut looper = playing(10);
    assert_eq!(looper.switch_mode(None), None);
    assert_eq!(looper.switch_mode(Some(Mode::Balance)), None);
    assert_eq!(looper.switch_mode(Some(Mode::Powersave)), Some(10));
    assert_eq!(looper.mode, Mode::Powersave);
}

#[test]
fn policy_runs_only_while_working() {
    let mut looper = playing(10);
    assert_eq!(looper.do_policy(), Some(10));
    assert!(looper.disable_fas());
    assert_eq!(looper.do_policy(), None);
    assert!(!looper.disable_fas());
    looper.enable_fas(0);
    assert_eq!(looper.do_policy(), None);
    assert!(!looper.disable_fas());
    assert_eq!(looper.working_state, State::NotWorking);
}

#[test]
fn watched_processes_follow_the_front() {
    let mut looper = Looper::new(0);
    assert!(looper.update_analyzer(10));
    assert!(!looper.update_analyzer(10));
    assert!(looper.update_analyzer(20));
    looper.attach_refused(10);
    assert_eq!(looper.cpcs_attached, vec![20]);
    assert!(looper.update_analyzer(30));
    assert_eq!(looper.prune_stale_cpcs_attachments(&vec![30, 40]), vec![20]);
    assert_eq!(looper.cpcs_attached, vec![30]);
}

#[test]
fn restarts_are_apart() {
    let mut looper = Looper::new(0);
    assert!(!looper.restart_analyzer(5 * S));
    assert_eq!(looper.restart_counter, 1);
    assert!(looper.restart_analyzer(5 * S));
    assert_eq!(looper.restart_counter, 0);
    assert!(!looper.restart_analyzer(6 * S - 1));
    assert!(!looper.restart_analyzer(6 * S - 1));
    assert!(looper.restart_analyzer(6 * S));
}

#[test]
fn game_in_front_is_kept() {
    let mut looper = playing(10);
    looper.update_analyzer(10);
    let kept = looper.retain_topapp(&vec![10, 20], 9 * S);
    assert!(kept.detach.is_empty());
    assert_eq!(kept.unload, None);
    assert!(!kept.stopped);
    assert_eq!(kept.enabled, Enabled::Unchanged);
    let gone = looper.retain_topapp(&vec![20], 9 * S);
    assert_eq!(gone.detach, vec![10]);
    assert_eq!(gone.unload, Some(10));
    assert!(gone.stopped);
    assert_eq!(looper.buffer, None);
    assert_eq!(looper.working_state, State::NotWorking);
    let idle = looper.retain_topapp(&vec![20], 9 * S);
    assert!(!idle.stopped);
    assert_eq!(idle.unload, None);
}

#[test]
fn unusable_frames_keep_the_scheduler_off() {
    let mut looper = playing(10);
    looper.set_working_state(BufferWorkingState::Unusable);
    let off = looper.retain_topapp(&vec![10], 9 * S);
    assert!(off.stopped);
    assert_eq!(off.enabled, Enabled::Unchanged);
    assert_eq!(
        looper.buffer,
        Some(Game { pid: 10, working_state: BufferWorkingState::Unusable })
    );
    looper.set_working_state(BufferWorkingState::Usable);
    let on = looper.retain_topapp(&vec![10], 9 * S);
    assert_eq!(on.enabled, Enabled::Started);
    assert_eq!(looper.delay_timer_ns, 9 * S);
}

#[test]
fn frames_are_sorted() {
    let mut looper = Looper::new(0);
    assert_eq!(looper.buffer_update(10, 5, &vec![20]), FrameStep::Ignore);
    assert_eq!(looper.buffer_update(10, 0, &vec![10]), FrameStep::Ignore);
    assert_eq!(looper.buffer_update(10, 5, &vec![10]), FrameStep::Begin);
    looper.begin_game(10);
    assert_eq!(looper.buffer_update(10, 5, &vec![10]), FrameStep::Push);
    assert_eq!(looper.after_jank(), Follow::RestartAndDisable);
    looper.set_working_state(BufferWorkingState::Usable);
    assert_eq!(looper.after_jank(), Follow::DoPolicy);
    assert_eq!(Looper::new(0).after_jank(), Follow::Nothing);
    assert_eq!(Looper::after_frame(None), Follow::Nothing);
    assert_eq!(Looper::after_frame(Some(BufferWorkingState::Usable)), Follow::DoPolicy);
    assert_eq!(Looper::after_frame(Some(BufferWorkingState::Unusable)), Follow::Disable);
}

type Latest = HashMap<i32, TimedPolicyWeights<&'static str>>;

fn attached_worker(latest: &mut Latest, pids: &[i32]) -> CpcsWorker {
    let mut worker = CpcsWorker::new();
    assert_eq!(
        worker.cpcs_worker_loop(latest, WorkerInput::Start, 0),
        WorkerAction::WaitCommand
    );
    for pid in pids {
        let cmd = WorkerInput::Command(CpcsWorkerCmd::Attach(*pid));
        assert_eq!(worker.cpcs_worker_loop(latest, cmd, 0), WorkerAction::Attach(*pid));
        assert_eq!(
            worker.cpcs_worker_loop(latest, WorkerInput::Attached(true), 0),
            WorkerAction::TryCommand
        );
    }
    worker
}

#[test]
fn worker_receives_while_it_watches() {
    let mut latest: Latest = HashMap::new();
    let mut worker = attached_worker(&mut latest, &[10, 20]);
    assert_eq!(
        worker.cpcs_worker_loop(&mut latest, WorkerInput::NoCommand(vec![20, 10]), 0),
        WorkerAction::Receive
    );
    assert_eq!(
        worker.cpcs_worker_loop(
            &mut latest,
            WorkerInput::Received(Some((10, "w")), vec![10, 20]),
            5,
        ),
        WorkerAction::TryCommand
    );
    assert_eq!(latest[&10].received_at_ns, 5);
    assert_eq!(cpcs_weights_for(&latest, 10, 5 + 2 * S), Some(&"w"));
    assert_eq!(cpcs_weights_for(&latest, 10, 6 + 2 * S), None);
    assert_eq!(cpcs_weights_for(&latest, 20, 5), None);
    worker.cpcs_worker_loop(&mut latest, WorkerInput::NoCommand(vec![10, 20]), 6);
    worker.cpcs_worker_loop(
        &mut latest,
        WorkerInput::Received(Some((20, "v")), vec![10, 20]),
        6 + 2 * S,
    );
    assert!(!latest.contains_key(&10));
    assert!(latest.contains_key(&20));
}

#[test]
fn worker_forgets_what_is_gone() {
    let mut latest: Latest = HashMap::new();
    let mut worker = attached_worker(&mut latest, &[10, 20]);
    latest.insert(10, TimedPolicyWeights { received_at_ns: 0, data: "w" });
    latest.insert(20, TimedPolicyWeights { received_at_ns: 0, data: "v" });
    assert_eq!(
        worker.cpcs_worker_loop(&mut latest, WorkerInput::NoCommand(vec![20]), 0),
        WorkerAction::Receive
    );
    assert_eq!(worker.attached, vec![20]);
    assert!(!latest.contains_key(&10));
    assert!(latest.contains_key(&20));
    assert_eq!(
        worker.cpcs_worker_loop(&mut latest, WorkerInput::Received(None, vec![]), 0),
        WorkerAction::WaitCommand
    );
    assert!(latest.is_empty());
}

#[test]
fn worker_obeys_commands() {
    let mut latest: Latest = HashMap::new();
    let mut worker = attached_worker(&mut latest, &[10]);
    latest.insert(10, TimedPolicyWeights { received_at_ns: 0, data: "w" });
    let attach = |pid| WorkerInput::Command(CpcsWorkerCmd::Attach(pid));
    let detach = |pid| WorkerInput::Command(CpcsWorkerCmd::Detach(pid));
    assert_eq!(
        worker.cpcs_worker_loop(&mut latest, attach(10), 0),
        WorkerAction::TryCommand
    );
    assert_eq!(
        worker.cpcs_worker_loop(&mut latest, attach(30), 0),
        WorkerAction::Attach(30)
    );
    assert_eq!(
        worker.cpcs_worker_loop(&mut latest, WorkerInput::Attached(false), 0),
        WorkerAction::TryCommand
    );
    assert_eq!(worker.attached, vec![10]);
    assert_eq!(
        worker.cpcs_worker_loop(&mut latest, detach(40), 0),
        WorkerAction::TryCommand
    );
    assert_eq!(
        worker.cpcs_worker_loop(&mut latest, detach(10), 0),
        WorkerAction::Detach(10)
    );
    assert!(latest.is_empty());
    assert_eq!(
        worker.cpcs_worker_loop(&mut latest, WorkerInput::Detached, 0),
        WorkerAction::TryCommand
    );
    assert_eq!(
        worker.cpcs_worker_loop(&mut latest, WorkerInput::NoCommand(vec![]), 0),
        WorkerAction::WaitCommand
    );
    assert_eq!(
        worker.cpcs_worker_loop(&mut latest, WorkerInput::Disconnected, 0),
        WorkerAction::Exit
    );
    assert_eq!(worker.stage, WorkerStage::Ended);
}

#[test]
fn worker_ends_when_weights_end() {
    let mut latest: Latest = HashMap::new();
    let mut worker = attached_worker(&mut latest, &[10]);
    worker.cpcs_worker_loop(&mut latest, WorkerInput::NoCommand(vec![10]), 0);
    assert_eq!(
        worker.cpcs_worker_loop(&mut latest, WorkerInput::ReceiveFailed, 0),
        WorkerAction::Exit
    );
}
