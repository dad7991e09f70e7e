use fas_rs::event::{DagThreadMetrics, Event, EventKind};
use fas_rs::probe::{
    add_hash_thread_exec, add_hash_thread_futex, add_hash_thread_rq, add_hash_u64_u64,
    allow_current_task, allow_sched_pair, cpu_to_policy, current_frame_id, current_tgid_tid,
    current_tid, dag_active_bank, dag_add_edge, dag_add_thread, frame_event, frame_point,
    handle_futex_enter_dag, handle_futex_exit_dag, raw_sys_enter, raw_sys_exit, sample_flag,
    sampling_enabled, sched_switch, sched_wakeup, should_sample_frame, split_running_exec_dag,
    sys_enter_futex, valid_cpu, DagWakeInfo, FutexExitPlan, FutexPlan, PendingWait, Publication,
    Running, Slot, SplitPlan, SwitchPlan, Task, Verdict, WakeByAddr, INVALID_POLICY,
};
use fas_rs::target::{
    closed_frame_of, AnalyzeTarget, ClosedFrame, UpdateAction, UpdateInput, UpdateOutcome,
    UpdateStage,
};

#[test]
fn one_frame_in_four_is_sampled() {
    let sampled: Vec<u64> = (0..12).filter(|id| should_sample_frame(*id)).collect();
    assert_eq!(sampled, vec![3, 7, 11]);
    assert!(should_sample_frame(u64::MAX));
}

#[test]
fn map_entries_have_defaults() {
    assert!(!sampling_enabled(None));
    assert!(!sampling_enabled(Some(0)));
    assert!(sampling_enabled(Some(1)));
    assert_eq!(sample_flag(true), 1);
    assert_eq!(sample_flag(false), 0);
    assert_eq!(current_frame_id(None), 0);
    assert_eq!(current_frame_id(Some(9)), 9);
    assert_eq!(dag_active_bank(None), 0);
    assert_eq!(dag_active_bank(Some(9)), 1);
    assert!(valid_cpu(31));
    assert!(!valid_cpu(32));
    assert_eq!(cpu_to_policy(3, Some(4)), Some(4));
    assert_eq!(cpu_to_policy(3, Some(INVALID_POLICY)), None);
    assert_eq!(cpu_to_policy(3, None), None);
    assert_eq!(cpu_to_policy(32, Some(4)), None);
}

#[test]
fn task_is_split_and_filtered() {
    assert_eq!(current_tgid_tid(0x0000_0064_0000_00c8), (100, 200));
    assert_eq!(current_tid(0x0000_0064_0000_00c8), 200);
    let task = Task { filter_tgid: 100, tgid: 100, tid: 200, marked: false };
    assert_eq!(allow_current_task(task), Verdict { allowed: true, mark: true });
    let marked = Task { marked: true, ..task };
    assert_eq!(allow_current_task(marked), Verdict { allowed: true, mark: false });
    let other = Task { tgid: 101, ..task };
    assert_eq!(allow_current_task(other), Verdict { allowed: false, mark: false });
    let other_marked = Task { marked: true, ..other };
    assert_eq!(allow_current_task(other_marked), Verdict { allowed: true, mark: false });
    let all = Task { filter_tgid: 0, ..other };
    assert_eq!(allow_current_task(all), Verdict { allowed: true, mark: false });
    assert_eq!(allow_sched_pair(other, false, false), Verdict { allowed: false, mark: false });
    assert_eq!(allow_sched_pair(other, true, false), Verdict { allowed: true, mark: false });
    assert_eq!(allow_sched_pair(other, false, true), Verdict { allowed: true, mark: false });
    assert_eq!(allow_sched_pair(task, false, false), Verdict { allowed: true, mark: true });
    assert_eq!(allow_sched_pair(task, true, false), Verdict { allowed: true, mark: false });
    assert_eq!(allow_sched_pair(all, false, false), Verdict { allowed: true, mark: false });
}

#[test]
fn slots_need_a_bank_and_a_policy() {
    let slot = Slot { bank: 2, key: 0x7_0000_0004 };
    assert_eq!(dag_add_thread(2, 7, 3, Some(4)), Some(slot));
    assert_eq!(dag_add_thread(8, 7, 3, Some(4)), None);
    assert_eq!(dag_add_thread(2, 7, 3, None), None);
    assert_eq!(dag_add_edge(2, 7, 4, 1), Some(slot));
    assert_eq!(dag_add_edge(2, 0, 4, 1), None);
    assert_eq!(dag_add_edge(2, 7, 0, 1), None);
    assert_eq!(dag_add_edge(2, 7, 7, 1), None);
    assert_eq!(dag_add_edge(2, 7, 4, 0), None);
    assert_eq!(dag_add_edge(8, 7, 4, 1), None);
}

#[test]
fn counters_add_up_above_a_threshold() {
    assert_eq!(add_hash_u64_u64(None, 5), 5);
    assert_eq!(add_hash_u64_u64(Some(6), 5), 11);
    assert_eq!(add_hash_u64_u64(Some(u64::MAX), 5), u64::MAX);
    let cur = DagThreadMetrics { exec_ns: 1, rq_delay_ns: 2, futex_wait_ns: 3 };
    let exec = |exec_ns| DagThreadMetrics { exec_ns, rq_delay_ns: 0, futex_wait_ns: 0 };
    assert!(add_hash_thread_exec(None, 29_999).is_none());
    assert!(add_hash_thread_exec(None, 30_000) == Some(exec(30_000)));
    assert!(add_hash_thread_exec(Some(cur), 30_000)
        == Some(DagThreadMetrics { exec_ns: 30_001, ..cur }));
    assert!(add_hash_thread_rq(Some(cur), 19_999).is_none());
    assert!(add_hash_thread_rq(Some(cur), 20_000)
        == Some(DagThreadMetrics { rq_delay_ns: 20_002, ..cur }));
    assert!(add_hash_thread_futex(Some(cur), 99_999).is_none());
    assert!(add_hash_thread_futex(Some(cur), u64::MAX)
        == Some(DagThreadMetrics { futex_wait_ns: u64::MAX, ..cur }));
}

#[test]
fn split_loses_no_time() {
    assert_eq!(
        split_running_exec_dag(7, 100, 150, true),
        SplitPlan { exec_ns: Some(50), restart: true }
    );
    assert_eq!(
        split_running_exec_dag(7, 150, 180, true),
        SplitPlan { exec_ns: Some(30), restart: true }
    );
    assert_eq!(
        split_running_exec_dag(7, 100, 180, true),
        SplitPlan { exec_ns: Some(80), restart: true }
    );
    assert_eq!(
        split_running_exec_dag(7, 100, 150, false),
        SplitPlan { exec_ns: None, restart: true }
    );
    assert_eq!(
        split_running_exec_dag(7, 0, 150, true),
        SplitPlan { exec_ns: None, restart: true }
    );
    assert_eq!(
        split_running_exec_dag(0, 100, 150, true),
        SplitPlan { exec_ns: None, restart: false }
    );
}

#[test]
fn frame_points_publish_sampled_frames() {
    let first = frame_point(0, 0);
    assert_eq!(first.next_frame, 1);
    assert_eq!(first.split, None);
    assert_eq!(first.publish, None);
    assert!(!first.sample_next);
    let second = frame_point(2, 5);
    assert_eq!(second.next_frame, 3);
    assert_eq!(second.split, Some(false));
    assert_eq!(second.publish, None);
    assert!(second.sample_next);
    let third = frame_point(3, 7);
    assert_eq!(third.split, Some(true));
    assert_eq!(
        third.publish,
        Some(Publication { frame_id: 3, bank: 7, next_bank: 0, arg0: 4, arg1: 7 })
    );
    assert!(!third.sample_next);
}

#[test]
fn published_frame_is_analysed() {
    let publication = frame_point(3, 7).publish.unwrap();
    let event = frame_event(publication, 1000, 0x0000_0064_0000_00c8, 2);
    assert_eq!(event.pid, 100);
    assert_eq!(event.tid, 200);
    assert_eq!(event.cpu, 2);
    assert_eq!(event.ktime_ns, 1000);
    let frame = ClosedFrame { frame_id: 3, bank: 7, tail_tid: 200 };
    assert_eq!(closed_frame_of(&event), Some(frame));
    let mut target = AnalyzeTarget::new(100, 0);
    assert_eq!(target.update(UpdateInput::Start, 1_999_999_999), UpdateAction::TakeEvent);
    assert_eq!(
        target.update(UpdateInput::Taken(Some(event)), 0),
        UpdateAction::ReadBankFrameId(7)
    );
    assert_eq!(target.update(UpdateInput::BankFrameId(3), 0), UpdateAction::Collect(7));
    assert_eq!(target.update(UpdateInput::Collected, 0), UpdateAction::Weigh(frame));
    assert_eq!(
        target.update(UpdateInput::Weighed(true), 0),
        UpdateAction::End(UpdateOutcome::Weights(frame))
    );
    assert_eq!(target.stage, UpdateStage::Idle);
}

#[test]
fn update_refreshes_threads() {
    let mut target = AnalyzeTarget::new(100, 5);
    assert_eq!(target.update(UpdateInput::Start, 2_000_000_005), UpdateAction::RefreshTids);
    assert_eq!(target.last_tid_refresh_ns, 5);
    assert_eq!(target.update(UpdateInput::Refreshed, 2_000_000_009), UpdateAction::TakeEvent);
    assert_eq!(target.last_tid_refresh_ns, 2_000_000_009);
    assert_eq!(
        target.update(UpdateInput::Taken(None), 0),
        UpdateAction::End(UpdateOutcome::RingEmpty)
    );
    assert_eq!(target.update(UpdateInput::Start, 0), UpdateAction::TakeEvent);
    assert_eq!(target.update(UpdateInput::Failed, 0), UpdateAction::End(UpdateOutcome::Failed));
    assert_eq!(target.stage, UpdateStage::Idle);
}

#[test]
fn useless_events_are_skipped() {
    let event = |kind: u8, arg0: u64, arg1: u64| {
        let mut e = Event::new(0, 1, 2, 3, EventKind::FramePoint, 0, arg0, arg1);
        e.kind = kind;
        e
    };
    assert_eq!(closed_frame_of(&event(0, 5, 0)), None);
    assert_eq!(closed_frame_of(&event(2, 5, 0)), None);
    assert_eq!(closed_frame_of(&event(1, 0, 0)), None);
    assert_eq!(closed_frame_of(&event(1, 1, 0)), None);
    assert_eq!(closed_frame_of(&event(1, 5, 8)), None);
    assert_eq!(
        closed_frame_of(&event(1, 5, 0x1_0000_0002)),
        Some(ClosedFrame { frame_id: 4, bank: 2, tail_tid: 2 })
    );
    let mut target = AnalyzeTarget::new(100, 0);
    target.update(UpdateInput::Start, 0);
    assert_eq!(
        target.update(UpdateInput::Taken(Some(event(0, 5, 0))), 0),
        UpdateAction::End(UpdateOutcome::Skipped)
    );
    target.update(UpdateInput::Start, 0);
    target.update(UpdateInput::Taken(Some(event(1, 5, 0))), 0);
    assert_eq!(
        target.update(UpdateInput::BankFrameId(8), 0),
        UpdateAction::End(UpdateOutcome::Skipped)
    );
    target.update(UpdateInput::Start, 0);
    target.update(UpdateInput::Taken(Some(event(1, 5, 0))), 0);
    target.update(UpdateInput::BankFrameId(4), 0);
    target.update(UpdateInput::Collected, 0);
    assert_eq!(
        target.update(UpdateInput::Weighed(false), 0),
        UpdateAction::End(UpdateOutcome::Skipped)
    );
}

#[test]
fn banks_rotate() {
    let mut bank = 3;
    let mut seen = Vec::new();
    for _ in 0..8 {
        seen.push(bank);
        bank = frame_point(3, bank).publish.unwrap().next_bank;
    }
    assert_eq!(seen, vec![3, 4, 5, 6, 7, 0, 1, 2]);
    assert_eq!(bank, 3);
}

#[test]
fn switch_records_run_and_wait() {
    let wake = DagWakeInfo { ktime_ns: 400, waker_tid: 9, sampled: 1 };
    let running = Running { tid: 7, start_ns: 100 };
    assert_eq!(
        sched_switch(7, true, true, 2, 500, true, running, Some(wake)),
        SwitchPlan {
            exec_ns: Some(400),
            stop: true,
            wait: Some((100, 9)),
            forget_wakeup: true,
            start: true,
        }
    );
    assert_eq!(
        sched_switch(7, true, true, 2, 500, false, running, Some(wake)),
        SwitchPlan { exec_ns: None, stop: true, wait: None, forget_wakeup: true, start: true }
    );
    let unsampled = DagWakeInfo { sampled: 0, ..wake };
    assert_eq!(
        sched_switch(8, true, true, 2, 500, true, running, Some(unsampled)),
        SwitchPlan { exec_ns: None, stop: true, wait: None, forget_wakeup: true, start: true }
    );
    assert_eq!(
        sched_switch(7, false, true, 2, 400, true, running, Some(wake)),
        SwitchPlan { exec_ns: None, stop: false, wait: None, forget_wakeup: true, start: true }
    );
    assert_eq!(
        sched_switch(7, true, true, 32, 500, true, running, Some(wake)),
        SwitchPlan { exec_ns: None, stop: false, wait: None, forget_wakeup: false, start: false }
    );
}

#[test]
fn wakeups_of_interest_are_kept() {
    assert_eq!(
        sched_wakeup(9, true, 400, true),
        Some(DagWakeInfo { ktime_ns: 400, waker_tid: 9, sampled: 1 })
    );
    assert_eq!(
        sched_wakeup(9, true, 400, false),
        Some(DagWakeInfo { ktime_ns: 400, waker_tid: 9, sampled: 0 })
    );
    assert_eq!(sched_wakeup(9, false, 400, true), None);
}

#[test]
fn futex_commands_are_told_apart() {
    let wait = FutexPlan::Wait(PendingWait { start_ns: 50, uaddr: 0x1000, cpu: 1, sampled: 1 });
    let wake =
        FutexPlan::Wake(WakeByAddr { ktime_ns: 50, cpu: 1, waker_tid: 7, sampled: 1 });
    for op in [0u32, 9, 0x80, 0x89, 0x109] {
        assert_eq!(handle_futex_enter_dag(0x1000, op, 7, 1, 50, true), wait);
    }
    for op in [1u32, 10, 0x81] {
        assert_eq!(handle_futex_enter_dag(0x1000, op, 7, 1, 50, true), wake);
    }
    assert_eq!(handle_futex_enter_dag(0x1000, 2, 7, 1, 50, true), FutexPlan::Nothing);
    assert_eq!(sys_enter_futex(0x1000, 0xffff_ffff_0000_0000, 7, 1, 50, true), wait);
    let args = [0x1000, 0x80, 0, 0, 0, 0];
    assert_eq!(raw_sys_enter(98, args, 7, 1, 50, true), wait);
    assert_eq!(raw_sys_enter(99, args, 7, 1, 50, true), FutexPlan::Nothing);
    assert!(raw_sys_exit(98));
    assert!(!raw_sys_exit(97));
}

#[test]
fn futex_wait_counts_for_the_waker() {
    let pending = PendingWait { start_ns: 100, uaddr: 0x1000, cpu: 1, sampled: 1 };
    let wake = WakeByAddr { ktime_ns: 150, cpu: 5, waker_tid: 9, sampled: 1 };
    assert_eq!(
        handle_futex_exit_dag(pending, Some(wake), 300, true),
        FutexExitPlan { wait: Some((200, 5)), waker: Some(9) }
    );
    let unsampled = WakeByAddr { sampled: 0, ..wake };
    assert_eq!(
        handle_futex_exit_dag(pending, Some(unsampled), 300, true),
        FutexExitPlan { wait: Some((200, 5)), waker: None }
    );
    let early = WakeByAddr { ktime_ns: 99, ..wake };
    assert_eq!(
        handle_futex_exit_dag(pending, Some(early), 300, true),
        FutexExitPlan { wait: Some((200, 1)), waker: None }
    );
    assert_eq!(
        handle_futex_exit_dag(pending, None, 300, true),
        FutexExitPlan { wait: Some((200, 1)), waker: None }
    );
    let nothing = FutexExitPlan { wait: None, waker: None };
    assert_eq!(handle_futex_exit_dag(pending, Some(wake), 300, false), nothing);
    let before = PendingWait { sampled: 0, ..pending };
    assert_eq!(handle_futex_exit_dag(before, Some(wake), 300, true), nothing);
    assert_eq!(handle_futex_exit_dag(pending, Some(wake), 100, true), nothing);
}
