use fas_rs::dag::{add_u64, append_tid_policy_metrics, count_of, DagFrame, FrameStats};
use fas_rs::drain::{
    absorb_edges, absorb_stats, bank_maps, bpf_map_lookup_and_delete_batch, dag_bank_map_names,
    is_batch_not_supported, pull_end, pull_start, read_batch_answer, unsupported_among,
    BatchCursor, BatchErrnos, PullEnd, PullStep,
};
use fas_rs::event::{trans, DagThreadMetrics, Event, EventKind, EVENT_BYTES};
use fas_rs::key::{pack_tid_policy, unpack_key, PairMap};
use std::collections::HashMap;

fn metrics(exec_ns: u64, rq_delay_ns: u64, futex_wait_ns: u64) -> DagThreadMetrics {
    DagThreadMetrics { exec_ns, rq_delay_ns, futex_wait_ns }
}

fn bytes_of(event: &Event) -> Vec<u8> {
    let mut bytes = Vec::new();
    bytes.extend_from_slice(&event.ktime_ns.to_le_bytes());
    bytes.extend_from_slice(&event.pid.to_le_bytes());
    bytes.extend_from_slice(&event.tid.to_le_bytes());
    bytes.extend_from_slice(&event.cpu.to_le_bytes());
    bytes.push(event.kind);
    bytes.push(event.flags);
    bytes.extend_from_slice(&event._pad);
    bytes.extend_from_slice(&event.arg0.to_le_bytes());
    bytes.extend_from_slice(&event.arg1.to_le_bytes());
    bytes
}

#[test]
fn event_reads_back_as_written() {
    let event = Event::new(
        0x0102_0304_0506_0708,
        4321,
        u32::MAX,
        7,
        EventKind::FramePoint,
        3,
        u64::MAX,
        5,
    );
    assert_eq!(event.kind, 1);
    assert_eq!(event._pad, [0, 0]);
    let mut bytes = bytes_of(&event);
    assert_eq!(bytes.len(), EVENT_BYTES);
    bytes.push(0xff);
    let read = trans(&bytes);
    assert_eq!(read.ktime_ns, event.ktime_ns);
    assert_eq!(read.pid, 4321);
    assert_eq!(read.tid, u32::MAX);
    assert_eq!(read.cpu, 7);
    assert_eq!(read.kind, EventKind::FramePoint.code());
    assert_eq!(read.flags, 3);
    assert_eq!(read._pad, [0, 0]);
    assert_eq!(read.arg0, u64::MAX);
    assert_eq!(read.arg1, 5);
}

#[test]
fn key_packs_and_unpacks() {
    assert_eq!(pack_tid_policy(1, 2), 0x1_0000_0002);
    assert_eq!(unpack_key(0x1_0000_0002), (1, 2));
    assert_eq!(unpack_key(pack_tid_policy(u32::MAX, 0)), (u32::MAX, 0));
    assert_ne!(pack_tid_policy(1, 0), pack_tid_policy(0, 1));
}

#[test]
fn pair_map_keeps_entries_apart() {
    let mut map = PairMap::new();
    map.insert(1, 2, 10);
    map.insert(2, 1, 20);
    map.insert(1, 2, 11);
    assert_eq!(map.get(1, 2), Some(11));
    assert_eq!(map.get(2, 1), Some(20));
    assert_eq!(map.get(1, 1), None);
    let mut list = map.list();
    list.sort();
    assert_eq!(list, vec![(1, 2, 11), (2, 1, 20)]);
    map.clear();
    assert!(map.list().is_empty());
}

#[test]
fn add_u64_stops_at_the_largest_number() {
    let mut map: HashMap<u32, u64> = HashMap::new();
    add_u64(&mut map, 5, 7);
    add_u64(&mut map, 5, 3);
    assert_eq!(count_of(&map, 5), 10);
    add_u64(&mut map, 5, u64::MAX);
    assert_eq!(count_of(&map, 5), u64::MAX);
    assert_eq!(count_of(&map, 6), 0);
}

#[test]
fn metrics_are_recorded_per_thread_and_policy() {
    let mut frame = DagFrame::new();
    append_tid_policy_metrics(&mut frame, 1, 0, metrics(100, 0, 7));
    append_tid_policy_metrics(&mut frame, 1, 4, metrics(50, 20, 0));
    assert_eq!(count_of(&frame.thread_exec_ns, 1), 150);
    assert_eq!(count_of(&frame.thread_rq_delay_ns, 1), 20);
    assert_eq!(count_of(&frame.thread_futex_wait_ns, 1), 7);
    assert_eq!(frame.thread_policy_exec_ns.get(1, 0), Some(100));
    assert_eq!(frame.thread_policy_exec_ns.get(1, 4), Some(50));
    assert_eq!(frame.thread_policy_rq_delay_ns.get(1, 0), None);
    assert_eq!(frame.thread_policy_rq_delay_ns.get(1, 4), Some(20));
    assert_eq!(frame.thread_total_ns(1), 177);
    assert_eq!(frame.thread_total_ns(2), 0);
    frame.clear();
    assert_eq!(frame.thread_total_ns(1), 0);
    assert!(frame.thread_policy_exec_ns.list().is_empty());
}

#[test]
fn metrics_order_makes_no_difference() {
    let mut one = DagFrame::new();
    append_tid_policy_metrics(&mut one, 1, 0, metrics(100, 0, 0));
    append_tid_policy_metrics(&mut one, 1, 4, metrics(50, 0, 0));
    let mut two = DagFrame::new();
    append_tid_policy_metrics(&mut two, 1, 4, metrics(50, 0, 0));
    append_tid_policy_metrics(&mut two, 1, 0, metrics(100, 0, 0));
    assert_eq!(one.thread_total_ns(1), two.thread_total_ns(1));
    assert_eq!(one.thread_policy_exec_ns.get(1, 0), two.thread_policy_exec_ns.get(1, 0));
    assert_eq!(one.thread_policy_exec_ns.get(1, 4), two.thread_policy_exec_ns.get(1, 4));
}

#[test]
fn totals_that_do_not_fit_are_found() {
    let mut frame = DagFrame::new();
    assert!(frame.all_totals_fit());
    append_tid_policy_metrics(&mut frame, 1, 0, metrics(u64::MAX, 0, 0));
    assert!(frame.all_totals_fit());
    append_tid_policy_metrics(&mut frame, 1, 0, metrics(0, 1, 0));
    assert!(!frame.all_totals_fit());
}

#[test]
fn new_stats_are_empty() {
    let stats = FrameStats::new();
    assert!(stats.policy_exec_ns.is_empty());
    assert!(stats.policy_rq_delay_ns.is_empty());
    assert!(stats.policy_futex_wait_ns.is_empty());
}

#[test]
fn bank_names() {
    assert_eq!(dag_bank_map_names(0), Some(("DAG_THREAD_POLICY_STATS_0", "DAG_EDGE_0")));
    assert_eq!(dag_bank_map_names(7), Some(("DAG_THREAD_POLICY_STATS_7", "DAG_EDGE_7")));
    assert_eq!(dag_bank_map_names(8), None);
    let maps = bank_maps(1, &[10, 11], &[20]).unwrap();
    assert_eq!(maps.stats_name, "DAG_THREAD_POLICY_STATS_1");
    assert_eq!(maps.edge_name, "DAG_EDGE_1");
    assert_eq!(maps.stats_fd, Some(11));
    assert_eq!(maps.edge_fd, None);
    assert!(bank_maps(8, &[10, 11], &[20]).is_none());
}

#[test]
fn batches_compose() {
    let keys = [pack_tid_policy(1, 0), pack_tid_policy(1, 4), pack_tid_policy(2, 0)];
    let values = [metrics(10, 1, 0), metrics(20, 0, 2), metrics(30, 0, 0)];
    let mut whole = DagFrame::new();
    absorb_stats(&mut whole, &keys, &values, 3);
    let mut cut = DagFrame::new();
    absorb_stats(&mut cut, &keys, &values, 1);
    absorb_stats(&mut cut, &keys[1..], &values[1..], 2);
    for tid in [1, 2] {
        assert_eq!(whole.thread_total_ns(tid), cut.thread_total_ns(tid));
    }
    assert_eq!(whole.thread_total_ns(1), 33);
    assert_eq!(count_of(&whole.thread_exec_ns, 1), 30);
    assert_eq!(whole.thread_policy_exec_ns.get(1, 4), Some(20));
    let mut few = DagFrame::new();
    absorb_stats(&mut few, &keys, &values, 1);
    assert_eq!(few.thread_total_ns(2), 0);
}

#[test]
fn edge_batches_overwrite() {
    let mut edges = PairMap::new();
    absorb_edges(&mut edges, &[pack_tid_policy(1, 2), pack_tid_policy(2, 3)], &[5, 6], 2);
    absorb_edges(&mut edges, &[pack_tid_policy(1, 2)], &[7], 1);
    assert_eq!(edges.get(1, 2), Some(7));
    assert_eq!(edges.get(2, 3), Some(6));
}

#[test]
fn batch_cursor_moves_on() {
    let mut cursor = BatchCursor::new();
    assert_eq!(cursor.token, None);
    assert!(cursor.advance(1024, false, 99));
    assert_eq!(cursor.token, Some(99));
    assert!(!cursor.advance(0, false, 100));
    assert_eq!(cursor.token, Some(99));
    assert!(!cursor.advance(3, true, 101));
}

#[test]
fn batch_answers_for_given_errnos() {
    let errnos = BatchErrnos { enoent: 2, einval: 22, enosys: 38, eopnotsupp: 95 };
    assert_eq!(read_batch_answer(0, None, 5, errnos), Ok((5, false)));
    assert_eq!(read_batch_answer(-1, Some(2), 5, errnos), Ok((5, true)));
    assert_eq!(read_batch_answer(-1, Some(22), 5, errnos), Err(Some(22)));
    assert_eq!(read_batch_answer(-1, None, 5, errnos), Err(None));
    assert!(unsupported_among(Some(22), errnos));
    assert!(unsupported_among(Some(38), errnos));
    assert!(unsupported_among(Some(95), errnos));
    assert!(!unsupported_among(Some(2), errnos));
    assert!(!unsupported_among(None, errnos));
}

#[test]
fn batch_answers_of_this_machine() {
    assert_eq!(bpf_map_lookup_and_delete_batch(0, None, 4), Ok((4, false)));
    assert_eq!(bpf_map_lookup_and_delete_batch(-1, Some(libc::ENOENT), 4), Ok((4, true)));
    assert_eq!(
        bpf_map_lookup_and_delete_batch(-1, Some(libc::EINVAL), 4),
        Err(Some(libc::EINVAL))
    );
    assert!(is_batch_not_supported(Some(libc::EINVAL)));
    assert!(is_batch_not_supported(Some(libc::ENOSYS)));
    assert!(is_batch_not_supported(Some(libc::EOPNOTSUPP)));
    assert!(!is_batch_not_supported(Some(libc::ENOENT)));
    assert!(!is_batch_not_supported(None));
    assert_eq!(bpf_map_lookup_and_delete_batch(-1, Some(2), 4), Ok((4, true)));
    assert_eq!(bpf_map_lookup_and_delete_batch(-1, Some(1), 4), Err(Some(1)));
    assert!(is_batch_not_supported(Some(22)));
    assert!(!is_batch_not_supported(Some(1)));
}

#[test]
fn pulling_falls_back_for_good() {
    let mut enabled = true;
    assert_eq!(pull_start(&mut enabled, Some(3)), PullStep::Batch(3));
    assert!(enabled);
    assert_eq!(pull_end(&mut enabled, false, false), PullEnd::Done);
    assert!(enabled);
    assert_eq!(pull_end(&mut enabled, true, false), PullEnd::Fail);
    assert!(enabled);
    assert_eq!(pull_end(&mut enabled, true, true), PullEnd::Iterate);
    assert!(!enabled);
    assert_eq!(pull_start(&mut enabled, Some(3)), PullStep::Iterate);
    let mut enabled = true;
    assert_eq!(pull_start(&mut enabled, None), PullStep::Iterate);
    assert!(!enabled);
}
