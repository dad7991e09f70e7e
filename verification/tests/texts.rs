use fas_rs::attach::{
    find_futex_syscall_pair, list_task_tids, stale_tids, tracepoint_id_paths, uprobe_candidates,
    FutexAttach, FutexProbe, UprobeAttach,
};
use fas_rs::analyzer::{DEFAULT_UPROBE_SYMBOL, LEGACY_UPROBE_SYMBOL};
use fas_rs::policies::{
    cpu_policy_table, load_cpu_policy_map, policy_cpu_count, policy_of_dir, sorted_policies,
    NoPolicies, PolicyDir,
};
use fas_rs::probe::INVALID_POLICY;
use fas_rs::text::{
    chars_of, contains, is_at, parse_u32, parse_u64, part, split_lines, split_whitespace, trim,
};
use fas_rs::usage::{
    get_cpu_busy_total, share, CpuUsageMonitor, CpuUsageTracker, Share, UsageSnapshot,
};
use std::collections::HashMap;

fn text(chars: &Vec<char>) -> String {
    chars.iter().collect()
}

fn texts(list: &Vec<Vec<char>>) -> Vec<String> {
    list.iter().map(text).collect()
}

#[test]
fn words_split_at_white_space() {
    for s in ["", " ", "a", " a  b\tc\n", "x\u{a0}y\u{3000}z", "\u{200b}w", "a\u{0b}b"] {
        let expected: Vec<String> = s.split_whitespace().map(|w| w.to_string()).collect();
        assert_eq!(texts(&split_whitespace(&chars_of(s))), expected);
        assert_eq!(text(&trim(&chars_of(s))), s.trim());
    }
}

#[test]
fn lines_end_at_line_feeds() {
    for s in ["", "\n", "a", "a\n", "a\r\nb", "a\n\nb\r", "\r\n", "a\rb\n"] {
        let expected: Vec<String> = s.lines().map(|w| w.to_string()).collect();
        assert_eq!(texts(&split_lines(&chars_of(s))), expected);
    }
}

#[test]
fn numbers_parse_as_decimals() {
    for s in [
        "0",
        "+7",
        "+",
        "",
        "-1",
        " 1",
        "12a",
        "007",
        "4294967295",
        "4294967296",
        "18446744073709551615",
        "18446744073709551616",
        "99999999999999999999999",
        "\u{661}",
    ] {
        assert_eq!(parse_u64(&chars_of(s)), s.parse::<u64>().ok());
        assert_eq!(parse_u32(&chars_of(s)), s.parse::<u32>().ok());
    }
}

#[test]
fn patterns_are_found() {
    let s = chars_of("soc_max-cpu");
    assert!(is_at(&s, &chars_of("max"), 4));
    assert!(!is_at(&s, &chars_of("max"), 3));
    assert!(!is_at(&s, &chars_of("cpus"), 8));
    assert!(contains(&s, &chars_of("cpu")));
    assert!(contains(&s, &chars_of("")));
    assert!(!contains(&s, &chars_of("cpu-")));
    assert_eq!(text(&part(&s, 4, 7)), "max");
}

const STAT: &str = "cpu  1 2 3 4 5 6 7 8 9 10\n\
cpu1 10 20 30 40 50 60 70 80 90 100\n\
cpu10 1 1 1 1 1 1 1 1 1 1\n";

#[test]
fn cpu_times_are_read() {
    // busy: 10 + 20 + 30 + 60 + 70 + 80
    assert_eq!(get_cpu_busy_total(STAT, "cpu1"), Some((270, 550)));
    assert_eq!(get_cpu_busy_total(STAT, "cpu"), Some((27, 55)));
    assert_eq!(get_cpu_busy_total(STAT, "cpu2"), Some((0, 0)));
    assert_eq!(get_cpu_busy_total("cpu1\n", "cpu1"), Some((0, 0)));
    assert_eq!(get_cpu_busy_total("cpu1 x y\n", "cpu1"), Some((0, 0)));
    assert_eq!(get_cpu_busy_total("cpu1 1 x 2 3 4\n", "cpu1"), Some((6, 10)));
    assert_eq!(get_cpu_busy_total("cpu1 18446744073709551615 1\n", "cpu1"), None);
}

#[test]
fn load_is_the_share_of_busy_time() {
    let mut tracker = CpuUsageTracker::new("cpu1");
    assert_eq!(tracker.calculate(100, 200), None);
    assert_eq!(tracker.calculate(150, 300), Some(Share { busy: 50, total: 100 }));
    assert_eq!(tracker.calculate(160, 300), None);
    assert_eq!(tracker.calculate(400, 310), Some(Share { busy: 10, total: 10 }));
    assert_eq!(tracker.calculate(300, 320), Some(Share { busy: 0, total: 10 }));
    assert_eq!(share(7, 5), Share { busy: 5, total: 5 });
}

#[test]
fn monitor_looks_every_half_second() {
    let none = UsageSnapshot { cpu1_util: Share { busy: 0, total: 1 } };
    let mut monitor = CpuUsageMonitor::new(1000);
    assert!(!monitor.is_due(500_000_999));
    assert_eq!(monitor.update(500_000_999, Some((1, 2))), None);
    assert_eq!(monitor.update(500_001_000, Some((100, 200))), Some(none));
    assert_eq!(monitor.last_update_ns, 500_001_000);
    assert_eq!(monitor.update(500_001_001, Some((100, 200))), None);
    let half = UsageSnapshot { cpu1_util: Share { busy: 5, total: 10 } };
    assert_eq!(monitor.update(1_000_001_000, Some((105, 210))), Some(half));
    assert_eq!(monitor.update(2_000_000_000, None), Some(none));
    assert_eq!(monitor.cpu1_tracker.last_busy, 105);
}

#[test]
fn policy_directories_are_read() {
    assert_eq!(policy_of_dir("policy4"), Some(4));
    assert_eq!(policy_of_dir("policypolicy7"), Some(7));
    assert_eq!(policy_of_dir("policy"), Some(0));
    assert_eq!(policy_of_dir("policyx"), Some(0));
    assert_eq!(policy_of_dir("xpolicy4"), None);
    assert_eq!(policy_of_dir("polic"), None);
}

#[test]
fn cpus_find_their_policies() {
    let dirs = vec![
        PolicyDir { policy: 4, related_cpus: "4 5 x 6\n".to_string() },
        PolicyDir { policy: 0, related_cpus: "0 1 2 3".to_string() },
        PolicyDir { policy: 7, related_cpus: "6 7 40".to_string() },
    ];
    let map = load_cpu_policy_map(&dirs).unwrap();
    assert_eq!(map.len(), 9);
    assert_eq!(map[&3], 0);
    assert_eq!(map[&5], 4);
    assert_eq!(map[&6], 7);
    assert_eq!(sorted_policies(&map), vec![0, 4, 7]);
    assert_eq!(policy_cpu_count(&map, 0), 4);
    assert_eq!(policy_cpu_count(&map, 4), 2);
    assert_eq!(policy_cpu_count(&map, 7), 3);
    assert_eq!(policy_cpu_count(&map, 9), 0);
    let table = cpu_policy_table(&map);
    assert_eq!(table.len(), 32);
    assert_eq!(table[6], 7);
    assert_eq!(table[8], INVALID_POLICY);
    let none = vec![PolicyDir { policy: 4, related_cpus: "x".to_string() }];
    assert_eq!(load_cpu_policy_map(&none), Err(NoPolicies));
    let empty: HashMap<u32, u32> = HashMap::new();
    assert!(sorted_policies(&empty).is_empty());
}

#[test]
fn probe_candidates_are_distinct() {
    let own = "my_symbol".to_string();
    assert_eq!(
        uprobe_candidates(&own),
        vec![
            own.clone(),
            LEGACY_UPROBE_SYMBOL.to_string(),
            DEFAULT_UPROBE_SYMBOL.to_string()
        ]
    );
    for known in [LEGACY_UPROBE_SYMBOL, DEFAULT_UPROBE_SYMBOL] {
        assert_eq!(
            uprobe_candidates(&known.to_string()),
            vec![LEGACY_UPROBE_SYMBOL.to_string(), DEFAULT_UPROBE_SYMBOL.to_string()]
        );
    }
}

#[test]
fn futex_events_are_chosen() {
    let plain = Some(("sys_enter_futex", "sys_exit_futex"));
    let time64 = Some(("sys_enter_futex_time64", "sys_exit_futex_time64"));
    assert_eq!(find_futex_syscall_pair(true, true, true, true), plain);
    assert_eq!(find_futex_syscall_pair(true, false, true, true), time64);
    assert_eq!(find_futex_syscall_pair(true, false, false, true), None);
    assert_eq!(
        tracepoint_id_paths("syscalls", "sys_enter_futex"),
        vec![
            "/sys/kernel/tracing/events/syscalls/sys_enter_futex/id".to_string(),
            "/sys/kernel/debug/tracing/events/syscalls/sys_enter_futex/id".to_string()
        ]
    );
    assert_eq!(
        tracepoint_id_paths("/a/", "b"),
        vec!["/a/b/id".to_string(), "/a/b/id".to_string()]
    );
    assert_eq!(tracepoint_id_paths("", "/b")[1], "/b/id");
    assert_eq!(tracepoint_id_paths("", "b")[0], "/sys/kernel/tracing/events/b/id");
}

#[test]
fn symbols_are_tried_until_one_works() {
    let first = UprobeAttach::Try(0);
    assert_eq!(first.next(true, 2), UprobeAttach::Done);
    assert_eq!(first.next(false, 2), UprobeAttach::Try(1));
    assert_eq!(first.next(false, 2).next(true, 2), UprobeAttach::Done);
    assert_eq!(first.next(false, 2).next(false, 2), UprobeAttach::Failed);
    assert_eq!(UprobeAttach::Done.next(false, 2), UprobeAttach::Done);
    assert_eq!(UprobeAttach::Failed.next(true, 2), UprobeAttach::Failed);
    assert_eq!(UprobeAttach::Try(usize::MAX).next(false, 2), UprobeAttach::Failed);
}

fn run(pair: bool, oks: &[bool]) -> FutexAttach {
    let mut action = FutexAttach::start(pair);
    for ok in oks {
        action = action.next(*ok);
    }
    action
}

#[test]
fn futex_probes_attach_or_fall_back() {
    assert_eq!(FutexAttach::start(true), FutexAttach::Load(FutexProbe::Exit));
    assert_eq!(run(true, &[true, true, true, true]), FutexAttach::Done);
    assert_eq!(run(true, &[true, true, true, false]), FutexAttach::DetachExit);
    assert_eq!(
        run(true, &[true, true, true, false, true]),
        FutexAttach::Load(FutexProbe::RawEnter)
    );
    assert_eq!(run(true, &[true, true, false]), FutexAttach::Load(FutexProbe::RawEnter));
    assert_eq!(run(true, &[false]), FutexAttach::Load(FutexProbe::RawEnter));
    assert_eq!(run(true, &[true, false]), FutexAttach::Load(FutexProbe::RawEnter));
    assert_eq!(run(false, &[true, true, true, true]), FutexAttach::Done);
    assert_eq!(run(false, &[true, false]), FutexAttach::Failed);
    assert_eq!(run(false, &[true, true, false]), FutexAttach::Failed);
    assert_eq!(run(false, &[true, true, true, false]), FutexAttach::Failed);
}

#[test]
fn threads_come_and_go() {
    let names = vec!["12".to_string(), "x".to_string(), "7".to_string()];
    assert_eq!(list_task_tids(&names), vec![12, 7]);
    assert_eq!(stale_tids(&vec![1, 12, 3, 7], &vec![7, 12]), vec![1, 3]);
    assert!(stale_tids(&vec![], &vec![7]).is_empty());
}
