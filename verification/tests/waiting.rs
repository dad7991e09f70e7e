use fas_rs::analyzer::{
    frame_weights, pid_to_token, token_to_pid, validate_config, Analyzer, AnalyzerConfig,
    ConfigError, PolicyWeightRow, RecvAction, RecvEnd, RecvInput, RecvRun, RecvStage, Update,
    WeightSettings, DEFAULT_UPROBE_LIB, DEFAULT_UPROBE_SYMBOL,
};
use fas_rs::target::ClosedFrame;
use fas_rs::usage::Share;

const MS: u128 = 1_000_000;

fn good() -> WeightSettings {
    WeightSettings {
        ema_lambda_outside: false,
        norm_mix_outside: false,
        weight_negative: false,
        weights_vanish: false,
        floor_negative: false,
    }
}

fn watching(pids: &[i32]) -> Analyzer<&'static str> {
    let mut analyzer = Analyzer::with_config(&AnalyzerConfig::default());
    for pid in pids {
        assert!(analyzer.attach_app(*pid));
    }
    analyzer.register_poll(true);
    analyzer
}

#[test]
fn default_settings() {
    let cfg = AnalyzerConfig::default();
    assert_eq!(cfg.uprobe_symbol, DEFAULT_UPROBE_SYMBOL);
    assert_eq!(cfg.uprobe_lib, DEFAULT_UPROBE_LIB);
    assert!(cfg.direct_probe_fallback);
    assert_eq!(cfg.subgraph_slack_ns, 300_000);
    assert_eq!(cfg.subgraph_tau_ns, 300_000);
    assert_eq!(cfg.stale_timeout_ns, 2000 * MS);
}

#[test]
fn settings_are_refused_in_order() {
    let mut cfg = AnalyzerConfig::default();
    assert_eq!(validate_config(&cfg, good()), Ok(()));
    let bad = WeightSettings {
        ema_lambda_outside: true,
        norm_mix_outside: true,
        weight_negative: true,
        weights_vanish: true,
        floor_negative: true,
    };
    cfg.subgraph_tau_ns = 0;
    let mut cur = bad;
    assert_eq!(validate_config(&cfg, cur), Err(ConfigError::EmaLambda));
    cur.ema_lambda_outside = false;
    assert_eq!(validate_config(&cfg, cur), Err(ConfigError::NormMix));
    cur.norm_mix_outside = false;
    assert_eq!(validate_config(&cfg, cur), Err(ConfigError::NegativeWeight));
    cur.weight_negative = false;
    assert_eq!(validate_config(&cfg, cur), Err(ConfigError::NoWeight));
    cur.weights_vanish = false;
    assert_eq!(validate_config(&cfg, cur), Err(ConfigError::Tau));
    cfg.subgraph_tau_ns = 1;
    assert_eq!(validate_config(&cfg, cur), Err(ConfigError::ClusterFloor));
    assert_eq!(ConfigError::Tau.message(), "subgraph_tau_ns must be > 0");
    assert_eq!(ConfigError::EmaLambda.message(), "ema_lambda must be in [0, 1]");
    assert_eq!(ConfigError::NormMix.message(), "norm_mix must be in [0, 1]");
    assert_eq!(ConfigError::NegativeWeight.message(), "rq/futex/exec weights must be >= 0");
    assert_eq!(ConfigError::NoWeight.message(), "at least one of rq/exec weight must be > 0");
    assert_eq!(ConfigError::ClusterFloor.message(), "min_cluster_weight must be >= 0");
}

#[test]
fn rows_become_weights() {
    let frame = ClosedFrame { frame_id: 7, bank: 1, tail_tid: 3 };
    let confidence = Share { busy: 1, total: 2 };
    let rows = vec![
        PolicyWeightRow { policy: 0, weight: 0.25 },
        PolicyWeightRow { policy: u32::MAX, weight: 0.5 },
        PolicyWeightRow { policy: 0, weight: 0.75 },
    ];
    let weights = frame_weights(42, frame, confidence, &rows).unwrap();
    assert_eq!(weights.pid, 42);
    assert_eq!(weights.frame_id, 7);
    assert_eq!(weights.confidence, confidence);
    assert_eq!(weights.policy_weights.len(), 2);
    assert_eq!(weights.policy_weights[&0], 0.75);
    assert_eq!(weights.policy_weights[&-1], 0.5);
    let none: Vec<PolicyWeightRow<f64>> = vec![];
    assert!(frame_weights(42, frame, confidence, &none).is_none());
}

#[test]
fn new_analyzer_watches_nothing() {
    let analyzer: Analyzer<u8> = Analyzer::new();
    assert!(analyzer.pids().is_empty());
    assert!(analyzer.direct_probe_fallback);
    assert_eq!(analyzer.stale_timeout_ns, 2000 * MS);
}

#[test]
fn tokens_stand_for_processes() {
    for pid in [0, 1, 4321, i32::MAX, -1, i32::MIN] {
        assert_eq!(token_to_pid(pid_to_token(pid)), pid);
    }
    assert_eq!(pid_to_token(4321), 4321);
}

#[test]
fn processes_attach_and_detach() {
    let mut analyzer = watching(&[10, 20]);
    assert!(!analyzer.attach_app(10));
    assert!(analyzer.contains(20));
    assert_eq!(analyzer.pids(), vec![10, 20]);
    analyzer.buffer.push_back(10);
    analyzer.buffer.push_back(20);
    analyzer.buffer.push_back(10);
    assert!(analyzer.process_pid_update(10, Update::Weights("w"), 5));
    assert!(analyzer.detach_app(10));
    assert!(!analyzer.detach_app(10));
    assert_eq!(analyzer.pids(), vec![20]);
    assert_eq!(analyzer.buffer.len(), 1);
    assert!(analyzer.latest.is_empty());
    analyzer.register_poll(false);
    assert!(analyzer.polling);
    analyzer.detach_apps();
    assert!(analyzer.pids().is_empty());
    assert!(analyzer.buffer.is_empty());
    assert!(!analyzer.polling);
    assert!(analyzer.attach_app(30));
    analyzer.register_poll(false);
    assert!(!analyzer.polling);
}

#[test]
fn weights_grow_stale() {
    let mut analyzer = watching(&[10]);
    assert_eq!(analyzer.latest_for(10, 0), None);
    analyzer.process_pid_update(10, Update::Weights("w"), 100);
    assert_eq!(analyzer.latest_for(10, 100 + 2000 * MS), Some(&"w"));
    assert_eq!(analyzer.latest_for(10, 101 + 2000 * MS), None);
    assert_eq!(analyzer.latest_for(20, 100), None);
}

#[test]
fn probing_is_wanted_for_old_weights() {
    let mut analyzer = watching(&[10]);
    assert!(analyzer.should_direct_probe(0));
    analyzer.process_pid_update(10, Update::Weights("w"), 0);
    assert!(!analyzer.should_direct_probe(300 * MS - 1));
    assert!(analyzer.should_direct_probe(300 * MS));
    analyzer.direct_probe_fallback = false;
    assert!(!analyzer.should_direct_probe(300 * MS));
}

#[test]
fn weights_come_from_events() {
    let mut analyzer = watching(&[10, 20]);
    let mut run = RecvRun::new(50 * MS);
    assert_eq!(analyzer.recv_timeout(&mut run, RecvInput::Start, 0), RecvAction::Poll(50 * MS));
    assert_eq!(
        analyzer.recv_timeout(&mut run, RecvInput::Polled(vec![99, 20, 10]), 1),
        RecvAction::Update(20)
    );
    assert_eq!(
        analyzer.recv_timeout(&mut run, RecvInput::Updated(Update::Nothing), 2),
        RecvAction::Update(10)
    );
    assert_eq!(
        analyzer.recv_timeout(&mut run, RecvInput::Updated(Update::Weights("w")), 3),
        RecvAction::End(RecvEnd::Got(10))
    );
    assert_eq!(run.stage, RecvStage::Idle);
    assert_eq!(analyzer.latest[&10].received_at_ns, 3);
    assert_eq!(analyzer.latest_for(10, 3), Some(&"w"));
}

#[test]
fn failing_process_is_dropped() {
    let mut analyzer = watching(&[10, 20]);
    let mut run = RecvRun::new(50 * MS);
    analyzer.recv_timeout(&mut run, RecvInput::Start, 0);
    assert_eq!(
        analyzer.recv_timeout(&mut run, RecvInput::Polled(vec![20, 20, 10]), 1),
        RecvAction::Update(20)
    );
    assert_eq!(
        analyzer.recv_timeout(&mut run, RecvInput::Updated(Update::Failed(true)), 2),
        RecvAction::Update(10)
    );
    assert_eq!(analyzer.pids(), vec![10]);
}

#[test]
fn timeout_probes_at_the_end() {
    let mut analyzer = watching(&[10, 20]);
    let mut run = RecvRun::new(0);
    assert_eq!(analyzer.recv_timeout(&mut run, RecvInput::Start, 5), RecvAction::Poll(0));
    assert_eq!(
        analyzer.recv_timeout(&mut run, RecvInput::Polled(vec![]), 6),
        RecvAction::Update(10)
    );
    assert_eq!(run.stage, RecvStage::Probing(10));
    assert_eq!(
        analyzer.recv_timeout(&mut run, RecvInput::Updated(Update::Failed(false)), 7),
        RecvAction::Update(20)
    );
    assert_eq!(
        analyzer.recv_timeout(&mut run, RecvInput::Updated(Update::Nothing), 8),
        RecvAction::End(RecvEnd::Timeout)
    );
    assert_eq!(analyzer.pids(), vec![20]);
}

#[test]
fn last_process_takes_the_poll_along() {
    let mut analyzer = watching(&[10]);
    let mut run = RecvRun::new(50 * MS);
    analyzer.recv_timeout(&mut run, RecvInput::Start, 0);
    assert_eq!(
        analyzer.recv_timeout(&mut run, RecvInput::Polled(vec![10]), 1),
        RecvAction::Update(10)
    );
    assert_eq!(
        analyzer.recv_timeout(&mut run, RecvInput::Updated(Update::Failed(true)), 2),
        RecvAction::End(RecvEnd::Timeout)
    );
    assert!(analyzer.pids().is_empty());
    assert!(!analyzer.polling);
}

#[test]
fn timeout_without_probing() {
    let mut analyzer = watching(&[10]);
    analyzer.direct_probe_fallback = false;
    let mut run = RecvRun::new(10);
    assert_eq!(analyzer.recv_timeout(&mut run, RecvInput::Start, 0), RecvAction::Poll(10));
    assert_eq!(
        analyzer.recv_timeout(&mut run, RecvInput::Polled(vec![]), 4),
        RecvAction::Poll(6)
    );
    assert_eq!(
        analyzer.recv_timeout(&mut run, RecvInput::Polled(vec![]), 10),
        RecvAction::End(RecvEnd::Timeout)
    );
}

#[test]
fn nothing_to_poll_times_out() {
    let mut analyzer: Analyzer<u8> = Analyzer::with_config(&AnalyzerConfig::default());
    let mut run = RecvRun::new(10);
    assert_eq!(
        analyzer.recv_timeout(&mut run, RecvInput::Start, 0),
        RecvAction::End(RecvEnd::Timeout)
    );
}

#[test]
fn failed_poll_disconnects() {
    let mut analyzer = watching(&[10]);
    let mut run = RecvRun::new(10);
    analyzer.recv_timeout(&mut run, RecvInput::Start, 0);
    assert_eq!(
        analyzer.recv_timeout(&mut run, RecvInput::PollFailed, 1),
        RecvAction::End(RecvEnd::Disconnected)
    );
}
