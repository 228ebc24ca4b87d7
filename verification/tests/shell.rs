use cadenza::shell::locate::{daemon_binary_name, daemon_search_order, first_place};
use cadenza::shell::supervisor::{
    ChildStatus, DaemonState, DaemonSupervisor, SupervisorConfig, LAST_MOMENT,
};

const MS: u128 = 1_000_000;

fn test_config() -> SupervisorConfig {
    SupervisorConfig {
        initial_backoff: 50 * MS,
        max_backoff: 400 * MS,
        reset_after: 300 * MS,
        rate_limit_max: 5,
        rate_limit_window: 5_000 * MS,
    }
}

/// Ticks every ten milliseconds against a daemon that dies at once with `code`, or
/// that cannot be started, and collects the states.
fn crash_loop(sup: &mut DaemonSupervisor, code: Option<i32>, until: u128) -> Vec<DaemonState> {
    let mut states = Vec::new();
    let mut now = 0;
    while now < until {
        if sup.tick(now, ChildStatus::Exited(code)) {
            sup.respawn(now, code.map(|_| 4321));
        }
        states.push(sup.state());
        now += 10 * MS;
    }
    states
}

#[test]
fn start_transitions_to_running() {
    let mut sup = DaemonSupervisor::new(test_config());
    assert!(sup.start(0, Some(4321)));
    assert!(matches!(sup.state(), DaemonState::Running { .. }));
    sup.shutdown();
}

#[test]
fn detects_crash_and_enters_restarting() {
    let mut sup = DaemonSupervisor::new(test_config());
    sup.start(0, Some(4321));
    sup.tick(10 * MS, ChildStatus::Alive);
    assert!(!sup.tick(20 * MS, ChildStatus::Exited(Some(1))));
    match sup.state() {
        DaemonState::Restarting { attempt, last_exit_code, .. } => {
            assert_eq!(attempt, 1);
            assert_eq!(last_exit_code, Some(1));
        }
        other => panic!("supervisor never observed the crash; state={other:?}"),
    }
    sup.shutdown();
}

#[test]
fn backoff_doubles_across_successive_crashes() {
    let mut sup =
        DaemonSupervisor::new(SupervisorConfig { rate_limit_max: 50, ..test_config() });
    sup.start(0, Some(4321));
    let mut observed: Vec<u128> = Vec::new();
    let mut last_attempt = 0;
    for s in crash_loop(&mut sup, Some(2), 3_000 * MS) {
        if let DaemonState::Restarting { attempt, backoff, .. } = s {
            if attempt != last_attempt {
                last_attempt = attempt;
                observed.push(backoff);
            }
        }
    }
    assert!(observed.len() >= 5, "only saw {} backoff values: {:?}", observed.len(), observed);
    assert_eq!(observed[0], 50 * MS);
    assert_eq!(observed[1], 100 * MS);
    assert_eq!(observed[2], 200 * MS);
    assert_eq!(observed[3], 400 * MS);
    assert_eq!(observed[4], 400 * MS);
    sup.shutdown();
}

#[test]
fn rate_limit_transitions_to_failing() {
    let cfg = SupervisorConfig {
        rate_limit_max: 3,
        rate_limit_window: 60_000 * MS,
        ..test_config()
    };
    let mut sup = DaemonSupervisor::new(cfg);
    sup.start(0, Some(4321));
    crash_loop(&mut sup, Some(7), 3_000 * MS);
    match sup.state() {
        DaemonState::Failing { last_exit_code } => assert_eq!(last_exit_code, Some(7)),
        other => panic!("never reached Failing; state={other:?}"),
    }
    assert!(!sup.tick(3_000 * MS, ChildStatus::Exited(None)));
    assert!(!sup.tick(3_100 * MS, ChildStatus::Exited(None)));
    assert!(matches!(sup.state(), DaemonState::Failing { .. }));
    assert_eq!(sup.status_label(), "daemon: failing repeatedly (last exit 7)");
    sup.shutdown();
}

#[test]
fn shutdown_returns_to_not_started_and_blocks_restart() {
    let mut sup = DaemonSupervisor::new(test_config());
    sup.start(0, Some(4321));
    assert!(matches!(sup.state(), DaemonState::Running { .. }));
    sup.shutdown();
    assert_eq!(sup.state(), DaemonState::NotStarted);
    assert!(!sup.tick(10 * MS, ChildStatus::Exited(None)));
    assert_eq!(sup.state(), DaemonState::NotStarted);
}

#[test]
fn initial_spawn_failure_schedules_restart() {
    let mut sup =
        DaemonSupervisor::new(SupervisorConfig { rate_limit_max: 3, ..test_config() });
    let started = sup.start(0, None);
    assert!(!started);
    assert!(matches!(sup.state(), DaemonState::Restarting { .. }));
    crash_loop(&mut sup, None, 3_000 * MS);
    assert!(matches!(sup.state(), DaemonState::Failing { last_exit_code: None }));
    assert_eq!(sup.status_label(), "daemon: failing repeatedly");
}

#[test]
fn label_format_matches_spec() {
    let mut sup = DaemonSupervisor::new(test_config());
    assert_eq!(sup.status_label(), "daemon: not started");
    sup.start(0, Some(4321));
    assert!(sup.status_label().starts_with("daemon: running"));
    sup.shutdown();
}

#[test]
fn labels_tell_process_attempt_and_delay() {
    let mut sup = DaemonSupervisor::new(SupervisorConfig::default());
    sup.start(0, Some(4321));
    assert_eq!(sup.status_label(), "daemon: running (pid 4321)");
    sup.tick(0, ChildStatus::Exited(None));
    sup.respawn(0, None);
    sup.respawn(0, None);
    assert_eq!(sup.status_label(), "daemon: restarting (attempt 3, backoff 4s)");
    let mut quick = DaemonSupervisor::new(test_config());
    quick.start(0, None);
    assert_eq!(quick.status_label(), "daemon: restarting (attempt 1, backoff 1s)");
}

#[test]
fn long_uptime_starts_the_delays_anew() {
    let mut sup = DaemonSupervisor::new(test_config());
    sup.start(0, Some(1));
    sup.tick(0, ChildStatus::Exited(None));
    assert!(!sup.tick(49 * MS, ChildStatus::Alive));
    assert!(sup.tick(50 * MS, ChildStatus::Alive));
    sup.respawn(50 * MS, Some(2));
    sup.tick(349 * MS, ChildStatus::Alive);
    sup.tick(350 * MS, ChildStatus::Alive);
    sup.tick(360 * MS, ChildStatus::Exited(None));
    assert_eq!(
        sup.state(),
        DaemonState::Restarting {
            attempt: 2,
            backoff: 50 * MS,
            last_exit_code: None,
            retry_at: 410 * MS,
        },
    );
}

#[test]
fn longest_delay_may_be_as_long_as_can_be_told() {
    let mut sup =
        DaemonSupervisor::new(SupervisorConfig { max_backoff: LAST_MOMENT, ..test_config() });
    assert!(!sup.start(0, None));
    sup.respawn(50 * MS, None);
    match sup.state() {
        DaemonState::Restarting { backoff, attempt, .. } => {
            assert_eq!((backoff, attempt), (100 * MS, 2));
        }
        other => panic!("expected Restarting, got {other:?}"),
    }

    let mut once = DaemonSupervisor::new(SupervisorConfig {
        initial_backoff: LAST_MOMENT,
        rate_limit_max: 0,
        ..test_config()
    });
    assert!(!once.start(0, None));
    assert!(matches!(once.state(), DaemonState::Failing { last_exit_code: None }));
}

#[test]
fn old_attempts_do_not_count() {
    let mut sup =
        DaemonSupervisor::new(SupervisorConfig { rate_limit_max: 1, ..test_config() });
    sup.start(0, None);
    sup.respawn(5_001 * MS, None);
    assert!(matches!(sup.state(), DaemonState::Restarting { attempt: 1, .. }));
    sup.respawn(5_002 * MS, None);
    assert!(matches!(sup.state(), DaemonState::Failing { .. }));
    assert!(sup.start(6_000 * MS, Some(9)));
    assert_eq!(sup.state(), DaemonState::Running { pid: 9 });
}

#[test]
fn daemon_is_looked_for_beside_the_shell_and_in_build_directories() {
    let names = vec![
        Some("deps".to_string()),
        Some("debug".to_string()),
        Some("target".to_string()),
        Some("release".to_string()),
        None,
    ];
    assert_eq!(daemon_search_order(&names), vec![0, 1, 3]);
    assert_eq!(daemon_search_order(&vec![Some("debug".to_string())]), vec![0, 0]);
    assert!(daemon_search_order(&vec![]).is_empty());
    assert_eq!(first_place(&vec![false, true, true]), Some(1));
    assert_eq!(first_place(&vec![false]), None);
    assert_eq!(daemon_binary_name(true), "cadenza-daemon.exe");
    assert_eq!(daemon_binary_name(false), "cadenza-daemon");
}
