use seeker_chooser::chooser::ServerChooser;
use seeker_chooser::maintenance::{maintenance_tick, Maintenance, CHECK_INTERVAL_MS, PRUNE_INTERVAL_MS};
use seeker_chooser::probe::{probe_request, ProbeResult, ProbeStep, ServerProbe};
use seeker_chooser::registry::ConnectionRegistry;
use seeker_chooser::server::{Action, PingURL, ServerConfig};

fn server(name: &str, addr: &str) -> ServerConfig {
    ServerConfig::new(name.to_string(), addr.to_string(), "aes-256-gcm".to_string())
}

fn urls(n: usize) -> Vec<PingURL> {
    (0..n)
        .map(|i| PingURL::new(format!("probe{}.example:80", i), "/".to_string()))
        .collect()
}

fn abc() -> Vec<ServerConfig> {
    vec![server("a", "10.0.0.1:8388"), server("b", "10.0.0.2:8388"), server("c", "10.0.0.3:8388")]
}

fn ok(server: usize, ms: u64) -> ProbeResult {
    ProbeResult { server, latency_ns: Some(ms) }
}

fn failed(server: usize) -> ProbeResult {
    ProbeResult { server, latency_ns: None }
}

/// Runs one server's probes, answering them from `answers`, with every
/// probe taking `step_ms`.
fn run_probe(targets: usize, answers: &[bool], step_ms: u64) -> ProbeStep {
    let mut now = 1000;
    let mut probe = ServerProbe::start(targets, now);
    loop {
        match probe.next_step(now) {
            ProbeStep::Probe(i) => {
                now += step_ms;
                probe.record(answers[i]);
            }
            done => return done,
        }
    }
}

#[test]
fn new_selects_first_and_keeps_all_as_candidates() {
    let chooser = ServerChooser::new(abc(), urls(2), 3000);
    assert_eq!(chooser.selected_server(), &abc()[0]);
    assert_eq!(chooser.candidates(), &abc());
    assert_eq!(chooser.servers(), &abc());
    assert_eq!(chooser.ping_timeout_ms(), 3000);
    assert_eq!(chooser.ping_urls().len(), 2);
    assert!(chooser.should_ping());
}

#[test]
fn probe_steps_through_every_target() {
    assert_eq!(run_probe(2, &[true, true], 15), ProbeStep::Healthy(30));
    assert_eq!(run_probe(3, &[true, true, true], 7), ProbeStep::Healthy(21));
}

#[test]
fn probe_stops_at_first_failure() {
    let mut probe = ServerProbe::start(3, 0);
    assert_eq!(probe.next_step(0), ProbeStep::Probe(0));
    probe.record(false);
    assert_eq!(probe.next_step(5), ProbeStep::Failed);
    assert_eq!(run_probe(2, &[true, false], 10), ProbeStep::Failed);
}

#[test]
fn failing_server_is_excluded_and_its_connections_cut() {
    let servers = abc();
    let mut chooser = ServerChooser::new(servers.clone(), urls(2), 3000);
    let mut registry: ConnectionRegistry<u32> = ConnectionRegistry::new();
    registry.insert(Some(servers[0].clone()), 10);
    registry.insert(Some(servers[1].clone()), 11);
    registry.insert(None, 12);
    registry.insert(Some(servers[1].clone()), 13);
    registry.insert(Some(servers[2].clone()), 14);

    let a = run_probe(2, &[true, true], 15);
    let b = run_probe(2, &[true, false], 15);
    let c = run_probe(2, &[true, true], 5);
    assert_eq!(a, ProbeStep::Healthy(30));
    assert_eq!(b, ProbeStep::Failed);
    assert_eq!(c, ProbeStep::Healthy(10));

    let cut = registry.shutdown_for(&servers[1]);
    assert_eq!(cut, vec![1, 3]);
    let handles: Vec<u32> = cut.iter().map(|&i| *registry.handle(i)).collect();
    assert_eq!(handles, vec![11, 13]);

    // completion order: c, b, a
    let results = vec![ok(2, 10), failed(1), ok(0, 30)];
    let demoted = chooser.apply_ping_results(&results);
    assert_eq!(demoted, None);
    assert_eq!(chooser.candidates(), &vec![servers[2].clone(), servers[0].clone()]);
    assert_eq!(chooser.selected_server(), &servers[0]);
}

#[test]
fn single_server_is_never_pinged() {
    let only = vec![server("solo", "10.0.0.9:8388")];
    let mut chooser = ServerChooser::new(only.clone(), urls(2), 3000);
    assert!(!chooser.should_ping());
    assert_eq!(chooser.apply_ping_results(&vec![failed(0)]), None);
    assert_eq!(chooser.selected_server(), &only[0]);
    assert_eq!(chooser.candidates(), &only);
}

#[test]
fn no_probe_targets_means_no_health_check() {
    let mut chooser = ServerChooser::new(abc(), urls(0), 3000);
    assert!(!chooser.should_ping());
    assert_eq!(chooser.apply_ping_results(&vec![failed(0), ok(1, 3)]), None);
    assert_eq!(chooser.candidates(), &abc());
    assert_eq!(chooser.selected_server(), &abc()[0]);
}

#[test]
fn total_failure_keeps_previous_candidates() {
    let servers = abc();
    let mut chooser = ServerChooser::new(servers.clone(), urls(1), 3000);
    chooser.apply_ping_results(&vec![ok(1, 20), ok(0, 40), failed(2)]);
    let before = chooser.candidates().clone();
    assert_eq!(before, vec![servers[1].clone(), servers[0].clone()]);
    let demoted = chooser.apply_ping_results(&vec![failed(0), failed(1), failed(2)]);
    assert_eq!(demoted, None);
    assert_eq!(chooser.candidates(), &before);
    assert_eq!(chooser.selected_server(), &servers[0]);
}

#[test]
fn selected_server_missing_from_candidates_fails_over() {
    let servers = abc();
    let mut chooser = ServerChooser::new(servers.clone(), urls(2), 3000);
    let demoted = chooser.apply_ping_results(&vec![ok(2, 50), failed(0), ok(1, 12)]);
    assert_eq!(demoted, Some(servers[0].clone()));
    assert_eq!(chooser.candidates(), &vec![servers[1].clone(), servers[2].clone()]);
    assert_eq!(chooser.selected_server(), &servers[1]);
}

#[test]
fn ranking_is_stable_for_equal_latency() {
    let servers = abc();
    let mut chooser = ServerChooser::new(servers.clone(), urls(1), 3000);
    chooser.apply_ping_results(&vec![ok(2, 10), ok(0, 10), ok(1, 5)]);
    assert_eq!(
        chooser.candidates(),
        &vec![servers[1].clone(), servers[2].clone(), servers[0].clone()]
    );
}

#[test]
fn proxy_failure_moves_to_another_server() {
    let servers = abc();
    let mut chooser = ServerChooser::new(servers.clone(), urls(1), 3000);
    assert_eq!(chooser.apply_ping_results(&vec![ok(1, 5), ok(0, 9), ok(2, 20)]), None);
    assert_eq!(chooser.route_for(Action::Proxy), Some(servers[0].clone()));
    let demoted = chooser.connect_failed(Action::Proxy);
    assert_eq!(demoted, Some(servers[0].clone()));
    let next = chooser.route_for(Action::Proxy).unwrap();
    assert_eq!(next, servers[1]);
    assert_ne!(next, servers[0]);
}

#[test]
fn direct_routes_bypass_servers() {
    let mut chooser = ServerChooser::new(abc(), urls(1), 3000);
    assert_eq!(chooser.route_for(Action::Direct), None);
    assert_eq!(chooser.connect_failed(Action::Direct), None);
    assert_eq!(chooser.selected_server(), &abc()[0]);
}

#[test]
fn move_to_next_server_takes_best_candidate() {
    let servers = abc();
    let mut chooser = ServerChooser::new(servers.clone(), urls(1), 3000);
    chooser.apply_ping_results(&vec![ok(2, 1), ok(0, 2)]);
    assert_eq!(chooser.selected_server(), &servers[0]);
    assert_eq!(chooser.move_to_next_server(), Some(servers[0].clone()));
    assert_eq!(chooser.selected_server(), &servers[2]);
    // already on the best candidate: the switch keeps it
    assert_eq!(chooser.move_to_next_server(), Some(servers[2].clone()));
    assert_eq!(chooser.selected_server(), &servers[2]);
}

#[test]
fn servers_compare_by_value() {
    let a = server("a", "10.0.0.1:8388");
    assert!(a.same_as(&a.duplicate()));
    assert!(!a.same_as(&server("a", "10.0.0.1:8389")));
    let other = ServerConfig::new("a".to_string(), "10.0.0.1:8388".to_string(), "chacha20".to_string());
    assert_ne!(a, other);
}

#[test]
fn probe_request_is_a_minimal_get() {
    assert_eq!(probe_request("/"), "GET / HTTP/1.1\r\n\r\n");
    assert_eq!(probe_request("/generate_204"), "GET /generate_204 HTTP/1.1\r\n\r\n");
}

#[test]
fn maintenance_checks_only_after_the_interval() {
    assert_eq!(PRUNE_INTERVAL_MS, 1000);
    assert_eq!(CHECK_INTERVAL_MS, 10000);
    assert_eq!(maintenance_tick(0, 0), (Maintenance::Prune, 0));
    assert_eq!(maintenance_tick(500, 10500), (Maintenance::Prune, 500));
    assert_eq!(maintenance_tick(500, 10501), (Maintenance::CheckAndPrune, 10501));
    // one tick per second: the check comes on the eleventh tick
    let mut last = 0;
    let mut checks = vec![];
    for tick in 1..=25u64 {
        let (work, next) = maintenance_tick(last, tick * 1000);
        if work == Maintenance::CheckAndPrune {
            checks.push(tick);
        }
        last = next;
    }
    assert_eq!(checks, vec![11, 22]);
}

#[test]
fn latencies_within_one_millisecond_are_told_apart() {
    let servers = abc();
    let mut chooser = ServerChooser::new(servers.clone(), urls(1), 3000);
    chooser.apply_ping_results(&vec![ok(0, 1_000_900), ok(2, 1_000_100)]);
    assert_eq!(chooser.candidates(), &vec![servers[2].clone(), servers[0].clone()]);
}
