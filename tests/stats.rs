use seeker_chooser::server::Action;
use seeker_chooser::stats::{addr_less, stats_snapshot, ConnectionSample};

fn sample(addr: Option<&str>, action: Action, sent: u64, recv: u64, secs: u64) -> ConnectionSample {
    ConnectionSample {
        remote_addr: addr.map(|a| a.to_string()),
        action,
        sent_bytes: sent,
        received_bytes: recv,
        duration_secs: secs,
    }
}

#[test]
fn two_connections_to_one_destination_aggregate() {
    let samples = vec![
        sample(Some("example.com:443"), Action::Proxy, 100, 200, 5),
        sample(Some("example.com:443"), Action::Proxy, 50, 20, 9),
    ];
    let rows = stats_snapshot(&samples);
    assert_eq!(rows.len(), 1);
    assert_eq!(rows[0].addr, "example.com:443");
    assert_eq!(rows[0].count, 2);
    assert_eq!(rows[0].sent_bytes, 150);
    assert_eq!(rows[0].received_bytes, 220);
    assert_eq!(rows[0].max_duration_secs, 9);
    assert_eq!(rows[0].action, Action::Proxy);
}

#[test]
fn rows_are_sorted_by_address() {
    let samples = vec![
        sample(Some("zeta:80"), Action::Direct, 1, 1, 1),
        sample(None, Action::Direct, 7, 7, 7),
        sample(Some("alpha:80"), Action::Proxy, 2, 3, 4),
        sample(Some("beta:80"), Action::Direct, 0, 0, 0),
        sample(Some("alpha:80"), Action::Direct, 10, 30, 2),
    ];
    let rows = stats_snapshot(&samples);
    let addrs: Vec<&str> = rows.iter().map(|r| r.addr.as_str()).collect();
    assert_eq!(addrs, vec!["alpha:80", "beta:80", "zeta:80"]);
    assert_eq!(rows[0].count, 2);
    assert_eq!(rows[0].sent_bytes, 12);
    assert_eq!(rows[0].received_bytes, 33);
    assert_eq!(rows[0].max_duration_secs, 4);
    assert_eq!(rows[0].action, Action::Direct);
    assert_eq!(rows[2].count, 1);
}

#[test]
fn no_samples_no_rows() {
    assert!(stats_snapshot(&vec![]).is_empty());
    assert!(stats_snapshot(&vec![sample(None, Action::Proxy, 1, 1, 1)]).is_empty());
}

#[test]
fn address_order_matches_string_order() {
    let words = ["", "a", "b", "ab", "ba", "a:1", "a:10", "é", "z", "Z", "10.0.0.1:80"];
    for x in words.iter() {
        for y in words.iter() {
            assert_eq!(addr_less(&x.to_string(), &y.to_string()), x.to_string() < y.to_string());
        }
    }
}
