use seeker_chooser::registry::ConnectionRegistry;
use seeker_chooser::server::ServerConfig;

fn server(name: &str) -> ServerConfig {
    ServerConfig::new(name.to_string(), format!("{}.example:443", name), String::new())
}

#[test]
fn insert_keeps_order_and_binding() {
    let mut registry: ConnectionRegistry<&str> = ConnectionRegistry::new();
    assert_eq!(registry.len(), 0);
    registry.insert(Some(server("a")), "first");
    registry.insert(None, "second");
    assert_eq!(registry.len(), 2);
    assert_eq!(*registry.handle(0), "first");
    assert_eq!(registry.server_of(0), &Some(server("a")));
    assert_eq!(registry.server_of(1), &None);
}

#[test]
fn prune_removes_exactly_dead_connections() {
    let mut registry: ConnectionRegistry<u32> = ConnectionRegistry::new();
    for h in 0..6 {
        registry.insert(None, h);
    }
    registry.prune(&vec![true, false, false, true, false, true]);
    assert_eq!(registry.len(), 3);
    let left: Vec<u32> = (0..registry.len()).map(|i| *registry.handle(i)).collect();
    assert_eq!(left, vec![0, 3, 5]);
    registry.prune(&vec![true, true, true]);
    assert_eq!(registry.len(), 3);
    registry.prune(&vec![false, false, false]);
    assert_eq!(registry.len(), 0);
}

#[test]
fn shutdown_targets_only_the_given_server() {
    let mut registry: ConnectionRegistry<u32> = ConnectionRegistry::new();
    registry.insert(Some(server("a")), 0);
    registry.insert(Some(server("b")), 1);
    registry.insert(None, 2);
    registry.insert(Some(server("a")), 3);
    assert_eq!(registry.shutdown_for(&server("a")), vec![0, 3]);
    assert_eq!(registry.shutdown_for(&server("b")), vec![1]);
    assert_eq!(registry.shutdown_for(&server("c")), Vec::<usize>::new());
    assert_eq!(registry.len(), 4);
}
