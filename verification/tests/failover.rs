use synap_server::acl::IpAddress;
use synap_server::cluster::{ClusterError, ClusterNode, ClusterState, NodeAddress, NodeFlags};
use synap_server::failover::{ClusterFailover, FailoverCommand};

fn node(id: &str, state: ClusterState, last_ping: u64) -> (String, ClusterNode) {
    (
        id.to_string(),
        ClusterNode {
            id: id.to_string(),
            address: NodeAddress { ip: IpAddress::V4([10, 0, 0, 1]), port: 15502 },
            state,
            slots: vec![],
            master_id: None,
            replica_ids: vec![],
            last_ping,
            flags: NodeFlags::default(),
        },
    )
}

#[test]
fn silent_nodes_are_reported() {
    let f = ClusterFailover::new(15);
    let nodes = vec![
        node("a", ClusterState::Connected, 100),
        node("b", ClusterState::Connected, 90),
        node("c", ClusterState::Offline, 10),
        node("d", ClusterState::Connected, 200),
        node("e", ClusterState::Migrating, 84),
    ];
    assert!(f.check_nodes_at(&nodes, 99).is_empty());
    assert_eq!(f.check_nodes_at(&nodes, 100), vec!["e".to_string()]);
    assert_eq!(f.check_nodes_at(&nodes, 105), vec!["e".to_string()]);
    assert_eq!(f.check_nodes_at(&nodes, 106), vec!["b".to_string(), "e".to_string()]);
    assert_eq!(
        f.check_nodes_at(&nodes, 116),
        vec!["a".to_string(), "b".to_string(), "e".to_string()]
    );
}

#[test]
fn promote_then_complete() {
    let mut f = ClusterFailover::new(15);
    assert!(!f.is_failing_over("m1"));
    f.detect_failure("m1").unwrap();
    f.promote_replica_at("m1", "r1", 1_000).unwrap();
    assert!(f.is_failing_over("m1"));
    assert_eq!(f.failover_times("m1"), Some((1_000, None)));
    f.complete_failover_at("m1", 1_050).unwrap();
    assert_eq!(f.failover_times("m1"), Some((1_000, Some(1_050))));

    match f.next_command() {
        Some(FailoverCommand::DetectFailure { node_id }) => assert_eq!(node_id, "m1"),
        other => panic!("unexpected {:?}", other),
    }
    match f.next_command() {
        Some(FailoverCommand::PromoteReplica { failed_node_id, replica_id }) => {
            assert_eq!(failed_node_id, "m1");
            assert_eq!(replica_id, "r1");
        }
        other => panic!("unexpected {:?}", other),
    }
    assert!(matches!(f.next_command(), Some(FailoverCommand::CompleteFailover { .. })));
    assert!(f.next_command().is_none());
}

#[test]
fn completing_unknown_failover_fails() {
    let mut f = ClusterFailover::new(15);
    match f.complete_failover("ghost") {
        Err(e @ ClusterError::NodeNotFound(_)) => assert_eq!(e.to_string(), "Node not found: ghost"),
        other => panic!("unexpected {:?}", other),
    }
    assert!(f.next_command().is_none());
}
