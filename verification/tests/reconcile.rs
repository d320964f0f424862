use trej::config::parsing::{ClientInfo, ConfigFile, LockEntry, PortInfo};
use trej::graph::JackGraph;
use trej::model::ports::{PortCategory, PortData, PortDirection, PortFullname};
use trej::reconcile::{plan_reconciliation, GraphOp};
use trej::{LockConfig, LockStatus};

fn name(raw: &str) -> PortFullname {
    PortFullname::new(raw.to_owned()).unwrap()
}

fn port(raw: &str, direction: PortDirection) -> PortData {
    PortData {
        name: name(raw),
        category: PortCategory::Audio,
        direction,
    }
}

fn locked_client(client: &str, lock: LockStatus) -> LockEntry {
    LockEntry::Client {
        name: client.to_owned(),
        info: ClientInfo::new().with_lock(lock),
    }
}

fn declared(full: &str, peer: &str) -> LockEntry {
    let mut info = PortInfo::new();
    info.connections.push(name(peer));
    LockEntry::Port {
        name: name(full),
        info,
    }
}

/// Applies the planned operations to the cache alone, standing in for an
/// external system that performs each one successfully.
fn apply(graph: &mut JackGraph, plan: &[GraphOp]) {
    for op in plan {
        match op {
            GraphOp::Connect(src, dst) => {
                assert!(graph.record_connect(src, dst));
            }
            GraphOp::Disconnect(src, dst) => {
                assert!(graph.record_disconnect(src, dst));
            }
        }
    }
}

#[test]
fn forces_declared_absent_connection() {
    // Policy declares (client_a:out1, client_b:in1) with client_a locked
    // force; the graph has no such connection.
    let file = ConfigFile {
        entries: vec![
            locked_client("client_a", LockStatus::Force),
            declared("client_a:out1", "client_b:in1"),
        ],
    };
    let cfg = LockConfig::from_config_file(&file).unwrap();
    let mut graph = JackGraph::new();
    graph.refresh(
        vec![
            port("client_a:out1", PortDirection::Out),
            port("client_b:in1", PortDirection::In),
        ],
        &vec![],
    );
    let plan = plan_reconciliation(&graph, &cfg);
    assert_eq!(
        plan,
        vec![GraphOp::Connect(name("client_a:out1"), name("client_b:in1"))]
    );
    apply(&mut graph, &plan);
    assert!(graph.is_connected(&name("client_a:out1"), &name("client_b:in1")));
    let second = plan_reconciliation(&graph, &cfg);
    assert_eq!(second.len(), 0);
}

#[test]
fn blocks_undeclared_connection() {
    // client_c is locked block; the graph holds an existing, undeclared
    // connection client_c:in1 <-> client_d:out1.
    let file = ConfigFile {
        entries: vec![locked_client("client_c", LockStatus::Block)],
    };
    let cfg = LockConfig::from_config_file(&file).unwrap();
    let mut graph = JackGraph::new();
    graph.refresh(
        vec![
            port("client_c:in1", PortDirection::In),
            port("client_d:out1", PortDirection::Out),
        ],
        &vec![(name("client_c:in1"), name("client_d:out1"))],
    );
    let plan = plan_reconciliation(&graph, &cfg);
    // Exactly one disconnect, oriented output port first.
    assert_eq!(
        plan,
        vec![GraphOp::Disconnect(
            name("client_d:out1"),
            name("client_c:in1")
        )]
    );
    apply(&mut graph, &plan);
    let second = plan_reconciliation(&graph, &cfg);
    assert_eq!(second.len(), 0);
}

#[test]
fn reconciliation_is_idempotent() {
    let file = ConfigFile {
        entries: vec![
            locked_client("client_a", LockStatus::Force),
            locked_client("client_c", LockStatus::Block),
            declared("client_a:out1", "client_b:in1"),
        ],
    };
    let cfg = LockConfig::from_config_file(&file).unwrap();
    let mut graph = JackGraph::new();
    graph.refresh(
        vec![
            port("client_a:out1", PortDirection::Out),
            port("client_b:in1", PortDirection::In),
            port("client_c:in1", PortDirection::In),
            port("client_d:out1", PortDirection::Out),
        ],
        &vec![(name("client_c:in1"), name("client_d:out1"))],
    );
    let plan = plan_reconciliation(&graph, &cfg);
    assert_eq!(plan.len(), 2);
    apply(&mut graph, &plan);
    assert_eq!(plan_reconciliation(&graph, &cfg).len(), 0);
}

#[test]
fn forcing_skips_incompatible_pairs() {
    let file = ConfigFile {
        entries: vec![
            locked_client("client_a", LockStatus::Force),
            declared("client_a:out1", "client_b:in1"),
            declared("client_a:out2", "client_b:in2"),
            declared("client_a:out3", "client_b:gone"),
        ],
    };
    let cfg = LockConfig::from_config_file(&file).unwrap();
    let mut graph = JackGraph::new();
    graph.refresh(
        vec![
            // Same direction on both ends: never bridged.
            port("client_a:out1", PortDirection::Out),
            port("client_b:in1", PortDirection::Out),
            // Mismatched categories: never bridged.
            PortData {
                name: name("client_a:out2"),
                category: PortCategory::Midi,
                direction: PortDirection::Out,
            },
            port("client_b:in2", PortDirection::In),
            // client_b:gone is absent from the graph.
            port("client_a:out3", PortDirection::Out),
        ],
        &vec![],
    );
    let plan = plan_reconciliation(&graph, &cfg);
    assert_eq!(plan.len(), 0);
}

#[test]
fn orientation_follows_port_direction() {
    // The declared pair lists the input port first; the planned connect
    // still goes output to input.
    let file = ConfigFile {
        entries: vec![
            locked_client("sink", LockStatus::Force),
            declared("sink:in1", "source:out1"),
        ],
    };
    let cfg = LockConfig::from_config_file(&file).unwrap();
    let mut graph = JackGraph::new();
    graph.refresh(
        vec![
            port("sink:in1", PortDirection::In),
            port("source:out1", PortDirection::Out),
        ],
        &vec![],
    );
    let plan = plan_reconciliation(&graph, &cfg);
    assert_eq!(
        plan,
        vec![GraphOp::Connect(name("source:out1"), name("sink:in1"))]
    );
}
