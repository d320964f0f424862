use trej::graph::JackGraph;
use trej::model::ports::{PortCategory, PortData, PortDirection, PortFullname};

fn name(raw: &str) -> PortFullname {
    PortFullname::new(raw.to_owned()).unwrap()
}

fn port(raw: &str, direction: PortDirection) -> PortData {
    PortData {
        name: name(raw),
        category: PortCategory::Audio,
        direction,
    }
}

fn sample_ports() -> Vec<PortData> {
    vec![
        port("alpha:out1", PortDirection::Out),
        port("beta:in1", PortDirection::In),
        port("alpha:out2", PortDirection::Out),
        port("gamma:in1", PortDirection::In),
    ]
}

fn link(a: &str, b: &str) -> (PortFullname, PortFullname) {
    (name(a), name(b))
}

#[test]
fn refresh_groups_and_deduplicates() {
    let mut g = JackGraph::new();
    let mut ports = sample_ports();
    // A duplicated name is dropped on refresh.
    ports.push(port("beta:in1", PortDirection::In));
    g.refresh(ports, &vec![]);
    let clients: Vec<String> = g.all_clients();
    assert_eq!(clients, vec!["alpha", "beta", "gamma"]);
    // Ports of one client are adjacent even though the listing interleaved
    // them.
    let alpha = g.client_ports("alpha");
    assert_eq!(alpha.len(), 2);
    assert_eq!(alpha[0].name.as_str(), "alpha:out1");
    assert_eq!(alpha[1].name.as_str(), "alpha:out2");
    assert_eq!(g.all_ports().len(), 4);
    assert!(g.port_by_name(&name("beta:in1")).is_some());
    assert!(g.port_by_name(&name("delta:x")).is_none());
}

#[test]
fn refresh_records_links() {
    let mut g = JackGraph::new();
    g.refresh(
        sample_ports(),
        &vec![
            link("alpha:out1", "beta:in1"),
            // Unknown endpoints are dropped.
            link("alpha:out1", "missing:in"),
        ],
    );
    assert!(g.is_connected(&name("alpha:out1"), &name("beta:in1")));
    assert!(g.is_connected(&name("beta:in1"), &name("alpha:out1")));
    assert!(!g.is_connected(&name("alpha:out1"), &name("gamma:in1")));
    assert!(!g.is_connected(&name("alpha:out1"), &name("missing:in")));
    assert_eq!(g.all_connections().len(), 1);
    let peers = g.port_connections(&name("alpha:out1"));
    assert_eq!(peers.len(), 1);
    assert_eq!(peers[0].name.as_str(), "beta:in1");
}

#[test]
fn port_connections_order_and_multiplicity() {
    let mut g = JackGraph::new();
    g.refresh(
        sample_ports(),
        &vec![
            link("alpha:out1", "beta:in1"),
            link("alpha:out1", "gamma:in1"),
        ],
    );
    // One entry per connection touching the port, in connection-list order.
    let peers = g.port_connections(&name("alpha:out1"));
    assert_eq!(peers.len(), 2);
    assert_eq!(peers[0].name.as_str(), "beta:in1");
    assert_eq!(peers[1].name.as_str(), "gamma:in1");
    let beta = g.port_connections(&name("beta:in1"));
    assert_eq!(beta.len(), 1);
    assert_eq!(beta[0].name.as_str(), "alpha:out1");
    assert!(g.port_connections(&name("alpha:out2")).is_empty());
}

#[test]
fn patch_matches_refresh() {
    // Patching a fresh cache after local connect/disconnect calls leaves
    // it identical to a full refresh against the changed external state.
    let mut patched = JackGraph::new();
    patched.refresh(sample_ports(), &vec![link("alpha:out1", "beta:in1")]);
    assert!(patched.record_connect(&name("alpha:out2"), &name("gamma:in1")));
    assert!(patched.record_disconnect(&name("alpha:out1"), &name("beta:in1")));

    let mut refreshed = JackGraph::new();
    refreshed.refresh(sample_ports(), &vec![link("alpha:out2", "gamma:in1")]);

    let names: Vec<&str> = vec!["alpha:out1", "alpha:out2", "beta:in1", "gamma:in1"];
    for a in &names {
        for b in &names {
            assert_eq!(
                patched.is_connected(&name(a), &name(b)),
                refreshed.is_connected(&name(a), &name(b))
            );
        }
    }
    assert_eq!(patched.all_ports().len(), refreshed.all_ports().len());
}

#[test]
fn patch_reports_stale_cache() {
    let mut g = JackGraph::new();
    g.refresh(sample_ports(), &vec![]);
    // An endpoint the cache does not know forces a full refresh instead.
    assert!(!g.record_connect(&name("alpha:out1"), &name("missing:in")));
    assert!(!g.record_disconnect(&name("alpha:out1"), &name("beta:in1")));
    assert!(g.record_connect(&name("alpha:out1"), &name("beta:in1")));
    // Recording the same connection twice changes nothing.
    assert!(g.record_connect(&name("alpha:out1"), &name("beta:in1")));
    assert_eq!(g.all_connections().len(), 1);
    assert!(g.record_disconnect(&name("alpha:out1"), &name("beta:in1")));
    assert_eq!(g.all_connections().len(), 0);
}

#[test]
fn notifier_flag_round_trip() {
    let g = JackGraph::new();
    assert!(!g.needs_update());
    let handle = g.notifier();
    handle.set();
    assert!(g.needs_update());
    // The consumer clears the flag before listing the external graph;
    // the refresh itself leaves it alone, so a change signalled after the
    // clear (mid-listing) stays pending for the next cycle.
    let mut g = g;
    g.clear_pending();
    assert!(!g.needs_update());
    g.notifier().set();
    g.refresh(vec![], &vec![]);
    assert!(g.needs_update());
    g.clear_pending();
    assert!(!g.needs_update());
    // A set flag makes the bounded wait return immediately.
    g.notifier().set();
    g.wait_for_update(Some(1_000));
    assert!(g.needs_update());
}
