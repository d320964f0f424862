use trej::graph::JackGraph;
use trej::model::ports::{PortCategory, PortData, PortDirection, PortFullname};
use trej::ui::treepath::{ResolvedTreepath, TreePath};

fn name(raw: &str) -> PortFullname {
    PortFullname::new(raw.to_owned()).unwrap()
}

fn port(raw: &str, direction: PortDirection) -> PortData {
    PortData {
        name: name(raw),
        category: PortCategory::Audio,
        direction,
    }
}

fn sample_graph() -> JackGraph {
    let mut g = JackGraph::new();
    g.refresh(
        vec![
            port("alpha:out1", PortDirection::Out),
            port("alpha:out2", PortDirection::Out),
            port("beta:in1", PortDirection::In),
        ],
        &vec![(name("alpha:out2"), name("beta:in1"))],
    );
    g
}

#[test]
fn path_navigation() {
    let p = TreePath::new(Some(1), Some(2), Some(0));
    assert_eq!(p.client_idx(), Some(1));
    assert_eq!(p.port_idx(), Some(2));
    assert_eq!(p.connection_idx(), Some(0));
    assert_eq!(p.parent(), Some(TreePath::new(Some(1), Some(2), None)));
    assert_eq!(
        p.next_sibling(),
        Some(TreePath::new(Some(1), Some(2), Some(1)))
    );
    // The first connection's previous sibling falls back to the previous
    // port's first connection.
    assert_eq!(
        p.prev_sibling(),
        Some(TreePath::new(Some(1), Some(1), Some(0)))
    );
    assert_eq!(TreePath::root().parent(), None);
    assert_eq!(TreePath::root().next_sibling(), None);
    assert_eq!(TreePath::root().nth_child(3), TreePath::new(Some(3), None, None));
    // Indices below a missing level are ignored.
    assert_eq!(
        TreePath::new(None, Some(5), Some(2)),
        TreePath::root()
    );
}

#[test]
fn resolve_walks_the_tree() {
    let g = sample_graph();
    let res = ResolvedTreepath::resolve(&g, TreePath::new(Some(0), Some(1), None)).unwrap();
    assert_eq!(res.client(), Some("alpha"));
    assert_eq!(res.port().unwrap().name.as_str(), "alpha:out2");
    assert!(res.connection().is_none());

    let res = ResolvedTreepath::resolve(&g, TreePath::new(Some(0), Some(1), Some(0))).unwrap();
    assert_eq!(res.connection().unwrap().name.as_str(), "beta:in1");

    // An out-of-range index fails the exact resolution.
    assert!(ResolvedTreepath::resolve(&g, TreePath::new(Some(5), None, None)).is_none());
    assert!(ResolvedTreepath::resolve(&g, TreePath::new(Some(0), Some(9), None)).is_none());
}

#[test]
fn resolve_partial_stops_at_depth() {
    let g = sample_graph();
    let res = ResolvedTreepath::resolve_partial(&g, TreePath::new(Some(1), Some(7), Some(0)));
    assert_eq!(res.client(), Some("beta"));
    assert!(res.port().is_none());
    assert_eq!(res.path(), TreePath::new(Some(1), None, None));
}
