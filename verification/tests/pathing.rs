use trej::model::pathing::{ItemKey, ItemLayer};

#[test]
fn test_key_layering() {
    let root = ItemKey::root();
    assert_eq!(root.layer(), ItemLayer::Root);
    assert_eq!(root.client_idx(), None);
    assert_eq!(root.port_idx(), None);
    assert_eq!(root.connection_idx(), None);

    let cli = ItemKey::new(Some(0), None, None);
    assert_eq!(cli.layer(), ItemLayer::Client);
    assert_eq!(cli.client_idx(), Some(0));
    assert_eq!(cli.port_idx(), None);
    assert_eq!(cli.connection_idx(), None);

    let prt = ItemKey::new(Some(3), Some(0), None);
    assert_eq!(prt.layer(), ItemLayer::Port);
    assert_eq!(prt.client_idx(), Some(3));
    assert_eq!(prt.port_idx(), Some(0));
    assert_eq!(prt.connection_idx(), None);

    let con = ItemKey::new(Some(6), Some(3), Some(0));
    assert_eq!(con.layer(), ItemLayer::Connection);
    assert_eq!(con.client_idx(), Some(6));
    assert_eq!(con.port_idx(), Some(3));
    assert_eq!(con.connection_idx(), Some(0));
}

#[test]
fn test_key_child() {
    let cur = ItemKey::root();
    let cli = cur.nth_child(0);
    assert_eq!(cli, ItemKey::new(Some(0), None, None));

    let prt = cli.nth_child(0);
    assert_eq!(prt, ItemKey::new(Some(0), Some(0), None));

    let con = prt.nth_child(0);
    assert_eq!(con, ItemKey::new(Some(0), Some(0), Some(0)));
    assert_eq!(con, con.nth_child(0));
}

#[test]
fn key_navigation() {
    let con = ItemKey::new(Some(2), Some(1), Some(3));
    assert_eq!(con.parent(), Some(ItemKey::new(Some(2), Some(1), None)));
    assert_eq!(
        con.next_sibling(),
        Some(ItemKey::new(Some(2), Some(1), Some(4)))
    );
    assert_eq!(
        con.prev_sibling(),
        Some(ItemKey::new(Some(2), Some(1), Some(2)))
    );
    let first = ItemKey::new(Some(2), Some(1), Some(0));
    assert_eq!(first.prev_sibling(), None);
    assert_eq!(ItemKey::root().parent(), None);
    assert_eq!(ItemKey::root().next_sibling(), Some(ItemKey::root()));
}
