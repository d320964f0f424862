//! Selection paths into the client / port / connection tree.
//!
//! A key addresses either the tree root, a client, a port of a client, or a
//! connection of a port, as a tagged path of indices.

use vstd::prelude::*;

use crate::model::ports::PortData;

verus! {

/// The depth of a tree item.
#[derive(Debug, Copy, Clone, Eq, PartialEq, Hash, Structural, PartialOrd, Ord)]
pub enum ItemLayer {
    Root,
    Client,
    Port,
    Connection,
}

/// A position in the tree: nothing, a client index, a port index under a
/// client, or a connection index under a port.
#[derive(Debug, Copy, Clone, Eq, PartialEq, Hash, Structural)]
pub enum KeyPath {
    Root,
    Client(usize),
    Port(usize, usize),
    Connection(usize, usize, usize),
}

/// A selection cursor into the tree.
#[derive(Debug, Copy, Clone, Eq, PartialEq, Hash, Structural)]
pub struct ItemKey {
    pub path: KeyPath,
}

/// How index options normalize into a path: indices below a missing level
/// are ignored.
pub open spec fn spec_key_path(
    client_idx: Option<usize>,
    port_idx: Option<usize>,
    connection_idx: Option<usize>,
) -> KeyPath {
    match (client_idx, port_idx, connection_idx) {
        (Some(c), Some(p), Some(k)) => KeyPath::Connection(c, p, k),
        (Some(c), Some(p), None) => KeyPath::Port(c, p),
        (Some(c), None, _) => KeyPath::Client(c),
        (None, _, _) => KeyPath::Root,
    }
}

impl ItemKey {
    /// Builds a key from index options, ignoring indices below a missing
    /// level.
    pub fn new(
        client_idx: Option<usize>,
        port_idx: Option<usize>,
        connection_idx: Option<usize>,
    ) -> (r: ItemKey)
        ensures
            r.path == spec_key_path(client_idx, port_idx, connection_idx),
    {
        let path = match (client_idx, port_idx, connection_idx) {
            (Some(c), Some(p), Some(k)) => KeyPath::Connection(c, p, k),
            (Some(c), Some(p), None) => KeyPath::Port(c, p),
            (Some(c), None, _) => KeyPath::Client(c),
            (None, _, _) => KeyPath::Root,
        };
        ItemKey { path }
    }

    /// The key of the tree root.
    pub fn root() -> (r: ItemKey)
        ensures
            r.path == KeyPath::Root,
    {
        ItemKey { path: KeyPath::Root }
    }

    /// The key one level up, or `None` at the root.
    pub fn parent(&self) -> (r: Option<ItemKey>)
        ensures
            r == self.spec_parent(),
    {
        match self.path {
            KeyPath::Root => None,
            KeyPath::Client(_) => Some(ItemKey { path: KeyPath::Root }),
            KeyPath::Port(c, _) => Some(ItemKey { path: KeyPath::Client(c) }),
            KeyPath::Connection(c, p, _) => Some(ItemKey { path: KeyPath::Port(c, p) }),
        }
    }

    pub open spec fn spec_parent(self) -> Option<ItemKey> {
        match self.path {
            KeyPath::Root => None,
            KeyPath::Client(_) => Some(ItemKey { path: KeyPath::Root }),
            KeyPath::Port(c, _) => Some(ItemKey { path: KeyPath::Client(c) }),
            KeyPath::Connection(c, p, _) => Some(ItemKey { path: KeyPath::Port(c, p) }),
        }
    }

    /// The `child_idx`-th child one level down; a connection key has no
    /// children and stays itself.
    pub fn nth_child(&self, child_idx: usize) -> (r: ItemKey)
        ensures
            r == self.spec_nth_child(child_idx),
    {
        match self.path {
            KeyPath::Root => ItemKey { path: KeyPath::Client(child_idx) },
            KeyPath::Client(c) => ItemKey { path: KeyPath::Port(c, child_idx) },
            KeyPath::Port(c, p) => ItemKey { path: KeyPath::Connection(c, p, child_idx) },
            KeyPath::Connection(c, p, k) => ItemKey { path: KeyPath::Connection(c, p, k) },
        }
    }

    pub open spec fn spec_nth_child(self, child_idx: usize) -> ItemKey {
        match self.path {
            KeyPath::Root => ItemKey { path: KeyPath::Client(child_idx) },
            KeyPath::Client(c) => ItemKey { path: KeyPath::Port(c, child_idx) },
            KeyPath::Port(c, p) => ItemKey { path: KeyPath::Connection(c, p, child_idx) },
            KeyPath::Connection(c, p, k) => ItemKey { path: KeyPath::Connection(c, p, k) },
        }
    }

    /// The next key on the same level; `None` when the index would
    /// overflow. The root is its own sibling.
    pub fn next_sibling(&self) -> (r: Option<ItemKey>)
        ensures
            r == self.spec_next_sibling(),
    {
        match self.path {
            KeyPath::Root => Some(ItemKey { path: KeyPath::Root }),
            KeyPath::Client(c) => match c.checked_add(1) {
                Some(c2) => Some(ItemKey { path: KeyPath::Client(c2) }),
                None => None,
            },
            KeyPath::Port(c, p) => match p.checked_add(1) {
                Some(p2) => Some(ItemKey { path: KeyPath::Port(c, p2) }),
                None => None,
            },
            KeyPath::Connection(c, p, k) => match k.checked_add(1) {
                Some(k2) => Some(ItemKey { path: KeyPath::Connection(c, p, k2) }),
                None => None,
            },
        }
    }

    pub open spec fn spec_next_sibling(self) -> Option<ItemKey> {
        match self.path {
            KeyPath::Root => Some(ItemKey { path: KeyPath::Root }),
            KeyPath::Client(c) => if c == usize::MAX {
                None
            } else {
                Some(ItemKey { path: KeyPath::Client((c + 1) as usize) })
            },
            KeyPath::Port(c, p) => if p == usize::MAX {
                None
            } else {
                Some(ItemKey { path: KeyPath::Port(c, (p + 1) as usize) })
            },
            KeyPath::Connection(c, p, k) => if k == usize::MAX {
                None
            } else {
                Some(ItemKey { path: KeyPath::Connection(c, p, (k + 1) as usize) })
            },
        }
    }

    /// The previous key on the same level; `None` at a level's first
    /// entry. The root is its own sibling.
    pub fn prev_sibling(&self) -> (r: Option<ItemKey>)
        ensures
            r == self.spec_prev_sibling(),
    {
        match self.path {
            KeyPath::Root => Some(ItemKey { path: KeyPath::Root }),
            KeyPath::Client(c) => if c == 0 {
                None
            } else {
                Some(ItemKey { path: KeyPath::Client(c - 1) })
            },
            KeyPath::Port(c, p) => if p == 0 {
                None
            } else {
                Some(ItemKey { path: KeyPath::Port(c, p - 1) })
            },
            KeyPath::Connection(c, p, k) => if k == 0 {
                None
            } else {
                Some(ItemKey { path: KeyPath::Connection(c, p, k - 1) })
            },
        }
    }

    pub open spec fn spec_prev_sibling(self) -> Option<ItemKey> {
        match self.path {
            KeyPath::Root => Some(ItemKey { path: KeyPath::Root }),
            KeyPath::Client(c) => if c == 0 {
                None
            } else {
                Some(ItemKey { path: KeyPath::Client((c - 1) as usize) })
            },
            KeyPath::Port(c, p) => if p == 0 {
                None
            } else {
                Some(ItemKey { path: KeyPath::Port(c, (p - 1) as usize) })
            },
            KeyPath::Connection(c, p, k) => if k == 0 {
                None
            } else {
                Some(ItemKey { path: KeyPath::Connection(c, p, (k - 1) as usize) })
            },
        }
    }

    /// The key's depth.
    pub fn layer(&self) -> (r: ItemLayer)
        ensures
            r == self.spec_layer(),
    {
        match self.path {
            KeyPath::Root => ItemLayer::Root,
            KeyPath::Client(_) => ItemLayer::Client,
            KeyPath::Port(_, _) => ItemLayer::Port,
            KeyPath::Connection(_, _, _) => ItemLayer::Connection,
        }
    }

    pub open spec fn spec_layer(self) -> ItemLayer {
        match self.path {
            KeyPath::Root => ItemLayer::Root,
            KeyPath::Client(_) => ItemLayer::Client,
            KeyPath::Port(_, _) => ItemLayer::Port,
            KeyPath::Connection(_, _, _) => ItemLayer::Connection,
        }
    }

    /// The client index, on any key below the root.
    pub fn client_idx(&self) -> (r: Option<usize>)
        ensures
            r == self.spec_client_idx(),
    {
        match self.path {
            KeyPath::Root => None,
            KeyPath::Client(c) => Some(c),
            KeyPath::Port(c, _) => Some(c),
            KeyPath::Connection(c, _, _) => Some(c),
        }
    }

    pub open spec fn spec_client_idx(self) -> Option<usize> {
        match self.path {
            KeyPath::Root => None,
            KeyPath::Client(c) => Some(c),
            KeyPath::Port(c, _) => Some(c),
            KeyPath::Connection(c, _, _) => Some(c),
        }
    }

    /// The port index, on port and connection keys.
    pub fn port_idx(&self) -> (r: Option<usize>)
        ensures
            r == self.spec_port_idx(),
    {
        match self.path {
            KeyPath::Root => None,
            KeyPath::Client(_) => None,
            KeyPath::Port(_, p) => Some(p),
            KeyPath::Connection(_, p, _) => Some(p),
        }
    }

    pub open spec fn spec_port_idx(self) -> Option<usize> {
        match self.path {
            KeyPath::Root => None,
            KeyPath::Client(_) => None,
            KeyPath::Port(_, p) => Some(p),
            KeyPath::Connection(_, p, _) => Some(p),
        }
    }

    /// The connection index, on connection keys only.
    pub fn connection_idx(&self) -> (r: Option<usize>)
        ensures
            r == self.spec_connection_idx(),
    {
        match self.path {
            KeyPath::Root => None,
            KeyPath::Client(_) => None,
            KeyPath::Port(_, _) => None,
            KeyPath::Connection(_, _, k) => Some(k),
        }
    }

    pub open spec fn spec_connection_idx(self) -> Option<usize> {
        match self.path {
            KeyPath::Root => None,
            KeyPath::Client(_) => None,
            KeyPath::Port(_, _) => None,
            KeyPath::Connection(_, _, k) => Some(k),
        }
    }
}

/// The data a resolved tree item refers to.
pub enum ItemDataRef {
    Root,
    Client(String),
    Port(PortData),
    Connection(PortData, PortData),
}

impl ItemDataRef {
    /// The root item.
    pub fn root() -> (r: ItemDataRef)
        ensures
            r is Root,
    {
        ItemDataRef::Root
    }

    /// A client item.
    pub fn from_client(client: String) -> (r: ItemDataRef)
        ensures
            r == ItemDataRef::Client(client),
    {
        ItemDataRef::Client(client)
    }

    /// A port item.
    pub fn from_port(port: PortData) -> (r: ItemDataRef)
        ensures
            r == ItemDataRef::Port(port),
    {
        ItemDataRef::Port(port)
    }

    /// A connection item: a port together with one of its peers.
    pub fn from_connection(port: PortData, con: PortData) -> (r: ItemDataRef)
        ensures
            r == ItemDataRef::Connection(port, con),
    {
        ItemDataRef::Connection(port, con)
    }

    /// The client the item belongs to, when it has one.
    pub fn client(&self) -> (r: Option<&str>)
        requires
            self matches ItemDataRef::Port(p) ==> p.wf(),
            self matches ItemDataRef::Connection(p, _) ==> p.wf(),
        ensures
            match self {
                ItemDataRef::Root => r is None,
                ItemDataRef::Client(cl) => r matches Some(s) && s@ == cl@,
                ItemDataRef::Port(p) => r matches Some(s) && s@ == p.name.spec_client(),
                ItemDataRef::Connection(p, _) => r matches Some(s) && s@ == p.name.spec_client(),
            },
    {
        match self {
            ItemDataRef::Root => None,
            ItemDataRef::Client(cl) => Some(cl.as_str()),
            ItemDataRef::Port(prt) => Some(prt.name.client_name()),
            ItemDataRef::Connection(prt, _) => Some(prt.name.client_name()),
        }
    }

    /// The item's own port, on port and connection items.
    pub fn port(&self) -> (r: Option<&PortData>)
        ensures
            match self {
                ItemDataRef::Root => r is None,
                ItemDataRef::Client(_) => r is None,
                ItemDataRef::Port(p) => r == Some(p),
                ItemDataRef::Connection(p, _) => r == Some(p),
            },
    {
        match self {
            ItemDataRef::Root => None,
            ItemDataRef::Client(_) => None,
            ItemDataRef::Port(prt) => Some(prt),
            ItemDataRef::Connection(prt, _) => Some(prt),
        }
    }

    /// The peer port, on connection items only.
    pub fn connection(&self) -> (r: Option<&PortData>)
        ensures
            match self {
                ItemDataRef::Connection(_, con) => r == Some(con),
                _ => r is None,
            },
    {
        match self {
            ItemDataRef::Connection(_, con) => Some(con),
            _ => None,
        }
    }
}

} // verus!
