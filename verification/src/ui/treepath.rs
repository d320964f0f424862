//! Selection paths over the graph cache's client / port / connection tree,
//! and their resolution against a snapshot.

use vstd::prelude::*;

use crate::graph::JackGraph;
use crate::model::pathing::KeyPath;
use crate::model::ports::{client_of, PortData};

verus! {

/// A cursor into the tree shown for a graph snapshot.
#[derive(Debug, Copy, Clone, Eq, PartialEq, Hash, Structural)]
pub struct TreePath {
    pub path: KeyPath,
}

impl TreePath {
    /// Builds a path from index options, ignoring indices below a missing
    /// level.
    pub fn new(
        client_idx: Option<usize>,
        port_idx: Option<usize>,
        connection_idx: Option<usize>,
    ) -> (r: TreePath)
        ensures
            r.path == crate::model::pathing::spec_key_path(client_idx, port_idx, connection_idx),
    {
        let path = match (client_idx, port_idx, connection_idx) {
            (Some(c), Some(p), Some(k)) => KeyPath::Connection(c, p, k),
            (Some(c), Some(p), None) => KeyPath::Port(c, p),
            (Some(c), None, _) => KeyPath::Client(c),
            (None, _, _) => KeyPath::Root,
        };
        TreePath { path }
    }

    /// The path of the tree root.
    pub fn root() -> (r: TreePath)
        ensures
            r.path == KeyPath::Root,
    {
        TreePath { path: KeyPath::Root }
    }

    /// The `n`-th child one level down; a connection path has no children
    /// and stays itself.
    pub fn nth_child(&self, n: usize) -> (r: TreePath)
        ensures
            r == self.spec_nth_child(n),
    {
        match self.path {
            KeyPath::Root => TreePath { path: KeyPath::Client(n) },
            KeyPath::Client(c) => TreePath { path: KeyPath::Port(c, n) },
            KeyPath::Port(c, p) => TreePath { path: KeyPath::Connection(c, p, n) },
            KeyPath::Connection(c, p, k) => TreePath { path: KeyPath::Connection(c, p, k) },
        }
    }

    pub open spec fn spec_nth_child(self, n: usize) -> TreePath {
        match self.path {
            KeyPath::Root => TreePath { path: KeyPath::Client(n) },
            KeyPath::Client(c) => TreePath { path: KeyPath::Port(c, n) },
            KeyPath::Port(c, p) => TreePath { path: KeyPath::Connection(c, p, n) },
            KeyPath::Connection(c, p, k) => TreePath { path: KeyPath::Connection(c, p, k) },
        }
    }

    /// The client index, on any path below the root.
    pub fn client_idx(&self) -> (r: Option<usize>)
        ensures
            r == self.spec_client_idx(),
    {
        match self.path {
            KeyPath::Root => None,
            KeyPath::Client(c) => Some(c),
            KeyPath::Port(c, _) => Some(c),
            KeyPath::Connection(c, _, _) => Some(c),
        }
    }

    pub open spec fn spec_client_idx(self) -> Option<usize> {
        match self.path {
            KeyPath::Root => None,
            KeyPath::Client(c) => Some(c),
            KeyPath::Port(c, _) => Some(c),
            KeyPath::Connection(c, _, _) => Some(c),
        }
    }

    /// The port index, on port and connection paths.
    pub fn port_idx(&self) -> (r: Option<usize>)
        ensures
            r == self.spec_port_idx(),
    {
        match self.path {
            KeyPath::Root => None,
            KeyPath::Client(_) => None,
            KeyPath::Port(_, p) => Some(p),
            KeyPath::Connection(_, p, _) => Some(p),
        }
    }

    pub open spec fn spec_port_idx(self) -> Option<usize> {
        match self.path {
            KeyPath::Root => None,
            KeyPath::Client(_) => None,
            KeyPath::Port(_, p) => Some(p),
            KeyPath::Connection(_, p, _) => Some(p),
        }
    }

    /// The connection index, on connection paths only.
    pub fn connection_idx(&self) -> (r: Option<usize>)
        ensures
            r == self.spec_connection_idx(),
    {
        match self.path {
            KeyPath::Root => None,
            KeyPath::Client(_) => None,
            KeyPath::Port(_, _) => None,
            KeyPath::Connection(_, _, k) => Some(k),
        }
    }

    pub open spec fn spec_connection_idx(self) -> Option<usize> {
        match self.path {
            KeyPath::Root => None,
            KeyPath::Client(_) => None,
            KeyPath::Port(_, _) => None,
            KeyPath::Connection(_, _, k) => Some(k),
        }
    }

    /// The next path on the deepest occupied level; `None` at the root or
    /// on index overflow.
    pub fn next_sibling(&self) -> (r: Option<TreePath>)
        ensures
            r == self.spec_next_sibling(),
    {
        match self.path {
            KeyPath::Root => None,
            KeyPath::Client(c) => match c.checked_add(1) {
                Some(c2) => Some(TreePath { path: KeyPath::Client(c2) }),
                None => None,
            },
            KeyPath::Port(c, p) => match p.checked_add(1) {
                Some(p2) => Some(TreePath { path: KeyPath::Port(c, p2) }),
                None => None,
            },
            KeyPath::Connection(c, p, k) => match k.checked_add(1) {
                Some(k2) => Some(TreePath { path: KeyPath::Connection(c, p, k2) }),
                None => None,
            },
        }
    }

    pub open spec fn spec_next_sibling(self) -> Option<TreePath> {
        match self.path {
            KeyPath::Root => None,
            KeyPath::Client(c) => if c == usize::MAX {
                None
            } else {
                Some(TreePath { path: KeyPath::Client((c + 1) as usize) })
            },
            KeyPath::Port(c, p) => if p == usize::MAX {
                None
            } else {
                Some(TreePath { path: KeyPath::Port(c, (p + 1) as usize) })
            },
            KeyPath::Connection(c, p, k) => if k == usize::MAX {
                None
            } else {
                Some(TreePath { path: KeyPath::Connection(c, p, (k + 1) as usize) })
            },
        }
    }

    /// The previous path: the deepest index above zero is decremented, the
    /// levels below it keeping their first entry; `None` when every
    /// occupied index is zero.
    pub fn prev_sibling(&self) -> (r: Option<TreePath>)
        ensures
            r == self.spec_prev_sibling(),
    {
        match self.path {
            KeyPath::Root => None,
            KeyPath::Client(c) => if c > 0 {
                Some(TreePath { path: KeyPath::Client(c - 1) })
            } else {
                None
            },
            KeyPath::Port(c, p) => if p > 0 {
                Some(TreePath { path: KeyPath::Port(c, p - 1) })
            } else if c > 0 {
                Some(TreePath { path: KeyPath::Port(c - 1, 0) })
            } else {
                None
            },
            KeyPath::Connection(c, p, k) => if k > 0 {
                Some(TreePath { path: KeyPath::Connection(c, p, k - 1) })
            } else if p > 0 {
                Some(TreePath { path: KeyPath::Connection(c, p - 1, 0) })
            } else if c > 0 {
                Some(TreePath { path: KeyPath::Connection(c - 1, 0, 0) })
            } else {
                None
            },
        }
    }

    pub open spec fn spec_prev_sibling(self) -> Option<TreePath> {
        match self.path {
            KeyPath::Root => None,
            KeyPath::Client(c) => if c > 0 {
                Some(TreePath { path: KeyPath::Client((c - 1) as usize) })
            } else {
                None
            },
            KeyPath::Port(c, p) => if p > 0 {
                Some(TreePath { path: KeyPath::Port(c, (p - 1) as usize) })
            } else if c > 0 {
                Some(TreePath { path: KeyPath::Port((c - 1) as usize, 0) })
            } else {
                None
            },
            KeyPath::Connection(c, p, k) => if k > 0 {
                Some(TreePath { path: KeyPath::Connection(c, p, (k - 1) as usize) })
            } else if p > 0 {
                Some(TreePath { path: KeyPath::Connection(c, (p - 1) as usize, 0) })
            } else if c > 0 {
                Some(TreePath { path: KeyPath::Connection((c - 1) as usize, 0, 0) })
            } else {
                None
            },
        }
    }

    /// The path one level up, or `None` at the root.
    pub fn parent(&self) -> (r: Option<TreePath>)
        ensures
            r == self.spec_parent(),
    {
        match self.path {
            KeyPath::Root => None,
            KeyPath::Client(_) => Some(TreePath { path: KeyPath::Root }),
            KeyPath::Port(c, _) => Some(TreePath { path: KeyPath::Client(c) }),
            KeyPath::Connection(c, p, _) => Some(TreePath { path: KeyPath::Port(c, p) }),
        }
    }

    pub open spec fn spec_parent(self) -> Option<TreePath> {
        match self.path {
            KeyPath::Root => None,
            KeyPath::Client(_) => Some(TreePath { path: KeyPath::Root }),
            KeyPath::Port(c, _) => Some(TreePath { path: KeyPath::Client(c) }),
            KeyPath::Connection(c, p, _) => Some(TreePath { path: KeyPath::Port(c, p) }),
        }
    }
}

/// A path together with the snapshot entities its indices named when it was
/// resolved.
pub struct ResolvedTreepath {
    path: TreePath,
    client: Option<String>,
    port: Option<PortData>,
    connection: Option<PortData>,
}

impl ResolvedTreepath {
    pub closed spec fn spec_path(self) -> TreePath {
        self.path
    }

    pub closed spec fn spec_client(self) -> Option<String> {
        self.client
    }

    pub closed spec fn spec_port(self) -> Option<PortData> {
        self.port
    }

    pub closed spec fn spec_connection(self) -> Option<PortData> {
        self.connection
    }

    /// The resolution of the root path: no entities.
    pub fn root() -> (r: ResolvedTreepath)
        ensures
            r.spec_path().path == KeyPath::Root,
            r.spec_client() is None,
            r.spec_port() is None,
            r.spec_connection() is None,
    {
        ResolvedTreepath { path: TreePath::root(), client: None, port: None, connection: None }
    }

    /// The path this resolution answered.
    pub fn path(&self) -> (r: TreePath)
        ensures
            r == self.spec_path(),
    {
        self.path
    }

    /// The resolved client name, when the path named one.
    pub fn client(&self) -> (r: Option<&str>)
        ensures
            match r {
                Some(s) => self.spec_client() matches Some(c) && c@ == s@,
                None => self.spec_client() is None,
            },
    {
        match &self.client {
            Some(c) => Some(c.as_str()),
            None => None,
        }
    }

    /// The resolved port, when the path named one.
    pub fn port(&self) -> (r: Option<&PortData>)
        ensures
            match r {
                Some(p) => self.spec_port() == Some(*p),
                None => self.spec_port() is None,
            },
    {
        match &self.port {
            Some(p) => Some(p),
            None => None,
        }
    }

    /// The resolved peer port, when the path named a connection.
    pub fn connection(&self) -> (r: Option<&PortData>)
        ensures
            match r {
                Some(p) => self.spec_connection() == Some(*p),
                None => self.spec_connection() is None,
            },
    {
        match &self.connection {
            Some(p) => Some(p),
            None => None,
        }
    }

    /// Resolves every level of `path` against the snapshot, or `None` when
    /// some index is out of range. A resolved client is a client of some
    /// cached port; a resolved port belongs to that client; a resolved
    /// connection is a cached peer of that port.
    pub fn resolve(graph: &JackGraph, path: TreePath) -> (r: Option<ResolvedTreepath>)
        requires
            graph.wf(),
        ensures
            r matches Some(res) ==> {
                &&& res.spec_path() == path
                &&& (res.spec_client() matches Some(c) ==> crate::graph::client_in_prefix(
                    graph.ports_seq(),
                    graph.ports_seq().len() as int,
                    c@,
                ))
                &&& (res.spec_port() matches Some(p) ==> graph.has_port(p.name@)
                    && (res.spec_client() matches Some(c) && client_of(p.name@) == c@))
                &&& (res.spec_connection() matches Some(q) ==> graph.has_port(q.name@)
                    && (res.spec_port() matches Some(p) && graph.has_link(p.name@, q.name@)))
                &&& (res.spec_client() is None ==> path.spec_client_idx() is None)
                &&& (res.spec_port() is None ==> path.spec_port_idx() is None)
                &&& (res.spec_connection() is None ==> path.spec_connection_idx() is None)
            },
    {
        let mut retvl = ResolvedTreepath::root();
        retvl.path = path;
        let client_idx = match path.client_idx() {
            Some(n) => n,
            None => {
                return Some(retvl);
            },
        };
        let clients = graph.all_clients();
        if client_idx >= clients.len() {
            return None;
        }
        let client = &clients[client_idx];
        let ports = graph.client_ports(client.as_str());
        retvl.client = Some(client.clone());
        let port_idx = match path.port_idx() {
            Some(n) => n,
            None => {
                return Some(retvl);
            },
        };
        if port_idx >= ports.len() {
            return None;
        }
        let port = &ports[port_idx];
        proof {
            assert(crate::graph::seq_has_port_data(graph.ports_seq(), ports@[port_idx as int]));
            let j = choose|j: int|
                0 <= j < graph.ports_seq().len() && graph.ports_seq()[j] == ports@[port_idx as int];
            assert(graph.ports_seq()[j].name@ == ports@[port_idx as int].name@);
            assert(graph.has_port(ports@[port_idx as int].name@));
        }
        retvl.port = Some(port.clone());
        let connection_idx = match path.connection_idx() {
            Some(n) => n,
            None => {
                return Some(retvl);
            },
        };
        let peers = graph.port_connections(&port.name);
        if connection_idx >= peers.len() {
            return None;
        }
        let peer = &peers[connection_idx];
        proof {
            let j = choose|j: int|
                0 <= j < graph.ports_seq().len() && graph.ports_seq()[j] == peers@[connection_idx as int];
            assert(graph.has_port(peers@[connection_idx as int].name@));
        }
        retvl.connection = Some(peer.clone());
        Some(retvl)
    }

    /// Resolves `path` as deep as the snapshot allows, stopping at the
    /// first out-of-range index.
    pub fn resolve_partial(graph: &JackGraph, path: TreePath) -> (r: ResolvedTreepath)
        requires
            graph.wf(),
        ensures
            (r.spec_client() matches Some(c) ==> crate::graph::client_in_prefix(
                graph.ports_seq(),
                graph.ports_seq().len() as int,
                c@,
            )),
            (r.spec_port() matches Some(p) ==> graph.has_port(p.name@) && (r.spec_client()
                matches Some(c) && client_of(p.name@) == c@)),
            (r.spec_connection() matches Some(q) ==> graph.has_port(q.name@) && (r.spec_port()
                matches Some(p) && graph.has_link(p.name@, q.name@))),
    {
        let mut retvl = ResolvedTreepath::root();
        let client_idx = match path.client_idx() {
            Some(n) => n,
            None => {
                return retvl;
            },
        };
        let clients = graph.all_clients();
        if client_idx >= clients.len() {
            return retvl;
        }
        let client = &clients[client_idx];
        let ports = graph.client_ports(client.as_str());
        retvl.path = retvl.path.nth_child(client_idx);
        retvl.client = Some(client.clone());
        let port_idx = match path.port_idx() {
            Some(n) => n,
            None => {
                return retvl;
            },
        };
        if port_idx >= ports.len() {
            return retvl;
        }
        let port = &ports[port_idx];
        proof {
            assert(crate::graph::seq_has_port_data(graph.ports_seq(), ports@[port_idx as int]));
            let j = choose|j: int|
                0 <= j < graph.ports_seq().len() && graph.ports_seq()[j] == ports@[port_idx as int];
            assert(graph.ports_seq()[j].name@ == ports@[port_idx as int].name@);
            assert(graph.has_port(ports@[port_idx as int].name@));
        }
        retvl.path = retvl.path.nth_child(port_idx);
        retvl.port = Some(port.clone());
        let connection_idx = match path.connection_idx() {
            Some(n) => n,
            None => {
                return retvl;
            },
        };
        let peers = graph.port_connections(&port.name);
        if connection_idx >= peers.len() {
            return retvl;
        }
        let peer = &peers[connection_idx];
        proof {
            let j = choose|j: int|
                0 <= j < graph.ports_seq().len() && graph.ports_seq()[j] == peers@[connection_idx as int];
            assert(graph.has_port(peers@[connection_idx as int].name@));
        }
        retvl.path = retvl.path.nth_child(connection_idx);
        retvl.connection = Some(peer.clone());
        retvl
    }
}

} // verus!
