//! The graph cache: a locally queryable snapshot of the external port graph,
//! rebuilt wholesale on refresh, patched in place after local connect and
//! disconnect calls, and invalidated asynchronously through a [`Notifier`].

use std::sync::atomic::AtomicBool;
use std::sync::atomic::Ordering;
use std::sync::{Arc, Condvar, Mutex, TryLockError};
use std::time::Duration;

use vstd::prelude::*;

use crate::model::ports::{client_of, str_eq, PortData, PortFullname};

verus! {

/// A thread-safe change flag bridging the external system's notification
/// callback thread to the single consumer thread that owns the graph cache.
///
/// The flag is set only by the callback thread and cleared only by the
/// consumer, through [`JackGraph::clear_pending`], before it lists the
/// external graph for a refresh. `set` stores with release ordering and
/// `reset` with sequentially consistent ordering, so a change signalled
/// after the clear leaves the flag set for the next cycle; `check` may
/// load relaxed since it only schedules a refresh.
#[verifier::external_body]
pub struct Notifier {
    rf: Arc<AtomicBool>,
    cvar: Arc<(Mutex<()>, Condvar)>,
}

impl Notifier {
    /// Relies on `Arc`, `Mutex`, `Condvar` and `AtomicBool` construction:
    /// creates a fresh, unset flag with its wait queue.
    #[verifier::external_body]
    pub fn new() -> Notifier {
        Notifier {
            rf: Arc::new(AtomicBool::new(false)),
            cvar: Arc::new((Mutex::new(()), Condvar::new())),
        }
    }

    /// Relies on `AtomicBool::store` (release) and `Condvar::notify_all`:
    /// marks the backing graph as changed and wakes any waiting consumer.
    /// Called from the external notification callback thread.
    #[verifier::external_body]
    pub fn set(&self) {
        self.rf.store(true, Ordering::Release);
        self.cvar.1.notify_all();
    }

    /// Relies on `AtomicBool::store` (sequentially consistent): clears the
    /// flag. The consumer calls this before it lists the external graph, so
    /// that a change arriving mid-listing sets the flag again and is picked
    /// up by the next cycle rather than silently dropped.
    #[verifier::external_body]
    pub fn reset(&self) {
        self.rf.store(false, Ordering::SeqCst);
    }

    /// Relies on `AtomicBool::load` (relaxed): whether unprocessed changes
    /// are pending. The value can be raced by other threads, so nothing is
    /// promised of it.
    #[verifier::external_body]
    pub fn check(&self) -> bool {
        self.rf.load(Ordering::Relaxed)
    }

    /// Relies on `Arc::clone`: a second watcher for the same backing flag;
    /// `set`, `reset` and `check` are reflected between the two.
    #[verifier::external_body]
    pub fn handle(&self) -> Notifier {
        Notifier { rf: Arc::clone(&self.rf), cvar: Arc::clone(&self.cvar) }
    }

    /// Relies on `Mutex::try_lock` and `Condvar::wait_timeout_while` /
    /// `Condvar::wait_while`: blocks the calling thread until the flag is
    /// set or the optional timeout (in milliseconds) elapses.
    #[verifier::external_body]
    pub fn wait_timeout(&self, timeout_ms: Option<u64>) {
        if self.rf.load(Ordering::Relaxed) {
            return ;
        }
        let (mtx, cvar) = &*self.cvar;
        let lk = match mtx.try_lock() {
            Ok(lk) => lk,
            Err(TryLockError::Poisoned(e)) => e.into_inner(),
            Err(TryLockError::WouldBlock) => return ,
        };
        let pending = |_g: &mut ()| !self.rf.load(Ordering::Relaxed);
        match timeout_ms {
            Some(ms) => drop(cvar.wait_timeout_while(lk, Duration::from_millis(ms), pending)),
            None => drop(cvar.wait_while(lk, pending)),
        }
    }
}

/// A strict order on connection index pairs: by first index, then second.
pub open spec fn ipair_lt(x: (usize, usize), y: (usize, usize)) -> bool {
    x.0 < y.0 || (x.0 == y.0 && x.1 < y.1)
}

/// Whether the pair list holds `p`.
pub open spec fn pair_in_seq(s: Seq<(usize, usize)>, p: (usize, usize)) -> bool {
    exists|k: int| 0 <= k < s.len() && s[k] == p
}

/// Whether `s` holds a port named `x`.
pub open spec fn port_name_listed(s: Seq<PortData>, x: Seq<char>) -> bool {
    exists|m: int| 0 <= m < s.len() && s[m].name@ == x
}

/// Whether one of the first `i` ports of `s` belongs to client `c`.
pub open spec fn client_in_prefix(s: Seq<PortData>, i: int, c: Seq<char>) -> bool {
    exists|i2: int| 0 <= i2 < i && client_of(s[i2].name@) == c
}

/// Whether the string list holds `x`.
pub open spec fn str_listed(s: Seq<String>, x: Seq<char>) -> bool {
    exists|m: int| 0 <= m < s.len() && s[m]@ == x
}

/// Whether `s` holds the exact port record `p`.
pub open spec fn seq_has_port_data(s: Seq<PortData>, p: PortData) -> bool {
    exists|j: int| 0 <= j < s.len() && s[j] == p
}

/// Ports of one client stand adjacent: between two ports of a client there
/// is no port of another client.
pub open spec fn grouped_by_client(s: Seq<PortData>) -> bool {
    forall|i: int, j: int, k: int|
        0 <= i < j < k < s.len() && client_of(s[i].name@) == client_of(s[k].name@) ==> client_of(
            s[j].name@,
        ) == client_of(s[k].name@)
}

/// In a client-grouped port list, once some occurrence of one client
/// precedes some occurrence of a different client, every occurrence of the
/// first precedes every occurrence of the second.
proof fn lemma_grouped_client_order(s: Seq<PortData>, j1: int, j2: int, i1: int, i2: int)
    requires
        grouped_by_client(s),
        0 <= j1 < j2 < s.len(),
        0 <= i1 < s.len(),
        0 <= i2 < s.len(),
        client_of(s[j1].name@) == client_of(s[i1].name@),
        client_of(s[j2].name@) == client_of(s[i2].name@),
        client_of(s[j1].name@) != client_of(s[j2].name@),
    ensures
        i1 < i2,
{
    if i2 <= i1 {
        if i1 == i2 {
            assert(false);
        } else if j2 < i1 {
            assert(client_of(s[j2].name@) == client_of(s[i1].name@));
            assert(false);
        } else if i1 == j2 {
            assert(false);
        } else {
            assert(i2 < i1 < j2);
            assert(client_of(s[i1].name@) == client_of(s[j2].name@));
            assert(false);
        }
    }
}

/// Some occurrence of client `a` precedes some occurrence of client `b`
/// among the first `l` ports of `s`.
spec fn clients_ordered_in_prefix(
    s: Seq<PortData>,
    l: int,
    a: Seq<char>,
    b: Seq<char>,
) -> bool {
    exists|j1: int, j2: int|
        0 <= j1 < j2 < l && client_of(s[j1].name@) == a && client_of(s[j2].name@) == b
}

/// Extending a client list whose pairs have ordered witness occurrences in
/// the first `i` ports, by at most one name whose client is that of the
/// `i`-th port, keeps the witnesses ordered within the first `i + 1` ports.
proof fn lemma_client_pairs_extend(
    ports: Seq<PortData>,
    r0: Seq<String>,
    r: Seq<String>,
    i: int,
    c: Seq<char>,
)
    requires
        0 <= i < ports.len(),
        c == client_of(ports[i].name@),
        r.len() == r0.len() || (r.len() == r0.len() + 1 && r[r0.len() as int]@ == c),
        forall|m: int| 0 <= m < r0.len() ==> r[m] == r0[m],
        forall|m: int| 0 <= m < r0.len() ==> client_in_prefix(ports, i, (#[trigger] r0[m])@),
        forall|m1: int, m2: int|
            0 <= m1 < m2 < r0.len() ==> clients_ordered_in_prefix(
                ports,
                i,
                (#[trigger] r0[m1])@,
                (#[trigger] r0[m2])@,
            ),
    ensures
        forall|m1: int, m2: int|
            0 <= m1 < m2 < r.len() ==> clients_ordered_in_prefix(
                ports,
                i + 1,
                (#[trigger] r[m1])@,
                (#[trigger] r[m2])@,
            ),
{
    assert forall|m1: int, m2: int|
        0 <= m1 < m2 < r.len() implies clients_ordered_in_prefix(
        ports,
        i + 1,
        (#[trigger] r[m1])@,
        (#[trigger] r[m2])@,
    ) by {
        if m2 < r0.len() {
            assert(clients_ordered_in_prefix(ports, i, (r0[m1])@, (r0[m2])@));
            let (j1, j2) = choose|j1: int, j2: int|
                0 <= j1 < j2 < i && client_of(ports[j1].name@) == (r0[m1])@ && client_of(
                    ports[j2].name@,
                ) == (r0[m2])@;
            assert(0 <= j1 < j2 < i + 1 && client_of(ports[j1].name@) == (r[m1])@ && client_of(
                ports[j2].name@,
            ) == (r[m2])@);
        } else {
            assert(m2 == r0.len());
            assert(r[m2]@ == c);
            assert(client_in_prefix(ports, i, (r0[m1])@));
            let j1 = choose|j1: int| 0 <= j1 < i && client_of(ports[j1].name@) == (r0[m1])@;
            assert(0 <= j1 < i && i < i + 1 && client_of(ports[j1].name@) == (r[m1])@
                && client_of(ports[i].name@) == (r[m2])@);
        }
    }
}

/// In a client-grouped port list, a duplicate-free client list whose pairs
/// have ordered witness occurrences lists every port of an earlier client
/// before every port of a later one.
proof fn lemma_client_pairs_order(ports: Seq<PortData>, r: Seq<String>)
    requires
        grouped_by_client(ports),
        forall|m1: int, m2: int| 0 <= m1 < m2 < r.len() ==> r[m1]@ != r[m2]@,
        forall|m1: int, m2: int|
            0 <= m1 < m2 < r.len() ==> clients_ordered_in_prefix(
                ports,
                ports.len() as int,
                (#[trigger] r[m1])@,
                (#[trigger] r[m2])@,
            ),
    ensures
        forall|m1: int, m2: int, i1: int, i2: int|
            0 <= m1 < m2 < r.len() && 0 <= i1 < ports.len() && 0 <= i2 < ports.len() && client_of(
                (#[trigger] ports[i1]).name@,
            ) == (#[trigger] r[m1])@ && client_of((#[trigger] ports[i2]).name@) == (
            #[trigger] r[m2])@ ==> i1 < i2,
{
    assert forall|m1: int, m2: int, i1: int, i2: int|
        0 <= m1 < m2 < r.len() && 0 <= i1 < ports.len() && 0 <= i2 < ports.len() && client_of(
            (#[trigger] ports[i1]).name@,
        ) == (#[trigger] r[m1])@ && client_of((#[trigger] ports[i2]).name@) == (
        #[trigger] r[m2])@ implies i1 < i2 by {
        assert(clients_ordered_in_prefix(ports, ports.len() as int, (r[m1])@, (r[m2])@));
        let (j1, j2) = choose|j1: int, j2: int|
            0 <= j1 < j2 < ports.len() && client_of(ports[j1].name@) == (r[m1])@ && client_of(
                ports[j2].name@,
            ) == (r[m2])@;
        assert(r[m1]@ != r[m2]@);
        lemma_grouped_client_order(ports, j1, j2, i1, i2);
    }
}

/// Client `a` appears in `s` before client `b` does: every port of `b` is
/// preceded by some port of `a`.
#[verifier::opaque]
pub open spec fn client_precedes(s: Seq<PortData>, a: Seq<char>, b: Seq<char>) -> bool {
    forall|j2: int|
        0 <= j2 < s.len() && client_of((#[trigger] s[j2]).name@) == b ==> exists|j1: int|
            0 <= j1 < j2 && client_of(s[j1].name@) == a
}

/// Extending a grouped list whose clients appear in first-appearance order
/// of the listing, by ports of a client first listed at position `i`, keeps
/// the clients in first-appearance order.
proof fn lemma_client_precedes_extend(
    ports: Seq<PortData>,
    base: Seq<PortData>,
    r: Seq<PortData>,
    i: int,
    c: Seq<char>,
)
    requires
        0 <= i < ports.len(),
        c == client_of(ports[i].name@),
        !client_in_prefix(ports, i, c),
        r.len() >= base.len(),
        forall|m: int| 0 <= m < base.len() ==> r[m] == base[m],
        forall|m: int| base.len() <= m < r.len() ==> client_of((#[trigger] r[m]).name@) == c,
        forall|m: int|
            0 <= m < base.len() ==> client_in_prefix(
                ports,
                i,
                client_of((#[trigger] base[m]).name@),
            ),
        forall|m1: int, m2: int|
            0 <= m1 < m2 < base.len() && client_of((#[trigger] base[m1]).name@) != client_of(
                (#[trigger] base[m2]).name@,
            ) ==> client_precedes(ports, client_of(base[m1].name@), client_of(base[m2].name@)),
    ensures
        forall|m1: int, m2: int|
            0 <= m1 < m2 < r.len() && client_of((#[trigger] r[m1]).name@) != client_of(
                (#[trigger] r[m2]).name@,
            ) ==> client_precedes(ports, client_of(r[m1].name@), client_of(r[m2].name@)),
{
    reveal(client_precedes);
    assert forall|m1: int, m2: int|
        0 <= m1 < m2 < r.len() && client_of((#[trigger] r[m1]).name@) != client_of(
            (#[trigger] r[m2]).name@,
        ) implies client_precedes(ports, client_of(r[m1].name@), client_of(r[m2].name@)) by {
        if m2 < base.len() {
            assert(client_precedes(ports, client_of(base[m1].name@), client_of(base[m2].name@)));
        } else if m1 < base.len() {
            let a = client_of(r[m1].name@);
            assert(client_in_prefix(ports, i, a));
            assert forall|j2: int|
                0 <= j2 < ports.len() && client_of((#[trigger] ports[j2]).name@) == c
                implies exists|j1: int| 0 <= j1 < j2 && client_of(ports[j1].name@) == a by {
                assert(j2 >= i) by {
                    if j2 < i {
                        assert(client_in_prefix(ports, i, c));
                    }
                }
                let j1 = choose|j1: int| 0 <= j1 < i && client_of(ports[j1].name@) == a;
                assert(0 <= j1 < j2 && client_of(ports[j1].name@) == a);
            }
            assert(client_precedes(ports, a, c));
        } else {
            assert(false);
        }
    }
}

/// The name `a` appears in `s` before the name `b` does: every port
/// bearing `b` is preceded by some port bearing `a`.
#[verifier::opaque]
pub open spec fn name_precedes(s: Seq<PortData>, a: Seq<char>, b: Seq<char>) -> bool {
    forall|j2: int|
        0 <= j2 < s.len() && (#[trigger] s[j2]).name@ == b ==> exists|j1: int|
            0 <= j1 < j2 && s[j1].name@ == a
}

/// Extending a grouped list whose same-client names are in listing order,
/// by ports of a client `c` no earlier element belongs to, keeps the
/// same-client names in listing order.
proof fn lemma_name_precedes_extend(
    ports: Seq<PortData>,
    base: Seq<PortData>,
    r: Seq<PortData>,
    c: Seq<char>,
)
    requires
        r.len() >= base.len(),
        forall|m: int| 0 <= m < base.len() ==> r[m] == base[m],
        forall|m: int| base.len() <= m < r.len() ==> client_of((#[trigger] r[m]).name@) == c,
        forall|m: int| 0 <= m < base.len() ==> client_of((#[trigger] base[m]).name@) != c,
        forall|m1: int, m2: int|
            0 <= m1 < m2 < base.len() && client_of((#[trigger] base[m1]).name@) == client_of(
                (#[trigger] base[m2]).name@,
            ) ==> name_precedes(ports, base[m1].name@, base[m2].name@),
        forall|m1: int, m2: int|
            base.len() <= m1 < m2 < r.len() ==> name_precedes(
                ports,
                (#[trigger] r[m1]).name@,
                (#[trigger] r[m2]).name@,
            ),
    ensures
        forall|m1: int, m2: int|
            0 <= m1 < m2 < r.len() && client_of((#[trigger] r[m1]).name@) == client_of(
                (#[trigger] r[m2]).name@,
            ) ==> name_precedes(ports, r[m1].name@, r[m2].name@),
{
    assert forall|m1: int, m2: int|
        0 <= m1 < m2 < r.len() && client_of((#[trigger] r[m1]).name@) == client_of(
            (#[trigger] r[m2]).name@,
        ) implies name_precedes(ports, r[m1].name@, r[m2].name@) by {
        if m2 < base.len() {
            assert(name_precedes(ports, base[m1].name@, base[m2].name@));
        } else if m1 < base.len() {
            assert(client_of(r[m1].name@) != c && client_of(r[m2].name@) == c);
            assert(false);
        }
    }
}

/// A snapshot of the external port graph: the port list, grouped by client,
/// and the connection list as sorted index pairs into it.
pub struct JackGraph {
    ports: Vec<PortData>,
    connections: Vec<(usize, usize)>,
    update_flag: Notifier,
}

impl JackGraph {
    /// The cached ports, in cache order.
    pub closed spec fn ports_seq(self) -> Seq<PortData> {
        self.ports@
    }

    /// The cached connections as index pairs, each with the smaller index
    /// first.
    pub closed spec fn conn_seq(self) -> Seq<(usize, usize)> {
        self.connections@
    }

    /// The structural invariant: connection pairs index into the port list
    /// with the smaller index first and are strictly sorted; port names are
    /// well formed and pairwise distinct; ports of one client are adjacent.
    pub open spec fn wf(self) -> bool {
        &&& forall|k: int|
            0 <= k < self.conn_seq().len() ==> (#[trigger] self.conn_seq()[k]).0
                < self.conn_seq()[k].1 && self.conn_seq()[k].1 < self.ports_seq().len()
        &&& forall|k1: int, k2: int|
            0 <= k1 < k2 < self.conn_seq().len() ==> ipair_lt(
                self.conn_seq()[k1],
                self.conn_seq()[k2],
            )
        &&& forall|i: int| 0 <= i < self.ports_seq().len() ==> (#[trigger] self.ports_seq()[i]).wf()
        &&& forall|i: int, j: int|
            0 <= i < j < self.ports_seq().len() ==> self.ports_seq()[i].name@
                != self.ports_seq()[j].name@
        &&& grouped_by_client(self.ports_seq())
    }

    /// Whether a port with name `x` is cached.
    pub open spec fn has_port(self, x: Seq<char>) -> bool {
        exists|i: int| 0 <= i < self.ports_seq().len() && self.ports_seq()[i].name@ == x
    }

    /// The index of the cached port named `x`; meaningful when `has_port`.
    pub open spec fn port_index_of(self, x: Seq<char>) -> int {
        choose|i: int| 0 <= i < self.ports_seq().len() && self.ports_seq()[i].name@ == x
    }

    /// The cached record of the port named `x`; meaningful when `has_port`.
    pub open spec fn spec_port(self, x: Seq<char>) -> PortData {
        self.ports_seq()[self.port_index_of(x)]
    }

    /// Whether the cache records a connection between the ports named `x`
    /// and `y`, in either orientation.
    pub open spec fn has_link(self, x: Seq<char>, y: Seq<char>) -> bool {
        exists|k: int|
            0 <= k < self.conn_seq().len() && self.link_names_at(k) == (x, y) || 0 <= k
                < self.conn_seq().len() && self.link_names_at(k) == (y, x)
    }

    /// The two port names of the `k`-th cached connection.
    pub open spec fn link_names_at(self, k: int) -> (Seq<char>, Seq<char>) {
        (
            self.ports_seq()[self.conn_seq()[k].0 as int].name@,
            self.ports_seq()[self.conn_seq()[k].1 as int].name@,
        )
    }

    /// The peers of the port at index `idx` among the first `k` cached
    /// connections: one entry per connection pair touching `idx`, in
    /// connection-list order, each mapped to the record at the pair's
    /// other index.
    pub open spec fn spec_peers_upto(self, idx: int, k: int) -> Seq<PortData>
        decreases k,
    {
        if k <= 0 {
            Seq::<PortData>::empty()
        } else {
            let prev = self.spec_peers_upto(idx, k - 1);
            let p = self.conn_seq()[k - 1];
            if p.0 as int == idx {
                prev.push(self.ports_seq()[p.1 as int])
            } else if p.1 as int == idx {
                prev.push(self.ports_seq()[p.0 as int])
            } else {
                prev
            }
        }
    }

    /// The ports connected to the port named `x`: the connection list
    /// restricted to pairs touching it, each mapped to the peer's record,
    /// in connection-list order; empty when `x` is not cached.
    pub open spec fn spec_port_connections(self, x: Seq<char>) -> Seq<PortData> {
        if self.has_port(x) {
            self.spec_peers_upto(self.port_index_of(x), self.conn_seq().len() as int)
        } else {
            Seq::<PortData>::empty()
        }
    }

    /// An empty cache with a fresh change flag.
    pub fn new() -> (r: JackGraph)
        ensures
            r.wf(),
            r.ports_seq() == Seq::<PortData>::empty(),
            r.conn_seq() == Seq::<(usize, usize)>::empty(),
    {
        JackGraph { ports: Vec::new(), connections: Vec::new(), update_flag: Notifier::new() }
    }

    /// Whether the external system has signalled changes that this cache
    /// has not pulled in yet.
    pub fn needs_update(&self) -> bool {
        self.update_flag.check()
    }

    /// Clears the pending-change flag. Call this before listing the
    /// external graph for the next [`refresh`](Self::refresh): a change
    /// signalled at any point after the clear leaves the flag set, so the
    /// refresh observes every change signalled before the clear and any
    /// later one schedules another cycle instead of being lost.
    pub fn clear_pending(&self) {
        self.update_flag.reset()
    }

    /// A watcher on this cache's change flag, for registration with the
    /// external system's notification callback.
    pub fn notifier(&self) -> Notifier {
        self.update_flag.handle()
    }

    /// Blocks until the change flag is set or the optional timeout (in
    /// milliseconds) elapses.
    pub fn wait_for_update(&self, timeout_ms: Option<u64>) {
        self.update_flag.wait_timeout(timeout_ms)
    }

    /// The index of the cached port named `name`, if any.
    fn find_port(&self, name: &PortFullname) -> (r: Option<usize>)
        ensures
            match r {
                Some(i) => i < self.ports_seq().len() && self.ports_seq()[i as int].name@ == name@,
                None => !self.has_port(name@),
            },
    {
        let n = self.ports.len();
        let mut i: usize = 0;
        while i < n
            invariant
                i <= n,
                n == self.ports_seq().len(),
                forall|j: int| 0 <= j < i ==> self.ports_seq()[j].name@ != name@,
            decreases n - i,
        {
            if str_eq(self.ports[i].name.as_str(), name.as_str()) {
                return Some(i);
            }
            i += 1;
        }
        None
    }

    /// Whether the cache records a connection between `a` and `b`.
    pub fn is_connected(&self, a: &PortFullname, b: &PortFullname) -> (r: bool)
        requires
            self.wf(),
        ensures
            r == self.has_link(a@, b@),
    {
        proof {
            self.lemma_link_needs_ports(a@, b@);
        }
        let ia = match self.find_port(a) {
            Some(i) => i,
            None => {
                return false;
            },
        };
        let ib = match self.find_port(b) {
            Some(i) => i,
            None => {
                return false;
            },
        };
        if ia == ib {
            proof {
                self.lemma_link_distinct(a@, b@, ia);
            }
            return false;
        }
        let key = if ia < ib {
            (ia, ib)
        } else {
            (ib, ia)
        };
        let r = find_index_pair(&self.connections, key);
        proof {
            self.lemma_link_iff_key(a@, b@, ia, ib);
        }
        r
    }

    /// A cached link mentions only cached port names.
    proof fn lemma_link_needs_ports(self, x: Seq<char>, y: Seq<char>)
        requires
            self.wf(),
        ensures
            self.has_link(x, y) ==> self.has_port(x) && self.has_port(y),
    {
        if self.has_link(x, y) {
            let k = choose|k: int|
                0 <= k < self.conn_seq().len() && (self.link_names_at(k) == (x, y)
                    || self.link_names_at(k) == (y, x));
            let p = self.conn_seq()[k];
            assert(p.0 < p.1 < self.ports_seq().len());
            assert(self.ports_seq()[p.0 as int].name@ == x || self.ports_seq()[p.1 as int].name@
                == x);
            assert(self.ports_seq()[p.0 as int].name@ == y || self.ports_seq()[p.1 as int].name@
                == y);
        }
    }

    /// Two distinct cached indices hold distinct names, so a link never
    /// joins a name to itself.
    proof fn lemma_link_distinct(self, x: Seq<char>, y: Seq<char>, i: usize)
        requires
            self.wf(),
            i < self.ports_seq().len(),
            self.ports_seq()[i as int].name@ == x,
            self.ports_seq()[i as int].name@ == y,
        ensures
            !self.has_link(x, y),
    {
        if self.has_link(x, y) {
            let k = choose|k: int|
                0 <= k < self.conn_seq().len() && (self.link_names_at(k) == (x, y)
                    || self.link_names_at(k) == (y, x));
            let p = self.conn_seq()[k];
            assert(p.0 < p.1 < self.ports_seq().len());
            assert(self.ports_seq()[p.0 as int].name@ == self.ports_seq()[p.1 as int].name@);
            assert(false);
        }
    }

    /// With distinct, valid indices for `x` and `y`, a link between the two
    /// names is cached exactly when their canonical index pair is.
    proof fn lemma_link_iff_key(self, x: Seq<char>, y: Seq<char>, ia: usize, ib: usize)
        requires
            self.wf(),
            ia < self.ports_seq().len(),
            ib < self.ports_seq().len(),
            ia != ib,
            self.ports_seq()[ia as int].name@ == x,
            self.ports_seq()[ib as int].name@ == y,
        ensures
            self.has_link(x, y) <==> pair_in_seq(
                self.conn_seq(),
                if ia < ib {
                    (ia, ib)
                } else {
                    (ib, ia)
                },
            ),
    {
        let key = if ia < ib {
            (ia, ib)
        } else {
            (ib, ia)
        };
        if self.has_link(x, y) {
            let k = choose|k: int|
                0 <= k < self.conn_seq().len() && (self.link_names_at(k) == (x, y)
                    || self.link_names_at(k) == (y, x));
            let p = self.conn_seq()[k];
            assert(p.0 < p.1 < self.ports_seq().len());
            if self.link_names_at(k) == (x, y) {
                self.lemma_name_index_unique(x, p.0, ia);
                self.lemma_name_index_unique(y, p.1, ib);
                assert(p == (ia, ib));
            } else {
                self.lemma_name_index_unique(y, p.0, ib);
                self.lemma_name_index_unique(x, p.1, ia);
                assert(p == (ib, ia));
            }
            assert(p == key);
            assert(pair_in_seq(self.conn_seq(), key));
        }
        if pair_in_seq(self.conn_seq(), key) {
            let k = choose|k: int| 0 <= k < self.conn_seq().len() && self.conn_seq()[k] == key;
            if ia < ib {
                assert(self.link_names_at(k) == (x, y));
            } else {
                assert(self.link_names_at(k) == (y, x));
            }
            assert(self.has_link(x, y));
        }
    }

    /// Cached names determine their index: two indices holding the same
    /// name are equal.
    proof fn lemma_name_index_unique(self, x: Seq<char>, i: usize, j: usize)
        requires
            self.wf(),
            i < self.ports_seq().len(),
            j < self.ports_seq().len(),
            self.ports_seq()[i as int].name@ == x,
            self.ports_seq()[j as int].name@ == x,
        ensures
            i == j,
    {
        if i < j {
            assert(self.ports_seq()[i as int].name@ != self.ports_seq()[j as int].name@);
        }
        if j < i {
            assert(self.ports_seq()[j as int].name@ != self.ports_seq()[i as int].name@);
        }
    }

    /// A cached name has exactly one record, and `spec_port` is it.
    pub proof fn lemma_spec_port(self, x: Seq<char>)
        requires
            self.wf(),
            self.has_port(x),
        ensures
            0 <= self.port_index_of(x) < self.ports_seq().len(),
            self.spec_port(x).name@ == x,
            forall|i: int|
                0 <= i < self.ports_seq().len() && (#[trigger] self.ports_seq()[i]).name@ == x
                    ==> self.ports_seq()[i] == self.spec_port(x),
    {
        let idx = self.port_index_of(x);
        assert(0 <= idx < self.ports_seq().len() && self.ports_seq()[idx].name@ == x);
        assert forall|i: int|
            0 <= i < self.ports_seq().len() && (#[trigger] self.ports_seq()[i]).name@ == x
                implies self.ports_seq()[i] == self.spec_port(x) by {
            if i < idx {
                assert(self.ports_seq()[i].name@ != self.ports_seq()[idx].name@);
            }
            if idx < i {
                assert(self.ports_seq()[idx].name@ != self.ports_seq()[i].name@);
            }
        }
    }

    /// Two caches over the same port list agree on `spec_port`.
    pub proof fn lemma_same_ports_same_spec_port(self, other: JackGraph, x: Seq<char>)
        requires
            self.wf(),
            other.wf(),
            self.ports_seq() == other.ports_seq(),
            self.has_port(x),
        ensures
            other.has_port(x),
            other.spec_port(x) == self.spec_port(x),
    {
        self.lemma_spec_port(x);
        let idx = self.port_index_of(x);
        assert(other.ports_seq()[idx].name@ == x);
        other.lemma_spec_port(x);
        assert(other.ports_seq()[idx] == other.spec_port(x));
    }

    /// Records a connection that the external system has just made: looks
    /// both names up and, when both are cached, inserts the canonical index
    /// pair. Returns whether the patch applied; on `false` the cache is
    /// unchanged and the caller must fall back to a full refresh.
    pub fn record_connect(&mut self, a: &PortFullname, b: &PortFullname) -> (patched: bool)
        requires
            old(self).wf(),
        ensures
            final(self).wf(),
            final(self).ports_seq() == old(self).ports_seq(),
            patched <==> (old(self).has_port(a@) && old(self).has_port(b@) && a@ != b@),
            patched ==> forall|x: Seq<char>, y: Seq<char>|
                final(self).has_link(x, y) == (old(self).has_link(x, y) || ((x, y) == (a@, b@)
                    || (x, y) == (b@, a@))),
            !patched ==> final(self).conn_seq() == old(self).conn_seq(),
    {
        let ia = match self.find_port(a) {
            Some(i) => i,
            None => {
                return false;
            },
        };
        let ib = match self.find_port(b) {
            Some(i) => i,
            None => {
                return false;
            },
        };
        if ia == ib {
            return false;
        }
        proof {
            if a@ == b@ {
                self.lemma_name_index_unique(a@, ia, ib);
            }
        }
        let key = if ia < ib {
            (ia, ib)
        } else {
            (ib, ia)
        };
        let ghost prev = *self;
        proof {
            assert forall|k1: int, k2: int|
                0 <= k1 < k2 < self.connections@.len() implies ipair_lt(
                self.connections@[k1],
                self.connections@[k2],
            ) by {
                assert(ipair_lt(self.conn_seq()[k1], self.conn_seq()[k2]));
            }
        }
        insert_index_pair(&mut self.connections, key);
        proof {
            assert(self.ports_seq() == prev.ports_seq());
            assert forall|p: (usize, usize)| #[trigger] pair_in_seq(self.conn_seq(), p) <==> (
            pair_in_seq(prev.conn_seq(), p) || p == key) by {
                assert(pair_in_seq(self.connections@, p) <==> pair_in_seq(prev.connections@, p)
                    || p == key);
            }
            assert forall|k1: int, k2: int|
                0 <= k1 < k2 < self.conn_seq().len() implies ipair_lt(
                self.conn_seq()[k1],
                self.conn_seq()[k2],
            ) by {
                assert(ipair_lt(self.connections@[k1], self.connections@[k2]));
            }
            assert forall|k: int|
                0 <= k < self.conn_seq().len() implies ((#[trigger] self.conn_seq()[k]).0
                < self.conn_seq()[k].1 && self.conn_seq()[k].1 < self.ports_seq().len()) by {
                let p = self.conn_seq()[k];
                assert(pair_in_seq(self.conn_seq(), p));
                if p != key {
                    assert(pair_in_seq(prev.conn_seq(), p));
                    let k2 = choose|k2: int|
                        0 <= k2 < prev.conn_seq().len() && prev.conn_seq()[k2] == p;
                    assert(prev.conn_seq()[k2].0 < prev.conn_seq()[k2].1 < prev.ports_seq().len());
                }
            }
            assert(self.wf());
            assert forall|x: Seq<char>, y: Seq<char>| self.has_link(x, y) == (old(self).has_link(
                x,
                y,
            ) || ((x, y) == (a@, b@) || (x, y) == (b@, a@))) by {
                self.lemma_patch_link_change(prev, a@, b@, ia, ib, x, y);
                assert(prev.has_link(x, y) == old(self).has_link(x, y));
            }
        }
        true
    }

    /// After inserting the canonical pair for `(ia, ib)`, the cached links
    /// are the old ones plus the unordered pair `{a, b}`.
    proof fn lemma_patch_link_change(
        self,
        prev: JackGraph,
        a: Seq<char>,
        b: Seq<char>,
        ia: usize,
        ib: usize,
        x: Seq<char>,
        y: Seq<char>,
    )
        requires
            prev.wf(),
            self.wf(),
            self.ports_seq() == prev.ports_seq(),
            ia < prev.ports_seq().len(),
            ib < prev.ports_seq().len(),
            ia != ib,
            prev.ports_seq()[ia as int].name@ == a,
            prev.ports_seq()[ib as int].name@ == b,
            forall|p: (usize, usize)|
                #[trigger] pair_in_seq(self.conn_seq(), p) <==> pair_in_seq(prev.conn_seq(), p)
                    || p == (if ia < ib {
                    (ia, ib)
                } else {
                    (ib, ia)
                }),
        ensures
            self.has_link(x, y) == (prev.has_link(x, y) || ((x, y) == (a, b) || (x, y) == (b, a))),
    {
        let key = if ia < ib {
            (ia, ib)
        } else {
            (ib, ia)
        };
        assert(self.ports_seq()[ia as int].name@ == a);
        assert(self.ports_seq()[ib as int].name@ == b);
        if self.has_link(x, y) {
            let k = choose|k: int|
                0 <= k < self.conn_seq().len() && (self.link_names_at(k) == (x, y)
                    || self.link_names_at(k) == (y, x));
            let p = self.conn_seq()[k];
            assert(pair_in_seq(self.conn_seq(), p));
            if p == key {
                if ia < ib {
                    assert(self.link_names_at(k) == (a, b));
                } else {
                    assert(self.link_names_at(k) == (b, a));
                }
                assert((x, y) == (a, b) || (x, y) == (b, a));
            } else {
                assert(pair_in_seq(prev.conn_seq(), p));
                let k2 = choose|k2: int|
                    0 <= k2 < prev.conn_seq().len() && prev.conn_seq()[k2] == p;
                assert(prev.link_names_at(k2) == self.link_names_at(k));
                assert(prev.has_link(x, y));
            }
        }
        if prev.has_link(x, y) {
            let k = choose|k: int|
                0 <= k < prev.conn_seq().len() && (prev.link_names_at(k) == (x, y)
                    || prev.link_names_at(k) == (y, x));
            let p = prev.conn_seq()[k];
            assert(pair_in_seq(prev.conn_seq(), p));
            assert(pair_in_seq(self.conn_seq(), p));
            let k2 = choose|k2: int| 0 <= k2 < self.conn_seq().len() && self.conn_seq()[k2] == p;
            assert(self.link_names_at(k2) == prev.link_names_at(k));
            assert(self.has_link(x, y));
        }
        if (x, y) == (a, b) || (x, y) == (b, a) {
            assert(pair_in_seq(self.conn_seq(), key));
            let k2 = choose|k2: int| 0 <= k2 < self.conn_seq().len() && self.conn_seq()[k2] == key;
            if ia < ib {
                assert(self.link_names_at(k2) == (a, b));
            } else {
                assert(self.link_names_at(k2) == (b, a));
            }
            assert(self.has_link(x, y));
        }
    }

    /// Records a disconnection that the external system has just made:
    /// removes the cached pair when present. Returns whether the patch
    /// applied; on `false` the cache is unchanged and the caller must fall
    /// back to a full refresh.
    pub fn record_disconnect(&mut self, a: &PortFullname, b: &PortFullname) -> (patched: bool)
        requires
            old(self).wf(),
        ensures
            final(self).wf(),
            final(self).ports_seq() == old(self).ports_seq(),
            patched <==> old(self).has_link(a@, b@),
            patched ==> forall|x: Seq<char>, y: Seq<char>|
                final(self).has_link(x, y) == (old(self).has_link(x, y) && !((x, y) == (a@, b@)
                    || (x, y) == (b@, a@))),
            !patched ==> final(self).conn_seq() == old(self).conn_seq(),
    {
        proof {
            self.lemma_link_needs_ports(a@, b@);
        }
        let ia = match self.find_port(a) {
            Some(i) => i,
            None => {
                return false;
            },
        };
        let ib = match self.find_port(b) {
            Some(i) => i,
            None => {
                return false;
            },
        };
        if ia == ib {
            proof {
                self.lemma_link_distinct(a@, b@, ia);
            }
            return false;
        }
        let key = if ia < ib {
            (ia, ib)
        } else {
            (ib, ia)
        };
        proof {
            self.lemma_link_iff_key(a@, b@, ia, ib);
            if a@ == b@ {
                self.lemma_name_index_unique(a@, ia, ib);
            }
        }
        let ghost prev = *self;
        proof {
            assert forall|k1: int, k2: int|
                0 <= k1 < k2 < self.connections@.len() implies ipair_lt(
                self.connections@[k1],
                self.connections@[k2],
            ) by {
                assert(ipair_lt(self.conn_seq()[k1], self.conn_seq()[k2]));
            }
        }
        let removed = remove_index_pair(&mut self.connections, key);
        if !removed {
            proof {
                assert(!pair_in_seq(prev.connections@, key));
                assert(!pair_in_seq(prev.conn_seq(), key));
                assert(self.conn_seq() == prev.conn_seq());
                assert(self.ports_seq() == prev.ports_seq());
                assert(self.wf());
            }
            return false;
        }
        proof {
            assert(self.ports_seq() == prev.ports_seq());
            assert(pair_in_seq(prev.connections@, key));
            assert(pair_in_seq(prev.conn_seq(), key));
            assert forall|p: (usize, usize)| #[trigger] pair_in_seq(self.conn_seq(), p) <==> (
            pair_in_seq(prev.conn_seq(), p) && p != key) by {
                assert(pair_in_seq(self.connections@, p) <==> (pair_in_seq(prev.connections@, p)
                    && p != key));
            }
            assert forall|k1: int, k2: int|
                0 <= k1 < k2 < self.conn_seq().len() implies ipair_lt(
                self.conn_seq()[k1],
                self.conn_seq()[k2],
            ) by {
                assert(ipair_lt(self.connections@[k1], self.connections@[k2]));
            }
            assert forall|k: int|
                0 <= k < self.conn_seq().len() implies ((#[trigger] self.conn_seq()[k]).0
                < self.conn_seq()[k].1 && self.conn_seq()[k].1 < self.ports_seq().len()) by {
                let p = self.conn_seq()[k];
                assert(pair_in_seq(self.conn_seq(), p));
                assert(pair_in_seq(prev.conn_seq(), p));
                let k2 = choose|k2: int|
                    0 <= k2 < prev.conn_seq().len() && prev.conn_seq()[k2] == p;
                assert(prev.conn_seq()[k2].0 < prev.conn_seq()[k2].1 < prev.ports_seq().len());
            }
            assert(self.wf());
            assert forall|x: Seq<char>, y: Seq<char>| self.has_link(x, y) == (old(self).has_link(
                x,
                y,
            ) && !((x, y) == (a@, b@) || (x, y) == (b@, a@))) by {
                self.lemma_unpatch_link_change(prev, a@, b@, ia, ib, x, y);
                assert(prev.has_link(x, y) == old(self).has_link(x, y));
            }
        }
        true
    }

    /// After removing the canonical pair for `(ia, ib)`, the cached links
    /// are the old ones minus the unordered pair `{a, b}`.
    proof fn lemma_unpatch_link_change(
        self,
        prev: JackGraph,
        a: Seq<char>,
        b: Seq<char>,
        ia: usize,
        ib: usize,
        x: Seq<char>,
        y: Seq<char>,
    )
        requires
            prev.wf(),
            self.wf(),
            self.ports_seq() == prev.ports_seq(),
            ia < prev.ports_seq().len(),
            ib < prev.ports_seq().len(),
            ia != ib,
            prev.ports_seq()[ia as int].name@ == a,
            prev.ports_seq()[ib as int].name@ == b,
            forall|p: (usize, usize)|
                #[trigger] pair_in_seq(self.conn_seq(), p) <==> (pair_in_seq(prev.conn_seq(), p)
                    && p != (if ia < ib {
                    (ia, ib)
                } else {
                    (ib, ia)
                })),
        ensures
            self.has_link(x, y) == (prev.has_link(x, y) && !((x, y) == (a, b) || (x, y) == (b, a))),
    {
        let key = if ia < ib {
            (ia, ib)
        } else {
            (ib, ia)
        };
        assert(self.ports_seq()[ia as int].name@ == a);
        assert(self.ports_seq()[ib as int].name@ == b);
        if self.has_link(x, y) {
            let k = choose|k: int|
                0 <= k < self.conn_seq().len() && (self.link_names_at(k) == (x, y)
                    || self.link_names_at(k) == (y, x));
            let p = self.conn_seq()[k];
            assert(pair_in_seq(self.conn_seq(), p));
            assert(pair_in_seq(prev.conn_seq(), p) && p != key);
            let k2 = choose|k2: int| 0 <= k2 < prev.conn_seq().len() && prev.conn_seq()[k2] == p;
            assert(prev.link_names_at(k2) == self.link_names_at(k));
            assert(prev.has_link(x, y));
            if (x, y) == (a, b) || (x, y) == (b, a) {
                assert(p.0 < p.1 < prev.ports_seq().len());
                if self.link_names_at(k) == (x, y) && (x, y) == (a, b) {
                    prev.lemma_name_index_unique(a, p.0, ia);
                    prev.lemma_name_index_unique(b, p.1, ib);
                    assert(p == (ia, ib) && ia < ib);
                } else if self.link_names_at(k) == (x, y) && (x, y) == (b, a) {
                    prev.lemma_name_index_unique(b, p.0, ib);
                    prev.lemma_name_index_unique(a, p.1, ia);
                    assert(p == (ib, ia) && ib < ia);
                } else if self.link_names_at(k) == (y, x) && (x, y) == (a, b) {
                    prev.lemma_name_index_unique(b, p.0, ib);
                    prev.lemma_name_index_unique(a, p.1, ia);
                    assert(p == (ib, ia) && ib < ia);
                } else {
                    prev.lemma_name_index_unique(a, p.0, ia);
                    prev.lemma_name_index_unique(b, p.1, ib);
                    assert(p == (ia, ib) && ia < ib);
                }
                assert(p == key);
                assert(false);
            }
        }
        if prev.has_link(x, y) && !((x, y) == (a, b) || (x, y) == (b, a)) {
            let k = choose|k: int|
                0 <= k < prev.conn_seq().len() && (prev.link_names_at(k) == (x, y)
                    || prev.link_names_at(k) == (y, x));
            let p = prev.conn_seq()[k];
            assert(p != key) by {
                if p == key {
                    if ia < ib {
                        assert(prev.link_names_at(k) == (a, b));
                    } else {
                        assert(prev.link_names_at(k) == (b, a));
                    }
                }
            }
            assert(pair_in_seq(prev.conn_seq(), p));
            assert(pair_in_seq(self.conn_seq(), p));
            let k2 = choose|k2: int| 0 <= k2 < self.conn_seq().len() && self.conn_seq()[k2] == p;
            assert(self.link_names_at(k2) == prev.link_names_at(k));
            assert(self.has_link(x, y));
        }
    }

    /// Rebuilds the snapshot wholesale from externally listed ports and
    /// connected name pairs. The caller clears the pending-change flag with
    /// [`clear_pending`](Self::clear_pending) *before* listing the external
    /// graph, so a change signalled during or after the listing keeps the
    /// flag set for the next cycle; this method leaves the flag alone.
    /// Ports are grouped by client and deduplicated by name; links whose
    /// endpoints are not listed (or coincide) are dropped.
    #[verifier::rlimit(100)]
    pub fn refresh(&mut self, ports: Vec<PortData>, links: &Vec<(PortFullname, PortFullname)>)
        requires
            forall|i: int| 0 <= i < ports@.len() ==> (#[trigger] ports@[i]).wf(),
        ensures
            final(self).wf(),
            forall|i: int|
                0 <= i < final(self).ports_seq().len() ==> seq_has_port_data(
                    ports@,
                    #[trigger] final(self).ports_seq()[i],
                ),
            forall|j: int|
                0 <= j < ports@.len() ==> final(self).has_port((#[trigger] ports@[j]).name@),
            forall|m1: int, m2: int|
                0 <= m1 < m2 < final(self).ports_seq().len() && client_of(
                    (#[trigger] final(self).ports_seq()[m1]).name@,
                ) != client_of((#[trigger] final(self).ports_seq()[m2]).name@)
                    ==> client_precedes(
                    ports@,
                    client_of(final(self).ports_seq()[m1].name@),
                    client_of(final(self).ports_seq()[m2].name@),
                ),
            forall|m1: int, m2: int|
                0 <= m1 < m2 < final(self).ports_seq().len() && client_of(
                    (#[trigger] final(self).ports_seq()[m1]).name@,
                ) == client_of((#[trigger] final(self).ports_seq()[m2]).name@) ==> name_precedes(
                    ports@,
                    final(self).ports_seq()[m1].name@,
                    final(self).ports_seq()[m2].name@,
                ),
            forall|x: Seq<char>, y: Seq<char>|
                final(self).has_link(x, y) <==> link_listed(*final(self), links@, x, y),
    {
        let new_ports = build_grouped_ports(&ports);
        self.ports = new_ports;
        self.connections = Vec::new();
        let ghost gports = self.ports@;
        proof {
            assert forall|x: Seq<char>, y: Seq<char>| !self.has_link(x, y) by {
                if self.has_link(x, y) {
                    let k = choose|k: int|
                        0 <= k < self.conn_seq().len() && (self.link_names_at(k) == (x, y)
                            || self.link_names_at(k) == (y, x));
                }
            }
        }
        let n = links.len();
        let mut l: usize = 0;
        while l < n
            invariant
                l <= n,
                n == links@.len(),
                self.wf(),
                forall|i: int|
                    0 <= i < self.ports_seq().len() ==> seq_has_port_data(
                        ports@,
                        #[trigger] self.ports_seq()[i],
                    ),
                forall|j: int|
                    0 <= j < ports@.len() ==> self.has_port((#[trigger] ports@[j]).name@),
                self.ports_seq() == gports,
                forall|x: Seq<char>, y: Seq<char>|
                    self.has_link(x, y) <==> link_listed_upto(*self, links@, l as int, x, y),
            decreases n - l,
        {
            let ghost prev = *self;
            let ghost l0 = l as int;
            let a = &links[l].0;
            let b = &links[l].1;
            let patched = self.record_connect(a, b);
            l += 1;
            proof {
                assert(self.ports_seq() == prev.ports_seq());
                assert forall|z: Seq<char>| self.has_port(z) <==> prev.has_port(z) by {
                    if self.has_port(z) {
                        let i = choose|i: int|
                            0 <= i < self.ports_seq().len() && self.ports_seq()[i].name@ == z;
                        assert(prev.ports_seq()[i].name@ == z);
                    }
                    if prev.has_port(z) {
                        let i = choose|i: int|
                            0 <= i < prev.ports_seq().len() && prev.ports_seq()[i].name@ == z;
                        assert(self.ports_seq()[i].name@ == z);
                    }
                }
                if !patched {
                    assert(self.conn_seq() == prev.conn_seq());
                    assert forall|x: Seq<char>, y: Seq<char>| self.has_link(x, y) <==>
                    prev.has_link(x, y) by {
                        if self.has_link(x, y) {
                            let k = choose|k: int|
                                0 <= k < self.conn_seq().len() && (self.link_names_at(k) == (x, y)
                                    || self.link_names_at(k) == (y, x));
                            assert(prev.link_names_at(k) == self.link_names_at(k));
                        }
                        if prev.has_link(x, y) {
                            let k = choose|k: int|
                                0 <= k < prev.conn_seq().len() && (prev.link_names_at(k) == (x, y)
                                    || prev.link_names_at(k) == (y, x));
                            assert(self.link_names_at(k) == prev.link_names_at(k));
                        }
                    }
                }
                assert forall|x: Seq<char>, y: Seq<char>| self.has_link(x, y) <==>
                link_listed_upto(*self, links@, l0 + 1, x, y) by {
                    if self.has_link(x, y) {
                        if prev.has_link(x, y) {
                            assert(link_listed_upto(prev, links@, l0, x, y));
                            let m = choose|m: int|
                                0 <= m < l0 && prev.has_port(links@[m].0@) && prev.has_port(
                                    links@[m].1@,
                                ) && links@[m].0@ != links@[m].1@ && (((x, y) == (
                                links@[m].0@,
                                links@[m].1@,
                                )) || ((x, y) == (links@[m].1@, links@[m].0@)));
                            assert(link_listed_upto(*self, links@, l0 + 1, x, y));
                        } else {
                            assert(patched);
                            assert((x, y) == (a@, b@) || (x, y) == (b@, a@));
                            assert(prev.has_port(a@) && prev.has_port(b@) && a@ != b@);
                            assert(links@[l0] == (links@[l0].0, links@[l0].1));
                            assert(link_listed_upto(*self, links@, l0 + 1, x, y));
                        }
                    }
                    if link_listed_upto(*self, links@, l0 + 1, x, y) {
                        let m = choose|m: int|
                            0 <= m < l0 + 1 && self.has_port(links@[m].0@) && self.has_port(
                                links@[m].1@,
                            ) && links@[m].0@ != links@[m].1@ && (((x, y) == (
                            links@[m].0@,
                            links@[m].1@,
                            )) || ((x, y) == (links@[m].1@, links@[m].0@)));
                        if m < l0 {
                            assert(link_listed_upto(prev, links@, l0, x, y));
                            assert(prev.has_link(x, y));
                            if patched {
                                assert(self.has_link(x, y));
                            }
                        } else {
                            assert(links@[m] == links@[l0]);
                            assert(self.has_port(a@) && self.has_port(b@) && a@ != b@);
                            assert(patched);
                            assert((x, y) == (a@, b@) || (x, y) == (b@, a@));
                            assert(self.has_link(x, y));
                        }
                    }
                }
            }
        }
        proof {
            assert forall|x: Seq<char>, y: Seq<char>| self.has_link(x, y) <==> link_listed(
                *self,
                links@,
                x,
                y,
            ) by {
                assert(self.has_link(x, y) <==> link_listed_upto(*self, links@, n as int, x, y));
            }
            assert forall|m1: int, m2: int|
                0 <= m1 < m2 < self.ports_seq().len() && client_of(
                    (#[trigger] self.ports_seq()[m1]).name@,
                ) != client_of((#[trigger] self.ports_seq()[m2]).name@) implies client_precedes(
                ports@,
                client_of(self.ports_seq()[m1].name@),
                client_of(self.ports_seq()[m2].name@),
            ) by {
                assert(self.ports_seq()[m1] == gports[m1]);
                assert(self.ports_seq()[m2] == gports[m2]);
            }
            assert forall|m1: int, m2: int|
                0 <= m1 < m2 < self.ports_seq().len() && client_of(
                    (#[trigger] self.ports_seq()[m1]).name@,
                ) == client_of((#[trigger] self.ports_seq()[m2]).name@) implies name_precedes(
                ports@,
                self.ports_seq()[m1].name@,
                self.ports_seq()[m2].name@,
            ) by {
                assert(self.ports_seq()[m1] == gports[m1]);
                assert(self.ports_seq()[m2] == gports[m2]);
            }
        }
    }

    /// The cached port carrying `name`, if any.
    pub fn port_by_name(&self, name: &PortFullname) -> (r: Option<PortData>)
        requires
            self.wf(),
        ensures
            match r {
                Some(p) => self.has_port(name@) && p == self.spec_port(name@) && p.name@ == name@,
                None => !self.has_port(name@),
            },
    {
        match self.find_port(name) {
            Some(i) => {
                let p = self.ports[i].clone();
                proof {
                    assert(self.has_port(name@));
                    self.lemma_spec_port(name@);
                }
                Some(p)
            },
            None => None,
        }
    }

    /// All cached ports, in cache order.
    pub fn all_ports(&self) -> (r: &Vec<PortData>)
        ensures
            r@ == self.ports_seq(),
    {
        &self.ports
    }

    /// Every cached connection as a pair of port data, in cache order. The
    /// order within each pair follows the cached index pair and carries no
    /// meaning.
    pub fn all_connections(&self) -> (r: Vec<(PortData, PortData)>)
        requires
            self.wf(),
        ensures
            r@.len() == self.conn_seq().len(),
            forall|k: int|
                0 <= k < r@.len() ==> #[trigger] r@[k] == (
                    self.ports_seq()[self.conn_seq()[k].0 as int],
                    self.ports_seq()[self.conn_seq()[k].1 as int],
                ),
    {
        let n = self.connections.len();
        let mut r: Vec<(PortData, PortData)> = Vec::new();
        let mut k: usize = 0;
        while k < n
            invariant
                k <= n,
                n == self.conn_seq().len(),
                self.wf(),
                r@.len() == k,
                forall|m: int|
                    0 <= m < k ==> #[trigger] r@[m] == (
                        self.ports_seq()[self.conn_seq()[m].0 as int],
                        self.ports_seq()[self.conn_seq()[m].1 as int],
                    ),
            decreases n - k,
        {
            let (i, j) = self.connections[k];
            let pa = self.ports[i].clone();
            let pb = self.ports[j].clone();
            r.push((pa, pb));
            k += 1;
        }
        r
    }

    /// The ports connected to `name`: one entry per cached connection pair
    /// touching it, in connection-list order, each the peer's record.
    pub fn port_connections(&self, name: &PortFullname) -> (r: Vec<PortData>)
        requires
            self.wf(),
        ensures
            r@ == self.spec_port_connections(name@),
            forall|m: int|
                0 <= m < r@.len() ==> self.has_link(name@, (#[trigger] r@[m]).name@) && exists|
                    i: int,
                |
                    0 <= i < self.ports_seq().len() && self.ports_seq()[i] == r@[m],
            forall|y: Seq<char>|
                self.has_link(name@, y) ==> exists|m: int| 0 <= m < r@.len() && r@[m].name@ == y,
    {
        let idx = match self.find_port(name) {
            Some(i) => i,
            None => {
                let r: Vec<PortData> = Vec::new();
                proof {
                    self.lemma_link_needs_ports_all(name@);
                    assert(r@ =~= self.spec_port_connections(name@));
                }
                return r;
            },
        };
        proof {
            assert(self.ports_seq()[idx as int].name@ == name@);
            assert(self.has_port(name@));
        }
        let ghost pidx = self.port_index_of(name@);
        proof {
            assert(0 <= pidx < self.ports_seq().len() && self.ports_seq()[pidx].name@ == name@);
            if pidx < idx as int {
                assert(self.ports_seq()[pidx].name@ != self.ports_seq()[idx as int].name@);
            }
            if (idx as int) < pidx {
                assert(self.ports_seq()[idx as int].name@ != self.ports_seq()[pidx].name@);
            }
            assert(pidx == idx as int);
        }
        let n = self.connections.len();
        let mut r: Vec<PortData> = Vec::new();
        proof {
            assert(r@ =~= self.spec_peers_upto(idx as int, 0));
        }
        let mut k: usize = 0;
        while k < n
            invariant
                k <= n,
                n == self.conn_seq().len(),
                self.wf(),
                idx < self.ports_seq().len(),
                self.ports_seq()[idx as int].name@ == name@,
                r@ == self.spec_peers_upto(idx as int, k as int),
                forall|m: int|
                    0 <= m < r@.len() ==> self.has_link(name@, (#[trigger] r@[m]).name@) && exists|
                        i: int,
                    |
                        0 <= i < self.ports_seq().len() && self.ports_seq()[i] == r@[m],
                forall|k2: int|
                    0 <= k2 < k && (self.conn_seq()[k2].0 == idx || self.conn_seq()[k2].1 == idx)
                        ==> exists|m: int|
                        0 <= m < r@.len() && (#[trigger] r@[m]).name@ == (
                        if self.conn_seq()[k2].0 == idx {
                            self.ports_seq()[self.conn_seq()[k2].1 as int].name@
                        } else {
                            self.ports_seq()[self.conn_seq()[k2].0 as int].name@
                        }),
            decreases n - k,
        {
            let (i, j) = self.connections[k];
            if i == idx {
                let ghost r0 = r@;
                let p = self.ports[j].clone();
                r.push(p);
                proof {
                    assert(r@[r0.len() as int] == self.ports_seq()[self.conn_seq()[k as int].1 as int]);
                    assert(self.link_names_at(k as int) == (
                        name@,
                        self.ports_seq()[self.conn_seq()[k as int].1 as int].name@,
                    ));
                    assert(self.has_link(name@, r@[r0.len() as int].name@));
                    assert(forall|m: int| 0 <= m < r0.len() ==> r@[m] == r0[m]);
                    assert(self.conn_seq()[k as int].0 as int == idx as int);
                    assert(self.spec_peers_upto(idx as int, k as int + 1) == r0.push(
                        self.ports_seq()[self.conn_seq()[k as int].1 as int],
                    ));
                    assert(r@ == self.spec_peers_upto(idx as int, k as int + 1));
                }
            } else if j == idx {
                let ghost r0 = r@;
                let p = self.ports[i].clone();
                r.push(p);
                proof {
                    assert(r@[r0.len() as int] == self.ports_seq()[self.conn_seq()[k as int].0 as int]);
                    assert(self.link_names_at(k as int) == (
                        self.ports_seq()[self.conn_seq()[k as int].0 as int].name@,
                        name@,
                    ));
                    assert(self.has_link(name@, r@[r0.len() as int].name@));
                    assert(forall|m: int| 0 <= m < r0.len() ==> r@[m] == r0[m]);
                    assert(self.conn_seq()[k as int].0 as int != idx as int);
                    assert(self.conn_seq()[k as int].1 as int == idx as int);
                    assert(self.spec_peers_upto(idx as int, k as int + 1) == r0.push(
                        self.ports_seq()[self.conn_seq()[k as int].0 as int],
                    ));
                    assert(r@ == self.spec_peers_upto(idx as int, k as int + 1));
                }
            } else {
                proof {
                    assert(self.conn_seq()[k as int].0 as int != idx as int);
                    assert(self.conn_seq()[k as int].1 as int != idx as int);
                    assert(self.spec_peers_upto(idx as int, k as int + 1) == self.spec_peers_upto(
                        idx as int,
                        k as int,
                    ));
                }
            }
            k += 1;
        }
        proof {
            assert(r@ == self.spec_peers_upto(idx as int, self.conn_seq().len() as int));
            assert(r@ == self.spec_port_connections(name@));
        }
        proof {
            assert forall|y: Seq<char>| self.has_link(name@, y) implies exists|m: int|
                0 <= m < r@.len() && r@[m].name@ == y by {
                let k2 = choose|k2: int|
                    0 <= k2 < self.conn_seq().len() && (self.link_names_at(k2) == (name@, y)
                        || self.link_names_at(k2) == (y, name@));
                let p = self.conn_seq()[k2];
                if self.link_names_at(k2) == (name@, y) {
                    self.lemma_name_index_unique(name@, p.0, idx);
                } else {
                    self.lemma_name_index_unique(name@, p.1, idx);
                }
            }
        }
        r
    }

    /// No link involves an uncached name.
    proof fn lemma_link_needs_ports_all(self, x: Seq<char>)
        requires
            self.wf(),
            !self.has_port(x),
        ensures
            forall|y: Seq<char>| !self.has_link(x, y),
    {
        assert forall|y: Seq<char>| !self.has_link(x, y) by {
            self.lemma_link_needs_ports(x, y);
        }
    }

    /// The distinct client names, in cache order of first appearance:
    /// every port of an earlier listed client stands before every port of
    /// a later listed one. Grouping makes adjacent deduplication complete.
    #[verifier::rlimit(100)]
    pub fn all_clients(&self) -> (r: Vec<String>)
        requires
            self.wf(),
        ensures
            forall|m: int|
                0 <= m < r@.len() ==> client_in_prefix(
                    self.ports_seq(),
                    self.ports_seq().len() as int,
                    (#[trigger] r@[m])@,
                ),
            forall|i: int|
                0 <= i < self.ports_seq().len() ==> str_listed(
                    r@,
                    client_of((#[trigger] self.ports_seq()[i]).name@),
                ),
            forall|m1: int, m2: int| 0 <= m1 < m2 < r@.len() ==> r@[m1]@ != r@[m2]@,
            forall|m1: int, m2: int, i1: int, i2: int|
                0 <= m1 < m2 < r@.len() && 0 <= i1 < self.ports_seq().len() && 0 <= i2
                    < self.ports_seq().len() && client_of(
                    (#[trigger] self.ports_seq()[i1]).name@,
                ) == (#[trigger] r@[m1])@ && client_of((#[trigger] self.ports_seq()[i2]).name@)
                    == (#[trigger] r@[m2])@ ==> i1 < i2,
    {
        let n = self.ports.len();
        let mut r: Vec<String> = Vec::new();
        let mut i: usize = 0;
        while i < n
            invariant
                i <= n,
                n == self.ports_seq().len(),
                self.wf(),
                i > 0 ==> r@.len() > 0 && r@.last()@ == client_of(self.ports_seq()[i - 1].name@),
                forall|m: int|
                    0 <= m < r@.len() ==> client_in_prefix(
                        self.ports_seq(),
                        i as int,
                        (#[trigger] r@[m])@,
                    ),
                forall|i2: int|
                    0 <= i2 < i ==> str_listed(
                        r@,
                        client_of((#[trigger] self.ports_seq()[i2]).name@),
                    ),
                forall|m1: int, m2: int| 0 <= m1 < m2 < r@.len() ==> r@[m1]@ != r@[m2]@,
                forall|m1: int, m2: int|
                    0 <= m1 < m2 < r@.len() ==> clients_ordered_in_prefix(
                        self.ports_seq(),
                        i as int,
                        (#[trigger] r@[m1])@,
                        (#[trigger] r@[m2])@,
                    ),
            decreases n - i,
        {
            proof {
                crate::model::ports::lemma_wf_split_is_first_colon(self.ports@[i as int].name);
            }
            let ghost c = client_of(self.ports_seq()[i as int].name@);
            let cs = self.ports[i].name.client_name();
            let push = if r.len() == 0 {
                true
            } else {
                !str_eq(r[r.len() - 1].as_str(), cs)
            };
            let ghost r0 = r@;
            if push {
                r.push(cs.to_owned());
                proof {
                    assert(r@[r0.len() as int]@ == c);
                    assert(forall|m: int| 0 <= m < r0.len() ==> r@[m] == r0[m]);
                    assert(client_in_prefix(self.ports_seq(), i + 1, c));
                    assert forall|m1: int, m2: int|
                        0 <= m1 < m2 < r@.len() implies r@[m1]@ != r@[m2]@ by {
                        if m2 == r0.len() && r@[m1]@ == c {
                            assert(i > 0);
                            assert(client_in_prefix(self.ports_seq(), i as int, c));
                            let i2 = choose|i2: int|
                                0 <= i2 < i && client_of(self.ports_seq()[i2].name@) == c;
                            if i2 < i - 1 {
                                assert(client_of(self.ports_seq()[i - 1].name@) == client_of(
                                    self.ports_seq()[i as int].name@,
                                ));
                            }
                            assert(r0.last()@ == c);
                            assert(false);
                        }
                    }
                }
            } else {
                proof {
                    assert(r@.last()@ == c);
                }
            }
            proof {
                assert(str_listed(r@, c));
                assert forall|m: int|
                    0 <= m < r@.len() implies client_in_prefix(
                    self.ports_seq(),
                    i + 1,
                    (#[trigger] r@[m])@,
                ) by {
                    if m < r0.len() {
                        assert(client_in_prefix(self.ports_seq(), i as int, r0[m]@));
                        let i2 = choose|i2: int|
                            0 <= i2 < i && client_of(self.ports_seq()[i2].name@) == r0[m]@;
                        assert(r@[m]@ == r0[m]@);
                    } else {
                        assert(r@[m]@ == c);
                    }
                }
                assert forall|i2: int|
                    0 <= i2 < i + 1 implies str_listed(
                    r@,
                    client_of((#[trigger] self.ports_seq()[i2]).name@),
                ) by {
                    if i2 < i {
                        assert(str_listed(r0, client_of(self.ports_seq()[i2].name@)));
                        let m = choose|m: int|
                            0 <= m < r0.len() && r0[m]@ == client_of(
                                self.ports_seq()[i2].name@,
                            );
                        assert(r@[m]@ == client_of(self.ports_seq()[i2].name@));
                    }
                }
                lemma_client_pairs_extend(self.ports_seq(), r0, r@, i as int, c);
            }
            i += 1;
        }
        proof {
            lemma_client_pairs_order(self.ports_seq(), r@);
        }
        r
    }

    /// All cached ports of `client`, in cache order.
    pub fn client_ports(&self, client: &str) -> (r: Vec<PortData>)
        requires
            self.wf(),
        ensures
            r@ == self.ports_seq().filter(
                |p: PortData| client_of(p.name@) == client@,
            ),
            forall|m: int|
                0 <= m < r@.len() ==> seq_has_port_data(self.ports_seq(), #[trigger] r@[m])
                    && client_of(r@[m].name@) == client@,
    {
        let n = self.ports.len();
        let mut r: Vec<PortData> = Vec::new();
        let mut i: usize = 0;
        proof {
            reveal(Seq::filter);
            assert(self.ports_seq().take(0) =~= Seq::<PortData>::empty());
        }
        while i < n
            invariant
                i <= n,
                n == self.ports_seq().len(),
                self.wf(),
                r@ == self.ports_seq().take(i as int).filter(
                    |p: PortData| client_of(p.name@) == client@,
                ),
                forall|m: int|
                    0 <= m < r@.len() ==> seq_has_port_data(self.ports_seq(), #[trigger] r@[m])
                        && client_of(r@[m].name@) == client@,
            decreases n - i,
        {
            proof {
                crate::model::ports::lemma_wf_split_is_first_colon(self.ports@[i as int].name);
            }
            let c = self.ports[i].name.client_name();
            if str_eq(c, client) {
                let ghost r0 = r@;
                let p = self.ports[i].clone();
                r.push(p);
                proof {
                    assert(r@[r0.len() as int] == self.ports_seq()[i as int]);
                    assert(seq_has_port_data(self.ports_seq(), r@[r0.len() as int]));
                    assert(forall|m: int| 0 <= m < r0.len() ==> r@[m] == r0[m]);
                }
            }
            i += 1;
            proof {
                reveal(Seq::filter);
                let pred = |p: PortData| client_of(p.name@) == client@;
                let t1 = self.ports_seq().take(i as int);
                assert(t1.drop_last() =~= self.ports_seq().take(i - 1));
                assert(t1.last() == self.ports_seq()[i - 1]);
                assert(t1.filter(pred) == if pred(t1.last()) {
                    t1.drop_last().filter(pred).push(t1.last())
                } else {
                    t1.drop_last().filter(pred)
                });
            }
        }
        proof {
            assert(self.ports_seq().take(n as int) =~= self.ports_seq());
        }
        r
    }
}

/// Whether the first `l` listed name pairs, restricted to cached
/// endpoints, join `x` and `y` in either orientation.
pub open spec fn link_listed_upto(
    g: JackGraph,
    links: Seq<(PortFullname, PortFullname)>,
    l: int,
    x: Seq<char>,
    y: Seq<char>,
) -> bool {
    exists|m: int|
        0 <= m < l && g.has_port(links[m].0@) && g.has_port(links[m].1@) && links[m].0@
            != links[m].1@ && (((x, y) == (links[m].0@, links[m].1@)) || ((x, y) == (
        links[m].1@,
        links[m].0@,
        )))
}

/// Whether the listed name pairs, restricted to cached endpoints, join `x`
/// and `y` in either orientation.
pub open spec fn link_listed(
    g: JackGraph,
    links: Seq<(PortFullname, PortFullname)>,
    x: Seq<char>,
    y: Seq<char>,
) -> bool {
    link_listed_upto(g, links, links.len() as int, x, y)
}

/// Whether two ports belong to the same client.
fn same_client(p: &PortData, q: &PortData) -> (r: bool)
    requires
        p.wf(),
        q.wf(),
    ensures
        r == (client_of(p.name@) == client_of(q.name@)),
{
    proof {
        crate::model::ports::lemma_wf_split_is_first_colon(p.name);
        crate::model::ports::lemma_wf_split_is_first_colon(q.name);
    }
    str_eq(p.name.client_name(), q.name.client_name())
}

/// Whether `r` already holds a port named like `p`.
fn name_present(r: &Vec<PortData>, p: &PortData) -> (b: bool)
    ensures
        b == port_name_listed(r@, p.name@),
{
    let n = r.len();
    let mut m: usize = 0;
    while m < n
        invariant
            m <= n,
            n == r@.len(),
            forall|m2: int| 0 <= m2 < m ==> (#[trigger] r@[m2]).name@ != p.name@,
        decreases n - m,
    {
        if str_eq(r[m].name.as_str(), p.name.as_str()) {
            proof {
                assert(r@[m as int].name@ == p.name@);
            }
            return true;
        }
        m += 1;
    }
    proof {
        if port_name_listed(r@, p.name@) {
            let m2 = choose|m2: int| 0 <= m2 < r@.len() && r@[m2].name@ == p.name@;
            assert(r@[m2].name@ != p.name@);
        }
    }
    false
}

/// Whether some port among the first `i` listed belongs to the same client
/// as the `i`-th.
fn client_seen_before(ports: &Vec<PortData>, i: usize) -> (b: bool)
    requires
        i < ports@.len(),
        forall|i2: int| 0 <= i2 < ports@.len() ==> (#[trigger] ports@[i2]).wf(),
    ensures
        b == client_in_prefix(ports@, i as int, client_of(ports@[i as int].name@)),
{
    let mut j: usize = 0;
    while j < i
        invariant
            j <= i,
            i < ports@.len(),
            forall|i2: int| 0 <= i2 < ports@.len() ==> (#[trigger] ports@[i2]).wf(),
            forall|i2: int|
                0 <= i2 < j ==> client_of((#[trigger] ports@[i2]).name@) != client_of(
                    ports@[i as int].name@,
                ),
        decreases i - j,
    {
        if same_client(&ports[j], &ports[i]) {
            proof {
                assert(client_in_prefix(ports@, i as int, client_of(ports@[i as int].name@)));
            }
            return true;
        }
        j += 1;
    }
    proof {
        if client_in_prefix(ports@, i as int, client_of(ports@[i as int].name@)) {
            let i2 = choose|i2: int|
                0 <= i2 < i && client_of(ports@[i2].name@) == client_of(ports@[i as int].name@);
            assert(client_of(ports@[i2].name@) != client_of(ports@[i as int].name@));
        }
    }
    false
}

/// Appends every listed port of the client of `ports[start]` to `r`,
/// skipping names already present. The caller guarantees that no earlier
/// listed port and nothing already in `r` belongs to that client.
#[verifier::rlimit(100)]
fn append_client_run(r: &mut Vec<PortData>, ports: &Vec<PortData>, start: usize)
    requires
        start < ports@.len(),
        forall|i2: int| 0 <= i2 < ports@.len() ==> (#[trigger] ports@[i2]).wf(),
        forall|i2: int|
            0 <= i2 < start ==> client_of((#[trigger] ports@[i2]).name@) != client_of(
                ports@[start as int].name@,
            ),
        forall|m: int|
            0 <= m < old(r)@.len() ==> client_of((#[trigger] old(r)@[m]).name@) != client_of(
                ports@[start as int].name@,
            ),
        forall|m1: int, m2: int|
            0 <= m1 < m2 < old(r)@.len() ==> old(r)@[m1].name@ != old(r)@[m2].name@,
        forall|m: int| 0 <= m < old(r)@.len() ==> (#[trigger] old(r)@[m]).wf(),
        forall|m: int| 0 <= m < old(r)@.len() ==> seq_has_port_data(ports@, #[trigger] old(r)@[m]),
    ensures
        final(r)@.len() >= old(r)@.len(),
        forall|m: int| 0 <= m < old(r)@.len() ==> final(r)@[m] == old(r)@[m],
        forall|m: int|
            old(r)@.len() <= m < final(r)@.len() ==> client_of((#[trigger] final(r)@[m]).name@)
                == client_of(ports@[start as int].name@),
        forall|m1: int, m2: int|
            0 <= m1 < m2 < final(r)@.len() ==> final(r)@[m1].name@ != final(r)@[m2].name@,
        forall|m: int| 0 <= m < final(r)@.len() ==> (#[trigger] final(r)@[m]).wf(),
        forall|m: int|
            0 <= m < final(r)@.len() ==> seq_has_port_data(ports@, #[trigger] final(r)@[m]),
        forall|j: int|
            0 <= j < ports@.len() && client_of((#[trigger] ports@[j]).name@) == client_of(
                ports@[start as int].name@,
            ) ==> port_name_listed(final(r)@, ports@[j].name@),
        forall|m1: int, m2: int|
            old(r)@.len() <= m1 < m2 < final(r)@.len() ==> name_precedes(
                ports@,
                (#[trigger] final(r)@[m1]).name@,
                (#[trigger] final(r)@[m2]).name@,
            ),
{
    let n = ports.len();
    let ghost base = r@;
    let ghost c = client_of(ports@[start as int].name@);
    let mut k: usize = start;
    while k < n
        invariant
            start <= k <= n,
            start < n,
            n == ports@.len(),
            forall|i2: int| 0 <= i2 < ports@.len() ==> (#[trigger] ports@[i2]).wf(),
            c == client_of(ports@[start as int].name@),
            forall|i2: int|
                0 <= i2 < start ==> client_of((#[trigger] ports@[i2]).name@) != c,
            forall|m: int| 0 <= m < base.len() ==> client_of((#[trigger] base[m]).name@) != c,
            r@.len() >= base.len(),
            forall|m: int| 0 <= m < base.len() ==> r@[m] == base[m],
            forall|m: int|
                base.len() <= m < r@.len() ==> client_of((#[trigger] r@[m]).name@) == c,
            forall|m1: int, m2: int| 0 <= m1 < m2 < r@.len() ==> r@[m1].name@ != r@[m2].name@,
            forall|m: int| 0 <= m < r@.len() ==> (#[trigger] r@[m]).wf(),
            forall|m: int| 0 <= m < r@.len() ==> seq_has_port_data(ports@, #[trigger] r@[m]),
            forall|j: int|
                start <= j < k && client_of((#[trigger] ports@[j]).name@) == c
                    ==> port_name_listed(r@, (#[trigger] ports@[j]).name@),
            forall|m: int|
                base.len() <= m < r@.len() ==> exists|j: int|
                    start <= j < k && (#[trigger] r@[m]).name@ == ports@[j].name@,
            forall|m1: int, m2: int|
                base.len() <= m1 < m2 < r@.len() ==> name_precedes(
                    ports@,
                    (#[trigger] r@[m1]).name@,
                    (#[trigger] r@[m2]).name@,
                ),
        decreases n - k,
    {
        if same_client(&ports[k], &ports[start]) {
            let present = name_present(&r, &ports[k]);
            if !present {
                let ghost r0 = r@;
                let p = ports[k].clone();
                r.push(p);
                proof {
                    assert(r@[r0.len() as int] == ports@[k as int]);
                    assert(seq_has_port_data(ports@, r@[r0.len() as int]));
                    assert(port_name_listed(r@, ports@[k as int].name@));
                    assert(forall|m: int| 0 <= m < r0.len() ==> r@[m] == r0[m]);
                    assert forall|m: int|
                        0 <= m < r0.len() && port_name_listed(r0, (#[trigger] r0[m]).name@)
                            implies port_name_listed(r@, r0[m].name@) by {}
                    assert forall|j: int|
                        start <= j < k + 1 && client_of((#[trigger] ports@[j]).name@) == c
                            implies port_name_listed(r@, ports@[j].name@) by {
                        if j < k {
                            let m = choose|m: int|
                                0 <= m < r0.len() && r0[m].name@ == ports@[j].name@;
                            assert(r@[m].name@ == ports@[j].name@);
                        }
                    }
                    assert forall|j2: int| 0 <= j2 < k implies (#[trigger] ports@[j2]).name@
                        != ports@[k as int].name@ by {
                        if ports@[j2].name@ == ports@[k as int].name@ {
                            assert(client_of(ports@[j2].name@) == c);
                            if j2 >= start {
                                assert(port_name_listed(r0, ports@[j2].name@));
                                assert(false);
                            } else {
                                assert(client_of(ports@[j2].name@) != c);
                                assert(false);
                            }
                        }
                    }
                    assert forall|m: int|
                        base.len() <= m < r@.len() implies exists|j: int|
                        start <= j < k + 1 && (#[trigger] r@[m]).name@ == ports@[j].name@ by {
                        if m < r0.len() {
                            assert(r@[m] == r0[m]);
                            let j = choose|j: int|
                                start <= j < k && r0[m].name@ == ports@[j].name@;
                            assert(start <= j < k + 1 && r@[m].name@ == ports@[j].name@);
                        } else {
                            assert(r@[m].name@ == ports@[k as int].name@);
                            assert(start <= (k as int) && (k as int) < k + 1);
                        }
                    }
                    assert forall|m1: int|
                        base.len() <= m1 < r0.len() implies name_precedes(
                        ports@,
                        r0[m1].name@,
                        ports@[k as int].name@,
                    ) by {
                        let j = choose|j: int| start <= j < k && r0[m1].name@ == ports@[j].name@;
                        reveal(name_precedes);
                        assert forall|j2: int|
                            0 <= j2 < ports@.len() && (#[trigger] ports@[j2]).name@
                                == ports@[k as int].name@ implies exists|j1: int|
                            0 <= j1 < j2 && ports@[j1].name@ == r0[m1].name@ by {
                            assert(j2 >= k);
                            assert(0 <= j < j2 && ports@[j].name@ == r0[m1].name@);
                        }
                    }
                    assert forall|m1: int, m2: int|
                        base.len() <= m1 < m2 < r@.len() implies name_precedes(
                        ports@,
                        (#[trigger] r@[m1]).name@,
                        (#[trigger] r@[m2]).name@,
                    ) by {
                        if m2 < r0.len() {
                            assert(r@[m1] == r0[m1] && r@[m2] == r0[m2]);
                            assert(name_precedes(ports@, r0[m1].name@, r0[m2].name@));
                        } else {
                            assert(r@[m2].name@ == ports@[k as int].name@);
                            assert(r@[m1] == r0[m1]);
                            assert(name_precedes(ports@, r0[m1].name@, ports@[k as int].name@));
                        }
                    }
                }
            } else {
                proof {
                    assert forall|j: int|
                        start <= j < k + 1 && client_of((#[trigger] ports@[j]).name@) == c
                            implies port_name_listed(r@, ports@[j].name@) by {}
                    assert forall|m: int|
                        base.len() <= m < r@.len() implies exists|j: int|
                        start <= j < k + 1 && (#[trigger] r@[m]).name@ == ports@[j].name@ by {
                        let j = choose|j: int| start <= j < k && r@[m].name@ == ports@[j].name@;
                        assert(start <= j < k + 1 && r@[m].name@ == ports@[j].name@);
                    }
                }
            }
        } else {
            proof {
                assert forall|m: int|
                    base.len() <= m < r@.len() implies exists|j: int|
                    start <= j < k + 1 && (#[trigger] r@[m]).name@ == ports@[j].name@ by {
                    let j = choose|j: int| start <= j < k && r@[m].name@ == ports@[j].name@;
                    assert(start <= j < k + 1 && r@[m].name@ == ports@[j].name@);
                }
            }
        }
        k += 1;
    }
    proof {
        assert forall|j: int|
            0 <= j < ports@.len() && client_of((#[trigger] ports@[j]).name@) == c
            implies port_name_listed(r@, ports@[j].name@) by {
            assert(j >= start);
        }
    }
}

/// Groups the listed ports by client, keeping clients in order of first
/// appearance and ports of one client in listing order, and dropping
/// duplicated names.
#[verifier::rlimit(100)]
fn build_grouped_ports(ports: &Vec<PortData>) -> (r: Vec<PortData>)
    requires
        forall|i: int| 0 <= i < ports@.len() ==> (#[trigger] ports@[i]).wf(),
    ensures
        grouped_by_client(r@),
        forall|i: int, j: int| 0 <= i < j < r@.len() ==> r@[i].name@ != r@[j].name@,
        forall|i: int| 0 <= i < r@.len() ==> (#[trigger] r@[i]).wf(),
        forall|i: int| 0 <= i < r@.len() ==> seq_has_port_data(ports@, #[trigger] r@[i]),
        forall|j: int|
            0 <= j < ports@.len() ==> port_name_listed(r@, (#[trigger] ports@[j]).name@),
        forall|m1: int, m2: int|
            0 <= m1 < m2 < r@.len() && client_of((#[trigger] r@[m1]).name@) != client_of(
                (#[trigger] r@[m2]).name@,
            ) ==> client_precedes(ports@, client_of(r@[m1].name@), client_of(r@[m2].name@)),
        forall|m1: int, m2: int|
            0 <= m1 < m2 < r@.len() && client_of((#[trigger] r@[m1]).name@) == client_of(
                (#[trigger] r@[m2]).name@,
            ) ==> name_precedes(ports@, r@[m1].name@, r@[m2].name@),
{
    let n = ports.len();
    let mut r: Vec<PortData> = Vec::new();
    let mut i: usize = 0;
    while i < n
        invariant
            i <= n,
            n == ports@.len(),
            forall|i2: int| 0 <= i2 < ports@.len() ==> (#[trigger] ports@[i2]).wf(),
            grouped_by_client(r@),
            forall|m1: int, m2: int| 0 <= m1 < m2 < r@.len() ==> r@[m1].name@ != r@[m2].name@,
            forall|m: int| 0 <= m < r@.len() ==> (#[trigger] r@[m]).wf(),
            forall|m: int| 0 <= m < r@.len() ==> seq_has_port_data(ports@, #[trigger] r@[m]),
            forall|m: int|
                0 <= m < r@.len() ==> client_in_prefix(
                    ports@,
                    i as int,
                    client_of((#[trigger] r@[m]).name@),
                ),
            forall|j: int|
                0 <= j < ports@.len() && client_in_prefix(
                    ports@,
                    i as int,
                    client_of((#[trigger] ports@[j]).name@),
                ) ==> port_name_listed(r@, (#[trigger] ports@[j]).name@),
            forall|m1: int, m2: int|
                0 <= m1 < m2 < r@.len() && client_of((#[trigger] r@[m1]).name@) != client_of(
                    (#[trigger] r@[m2]).name@,
                ) ==> client_precedes(ports@, client_of(r@[m1].name@), client_of(r@[m2].name@)),
            forall|m1: int, m2: int|
                0 <= m1 < m2 < r@.len() && client_of((#[trigger] r@[m1]).name@) == client_of(
                    (#[trigger] r@[m2]).name@,
                ) ==> name_precedes(ports@, r@[m1].name@, r@[m2].name@),
        decreases n - i,
    {
        let seen = client_seen_before(&ports, i);
        if !seen {
            let ghost base = r@;
            let ghost c = client_of(ports@[i as int].name@);
            proof {
                assert forall|m: int|
                    0 <= m < r@.len() implies client_of((#[trigger] r@[m]).name@) != c by {
                    assert(client_in_prefix(ports@, i as int, client_of(r@[m].name@)));
                    let i2 = choose|i2: int|
                        0 <= i2 < i && client_of(ports@[i2].name@) == client_of(r@[m].name@);
                    if client_of(r@[m].name@) == c {
                        assert(client_in_prefix(ports@, i as int, c));
                    }
                }
            }
            append_client_run(&mut r, &ports, i);
            proof {
                assert forall|i1: int, j1: int, k1: int|
                    0 <= i1 < j1 < k1 < r@.len() && client_of(r@[i1].name@) == client_of(
                        r@[k1].name@,
                    ) implies client_of(r@[j1].name@) == client_of(r@[k1].name@) by {
                    if k1 < base.len() {
                        assert(grouped_by_client(base));
                        assert(client_of(base[i1].name@) == client_of(base[k1].name@)
                            ==> client_of(base[j1].name@) == client_of(base[k1].name@));
                    } else if i1 >= base.len() {
                    } else {
                        assert(client_of(r@[k1].name@) == c);
                        if client_of(r@[i1].name@) == c {
                            assert(client_of(base[i1].name@) != c);
                            assert(false);
                        }
                    }
                }
                assert forall|m: int|
                    0 <= m < r@.len() implies client_in_prefix(
                    ports@,
                    i + 1,
                    client_of((#[trigger] r@[m]).name@),
                ) by {
                    if m < base.len() {
                        assert(client_in_prefix(ports@, i as int, client_of(base[m].name@)));
                        let i2 = choose|i2: int|
                            0 <= i2 < i && client_of(ports@[i2].name@) == client_of(
                                base[m].name@,
                            );
                        assert(client_of(r@[m].name@) == client_of(ports@[i2].name@));
                    } else {
                        assert(client_of(r@[m].name@) == client_of(ports@[i as int].name@));
                    }
                }
                assert forall|j: int|
                    0 <= j < ports@.len() && client_in_prefix(
                        ports@,
                        i + 1,
                        client_of((#[trigger] ports@[j]).name@),
                    ) implies port_name_listed(r@, ports@[j].name@) by {
                    let i2 = choose|i2: int|
                        0 <= i2 < i + 1 && client_of(ports@[i2].name@) == client_of(
                            ports@[j].name@,
                        );
                    if i2 < i {
                        assert(client_in_prefix(ports@, i as int, client_of(ports@[j].name@)));
                        let m = choose|m: int|
                            0 <= m < base.len() && base[m].name@ == ports@[j].name@;
                        assert(r@[m].name@ == ports@[j].name@);
                        assert(port_name_listed(r@, ports@[j].name@));
                    } else {
                        assert(client_of(ports@[j].name@) == c);
                    }
                }
                lemma_client_precedes_extend(ports@, base, r@, i as int, c);
                assert forall|m: int|
                    0 <= m < base.len() implies client_of((#[trigger] base[m]).name@) != c by {
                    assert(client_in_prefix(ports@, i as int, client_of(base[m].name@)));
                    if client_of(base[m].name@) == c {
                        assert(client_in_prefix(ports@, i as int, c));
                    }
                }
                lemma_name_precedes_extend(ports@, base, r@, c);
            }
        } else {
            proof {
                assert(client_in_prefix(ports@, i as int, client_of(ports@[i as int].name@)));
                assert forall|m: int|
                    0 <= m < r@.len() implies client_in_prefix(
                    ports@,
                    i + 1,
                    client_of((#[trigger] r@[m]).name@),
                ) by {
                    assert(client_in_prefix(ports@, i as int, client_of(r@[m].name@)));
                    let i2 = choose|i2: int|
                        0 <= i2 < i && client_of(ports@[i2].name@) == client_of(r@[m].name@);
                }
                assert forall|j: int|
                    0 <= j < ports@.len() && client_in_prefix(
                        ports@,
                        i + 1,
                        client_of((#[trigger] ports@[j]).name@),
                    ) implies port_name_listed(r@, ports@[j].name@) by {
                    let i2 = choose|i2: int|
                        0 <= i2 < i + 1 && client_of(ports@[i2].name@) == client_of(
                            ports@[j].name@,
                        );
                    if i2 == i {
                        let i3 = choose|i3: int|
                            0 <= i3 < i && client_of(ports@[i3].name@) == client_of(
                                ports@[i as int].name@,
                            );
                        assert(client_in_prefix(ports@, i as int, client_of(ports@[j].name@)));
                    } else {
                        assert(client_in_prefix(ports@, i as int, client_of(ports@[j].name@)));
                    }
                }
            }
        }
        i += 1;
    }
    proof {
        assert forall|j: int|
            0 <= j < ports@.len() implies port_name_listed(r@, (#[trigger] ports@[j]).name@) by {
            assert(client_in_prefix(ports@, n as int, client_of(ports@[j].name@)));
        }
    }
    r
}

/// Whether the sorted pair list holds `key`.
fn find_index_pair(v: &Vec<(usize, usize)>, key: (usize, usize)) -> (r: bool)
    ensures
        r == pair_in_seq(v@, key),
{
    let n = v.len();
    let mut i: usize = 0;
    while i < n
        invariant
            i <= n,
            n == v@.len(),
            forall|j: int| 0 <= j < i ==> v@[j] != key,
        decreases n - i,
    {
        let p = v[i];
        if p.0 == key.0 && p.1 == key.1 {
            proof {
                assert(v@[i as int] == key);
            }
            return true;
        }
        i += 1;
    }
    proof {
        if pair_in_seq(v@, key) {
            let k = choose|k: int| 0 <= k < v@.len() && v@[k] == key;
            assert(v@[k] != key);
        }
    }
    false
}

/// Inserts `key` into the strictly sorted pair list, keeping it sorted and
/// duplicate free; a present key is left alone.
fn insert_index_pair(v: &mut Vec<(usize, usize)>, key: (usize, usize))
    requires
        forall|k1: int, k2: int| 0 <= k1 < k2 < old(v)@.len() ==> ipair_lt(old(v)@[k1], old(v)@[k2]),
    ensures
        forall|k1: int, k2: int|
            0 <= k1 < k2 < final(v)@.len() ==> ipair_lt(final(v)@[k1], final(v)@[k2]),
        forall|p: (usize, usize)|
            #[trigger] pair_in_seq(final(v)@, p) <==> pair_in_seq(old(v)@, p) || p == key,
{
    let n = v.len();
    let mut i: usize = 0;
    while i < n && (v[i].0 < key.0 || (v[i].0 == key.0 && v[i].1 < key.1))
        invariant
            i <= n,
            n == v@.len(),
            v@ == old(v)@,
            forall|j: int| 0 <= j < i ==> ipair_lt(v@[j], key),
        decreases n - i,
    {
        i += 1;
    }
    if i < n {
        let p = v[i];
        if p.0 == key.0 && p.1 == key.1 {
            proof {
                assert(v@[i as int] == key);
                assert forall|p2: (usize, usize)| #[trigger] pair_in_seq(v@, p2) <==> pair_in_seq(
                    old(v)@,
                    p2,
                ) || p2 == key by {
                    if p2 == key {
                        assert(pair_in_seq(v@, p2));
                    }
                }
            }
            return ;
        }
    }
    let ghost old_v = v@;
    proof {
        if i < old_v.len() {
            assert(!ipair_lt(old_v[i as int], key));
            assert(old_v[i as int] != key);
        }
    }
    v.insert(i, key);
    proof {
        assert(v@.len() == old_v.len() + 1);
        assert(forall|j: int| 0 <= j < i ==> v@[j] == old_v[j]);
        assert(v@[i as int] == key);
        assert(forall|j: int| i < j < v@.len() ==> v@[j] == old_v[j - 1]);
        assert forall|k1: int, k2: int| 0 <= k1 < k2 < v@.len() implies ipair_lt(v@[k1], v@[k2]) by {
            if k2 == i {
                assert(ipair_lt(old_v[k1], key));
            } else if k1 == i {
                assert(k2 - 1 >= i && k2 - 1 < old_v.len());
                assert(!ipair_lt(old_v[i as int], key) && old_v[i as int] != key);
                assert(ipair_lt(key, old_v[i as int]));
                if k2 - 1 > i {
                    assert(ipair_lt(old_v[i as int], old_v[k2 - 1]));
                }
                assert(ipair_lt(key, old_v[k2 - 1]));
            } else if k1 < i && k2 > i {
                assert(v@[k1] == old_v[k1] && v@[k2] == old_v[k2 - 1]);
                assert(k1 < k2 - 1 || k1 == k2 - 1);
                if k1 < k2 - 1 {
                    assert(ipair_lt(old_v[k1], old_v[k2 - 1]));
                } else {
                    assert(ipair_lt(old_v[k1], key));
                    assert(ipair_lt(key, old_v[i as int]));
                }
            }
        }
        assert forall|p: (usize, usize)| #[trigger] pair_in_seq(v@, p) <==> pair_in_seq(
            old_v,
            p,
        ) || p == key by {
            if pair_in_seq(v@, p) {
                let k = choose|k: int| 0 <= k < v@.len() && v@[k] == p;
                if k < i {
                    assert(old_v[k] == p);
                } else if k > i {
                    assert(old_v[k - 1] == p);
                }
            }
            if pair_in_seq(old_v, p) {
                let k = choose|k: int| 0 <= k < old_v.len() && old_v[k] == p;
                if k < i {
                    assert(v@[k] == p);
                } else {
                    assert(v@[k + 1] == p);
                }
                assert(pair_in_seq(v@, p));
            }
            if p == key {
                assert(v@[i as int] == p);
                assert(pair_in_seq(v@, p));
            }
        }
    }
}

/// Removes `key` from the strictly sorted pair list if present; returns
/// whether it was.
fn remove_index_pair(v: &mut Vec<(usize, usize)>, key: (usize, usize)) -> (removed: bool)
    requires
        forall|k1: int, k2: int| 0 <= k1 < k2 < old(v)@.len() ==> ipair_lt(old(v)@[k1], old(v)@[k2]),
    ensures
        forall|k1: int, k2: int|
            0 <= k1 < k2 < final(v)@.len() ==> ipair_lt(final(v)@[k1], final(v)@[k2]),
        removed == pair_in_seq(old(v)@, key),
        removed ==> forall|p: (usize, usize)|
            #[trigger] pair_in_seq(final(v)@, p) <==> (pair_in_seq(old(v)@, p) && p != key),
        !removed ==> final(v)@ == old(v)@,
{
    let n = v.len();
    let mut i: usize = 0;
    while i < n
        invariant
            i <= n,
            n == v@.len(),
            v@ == old(v)@,
            forall|k1: int, k2: int| 0 <= k1 < k2 < v@.len() ==> ipair_lt(v@[k1], v@[k2]),
            forall|j: int| 0 <= j < i ==> v@[j] != key,
        decreases n - i,
    {
        let p = v[i];
        if p.0 == key.0 && p.1 == key.1 {
            let ghost old_v = v@;
            proof {
                assert(old_v[i as int] == key);
                assert(pair_in_seq(old_v, key));
            }
            v.remove(i);
            proof {
                assert(v@.len() == old_v.len() - 1);
                assert(forall|j: int| 0 <= j < i ==> v@[j] == old_v[j]);
                assert(forall|j: int| i <= j < v@.len() ==> v@[j] == old_v[j + 1]);
                assert forall|k1: int, k2: int|
                    0 <= k1 < k2 < v@.len() implies ipair_lt(v@[k1], v@[k2]) by {
                    let o1: int = if k1 < i {
                        k1
                    } else {
                        k1 + 1
                    };
                    let o2: int = if k2 < i {
                        k2
                    } else {
                        k2 + 1
                    };
                    assert(v@[k1] == old_v[o1] && v@[k2] == old_v[o2]);
                    assert(ipair_lt(old_v[o1], old_v[o2]));
                }
                assert forall|p2: (usize, usize)| #[trigger] pair_in_seq(v@, p2) <==> (
                pair_in_seq(old_v, p2) && p2 != key) by {
                    if pair_in_seq(v@, p2) {
                        let k = choose|k: int| 0 <= k < v@.len() && v@[k] == p2;
                        if k < i {
                            assert(old_v[k] == p2);
                            if p2 == key {
                                assert(ipair_lt(old_v[k], old_v[i as int]));
                                assert(!ipair_lt(old_v[k], old_v[i as int]));
                            }
                        } else {
                            assert(old_v[k + 1] == p2);
                            if p2 == key {
                                assert(ipair_lt(old_v[i as int], old_v[k + 1]));
                                assert(!ipair_lt(old_v[i as int], old_v[k + 1]));
                            }
                        }
                        assert(pair_in_seq(old_v, p2) && p2 != key);
                    }
                    if pair_in_seq(old_v, p2) && p2 != key {
                        let k = choose|k: int| 0 <= k < old_v.len() && old_v[k] == p2;
                        if k < i {
                            assert(v@[k] == p2);
                        } else if k > i {
                            assert(v@[k - 1] == p2);
                        }
                        assert(pair_in_seq(v@, p2));
                    }
                }
            }
            return true;
        }
        i += 1;
    }
    proof {
        if pair_in_seq(v@, key) {
            let k = choose|k: int| 0 <= k < v@.len() && v@[k] == key;
            assert(v@[k] != key);
        }
    }
    false
}

/// Patching the cache after a local connect agrees with a full refresh
/// against the same external state: if `fresh` mirrors the externally
/// listed `links`, `patched` is `fresh` with the pair `{a, b}` recorded,
/// and `refreshed` mirrors the same listing extended by `(a, b)` over the
/// same ports, then `patched` and `refreshed` hold the same ports and the
/// same connections.
pub proof fn lemma_patch_refresh_equivalence(
    fresh: JackGraph,
    patched: JackGraph,
    refreshed: JackGraph,
    links: Seq<(PortFullname, PortFullname)>,
    a: PortFullname,
    b: PortFullname,
)
    requires
        fresh.wf(),
        patched.wf(),
        refreshed.wf(),
        forall|x: Seq<char>, y: Seq<char>| fresh.has_link(x, y) <==> link_listed(
            fresh,
            links,
            x,
            y,
        ),
        patched.ports_seq() == fresh.ports_seq(),
        fresh.has_port(a@) && fresh.has_port(b@) && a@ != b@,
        forall|x: Seq<char>, y: Seq<char>| patched.has_link(x, y) <==> (fresh.has_link(x, y) || ((
        x,
        y,
        ) == (a@, b@) || (x, y) == (b@, a@))),
        forall|z: Seq<char>| refreshed.has_port(z) <==> fresh.has_port(z),
        forall|x: Seq<char>, y: Seq<char>| refreshed.has_link(x, y) <==> link_listed(
            refreshed,
            links.push((a, b)),
            x,
            y,
        ),
    ensures
        forall|z: Seq<char>| patched.has_port(z) <==> refreshed.has_port(z),
        forall|x: Seq<char>, y: Seq<char>| patched.has_link(x, y) <==> refreshed.has_link(x, y),
{
    assert forall|z: Seq<char>| patched.has_port(z) <==> refreshed.has_port(z) by {
        if patched.has_port(z) {
            let i = choose|i: int|
                0 <= i < patched.ports_seq().len() && patched.ports_seq()[i].name@ == z;
            assert(fresh.ports_seq()[i].name@ == z);
        }
        if fresh.has_port(z) {
            let i = choose|i: int|
                0 <= i < fresh.ports_seq().len() && fresh.ports_seq()[i].name@ == z;
            assert(patched.ports_seq()[i].name@ == z);
        }
    }
    let ext = links.push((a, b));
    assert forall|x: Seq<char>, y: Seq<char>| patched.has_link(x, y) <==> refreshed.has_link(
        x,
        y,
    ) by {
        if patched.has_link(x, y) {
            if fresh.has_link(x, y) {
                let m = choose|m: int|
                    0 <= m < links.len() && fresh.has_port(links[m].0@) && fresh.has_port(
                        links[m].1@,
                    ) && links[m].0@ != links[m].1@ && (((x, y) == (links[m].0@, links[m].1@)) || (
                    (x, y) == (links[m].1@, links[m].0@)));
                assert(ext[m] == links[m]);
                assert(refreshed.has_port(ext[m].0@) && refreshed.has_port(ext[m].1@));
                assert(link_listed_upto(refreshed, ext, ext.len() as int, x, y));
            } else {
                assert((x, y) == (a@, b@) || (x, y) == (b@, a@));
                assert(ext[links.len() as int] == (a, b));
                assert(refreshed.has_port(a@) && refreshed.has_port(b@));
                assert(link_listed_upto(refreshed, ext, ext.len() as int, x, y));
            }
            assert(refreshed.has_link(x, y));
        }
        if refreshed.has_link(x, y) {
            let m = choose|m: int|
                0 <= m < ext.len() && refreshed.has_port(ext[m].0@) && refreshed.has_port(
                    ext[m].1@,
                ) && ext[m].0@ != ext[m].1@ && (((x, y) == (ext[m].0@, ext[m].1@)) || ((x, y) == (
                ext[m].1@,
                ext[m].0@,
                )));
            if m < links.len() {
                assert(ext[m] == links[m]);
                assert(fresh.has_port(links[m].0@) && fresh.has_port(links[m].1@));
                assert(link_listed_upto(fresh, links, links.len() as int, x, y));
                assert(fresh.has_link(x, y));
            } else {
                assert(ext[m] == (a, b));
                assert((x, y) == (a@, b@) || (x, y) == (b@, a@));
            }
            assert(patched.has_link(x, y));
        }
    }
}

/// The disconnect counterpart: if `fresh` mirrors the listed `links`,
/// `patched` is `fresh` with the pair `{a, b}` removed, and `refreshed`
/// mirrors a listing `links2` holding exactly the links of `links` other
/// than that pair, over the same ports, then `patched` and `refreshed`
/// hold the same ports and the same connections.
pub proof fn lemma_unpatch_refresh_equivalence(
    fresh: JackGraph,
    patched: JackGraph,
    refreshed: JackGraph,
    links: Seq<(PortFullname, PortFullname)>,
    links2: Seq<(PortFullname, PortFullname)>,
    a: PortFullname,
    b: PortFullname,
)
    requires
        fresh.wf(),
        patched.wf(),
        refreshed.wf(),
        forall|x: Seq<char>, y: Seq<char>| fresh.has_link(x, y) <==> link_listed(
            fresh,
            links,
            x,
            y,
        ),
        patched.ports_seq() == fresh.ports_seq(),
        forall|x: Seq<char>, y: Seq<char>| patched.has_link(x, y) <==> (fresh.has_link(x, y) && !((
        x,
        y,
        ) == (a@, b@) || (x, y) == (b@, a@))),
        forall|z: Seq<char>| refreshed.has_port(z) <==> fresh.has_port(z),
        forall|x: Seq<char>, y: Seq<char>| link_listed(refreshed, links2, x, y) <==> (link_listed(
            refreshed,
            links,
            x,
            y,
        ) && !((x, y) == (a@, b@) || (x, y) == (b@, a@))),
        forall|x: Seq<char>, y: Seq<char>| refreshed.has_link(x, y) <==> link_listed(
            refreshed,
            links2,
            x,
            y,
        ),
    ensures
        forall|z: Seq<char>| patched.has_port(z) <==> refreshed.has_port(z),
        forall|x: Seq<char>, y: Seq<char>| patched.has_link(x, y) <==> refreshed.has_link(x, y),
{
    assert forall|z: Seq<char>| patched.has_port(z) <==> refreshed.has_port(z) by {
        if patched.has_port(z) {
            let i = choose|i: int|
                0 <= i < patched.ports_seq().len() && patched.ports_seq()[i].name@ == z;
            assert(fresh.ports_seq()[i].name@ == z);
        }
        if fresh.has_port(z) {
            let i = choose|i: int|
                0 <= i < fresh.ports_seq().len() && fresh.ports_seq()[i].name@ == z;
            assert(patched.ports_seq()[i].name@ == z);
        }
    }
    assert forall|x: Seq<char>, y: Seq<char>| link_listed(refreshed, links, x, y) <==> link_listed(
        fresh,
        links,
        x,
        y,
    ) by {
        if link_listed(refreshed, links, x, y) {
            let m = choose|m: int|
                0 <= m < links.len() && refreshed.has_port(links[m].0@) && refreshed.has_port(
                    links[m].1@,
                ) && links[m].0@ != links[m].1@ && (((x, y) == (links[m].0@, links[m].1@)) || ((
                x,
                y,
                ) == (links[m].1@, links[m].0@)));
            assert(fresh.has_port(links[m].0@) && fresh.has_port(links[m].1@));
            assert(link_listed_upto(fresh, links, links.len() as int, x, y));
        }
        if link_listed(fresh, links, x, y) {
            let m = choose|m: int|
                0 <= m < links.len() && fresh.has_port(links[m].0@) && fresh.has_port(
                    links[m].1@,
                ) && links[m].0@ != links[m].1@ && (((x, y) == (links[m].0@, links[m].1@)) || ((
                x,
                y,
                ) == (links[m].1@, links[m].0@)));
            assert(refreshed.has_port(links[m].0@) && refreshed.has_port(links[m].1@));
            assert(link_listed_upto(refreshed, links, links.len() as int, x, y));
        }
    }
}

} // verus!
