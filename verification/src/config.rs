//! The lock policy: a small status lattice and the three-tier configuration
//! that derives an effective status for any client, port or pair of ports.

use vstd::map::*;
use vstd::prelude::*;
use vstd::string::StringExecFns;

use crate::config::parsing::{ClientInfo, ConfigFile, LockEntry, PortInfo};
use crate::model::ports::{
    client_of, lemma_lex_lt_properties, lemma_wf_split_is_first_colon, lex_lt, spec_name_error,
    str_eq, valid_port_name, PortFullname,
};
use crate::model::NameError;

pub mod parsing;

verus! {

/// Policy intent for a client, a port, or a declared connection pair.
///
/// The four values form a two-bit lattice: `None` holds no bit, `Force` and
/// `Block` hold one bit each, and `Full` is the join of both.
#[derive(Debug, Copy, Clone, Eq, PartialEq, Hash, Structural)]
pub enum LockStatus {
    Unlocked,
    Force,
    Block,
    Full,
}

impl LockStatus {
    /// Adds the blocking bit; never clears the forcing bit.
    pub fn with_block(self) -> (r: LockStatus)
        ensures
            r == self.spec_with_block(),
    {
        match self {
            LockStatus::Unlocked | LockStatus::Block => LockStatus::Block,
            LockStatus::Force | LockStatus::Full => LockStatus::Full,
        }
    }

    /// Adds the forcing bit; never clears the blocking bit.
    pub fn with_force(self) -> (r: LockStatus)
        ensures
            r == self.spec_with_force(),
    {
        match self {
            LockStatus::Unlocked | LockStatus::Force => LockStatus::Force,
            LockStatus::Block | LockStatus::Full => LockStatus::Full,
        }
    }

    /// True when the status carries the forcing bit.
    pub fn should_force(self) -> (r: bool)
        ensures
            r == self.spec_should_force(),
    {
        match self {
            LockStatus::Unlocked | LockStatus::Block => false,
            LockStatus::Force | LockStatus::Full => true,
        }
    }

    /// True when the status carries the blocking bit.
    pub fn should_block(self) -> (r: bool)
        ensures
            r == self.spec_should_block(),
    {
        match self {
            LockStatus::Unlocked | LockStatus::Force => false,
            LockStatus::Block | LockStatus::Full => true,
        }
    }

    pub open spec fn spec_with_block(self) -> LockStatus {
        match self {
            LockStatus::Unlocked | LockStatus::Block => LockStatus::Block,
            LockStatus::Force | LockStatus::Full => LockStatus::Full,
        }
    }

    pub open spec fn spec_with_force(self) -> LockStatus {
        match self {
            LockStatus::Unlocked | LockStatus::Force => LockStatus::Force,
            LockStatus::Block | LockStatus::Full => LockStatus::Full,
        }
    }

    pub open spec fn spec_should_force(self) -> bool {
        self == LockStatus::Force || self == LockStatus::Full
    }

    pub open spec fn spec_should_block(self) -> bool {
        self == LockStatus::Block || self == LockStatus::Full
    }
}

impl Default for LockStatus {
    /// A status with no bits set: the entity is unrestricted.
    fn default() -> (r: Self)
        ensures
            r == LockStatus::Unlocked,
    {
        LockStatus::Unlocked
    }
}

/// A strict order on canonical pairs: by first name, then by second.
pub open spec fn pair_lt(x: (Seq<char>, Seq<char>), y: (Seq<char>, Seq<char>)) -> bool {
    lex_lt(x.0, y.0) || (x.0 == y.0 && lex_lt(x.1, y.1))
}

pub proof fn lemma_pair_lt_properties(x: (Seq<char>, Seq<char>), y: (Seq<char>, Seq<char>))
    ensures
        !(pair_lt(x, y) && pair_lt(y, x)),
        !pair_lt(x, y) && !pair_lt(y, x) ==> x.0 == y.0 && x.1 == y.1,
{
    lemma_lex_lt_properties(x.0, y.0);
    lemma_lex_lt_properties(x.1, y.1);
}

pub proof fn lemma_pair_lt_trans(
    x: (Seq<char>, Seq<char>),
    y: (Seq<char>, Seq<char>),
    z: (Seq<char>, Seq<char>),
)
    requires
        pair_lt(x, y),
        pair_lt(y, z),
    ensures
        pair_lt(x, z),
{
    lemma_lex_lt_properties(x.0, y.0);
    lemma_lex_lt_properties(y.0, z.0);
    if lex_lt(x.0, y.0) && lex_lt(y.0, z.0) {
        crate::model::ports::lemma_lex_lt_trans(x.0, y.0, z.0);
    }
    if x.0 == y.0 && y.0 == z.0 {
        crate::model::ports::lemma_lex_lt_trans(x.1, y.1, z.1);
    }
}

/// The per-client lock map described by an association list; later entries
/// overwrite earlier ones.
pub open spec fn client_map_of(s: Seq<(String, LockStatus)>) -> Map<Seq<char>, LockStatus>
    decreases s.len(),
{
    if s.len() == 0 {
        Map::empty()
    } else {
        client_map_of(s.drop_last()).insert(s.last().0@, s.last().1)
    }
}

/// The per-port lock map described by an association list; later entries
/// overwrite earlier ones.
pub open spec fn port_map_of(s: Seq<(PortFullname, LockStatus)>) -> Map<Seq<char>, LockStatus>
    decreases s.len(),
{
    if s.len() == 0 {
        Map::empty()
    } else {
        port_map_of(s.drop_last()).insert(s.last().0@, s.last().1)
    }
}

/// The names of a sequence of pairs of ports.
pub open spec fn pair_views(s: Seq<(PortFullname, PortFullname)>) -> Seq<(Seq<char>, Seq<char>)> {
    s.map_values(|p: (PortFullname, PortFullname)| (p.0@, p.1@))
}


/// On an association list with pairwise-distinct keys, the map it describes
/// holds exactly the listed keys, each at its listed value.
proof fn lemma_client_map_lookup(s: Seq<(String, LockStatus)>, k: Seq<char>)
    requires
        forall|i: int, j: int| 0 <= i < j < s.len() ==> s[i].0@ != s[j].0@,
    ensures
        client_map_of(s).contains_key(k) <==> exists|i: int| 0 <= i < s.len() && s[i].0@ == k,
        forall|i: int| 0 <= i < s.len() && s[i].0@ == k ==> client_map_of(s)[k] == s[i].1,
    decreases s.len(),
{
    if s.len() > 0 {
        lemma_client_map_lookup(s.drop_last(), k);
        if client_map_of(s).contains_key(k) && s.last().0@ != k {
            let i = choose|i: int| 0 <= i < s.drop_last().len() && s.drop_last()[i].0@ == k;
            assert(s[i].0@ == k);
        }
        if exists|i: int| 0 <= i < s.len() && s[i].0@ == k {
            let i = choose|i: int| 0 <= i < s.len() && s[i].0@ == k;
            if i < s.len() - 1 {
                assert(s.drop_last()[i].0@ == k);
            }
        }
    }
}

proof fn lemma_port_map_lookup(s: Seq<(PortFullname, LockStatus)>, k: Seq<char>)
    requires
        forall|i: int, j: int| 0 <= i < j < s.len() ==> s[i].0@ != s[j].0@,
    ensures
        port_map_of(s).contains_key(k) <==> exists|i: int| 0 <= i < s.len() && s[i].0@ == k,
        forall|i: int| 0 <= i < s.len() && s[i].0@ == k ==> port_map_of(s)[k] == s[i].1,
    decreases s.len(),
{
    if s.len() > 0 {
        lemma_port_map_lookup(s.drop_last(), k);
        if port_map_of(s).contains_key(k) && s.last().0@ != k {
            let i = choose|i: int| 0 <= i < s.drop_last().len() && s.drop_last()[i].0@ == k;
            assert(s[i].0@ == k);
        }
        if exists|i: int| 0 <= i < s.len() && s[i].0@ == k {
            let i = choose|i: int| 0 <= i < s.len() && s[i].0@ == k;
            if i < s.len() - 1 {
                assert(s.drop_last()[i].0@ == k);
            }
        }
    }
}


/// The three views of a configuration: the client map, the port map and
/// the declared pair set.
pub open spec fn cfg_views(c: LockConfig) -> (
    Map<Seq<char>, LockStatus>,
    Map<Seq<char>, LockStatus>,
    Set<(Seq<char>, Seq<char>)>,
) {
    (c.client_map(), c.port_map(), c.pair_set())
}

/// The canonical form of an unordered pair: smaller name first.
pub open spec fn canon_pair(x: Seq<char>, y: Seq<char>) -> (Seq<char>, Seq<char>) {
    if lex_lt(y, x) {
        (y, x)
    } else {
        (x, y)
    }
}

/// Records the declared connections of the port named `x`: each peer adds
/// the canonical pair, and a peer equal to `x` itself is dropped.
pub open spec fn apply_conns(
    acc: Set<(Seq<char>, Seq<char>)>,
    x: Seq<char>,
    conns: Seq<PortFullname>,
) -> Set<(Seq<char>, Seq<char>)>
    decreases conns.len(),
{
    if conns.len() == 0 {
        acc
    } else {
        let prev = apply_conns(acc, x, conns.drop_last());
        if conns.last()@ == x {
            prev
        } else {
            prev.insert(canon_pair(x, conns.last()@))
        }
    }
}

/// Applies one port section keyed `key` to the accumulated views.
pub open spec fn apply_port_section(
    acc: (Map<Seq<char>, LockStatus>, Map<Seq<char>, LockStatus>, Set<(Seq<char>, Seq<char>)>),
    key: Seq<char>,
    lock: Option<LockStatus>,
    conns: Seq<PortFullname>,
) -> (Map<Seq<char>, LockStatus>, Map<Seq<char>, LockStatus>, Set<(Seq<char>, Seq<char>)>) {
    (
        acc.0,
        if lock is Some {
            acc.1.insert(key, lock->0)
        } else {
            acc.1
        },
        apply_conns(acc.2, key, conns),
    )
}

/// Applies the port sections nested under a client entry, constructing
/// each full name from the client name and the port short name; an invalid
/// constructed name fails the load with the name's own error.
pub open spec fn apply_client_ports(
    acc: (Map<Seq<char>, LockStatus>, Map<Seq<char>, LockStatus>, Set<(Seq<char>, Seq<char>)>),
    cname: Seq<char>,
    ports: Seq<(String, PortInfo)>,
) -> Result<
    (Map<Seq<char>, LockStatus>, Map<Seq<char>, LockStatus>, Set<(Seq<char>, Seq<char>)>),
    NameError,
>
    decreases ports.len(),
{
    if ports.len() == 0 {
        Ok(acc)
    } else {
        match apply_client_ports(acc, cname, ports.drop_last()) {
            Err(e) => Err(e),
            Ok(acc2) => {
                let full = cname + seq![':'] + ports.last().0@;
                if !valid_port_name(full) {
                    Err(spec_name_error(full))
                } else {
                    Ok(
                        apply_port_section(
                            acc2,
                            full,
                            ports.last().1.lock,
                            ports.last().1.connections@,
                        ),
                    )
                }
            },
        }
    }
}

/// Applies one document entry to the accumulated views.
pub open spec fn apply_entry(
    acc: (Map<Seq<char>, LockStatus>, Map<Seq<char>, LockStatus>, Set<(Seq<char>, Seq<char>)>),
    e: LockEntry,
) -> Result<
    (Map<Seq<char>, LockStatus>, Map<Seq<char>, LockStatus>, Set<(Seq<char>, Seq<char>)>),
    NameError,
> {
    match e {
        LockEntry::Port { name, info } => Ok(
            apply_port_section(acc, name@, info.lock, info.connections@),
        ),
        LockEntry::Client { name, info } => {
            let acc2 = (
                if info.lock is Some {
                    acc.0.insert(name@, info.lock->0)
                } else {
                    acc.0
                },
                acc.1,
                acc.2,
            );
            apply_client_ports(acc2, name@, info.ports@)
        },
    }
}

/// What loading a document yields: the entries folded in order over empty
/// views, later entries overriding earlier ones; the first invalid
/// constructed name fails the whole load.
pub open spec fn spec_load(entries: Seq<LockEntry>) -> Result<
    (Map<Seq<char>, LockStatus>, Map<Seq<char>, LockStatus>, Set<(Seq<char>, Seq<char>)>),
    NameError,
>
    decreases entries.len(),
{
    if entries.len() == 0 {
        Ok(
            (
                Map::<Seq<char>, LockStatus>::empty(),
                Map::<Seq<char>, LockStatus>::empty(),
                Set::<(Seq<char>, Seq<char>)>::empty(),
            ),
        )
    } else {
        match spec_load(entries.drop_last()) {
            Err(e) => Err(e),
            Ok(acc) => apply_entry(acc, entries.last()),
        }
    }
}

/// The three-tier lock configuration: per-client locks, per-port locks, and
/// the sorted, deduplicated list of declared connection pairs, each stored
/// canonically with the lexicographically smaller name first.
pub struct LockConfig {
    client_locks: Vec<(String, LockStatus)>,
    port_locks: Vec<(PortFullname, LockStatus)>,
    connections_list: Vec<(PortFullname, PortFullname)>,
}

impl LockConfig {
    /// The per-client lock map.
    pub closed spec fn client_map(self) -> Map<Seq<char>, LockStatus> {
        client_map_of(self.client_locks@)
    }

    /// The per-port lock map, keyed by full name.
    pub closed spec fn port_map(self) -> Map<Seq<char>, LockStatus> {
        port_map_of(self.port_locks@)
    }

    /// The declared pairs in list order, as names.
    pub closed spec fn pair_seq(self) -> Seq<(Seq<char>, Seq<char>)> {
        pair_views(self.connections_list@)
    }

    /// The set of declared canonical pairs.
    pub open spec fn pair_set(self) -> Set<(Seq<char>, Seq<char>)> {
        self.pair_seq().to_set()
    }

    /// Whether the unordered pair `{a, b}` is declared. Stored pairs are
    /// canonical, so either orientation answers the question.
    pub open spec fn declared(self, a: Seq<char>, b: Seq<char>) -> bool {
        self.pair_set().contains((a, b)) || self.pair_set().contains((b, a))
    }

    /// The structural invariant: association keys are pairwise distinct,
    /// every stored name is well formed, and the pair list is strictly
    /// sorted with each pair canonical.
    pub closed spec fn wf(self) -> bool {
        &&& forall|i: int, j: int|
            0 <= i < j < self.client_locks@.len() ==> self.client_locks@[i].0@
                != self.client_locks@[j].0@
        &&& forall|i: int, j: int|
            0 <= i < j < self.port_locks@.len() ==> self.port_locks@[i].0@
                != self.port_locks@[j].0@
        &&& forall|i: int| 0 <= i < self.port_locks@.len() ==> (#[trigger] self.port_locks@[i]).0.wf()
        &&& forall|i: int|
            0 <= i < self.connections_list@.len() ==> (#[trigger] self.connections_list@[i]).0.wf()
                && self.connections_list@[i].1.wf() && lex_lt(
                self.connections_list@[i].0@,
                self.connections_list@[i].1@,
            )
        &&& forall|i: int, j: int|
            0 <= i < j < self.connections_list@.len() ==> pair_lt(
                self.pair_seq()[i],
                self.pair_seq()[j],
            )
    }

    /// The effective status of a client: its entry in the client map, or
    /// `Unlocked` when it has none.
    pub open spec fn spec_client_status(self, client: Seq<char>) -> LockStatus {
        if self.client_map().contains_key(client) {
            self.client_map()[client]
        } else {
            LockStatus::Unlocked
        }
    }

    /// The effective status of a port: its own entry if present, otherwise
    /// the status of its client. A port entry overrides, it does not merge.
    pub open spec fn spec_port_status(self, port: Seq<char>) -> LockStatus {
        if self.port_map().contains_key(port) {
            self.port_map()[port]
        } else {
            self.spec_client_status(client_of(port))
        }
    }

    /// The status of a connection between `a` and `b`: `Force` only for
    /// declared pairs one of whose ports carries the forcing bit, `Block`
    /// only for undeclared pairs one of whose ports carries the blocking
    /// bit, `Unlocked` otherwise.
    pub open spec fn spec_connection_status(self, a: Seq<char>, b: Seq<char>) -> LockStatus {
        let pre_exists = self.declared(a, b);
        let a_lock = self.spec_port_status(a);
        let b_lock = self.spec_port_status(b);
        if pre_exists && (a_lock.spec_should_force() || b_lock.spec_should_force()) {
            LockStatus::Force
        } else if !pre_exists && (a_lock.spec_should_block() || b_lock.spec_should_block()) {
            LockStatus::Block
        } else {
            LockStatus::Unlocked
        }
    }

    /// An empty configuration: nothing locked, nothing declared.
    pub fn new() -> (r: LockConfig)
        ensures
            r.wf(),
            r.client_map() == Map::<Seq<char>, LockStatus>::empty(),
            r.port_map() == Map::<Seq<char>, LockStatus>::empty(),
            r.pair_seq() == Seq::<(Seq<char>, Seq<char>)>::empty(),
    {
        let r = LockConfig {
            client_locks: Vec::new(),
            port_locks: Vec::new(),
            connections_list: Vec::new(),
        };
        proof {
            assert(r.pair_seq() =~= Seq::<(Seq<char>, Seq<char>)>::empty());
        }
        r
    }


    /// Sets or replaces the client's lock entry.
    fn set_client_lock(&mut self, name: String, lock: LockStatus)
        requires
            old(self).wf(),
        ensures
            final(self).wf(),
            final(self).client_map() == old(self).client_map().insert(name@, lock),
            final(self).port_map() == old(self).port_map(),
            final(self).pair_seq() == old(self).pair_seq(),
    {
        let ghost prev = *self;
        let ghost nview = name@;
        let n = self.client_locks.len();
        let mut i: usize = 0;
        while i < n
            invariant
                i <= n,
                n == self.client_locks@.len(),
                *self == prev,
                prev == *old(self),
                self.wf(),
                forall|j: int| 0 <= j < i ==> self.client_locks@[j].0@ != nview,
                nview == name@,
            decreases n - i,
        {
            if str_eq(self.client_locks[i].0.as_str(), name.as_str()) {
                let ghost oldlist = self.client_locks@;
                self.client_locks[i] = (name, lock);
                proof {
                    let newlist = self.client_locks@;
                    assert(newlist.len() == oldlist.len());
                    assert(forall|j: int| 0 <= j < newlist.len() && j != i ==> newlist[j] == oldlist[j]);
                    assert(newlist[i as int].0@ == nview && newlist[i as int].1 == lock);
                    assert(forall|j1: int, j2: int|
                        0 <= j1 < j2 < newlist.len() ==> newlist[j1].0@ != newlist[j2].0@);
                    assert(prev.client_map() == client_map_of(oldlist));
                    assert_maps_equal!(
                        client_map_of(newlist),
                        prev.client_map().insert(nview, lock),
                        k => {
                            lemma_client_map_lookup(oldlist, k);
                            lemma_client_map_lookup(newlist, k);
                            if k == nview {
                                assert(newlist[i as int].0@ == k);
                            } else {
                                if client_map_of(newlist).contains_key(k) {
                                    let j = choose|j: int|
                                        0 <= j < newlist.len() && newlist[j].0@ == k;
                                    assert(oldlist[j].0@ == k);
                                }
                                if client_map_of(oldlist).contains_key(k) {
                                    let j = choose|j: int|
                                        0 <= j < oldlist.len() && oldlist[j].0@ == k;
                                    assert(newlist[j].0@ == k);
                                }
                            }
                        }
                    );
                    assert(self.pair_seq() == prev.pair_seq());
                    assert(self.port_locks@ == prev.port_locks@);
                }
                return ;
            }
            i += 1;
        }
        let ghost oldlist = self.client_locks@;
        self.client_locks.push((name, lock));
        proof {
            assert(self.client_locks@.drop_last() =~= oldlist);
            assert(self.client_locks@.last().0@ == nview && self.client_locks@.last().1 == lock);
            assert(self.client_map() == prev.client_map().insert(nview, lock));
            assert forall|j1: int, j2: int|
                0 <= j1 < j2 < self.client_locks@.len() implies self.client_locks@[j1].0@
                != self.client_locks@[j2].0@ by {
                if j2 == self.client_locks@.len() - 1 {
                    assert(self.client_locks@[j1] == oldlist[j1]);
                }
            }
            assert(self.pair_seq() == prev.pair_seq());
        }
    }

    /// Sets or replaces the port's lock entry.
    fn set_port_lock(&mut self, name: PortFullname, lock: LockStatus)
        requires
            old(self).wf(),
            name.wf(),
        ensures
            final(self).wf(),
            final(self).port_map() == old(self).port_map().insert(name@, lock),
            final(self).client_map() == old(self).client_map(),
            final(self).pair_seq() == old(self).pair_seq(),
    {
        let ghost prev = *self;
        let ghost nview = name@;
        let n = self.port_locks.len();
        let mut i: usize = 0;
        while i < n
            invariant
                i <= n,
                n == self.port_locks@.len(),
                *self == prev,
                prev == *old(self),
                self.wf(),
                name.wf(),
                forall|j: int| 0 <= j < i ==> self.port_locks@[j].0@ != nview,
                nview == name@,
            decreases n - i,
        {
            if str_eq(self.port_locks[i].0.as_str(), name.as_str()) {
                let ghost oldlist = self.port_locks@;
                self.port_locks[i] = (name, lock);
                proof {
                    let newlist = self.port_locks@;
                    assert(newlist.len() == oldlist.len());
                    assert(forall|j: int| 0 <= j < newlist.len() && j != i ==> newlist[j] == oldlist[j]);
                    assert(newlist[i as int].0@ == nview && newlist[i as int].1 == lock);
                    assert(forall|j1: int, j2: int|
                        0 <= j1 < j2 < newlist.len() ==> newlist[j1].0@ != newlist[j2].0@);
                    assert(prev.port_map() == port_map_of(oldlist));
                    assert_maps_equal!(
                        port_map_of(newlist),
                        prev.port_map().insert(nview, lock),
                        k => {
                            lemma_port_map_lookup(oldlist, k);
                            lemma_port_map_lookup(newlist, k);
                            if k == nview {
                                assert(newlist[i as int].0@ == k);
                            } else {
                                if port_map_of(newlist).contains_key(k) {
                                    let j = choose|j: int|
                                        0 <= j < newlist.len() && newlist[j].0@ == k;
                                    assert(oldlist[j].0@ == k);
                                }
                                if port_map_of(oldlist).contains_key(k) {
                                    let j = choose|j: int|
                                        0 <= j < oldlist.len() && oldlist[j].0@ == k;
                                    assert(newlist[j].0@ == k);
                                }
                            }
                        }
                    );
                    assert(self.pair_seq() == prev.pair_seq());
                }
                return ;
            }
            i += 1;
        }
        let ghost oldlist = self.port_locks@;
        self.port_locks.push((name, lock));
        proof {
            assert(self.port_locks@.drop_last() =~= oldlist);
            assert(self.port_locks@.last().0@ == nview && self.port_locks@.last().1 == lock);
            assert(self.port_map() == prev.port_map().insert(nview, lock));
            assert forall|j1: int, j2: int|
                0 <= j1 < j2 < self.port_locks@.len() implies self.port_locks@[j1].0@
                != self.port_locks@[j2].0@ by {
                if j2 == self.port_locks@.len() - 1 {
                    assert(self.port_locks@[j1] == oldlist[j1]);
                }
            }
            assert(self.pair_seq() == prev.pair_seq());
        }
    }

    /// Declares the unordered pair `{a, b}`: inserts its canonical form at
    /// its sorted position unless it is already present; a pair of a port
    /// with itself is dropped.
    #[verifier::rlimit(100)]
    fn add_pair(&mut self, a: &PortFullname, b: &PortFullname)
        requires
            old(self).wf(),
            a.wf(),
            b.wf(),
        ensures
            final(self).wf(),
            final(self).client_map() == old(self).client_map(),
            final(self).port_map() == old(self).port_map(),
            final(self).pair_set() == (if a@ == b@ {
                old(self).pair_set()
            } else {
                old(self).pair_set().insert(canon_pair(a@, b@))
            }),
    {
        let ghost prev = *self;
        if str_eq(a.as_str(), b.as_str()) {
            return ;
        }
        let swapped = b.lt(a);
        let lo: &PortFullname = if swapped {
            b
        } else {
            a
        };
        let hi: &PortFullname = if swapped {
            a
        } else {
            b
        };
        proof {
            lemma_lex_lt_properties(a@, b@);
            assert(lex_lt(lo@, hi@));
            assert(canon_pair(a@, b@) == (lo@, hi@)) by {
                lemma_lex_lt_properties(b@, a@);
            }
        }
        let ghost key = (lo@, hi@);
        let n = self.connections_list.len();
        let mut i: usize = 0;
        while i < n && pair_before(&self.connections_list[i], lo, hi)
            invariant
                i <= n,
                n == self.connections_list@.len(),
                *self == prev,
                prev == *old(self),
                self.wf(),
                a.wf(),
                b.wf(),
                lo.wf(),
                hi.wf(),
                key == (lo@, hi@),
                lex_lt(lo@, hi@),
                forall|j: int| 0 <= j < i ==> pair_lt(#[trigger] self.pair_seq()[j], key),
            decreases n - i,
        {
            i += 1;
        }
        if i < n {
            let same = str_eq(self.connections_list[i].0.as_str(), lo.as_str()) && str_eq(
                self.connections_list[i].1.as_str(),
                hi.as_str(),
            );
            if same {
                proof {
                    assert(self.pair_seq()[i as int] == key);
                    assert(self.pair_seq().contains(key));
                    assert(self.pair_set().contains(key));
                    assert(self.pair_set() =~= prev.pair_set().insert(key));
                }
                return ;
            }
        }
        let ghost oldlist = self.connections_list@;
        let ghost oldpairs = self.pair_seq();
        proof {
            if i < oldlist.len() {
                assert(!pair_lt(oldpairs[i as int], key));
                assert(oldpairs[i as int] != key);
                lemma_pair_lt_properties(oldpairs[i as int], key);
                assert(pair_lt(key, oldpairs[i as int]));
            }
        }
        let entry = (lo.clone(), hi.clone());
        self.connections_list.insert(i, entry);
        proof {
            let newlist = self.connections_list@;
            let newpairs = self.pair_seq();
            assert(newlist.len() == oldlist.len() + 1);
            assert(forall|j: int| 0 <= j < i ==> newlist[j] == oldlist[j]);
            assert(newlist[i as int] == entry);
            assert(forall|j: int| i < j < newlist.len() ==> newlist[j] == oldlist[j - 1]);
            assert(newpairs[i as int] == key);
            assert(forall|j: int| 0 <= j < i ==> newpairs[j] == oldpairs[j]);
            assert(forall|j: int| i < j < newpairs.len() ==> newpairs[j] == oldpairs[j - 1]);
            assert forall|j1: int, j2: int|
                0 <= j1 < j2 < newpairs.len() implies pair_lt(newpairs[j1], newpairs[j2]) by {
                if j2 == i {
                    assert(pair_lt(oldpairs[j1], key));
                } else if j1 == i {
                    assert(j2 - 1 >= i && j2 - 1 < oldpairs.len());
                    assert(pair_lt(key, oldpairs[i as int]));
                    if j2 - 1 > i {
                        assert(pair_lt(oldpairs[i as int], oldpairs[j2 - 1]));
                        lemma_pair_lt_trans(key, oldpairs[i as int], oldpairs[j2 - 1]);
                    }
                } else if j1 < i && j2 > i {
                    if j1 < j2 - 1 {
                        assert(pair_lt(oldpairs[j1], oldpairs[j2 - 1]));
                    } else {
                        assert(pair_lt(oldpairs[j1], key));
                        assert(pair_lt(key, oldpairs[i as int]));
                        lemma_pair_lt_trans(oldpairs[j1], key, oldpairs[i as int]);
                    }
                }
            }
            assert forall|q: (Seq<char>, Seq<char>)| #![auto] newpairs.contains(q) == (
            oldpairs.contains(q) || q == key) by {
                if newpairs.contains(q) {
                    let k2 = choose|k2: int| 0 <= k2 < newpairs.len() && newpairs[k2] == q;
                    if k2 < i {
                        assert(oldpairs[k2] == q);
                    } else if k2 > i {
                        assert(oldpairs[k2 - 1] == q);
                    }
                }
                if oldpairs.contains(q) {
                    let k2 = choose|k2: int| 0 <= k2 < oldpairs.len() && oldpairs[k2] == q;
                    if k2 < i {
                        assert(newpairs[k2] == q);
                    } else {
                        assert(newpairs[k2 + 1] == q);
                    }
                }
                if q == key {
                    assert(newpairs[i as int] == q);
                }
            }
            assert(prev.pair_seq() == oldpairs);
            assert(self.pair_set() =~= prev.pair_set().insert(key));
        }
    }


    /// Builds the in-memory policy from a parsed document: entries apply in
    /// order, later entries overriding earlier ones; symmetric connection
    /// declarations merge because every declared pair is stored
    /// canonically. Fails with the offending name's error when a client
    /// entry nests a port whose constructed `client:port` name is invalid.
    #[verifier::rlimit(100)]
    pub fn from_config_file(file: &ConfigFile) -> (r: Result<LockConfig, NameError>)
        ensures
            r is Ok <==> spec_load(file.entries@) is Ok,
            r matches Ok(c) ==> c.wf() && spec_load(file.entries@) == Ok::<
                _,
                NameError,
            >(cfg_views(c)),
            r matches Err(e) ==> spec_load(file.entries@) matches Err(e2) && e2 == e,
    {
        let mut cfg = LockConfig::new();
        let n = file.entries.len();
        let mut i: usize = 0;
        proof {
            assert(file.entries@.take(0) =~= Seq::<LockEntry>::empty());
            assert(cfg.pair_set() =~= Set::<(Seq<char>, Seq<char>)>::empty());
        }
        while i < n
            invariant
                i <= n,
                n == file.entries@.len(),
                cfg.wf(),
                spec_load(file.entries@.take(i as int)) == Ok::<_, NameError>(cfg_views(cfg)),
            decreases n - i,
        {
            let ghost acc_prev = cfg_views(cfg);
            match &file.entries[i] {
                LockEntry::Port { name, info } => {
                    proof {
                        use_type_invariant(name);
                    }
                    if let Some(l) = info.lock {
                        cfg.set_port_lock(name.clone(), l);
                    }
                    proof {
                        assert(cfg.pair_set() == acc_prev.2);
                        assert(info.connections@.take(0) =~= Seq::<PortFullname>::empty());
                    }
                    let m = info.connections.len();
                    let mut j: usize = 0;
                    while j < m
                        invariant
                            j <= m,
                            m == info.connections@.len(),
                            cfg.wf(),
                            name.wf(),
                            cfg.client_map() == acc_prev.0,
                            cfg.port_map() == (if info.lock is Some {
                                acc_prev.1.insert(name@, info.lock->0)
                            } else {
                                acc_prev.1
                            }),
                            cfg.pair_set() == apply_conns(
                                acc_prev.2,
                                name@,
                                info.connections@.take(j as int),
                            ),
                        decreases m - j,
                    {
                        let peer = &info.connections[j];
                        proof {
                            use_type_invariant(peer);
                        }
                        cfg.add_pair(name, peer);
                        j += 1;
                        proof {
                            let t1 = info.connections@.take(j as int);
                            assert(t1.drop_last() =~= info.connections@.take(j - 1));
                            assert(t1.last() == info.connections@[j - 1]);
                        }
                    }
                    proof {
                        assert(info.connections@.take(m as int) =~= info.connections@);
                        assert(cfg_views(cfg) == apply_port_section(
                            acc_prev,
                            name@,
                            info.lock,
                            info.connections@,
                        ));
                    }
                },
                LockEntry::Client { name, info } => {
                    if let Some(l) = info.lock {
                        cfg.set_client_lock(name.clone(), l);
                    }
                    let ghost acc2 = cfg_views(cfg);
                    proof {
                        assert(acc2 == (
                            if info.lock is Some {
                                acc_prev.0.insert(name@, info.lock->0)
                            } else {
                                acc_prev.0
                            },
                            acc_prev.1,
                            acc_prev.2,
                        ));
                        assert(info.ports@.take(0) =~= Seq::<(String, PortInfo)>::empty());
                    }
                    let m = info.ports.len();
                    let mut j: usize = 0;
                    while j < m
                        invariant
                            j <= m,
                            m == info.ports@.len(),
                            i < n,
                            n == file.entries@.len(),
                            cfg.wf(),
                            spec_load(file.entries@.take(i as int)) == Ok::<_, NameError>(
                                acc_prev,
                            ),
                            file.entries@[i as int] == (LockEntry::Client {
                                name: *name,
                                info: *info,
                            }),
                            acc2 == (
                                if info.lock is Some {
                                    acc_prev.0.insert(name@, info.lock->0)
                                } else {
                                    acc_prev.0
                                },
                                acc_prev.1,
                                acc_prev.2,
                            ),
                            apply_client_ports(acc2, name@, info.ports@.take(j as int)) == Ok::<
                                _,
                                NameError,
                            >(cfg_views(cfg)),
                        decreases m - j,
                    {
                        let short = &info.ports[j].0;
                        let mut full = name.clone();
                        full.append(":");
                        full.append(short.as_str());
                        proof {
                            reveal_strlit(":");
                            assert(":"@ =~= seq![':']);
                            assert(full@ == name@ + seq![':'] + short@);
                        }
                        let ghost acc_mid = cfg_views(cfg);
                        match PortFullname::new(full) {
                            Err(e) => {
                                proof {
                                    assert(e == spec_name_error(name@ + seq![':'] + short@));
                                    let t1 = info.ports@.take(j + 1);
                                    assert(t1.drop_last() =~= info.ports@.take(j as int));
                                    assert(t1.last() == info.ports@[j as int]);
                                    assert(apply_client_ports(acc2, name@, t1) matches Err(e2)
                                        && e2 == e);
                                    lemma_apply_client_ports_err(acc2, name@, info.ports@, j + 1);
                                    let t2 = file.entries@.take(i + 1);
                                    assert(t2.drop_last() =~= file.entries@.take(i as int));
                                    assert(t2.last() == file.entries@[i as int]);
                                    assert(spec_load(t2) matches Err(e2) && e2 == e);
                                    lemma_spec_load_err(file.entries@, i + 1);
                                    assert(file.entries@.take(n as int) =~= file.entries@);
                                }
                                return Err(e);
                            },
                            Ok(f) => {
                                if let Some(l) = info.ports[j].1.lock {
                                    cfg.set_port_lock(f.clone(), l);
                                }
                                proof {
                                    assert(cfg.pair_set() == acc_mid.2);
                                    assert(info.ports@[j as int].1.connections@.take(0)
                                        =~= Seq::<PortFullname>::empty());
                                }
                                let cm = info.ports[j].1.connections.len();
                                let mut k: usize = 0;
                                while k < cm
                                    invariant
                                        k <= cm,
                                        cm == info.ports@[j as int].1.connections@.len(),
                                        j < info.ports@.len(),
                                        cfg.wf(),
                                        f.wf(),
                                        f@ == name@ + seq![':'] + info.ports@[j as int].0@,
                                        cfg.client_map() == acc_mid.0,
                                        cfg.port_map() == (
                                        if info.ports@[j as int].1.lock is Some {
                                            acc_mid.1.insert(
                                                f@,
                                                info.ports@[j as int].1.lock->0,
                                            )
                                        } else {
                                            acc_mid.1
                                        }),
                                        cfg.pair_set() == apply_conns(
                                            acc_mid.2,
                                            f@,
                                            info.ports@[j as int].1.connections@.take(k as int),
                                        ),
                                    decreases cm - k,
                                {
                                    let peer = &info.ports[j].1.connections[k];
                                    proof {
                                        use_type_invariant(peer);
                                    }
                                    cfg.add_pair(&f, peer);
                                    k += 1;
                                    proof {
                                        let t1 = info.ports@[j as int].1.connections@.take(
                                            k as int,
                                        );
                                        assert(t1.drop_last() =~= info.ports@[j as int].1.connections@.take(
                                            k - 1,
                                        ));
                                        assert(t1.last()
                                            == info.ports@[j as int].1.connections@[k - 1]);
                                    }
                                }
                                proof {
                                    assert(info.ports@[j as int].1.connections@.take(cm as int)
                                        =~= info.ports@[j as int].1.connections@);
                                    assert(cfg_views(cfg) == apply_port_section(
                                        acc_mid,
                                        f@,
                                        info.ports@[j as int].1.lock,
                                        info.ports@[j as int].1.connections@,
                                    ));
                                }
                            },
                        }
                        j += 1;
                        proof {
                            let t1 = info.ports@.take(j as int);
                            assert(t1.drop_last() =~= info.ports@.take(j - 1));
                            assert(t1.last() == info.ports@[j - 1]);
                        }
                    }
                    proof {
                        assert(info.ports@.take(m as int) =~= info.ports@);
                    }
                },
            }
            i += 1;
            proof {
                let t1 = file.entries@.take(i as int);
                assert(t1.drop_last() =~= file.entries@.take(i - 1));
                assert(t1.last() == file.entries@[i - 1]);
            }
        }
        proof {
            assert(file.entries@.take(n as int) =~= file.entries@);
        }
        Ok(cfg)
    }


    /// The declared peers of `key`: every second component of a stored pair
    /// whose first component is `key`.
    fn conns_of_key(&self, key: &PortFullname) -> (r: Vec<PortFullname>)
        requires
            self.wf(),
            key.wf(),
        ensures
            forall|m: int|
                0 <= m < r@.len() ==> ((#[trigger] r@[m]).wf() && r@[m]@ != key@
                    && self.pair_set().contains((key@, r@[m]@))),
            forall|q: (Seq<char>, Seq<char>)|
                self.pair_set().contains(q) && q.0 == key@ ==> exists|m: int|
                    0 <= m < r@.len() && r@[m]@ == q.1,
    {
        let n = self.connections_list.len();
        let mut r: Vec<PortFullname> = Vec::new();
        let mut k: usize = 0;
        while k < n
            invariant
                k <= n,
                n == self.connections_list@.len(),
                self.wf(),
                key.wf(),
                forall|m: int|
                    0 <= m < r@.len() ==> ((#[trigger] r@[m]).wf() && r@[m]@ != key@
                        && self.pair_set().contains((key@, r@[m]@))),
                forall|k2: int|
                    0 <= k2 < k && self.pair_seq()[k2].0 == key@ ==> exists|m: int|
                        0 <= m < r@.len() && r@[m]@ == self.pair_seq()[k2].1,
            decreases n - k,
        {
            if str_eq(self.connections_list[k].0.as_str(), key.as_str()) {
                let ghost r0 = r@;
                let peer = self.connections_list[k].1.clone();
                r.push(peer);
                proof {
                    assert(self.pair_seq()[k as int] == (key@, r@[r0.len() as int]@));
                    assert(self.pair_seq().contains((key@, r@[r0.len() as int]@)));
                    lemma_lex_lt_properties(
                        self.connections_list@[k as int].0@,
                        self.connections_list@[k as int].1@,
                    );
                    assert(forall|m: int| 0 <= m < r0.len() ==> r@[m] == r0[m]);
                }
            }
            k += 1;
        }
        proof {
            assert forall|q: (Seq<char>, Seq<char>)|
                self.pair_set().contains(q) && q.0 == key@ implies exists|m: int|
                0 <= m < r@.len() && r@[m]@ == q.1 by {
                assert(self.pair_seq().contains(q));
                let k2 = choose|k2: int|
                    0 <= k2 < self.pair_seq().len() && self.pair_seq()[k2] == q;
            }
        }
        r
    }

    /// Whether some per-port lock entry carries this name.
    fn has_port_lock(&self, key: &PortFullname) -> (b: bool)
        requires
            self.wf(),
        ensures
            b == exists|i: int|
                0 <= i < self.port_locks@.len() && (#[trigger] self.port_locks@[i]).0@ == key@,
    {
        let n = self.port_locks.len();
        let mut i: usize = 0;
        while i < n
            invariant
                i <= n,
                n == self.port_locks@.len(),
                forall|j: int| 0 <= j < i ==> (#[trigger] self.port_locks@[j]).0@ != key@,
            decreases n - i,
        {
            if str_eq(self.port_locks[i].0.as_str(), key.as_str()) {
                return true;
            }
            i += 1;
        }
        false
    }

    /// Whether a stored pair before position `k` already has this first
    /// name.
    fn first_name_before(&self, k: usize, key: &PortFullname) -> (b: bool)
        requires
            self.wf(),
            k <= self.connections_list@.len(),
        ensures
            b == exists|k2: int| 0 <= k2 < k && (#[trigger] self.pair_seq()[k2]).0 == key@,
    {
        let mut k2: usize = 0;
        while k2 < k
            invariant
                k2 <= k,
                k <= self.connections_list@.len(),
                self.wf(),
                forall|j: int| 0 <= j < k2 ==> (#[trigger] self.pair_seq()[j]).0 != key@,
            decreases k - k2,
        {
            if str_eq(self.connections_list[k2].0.as_str(), key.as_str()) {
                proof {
                    assert(self.pair_seq()[k2 as int].0 == key@);
                }
                return true;
            }
            k2 += 1;
        }
        false
    }

    /// Serializes the configuration into a document that loads back to
    /// exactly this configuration: one entry per client lock, one entry per
    /// locked port carrying its declared peers, and one entry per remaining
    /// declared pair's first port.
    #[verifier::rlimit(100)]
    pub fn to_config_file(&self) -> (r: ConfigFile)
        requires
            self.wf(),
        ensures
            spec_load(r.entries@) == Ok::<_, NameError>(cfg_views(*self)),
    {
        let mut entries: Vec<LockEntry> = Vec::new();
        let ghost empty_pairs = Set::<(Seq<char>, Seq<char>)>::empty();
        proof {
            assert(self.client_locks@.take(0) =~= Seq::<(String, LockStatus)>::empty());
        }
        let cn = self.client_locks.len();
        let mut i: usize = 0;
        while i < cn
            invariant
                i <= cn,
                cn == self.client_locks@.len(),
                self.wf(),
                spec_load(entries@) == Ok::<_, NameError>(
                    (
                        client_map_of(self.client_locks@.take(i as int)),
                        Map::<Seq<char>, LockStatus>::empty(),
                        Set::<(Seq<char>, Seq<char>)>::empty(),
                    ),
                ),
            decreases cn - i,
        {
            let ghost e0 = entries@;
            let name = self.client_locks[i].0.clone();
            let lock = self.client_locks[i].1;
            entries.push(
                LockEntry::Client { name, info: ClientInfo { lock: Some(lock), ports: Vec::new() } },
            );
            i += 1;
            proof {
                assert(entries@.drop_last() =~= e0);
                assert(self.client_locks@.take(i as int).drop_last() =~= self.client_locks@.take(
                    i - 1,
                ));
                assert(self.client_locks@.take(i as int).last() == self.client_locks@[i - 1]);
                let inf = entries@.last()->Client_info;
                assert(inf.ports@.len() == 0);
                assert(apply_client_ports(
                    (
                        client_map_of(self.client_locks@.take(i as int)),
                        Map::<Seq<char>, LockStatus>::empty(),
                        Set::<(Seq<char>, Seq<char>)>::empty(),
                    ),
                    entries@.last()->Client_name@,
                    inf.ports@,
                ) == Ok::<_, NameError>(
                    (
                        client_map_of(self.client_locks@.take(i as int)),
                        Map::<Seq<char>, LockStatus>::empty(),
                        Set::<(Seq<char>, Seq<char>)>::empty(),
                    ),
                ));
            }
        }
        proof {
            assert(self.client_locks@.take(cn as int) =~= self.client_locks@);
            assert(self.port_locks@.take(0) =~= Seq::<(PortFullname, LockStatus)>::empty());
        }
        let pn = self.port_locks.len();
        let mut i2: usize = 0;
        while i2 < pn
            invariant
                i2 <= pn,
                pn == self.port_locks@.len(),
                self.wf(),
                spec_load(entries@) matches Ok(acc) && acc.0 == self.client_map() && acc.1
                    == port_map_of(self.port_locks@.take(i2 as int)) && acc.2.subset_of(
                    self.pair_set(),
                ) && (forall|q: (Seq<char>, Seq<char>)|
                    #![auto]
                    self.pair_set().contains(q) && (exists|i3: int|
                        0 <= i3 < i2 && self.port_locks@[i3].0@ == q.0) ==> acc.2.contains(q)),
            decreases pn - i2,
        {
            let ghost e0 = entries@;
            let ghost acc0 = spec_load(entries@)->Ok_0;
            let keyref = &self.port_locks[i2].0;
            proof {
                use_type_invariant(keyref);
            }
            let conns = self.conns_of_key(keyref);
            let lock = self.port_locks[i2].1;
            entries.push(
                LockEntry::Port {
                    name: keyref.clone(),
                    info: PortInfo { lock: Some(lock), connections: conns },
                },
            );
            i2 += 1;
            proof {
                assert(entries@.drop_last() =~= e0);
                let e = entries@.last();
                let key = self.port_locks@[i2 - 1].0;
                let cs = e->Port_info.connections@;
                lemma_apply_conns_membership(acc0.2, key@, cs);
                assert(self.port_locks@.take(i2 as int).drop_last() =~= self.port_locks@.take(
                    i2 - 1,
                ));
                assert(self.port_locks@.take(i2 as int).last() == self.port_locks@[i2 - 1]);
                let acc1 = spec_load(entries@)->Ok_0;
                assert(acc1.1 == port_map_of(self.port_locks@.take(i2 as int)));
                assert forall|q: (Seq<char>, Seq<char>)| #![auto] acc1.2.contains(q) implies
                self.pair_set().contains(q) by {
                    if !acc0.2.contains(q) {
                        let m = choose|m: int|
                            0 <= m < cs.len() && cs[m]@ != key@ && q == canon_pair(key@, cs[m]@);
                        assert(self.pair_set().contains((key@, cs[m]@)));
                        assert(lex_lt(key@, cs[m]@)) by {
                            let k3 = choose|k3: int|
                                0 <= k3 < self.pair_seq().len() && self.pair_seq()[k3] == (
                                key@,
                                cs[m]@,
                                );
                            assert(self.pair_seq().contains((key@, cs[m]@)));
                        }
                        lemma_lex_lt_properties(key@, cs[m]@);
                        assert(canon_pair(key@, cs[m]@) == (key@, cs[m]@));
                    }
                }
                assert forall|q: (Seq<char>, Seq<char>)|
                    #![auto]
                    self.pair_set().contains(q) && (exists|i3: int|
                        0 <= i3 < i2 && self.port_locks@[i3].0@ == q.0) implies acc1.2.contains(
                    q,
                ) by {
                    let i3 = choose|i3: int| 0 <= i3 < i2 && self.port_locks@[i3].0@ == q.0;
                    if i3 < i2 - 1 {
                        assert(acc0.2.contains(q));
                    } else {
                        assert(q.0 == key@);
                        let m = choose|m: int| 0 <= m < cs.len() && cs[m]@ == q.1;
                        assert(q.1 != key@) by {
                            assert(self.pair_seq().contains(q));
                            let k3 = choose|k3: int|
                                0 <= k3 < self.pair_seq().len() && self.pair_seq()[k3] == q;
                            lemma_lex_lt_properties(q.0, q.1);
                        }
                        assert(lex_lt(key@, q.1)) by {
                            let k3 = choose|k3: int|
                                0 <= k3 < self.pair_seq().len() && self.pair_seq()[k3] == q;
                        }
                        lemma_lex_lt_properties(key@, q.1);
                        assert(cs[m]@ != key@);
                        assert(q == canon_pair(key@, cs[m]@));
                        assert(acc1.2 == apply_conns(acc0.2, key@, cs));
                        assert(apply_conns(acc0.2, key@, cs).contains(q));
                        assert(acc1.2.contains(q));
                    }
                }
            }
        }
        proof {
            assert(self.port_locks@.take(pn as int) =~= self.port_locks@);
        }
        let nn = self.connections_list.len();
        let mut k: usize = 0;
        while k < nn
            invariant
                k <= nn,
                nn == self.connections_list@.len(),
                self.wf(),
                spec_load(entries@) matches Ok(acc) && acc.0 == self.client_map() && acc.1
                    == self.port_map() && acc.2.subset_of(self.pair_set()) && (forall|
                    q: (Seq<char>, Seq<char>),
                |
                    #![auto]
                    self.pair_set().contains(q) && ((exists|i3: int|
                        0 <= i3 < self.port_locks@.len() && self.port_locks@[i3].0@ == q.0) || (
                    exists|k2: int| 0 <= k2 < k && self.pair_seq()[k2].0 == q.0)) ==> acc.2.contains(
                        q,
                    )),
            decreases nn - k,
        {
            let ghost e0 = entries@;
            let ghost acc0 = spec_load(entries@)->Ok_0;
            let keyref = &self.connections_list[k].0;
            proof {
                use_type_invariant(keyref);
            }
            let locked = self.has_port_lock(keyref);
            let seen = self.first_name_before(k, keyref);
            if !locked && !seen {
                let conns = self.conns_of_key(keyref);
                entries.push(
                    LockEntry::Port {
                        name: keyref.clone(),
                        info: PortInfo { lock: None, connections: conns },
                    },
                );
                proof {
                    assert(entries@.drop_last() =~= e0);
                    let e = entries@.last();
                    let key = self.connections_list@[k as int].0;
                    let cs = e->Port_info.connections@;
                    lemma_apply_conns_membership(acc0.2, key@, cs);
                    let acc1 = spec_load(entries@)->Ok_0;
                    assert(acc1.1 == acc0.1);
                    assert forall|q: (Seq<char>, Seq<char>)| #![auto] acc1.2.contains(q) implies
                    self.pair_set().contains(q) by {
                        if !acc0.2.contains(q) {
                            let m = choose|m: int|
                                0 <= m < cs.len() && cs[m]@ != key@ && q == canon_pair(
                                    key@,
                                    cs[m]@,
                                );
                            assert(self.pair_set().contains((key@, cs[m]@)));
                            assert(lex_lt(key@, cs[m]@)) by {
                                let k3 = choose|k3: int|
                                    0 <= k3 < self.pair_seq().len() && self.pair_seq()[k3] == (
                                    key@,
                                    cs[m]@,
                                    );
                                assert(self.pair_seq().contains((key@, cs[m]@)));
                            }
                            lemma_lex_lt_properties(key@, cs[m]@);
                            assert(canon_pair(key@, cs[m]@) == (key@, cs[m]@));
                        }
                    }
                    assert forall|q: (Seq<char>, Seq<char>)|
                        #![auto]
                        self.pair_set().contains(q) && ((exists|i3: int|
                            0 <= i3 < self.port_locks@.len() && self.port_locks@[i3].0@ == q.0)
                            || (exists|k2: int|
                            0 <= k2 < k + 1 && self.pair_seq()[k2].0 == q.0)) implies acc1.2.contains(
                        q,
                    ) by {
                        if acc0.2.contains(q) {
                        } else if q.0 == key@ {
                            let m = choose|m: int| 0 <= m < cs.len() && cs[m]@ == q.1;
                            assert(q.1 != key@) by {
                                let k3 = choose|k3: int|
                                    0 <= k3 < self.pair_seq().len() && self.pair_seq()[k3] == q;
                                lemma_lex_lt_properties(q.0, q.1);
                            }
                            assert(lex_lt(key@, q.1)) by {
                                let k3 = choose|k3: int|
                                    0 <= k3 < self.pair_seq().len() && self.pair_seq()[k3] == q;
                            }
                            lemma_lex_lt_properties(key@, q.1);
                            assert(canon_pair(key@, cs[m]@) == q);
                        } else {
                            if exists|i3: int|
                                0 <= i3 < self.port_locks@.len() && self.port_locks@[i3].0@
                                    == q.0 {
                                assert(acc0.2.contains(q));
                            } else {
                                let k2 = choose|k2: int|
                                    0 <= k2 < k + 1 && self.pair_seq()[k2].0 == q.0;
                                assert(k2 < k);
                                assert(acc0.2.contains(q));
                            }
                        }
                    }
                }
            } else {
                proof {
                    let key = self.connections_list@[k as int].0;
                    assert forall|q: (Seq<char>, Seq<char>)|
                        #![auto]
                        self.pair_set().contains(q) && ((exists|i3: int|
                            0 <= i3 < self.port_locks@.len() && self.port_locks@[i3].0@ == q.0)
                            || (exists|k2: int|
                            0 <= k2 < k + 1 && self.pair_seq()[k2].0 == q.0)) implies acc0.2.contains(
                        q,
                    ) by {
                        if !(exists|i3: int|
                            0 <= i3 < self.port_locks@.len() && self.port_locks@[i3].0@ == q.0) {
                            let k2 = choose|k2: int|
                                0 <= k2 < k + 1 && self.pair_seq()[k2].0 == q.0;
                            if k2 == k {
                                assert(q.0 == key@);
                                assert(seen);
                                let k3 = choose|k3: int|
                                    0 <= k3 < k && self.pair_seq()[k3].0 == key@;
                            }
                        }
                    }
                }
            }
            k += 1;
        }
        proof {
            let acc = spec_load(entries@)->Ok_0;
            assert forall|q: (Seq<char>, Seq<char>)| #![auto] self.pair_set().contains(q) implies
            acc.2.contains(q) by {
                assert(self.pair_seq().contains(q));
                let k2 = choose|k2: int|
                    0 <= k2 < self.pair_seq().len() && self.pair_seq()[k2] == q;
            }
            assert(acc.2 =~= self.pair_set());
            assert(cfg_views(*self) == (self.client_map(), self.port_map(), self.pair_set()));
        }
        ConfigFile { entries }
    }

    /// Looks the client up in the per-client map.
    pub fn client_status(&self, client: &str) -> (r: LockStatus)
        requires
            self.wf(),
        ensures
            r == self.spec_client_status(client@),
    {
        proof {
            lemma_client_map_lookup(self.client_locks@, client@);
        }
        let n = self.client_locks.len();
        let mut i: usize = 0;
        while i < n
            invariant
                i <= n,
                n == self.client_locks@.len(),
                self.wf(),
                forall|j: int| 0 <= j < i ==> self.client_locks@[j].0@ != client@,
            decreases n - i,
        {
            let entry = &self.client_locks[i];
            if str_eq(entry.0.as_str(), client) {
                proof {
                    lemma_client_map_lookup(self.client_locks@, client@);
                }
                return entry.1;
            }
            i += 1;
        }
        proof {
            lemma_client_map_lookup(self.client_locks@, client@);
        }
        LockStatus::Unlocked
    }

    /// The port's own entry if present, else its client's status.
    pub fn port_status(&self, port: &PortFullname) -> (r: LockStatus)
        requires
            self.wf(),
            port.wf(),
        ensures
            r == self.spec_port_status(port@),
    {
        proof {
            lemma_port_map_lookup(self.port_locks@, port@);
        }
        let n = self.port_locks.len();
        let mut i: usize = 0;
        while i < n
            invariant
                i <= n,
                n == self.port_locks@.len(),
                self.wf(),
                port.wf(),
                forall|j: int| 0 <= j < i ==> self.port_locks@[j].0@ != port@,
            decreases n - i,
        {
            let entry = &self.port_locks[i];
            if str_eq(entry.0.as_str(), port.as_str()) {
                proof {
                    lemma_port_map_lookup(self.port_locks@, port@);
                }
                return entry.1;
            }
            i += 1;
        }
        proof {
            lemma_port_map_lookup(self.port_locks@, port@);
            lemma_wf_split_is_first_colon(*port);
        }
        self.client_status(port.client_name())
    }

    /// The central algorithm: canonicalizes the pair, tests whether it is
    /// declared, and combines the two port statuses: forcing applies only to
    /// declared pairs, blocking only to undeclared ones.
    pub fn connection_status(&self, a: &PortFullname, b: &PortFullname) -> (r: LockStatus)
        requires
            self.wf(),
            a.wf(),
            b.wf(),
        ensures
            r == self.spec_connection_status(a@, b@),
    {
        let b_first = b.lt(a);
        let lo: &PortFullname = if b_first {
            b
        } else {
            a
        };
        let hi: &PortFullname = if b_first {
            a
        } else {
            b
        };
        let n = self.connections_list.len();
        let mut i: usize = 0;
        let mut found = false;
        while i < n && !found
            invariant
                i <= n,
                n == self.connections_list@.len(),
                self.wf(),
                found ==> i < n && self.pair_seq()[i as int] == (lo@, hi@),
                !found ==> forall|j: int| 0 <= j < i ==> self.pair_seq()[j] != (lo@, hi@),
            decreases n - i + (if found {
                0int
            } else {
                1int
            }),
        {
            let entry = &self.connections_list[i];
            if str_eq(entry.0.as_str(), lo.as_str()) && str_eq(entry.1.as_str(), hi.as_str()) {
                found = true;
            } else {
                i += 1;
            }
        }
        proof {
            lemma_lex_lt_properties(a@, b@);
            if found {
                assert(self.pair_set().contains((lo@, hi@))) by {
                    assert(self.pair_seq()[i as int] == (lo@, hi@));
                }
                assert(self.declared(a@, b@));
            } else {
                if self.declared(a@, b@) {
                    if self.pair_set().contains((a@, b@)) {
                        let k = choose|k: int|
                            0 <= k < self.pair_seq().len() && self.pair_seq()[k] == (a@, b@);
                        assert(lex_lt(a@, b@));
                        assert((lo@, hi@) == (a@, b@));
                        assert(self.pair_seq()[k] != (lo@, hi@));
                    } else {
                        let k = choose|k: int|
                            0 <= k < self.pair_seq().len() && self.pair_seq()[k] == (b@, a@);
                        assert(lex_lt(b@, a@));
                        assert((lo@, hi@) == (b@, a@));
                        assert(self.pair_seq()[k] != (lo@, hi@));
                    }
                }
            }
        }
        let a_lock = self.port_status(a);
        let b_lock = self.port_status(b);
        if found && (a_lock.should_force() || b_lock.should_force()) {
            LockStatus::Force
        } else if !found && (a_lock.should_block() || b_lock.should_block()) {
            LockStatus::Block
        } else {
            LockStatus::Unlocked
        }
    }

    /// The declared pairs that the policy actively re-asserts: those whose
    /// connection status carries the forcing bit.
    pub fn forced_connections(&self) -> (r: Vec<(PortFullname, PortFullname)>)
        requires
            self.wf(),
        ensures
            pair_views(r@) == self.pair_seq().filter(
                |q: (Seq<char>, Seq<char>)|
                    self.spec_connection_status(q.0, q.1).spec_should_force(),
            ),
            forall|i: int|
                0 <= i < r@.len() ==> (#[trigger] r@[i]).0.wf() && r@[i].1.wf() && lex_lt(
                    r@[i].0@,
                    r@[i].1@,
                ),
    {
        let mut r: Vec<(PortFullname, PortFullname)> = Vec::new();
        let n = self.connections_list.len();
        let mut i: usize = 0;
        proof {
            reveal(Seq::filter);
            assert(self.pair_seq().take(0) =~= Seq::<(Seq<char>, Seq<char>)>::empty());
            assert(pair_views(r@) =~= Seq::<(Seq<char>, Seq<char>)>::empty());
        }
        while i < n
            invariant
                i <= n,
                n == self.connections_list@.len(),
                self.wf(),
                pair_views(r@) == self.pair_seq().take(i as int).filter(
                    |q: (Seq<char>, Seq<char>)|
                        self.spec_connection_status(q.0, q.1).spec_should_force(),
                ),
                forall|k: int|
                    0 <= k < r@.len() ==> (#[trigger] r@[k]).0.wf() && r@[k].1.wf() && lex_lt(
                        r@[k].0@,
                        r@[k].1@,
                    ),
            decreases n - i,
        {
            let ghost prev = pair_views(r@);
            let entry = &self.connections_list[i];
            let status = self.connection_status(&entry.0, &entry.1);
            if status.should_force() {
                let pair = (entry.0.clone(), entry.1.clone());
                r.push(pair);
                proof {
                    assert(pair_views(r@) =~= prev.push((entry.0@, entry.1@)));
                }
            }
            i += 1;
            proof {
                reveal(Seq::filter);
                let pred = |q: (Seq<char>, Seq<char>)|
                    self.spec_connection_status(q.0, q.1).spec_should_force();
                let t1 = self.pair_seq().take(i as int);
                let t0 = self.pair_seq().take(i - 1);
                assert(t1.drop_last() =~= t0);
                assert(t1.last() == (entry.0@, entry.1@));
                assert(t1.filter(pred) == if pred(t1.last()) {
                    t0.filter(pred).push(t1.last())
                } else {
                    t0.filter(pred)
                });
            }
        }
        proof {
            assert(self.pair_seq().take(n as int) =~= self.pair_seq());
        }
        r
    }
}

/// Force applies only to declared pairs and block only to undeclared ones:
/// a declared pair with a forcing port is `Force`; an undeclared pair with
/// a blocking port is `Block`; a declared pair with no forcing port is left
/// alone, whatever blocking bits its ports carry.
pub proof fn lemma_force_block_asymmetry(cfg: LockConfig, a: Seq<char>, b: Seq<char>)
    requires
        cfg.wf(),
    ensures
        cfg.declared(a, b) && (cfg.spec_port_status(a).spec_should_force()
            || cfg.spec_port_status(b).spec_should_force()) ==> cfg.spec_connection_status(a, b)
            == LockStatus::Force,
        !cfg.declared(a, b) && (cfg.spec_port_status(a).spec_should_block()
            || cfg.spec_port_status(b).spec_should_block()) ==> cfg.spec_connection_status(a, b)
            == LockStatus::Block,
        cfg.declared(a, b) && !cfg.spec_port_status(a).spec_should_force()
            && !cfg.spec_port_status(b).spec_should_force() ==> cfg.spec_connection_status(a, b)
            == LockStatus::Unlocked,
        cfg.declared(a, b) ==> cfg.spec_connection_status(a, b) != LockStatus::Block,
        cfg.spec_connection_status(a, b) == LockStatus::Force ==> cfg.declared(a, b),
{
}



/// What recording a port's declared peers adds to the pair set: exactly
/// the canonical pairs of the port with each distinct peer.
proof fn lemma_apply_conns_membership(
    acc: Set<(Seq<char>, Seq<char>)>,
    x: Seq<char>,
    conns: Seq<PortFullname>,
)
    ensures
        forall|q: (Seq<char>, Seq<char>)|
            #![trigger apply_conns(acc, x, conns).contains(q)]
            apply_conns(acc, x, conns).contains(q) <==> (acc.contains(q) || exists|m: int|
                0 <= m < conns.len() && conns[m]@ != x && q == canon_pair(x, conns[m]@)),
    decreases conns.len(),
{
    if conns.len() > 0 {
        lemma_apply_conns_membership(acc, x, conns.drop_last());
        assert forall|q: (Seq<char>, Seq<char>)|
            #![trigger apply_conns(acc, x, conns).contains(q)]
            apply_conns(acc, x, conns).contains(q) <==> (acc.contains(q) || exists|m: int|
                0 <= m < conns.len() && conns[m]@ != x && q == canon_pair(x, conns[m]@)) by {
            let prev = apply_conns(acc, x, conns.drop_last());
            assert(apply_conns(acc, x, conns) == (if conns.last()@ == x {
                prev
            } else {
                prev.insert(canon_pair(x, conns.last()@))
            }));
            if apply_conns(acc, x, conns).contains(q) {
                if !acc.contains(q) {
                    if prev.contains(q) {
                        let m = choose|m: int|
                            0 <= m < conns.drop_last().len() && conns.drop_last()[m]@ != x && q
                                == canon_pair(x, conns.drop_last()[m]@);
                        assert(conns[m]@ != x && q == canon_pair(x, conns[m]@));
                        assert(exists|m2: int|
                            0 <= m2 < conns.len() && conns[m2]@ != x && q == canon_pair(
                                x,
                                conns[m2]@,
                            ));
                    } else {
                        assert(conns.last()@ != x && q == canon_pair(x, conns.last()@));
                        assert(conns[conns.len() - 1]@ != x && q == canon_pair(
                            x,
                            conns[conns.len() - 1]@,
                        ));
                        assert(exists|m2: int|
                            0 <= m2 < conns.len() && conns[m2]@ != x && q == canon_pair(
                                x,
                                conns[m2]@,
                            ));
                    }
                }
            }
            if acc.contains(q) || exists|m: int|
                0 <= m < conns.len() && conns[m]@ != x && q == canon_pair(x, conns[m]@) {
                if acc.contains(q) {
                    assert(prev.contains(q));
                    assert(apply_conns(acc, x, conns).contains(q));
                } else {
                    let m = choose|m: int|
                        0 <= m < conns.len() && conns[m]@ != x && q == canon_pair(x, conns[m]@);
                    if m < conns.len() - 1 {
                        assert(conns.drop_last()[m]@ != x && q == canon_pair(
                            x,
                            conns.drop_last()[m]@,
                        ));
                        assert(exists|m2: int|
                            0 <= m2 < conns.drop_last().len() && conns.drop_last()[m2]@ != x && q
                                == canon_pair(x, conns.drop_last()[m2]@));
                        assert(prev.contains(q));
                        assert(apply_conns(acc, x, conns).contains(q));
                    } else {
                        assert(conns[m] == conns.last());
                        assert(conns.last()@ != x);
                        assert(apply_conns(acc, x, conns) == prev.insert(
                            canon_pair(x, conns.last()@),
                        ));
                        assert(apply_conns(acc, x, conns).contains(q));
                    }
                }
            }
        }
    }
}

/// Once a prefix of the nested port sections fails, the whole fold fails
/// with the same error.
proof fn lemma_apply_client_ports_err(
    acc: (Map<Seq<char>, LockStatus>, Map<Seq<char>, LockStatus>, Set<(Seq<char>, Seq<char>)>),
    cname: Seq<char>,
    ports: Seq<(String, PortInfo)>,
    k: int,
)
    requires
        0 <= k <= ports.len(),
        apply_client_ports(acc, cname, ports.take(k)) is Err,
    ensures
        apply_client_ports(acc, cname, ports) == apply_client_ports(acc, cname, ports.take(k)),
    decreases ports.len() - k,
{
    if k < ports.len() {
        assert(ports.take(k + 1).drop_last() =~= ports.take(k));
        assert(apply_client_ports(acc, cname, ports.take(k + 1)) == apply_client_ports(
            acc,
            cname,
            ports.take(k),
        ));
        lemma_apply_client_ports_err(acc, cname, ports, k + 1);
    } else {
        assert(ports.take(k) =~= ports);
    }
}

/// Once a prefix of the entries fails to load, the whole document fails
/// with the same error.
proof fn lemma_spec_load_err(entries: Seq<LockEntry>, k: int)
    requires
        0 <= k <= entries.len(),
        spec_load(entries.take(k)) is Err,
    ensures
        spec_load(entries) == spec_load(entries.take(k)),
    decreases entries.len() - k,
{
    if k < entries.len() {
        assert(entries.take(k + 1).drop_last() =~= entries.take(k));
        assert(spec_load(entries.take(k + 1)) == spec_load(entries.take(k)));
        lemma_spec_load_err(entries, k + 1);
    } else {
        assert(entries.take(k) =~= entries);
    }
}

/// Whether `x` sorts strictly before the canonical pair `(lo, hi)`.
fn pair_before(x: &(PortFullname, PortFullname), lo: &PortFullname, hi: &PortFullname) -> (r:
    bool)
    ensures
        r == pair_lt((x.0@, x.1@), (lo@, hi@)),
{
    if x.0.lt(lo) {
        true
    } else if str_eq(x.0.as_str(), lo.as_str()) {
        x.1.lt(hi)
    } else {
        false
    }
}

/// The configuration round trip: a stored document that loads back (as
/// [`LockConfig::to_config_file`] guarantees of its result) reproduces the
/// original's client map, port map and declared pair set, whatever
/// configuration value the reload builds.
pub proof fn lemma_config_round_trip(
    original: LockConfig,
    stored: ConfigFile,
    reloaded: LockConfig,
)
    requires
        spec_load(stored.entries@) == Ok::<_, NameError>(cfg_views(original)),
        spec_load(stored.entries@) == Ok::<_, NameError>(cfg_views(reloaded)),
    ensures
        reloaded.client_map() == original.client_map(),
        reloaded.port_map() == original.port_map(),
        reloaded.pair_set() == original.pair_set(),
{
}

/// The status of a connection does not depend on the order of its two
/// port names.
pub proof fn lemma_connection_status_symmetric(cfg: LockConfig, a: Seq<char>, b: Seq<char>)
    ensures
        cfg.spec_connection_status(a, b) == cfg.spec_connection_status(b, a),
{
}

/// The lattice is monotonic: joining a bit in always sets it, and never
/// clears the other bit, so adding both bits in either order reaches `Full`.
pub proof fn lemma_lock_lattice_monotonic(s: LockStatus)
    ensures
        s.spec_with_force().spec_should_force(),
        s.spec_with_block().spec_should_block(),
        s.spec_should_force() ==> s.spec_with_block().spec_should_force(),
        s.spec_should_block() ==> s.spec_with_force().spec_should_block(),
        s.spec_with_force().spec_with_block() == LockStatus::Full,
        s.spec_with_block().spec_with_force() == LockStatus::Full,
{
}

} // verus!
