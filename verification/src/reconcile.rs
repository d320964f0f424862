//! The reconciliation loop's decision core: given a fresh graph cache and
//! the lock policy, the minimal set of connect and disconnect operations
//! that brings the live graph into compliance. The surrounding program
//! applies each operation through the external capability and records it
//! in the cache.

use vstd::prelude::*;

use crate::config::LockConfig;
use crate::graph::JackGraph;
use crate::model::ports::{PortData, PortDirection, PortFullname};

verus! {

/// One operation to apply to the live graph, oriented output port first as
/// the external capability requires.
#[derive(Debug, PartialEq, Eq)]
pub enum GraphOp {
    Connect(PortFullname, PortFullname),
    Disconnect(PortFullname, PortFullname),
}

/// The disconnect operation for an existing connection, oriented
/// output-first by the first port's direction.
pub open spec fn orient_disconnect(pa: PortData, pb: PortData) -> GraphOp {
    if pa.direction == PortDirection::Out {
        GraphOp::Disconnect(pa.name, pb.name)
    } else {
        GraphOp::Disconnect(pb.name, pa.name)
    }
}

/// The connect operation for a forced pair, oriented output-first by the
/// first port's direction.
pub open spec fn orient_connect(pa: PortData, pb: PortData) -> GraphOp {
    if pa.direction == PortDirection::Out {
        GraphOp::Connect(pa.name, pb.name)
    } else {
        GraphOp::Connect(pb.name, pa.name)
    }
}

/// The cached connections as pairs of port records, in cache order.
pub open spec fn conn_pairs(g: JackGraph) -> Seq<(PortData, PortData)> {
    Seq::new(
        g.conn_seq().len(),
        |k: int|
            (
                g.ports_seq()[g.conn_seq()[k].0 as int],
                g.ports_seq()[g.conn_seq()[k].1 as int],
            ),
    )
}

/// Whether an existing connection must be severed: blocking only affects
/// connections whose status carries the blocking bit, which the policy
/// gives only to undeclared pairs.
pub open spec fn blocks(c: LockConfig, p: (PortData, PortData)) -> bool {
    c.spec_connection_status(p.0.name@, p.1.name@).spec_should_block()
}

/// The disconnect phase: one operation per cached connection whose status
/// blocks it, oriented output-first.
pub open spec fn spec_disconnect_ops(g: JackGraph, c: LockConfig) -> Seq<GraphOp> {
    conn_pairs(g).filter(|p: (PortData, PortData)| blocks(c, p)).map_values(
        |p: (PortData, PortData)| orient_disconnect(p.0, p.1),
    )
}

/// Whether a forced pair can actually be connected: both ports cached, not
/// already connected, matching category, opposite direction.
pub open spec fn forced_eligible(g: JackGraph, a: Seq<char>, b: Seq<char>) -> bool {
    &&& g.has_port(a)
    &&& g.has_port(b)
    &&& !g.has_link(a, b)
    &&& g.spec_port(a).category == g.spec_port(b).category
    &&& g.spec_port(a).direction != g.spec_port(b).direction
}

/// The connect phase over the policy's forced pairs: one operation per
/// eligible pair, oriented output-first.
pub open spec fn spec_connect_ops(g: JackGraph, pairs: Seq<(Seq<char>, Seq<char>)>) -> Seq<
    GraphOp,
> {
    pairs.filter(|q: (Seq<char>, Seq<char>)| forced_eligible(g, q.0, q.1)).map_values(
        |q: (Seq<char>, Seq<char>)| orient_connect(g.spec_port(q.0), g.spec_port(q.1)),
    )
}

/// The forced pairs of the policy: the declared pairs whose status carries
/// the forcing bit.
pub open spec fn forced_pairs(c: LockConfig) -> Seq<(Seq<char>, Seq<char>)> {
    c.pair_seq().filter(
        |q: (Seq<char>, Seq<char>)| c.spec_connection_status(q.0, q.1).spec_should_force(),
    )
}

/// The whole plan: all blocked disconnections, then all eligible forced
/// connections.
pub open spec fn spec_plan(g: JackGraph, c: LockConfig) -> Seq<GraphOp> {
    spec_disconnect_ops(g, c) + spec_connect_ops(g, forced_pairs(c))
}

/// Computes the operations that bring the live graph into compliance with
/// the policy: sever every existing connection the policy blocks, then
/// create every declared, forced, currently absent and compatible
/// connection, each oriented output port first.
#[verifier::rlimit(100)]
pub fn plan_reconciliation(graph: &JackGraph, conf: &LockConfig) -> (r: Vec<GraphOp>)
    requires
        graph.wf(),
        conf.wf(),
    ensures
        r@ == spec_plan(*graph, *conf),
{
    let mut r: Vec<GraphOp> = Vec::new();
    let conns = graph.all_connections();
    let n = conns.len();
    let mut k: usize = 0;
    proof {
        reveal(Seq::filter);
        assert(conn_pairs(*graph).take(0) =~= Seq::<(PortData, PortData)>::empty());
        assert(r@ =~= Seq::<(PortData, PortData)>::empty().filter(
            |p: (PortData, PortData)| blocks(*conf, p),
        ).map_values(|p: (PortData, PortData)| orient_disconnect(p.0, p.1)));
    }
    while k < n
        invariant
            k <= n,
            n == conns@.len(),
            graph.wf(),
            conf.wf(),
            conns@.len() == conn_pairs(*graph).len(),
            forall|m: int| 0 <= m < conns@.len() ==> #[trigger] conns@[m] == conn_pairs(*graph)[m],
            r@ == conn_pairs(*graph).take(k as int).filter(
                |p: (PortData, PortData)| blocks(*conf, p),
            ).map_values(|p: (PortData, PortData)| orient_disconnect(p.0, p.1)),
        decreases n - k,
    {
        let pa = &conns[k].0;
        let pb = &conns[k].1;
        let status = conf.connection_status(&pa.name, &pb.name);
        let ghost r0 = r@;
        if status.should_block() {
            let op = if pa.direction.is_output() {
                GraphOp::Disconnect(pa.name.clone(), pb.name.clone())
            } else {
                GraphOp::Disconnect(pb.name.clone(), pa.name.clone())
            };
            r.push(op);
            proof {
                assert(r@ =~= r0.push(orient_disconnect(conns@[k as int].0, conns@[k as int].1)));
            }
        }
        k += 1;
        proof {
            reveal(Seq::filter);
            let pred = |p: (PortData, PortData)| blocks(*conf, p);
            let t1 = conn_pairs(*graph).take(k as int);
            assert(t1.drop_last() =~= conn_pairs(*graph).take(k - 1));
            assert(t1.last() == conns@[k - 1]);
            assert(t1.filter(pred) == if pred(t1.last()) {
                t1.drop_last().filter(pred).push(t1.last())
            } else {
                t1.drop_last().filter(pred)
            });
            if pred(t1.last()) {
                assert(t1.filter(pred).map_values(
                    |p: (PortData, PortData)| orient_disconnect(p.0, p.1),
                ) =~= t1.drop_last().filter(pred).map_values(
                    |p: (PortData, PortData)| orient_disconnect(p.0, p.1),
                ).push(orient_disconnect(t1.last().0, t1.last().1)));
            } else {
                assert(t1.filter(pred).map_values(
                    |p: (PortData, PortData)| orient_disconnect(p.0, p.1),
                ) =~= t1.drop_last().filter(pred).map_values(
                    |p: (PortData, PortData)| orient_disconnect(p.0, p.1),
                ));
            }
        }
    }
    proof {
        assert(conn_pairs(*graph).take(n as int) =~= conn_pairs(*graph));
    }
    let forced = conf.forced_connections();
    let fcount = forced.len();
    let ghost fviews = crate::config::pair_views(forced@);
    proof {
        assert(fviews == forced_pairs(*conf));
        reveal(Seq::filter);
        assert(fviews.take(0) =~= Seq::<(Seq<char>, Seq<char>)>::empty());
        assert(spec_connect_ops(*graph, fviews.take(0)) =~= Seq::<GraphOp>::empty());
    }
    let ghost disc_ops = r@;
    let mut l: usize = 0;
    while l < fcount
        invariant
            l <= fcount,
            fcount == forced@.len(),
            graph.wf(),
            conf.wf(),
            fviews == crate::config::pair_views(forced@),
            fviews.len() == forced@.len(),
            forall|m: int|
                0 <= m < forced@.len() ==> (#[trigger] forced@[m]).0.wf() && forced@[m].1.wf()
                    && fviews[m] == (forced@[m].0@, forced@[m].1@),
            r@ == disc_ops + spec_connect_ops(*graph, fviews.take(l as int)),
        decreases fcount - l,
    {
        let a = &forced[l].0;
        let b = &forced[l].1;
        let ghost r0 = r@;
        let ghost q = fviews[l as int];
        match (graph.port_by_name(a), graph.port_by_name(b)) {
            (Some(pa), Some(pb)) => {
                let connected = graph.is_connected(a, b);
                if !connected && pa.category == pb.category && pa.direction != pb.direction {
                    proof {
                        assert(forced_eligible(*graph, q.0, q.1));
                        graph.lemma_spec_port(q.0);
                        graph.lemma_spec_port(q.1);
                    }
                    let op = if pa.direction.is_output() {
                        GraphOp::Connect(pa.name.clone(), pb.name.clone())
                    } else {
                        GraphOp::Connect(pb.name.clone(), pa.name.clone())
                    };
                    r.push(op);
                    proof {
                        assert(r@ =~= r0.push(
                            orient_connect(graph.spec_port(q.0), graph.spec_port(q.1)),
                        ));
                    }
                } else {
                    proof {
                        assert(!forced_eligible(*graph, q.0, q.1));
                    }
                }
            },
            _ => {
                proof {
                    assert(!forced_eligible(*graph, q.0, q.1));
                }
            },
        }
        l += 1;
        proof {
            reveal(Seq::filter);
            let pred = |q2: (Seq<char>, Seq<char>)| forced_eligible(*graph, q2.0, q2.1);
            let t1 = fviews.take(l as int);
            assert(t1.drop_last() =~= fviews.take(l - 1));
            assert(t1.last() == q);
            assert(t1.filter(pred) == if pred(t1.last()) {
                t1.drop_last().filter(pred).push(t1.last())
            } else {
                t1.drop_last().filter(pred)
            });
            if pred(t1.last()) {
                assert(spec_connect_ops(*graph, t1) =~= spec_connect_ops(
                    *graph,
                    fviews.take(l - 1),
                ).push(orient_connect(graph.spec_port(q.0), graph.spec_port(q.1))));
                assert(r@ =~= disc_ops + spec_connect_ops(*graph, t1));
            } else {
                assert(spec_connect_ops(*graph, t1) =~= spec_connect_ops(
                    *graph,
                    fviews.take(l - 1),
                ));
                assert(r@ =~= disc_ops + spec_connect_ops(*graph, t1));
            }
        }
    }
    proof {
        assert(fviews.take(fcount as int) =~= fviews);
        assert(r@ =~= spec_plan(*graph, *conf));
    }
    r
}

/// What applying the plan leaves in the cache: the old links minus the
/// blocked ones, plus the eligible forced pairs.
pub open spec fn plan_adds(g: JackGraph, c: LockConfig, x: Seq<char>, y: Seq<char>) -> bool {
    exists|m: int|
        0 <= m < forced_pairs(c).len() && forced_eligible(
            g,
            (#[trigger] forced_pairs(c)[m]).0,
            forced_pairs(c)[m].1,
        ) && (((x, y) == (forced_pairs(c)[m].0, forced_pairs(c)[m].1)) || ((x, y) == (
        forced_pairs(c)[m].1,
        forced_pairs(c)[m].0,
        )))
}

/// Reconciliation is idempotent: if `after` is `before` with the plan's
/// operations applied and nothing else changed, the plan computed from
/// `after` is empty.
#[verifier::rlimit(100)]
pub proof fn lemma_reconciliation_idempotent(before: JackGraph, after: JackGraph, c: LockConfig)
    requires
        before.wf(),
        after.wf(),
        c.wf(),
        after.ports_seq() == before.ports_seq(),
        forall|x: Seq<char>, y: Seq<char>|
            after.has_link(x, y) <==> ((before.has_link(x, y) && !c.spec_connection_status(
                x,
                y,
            ).spec_should_block()) || plan_adds(before, c, x, y)),
    ensures
        spec_plan(after, c) == Seq::<GraphOp>::empty(),
{
    assert forall|z: Seq<char>| after.has_port(z) <==> before.has_port(z) by {
        if after.has_port(z) {
            let i = choose|i: int|
                0 <= i < after.ports_seq().len() && after.ports_seq()[i].name@ == z;
            assert(before.ports_seq()[i].name@ == z);
        }
        if before.has_port(z) {
            let i = choose|i: int|
                0 <= i < before.ports_seq().len() && before.ports_seq()[i].name@ == z;
            assert(after.ports_seq()[i].name@ == z);
        }
    }
    assert forall|k: int|
        0 <= k < conn_pairs(after).len() implies !blocks(c, #[trigger] conn_pairs(after)[k]) by {
        let p = conn_pairs(after)[k];
        let x = p.0.name@;
        let y = p.1.name@;
        assert(after.link_names_at(k) == (x, y));
        assert(after.has_link(x, y));
        if before.has_link(x, y) && !c.spec_connection_status(x, y).spec_should_block() {
        } else {
            let m = choose|m: int|
                0 <= m < forced_pairs(c).len() && forced_eligible(
                    before,
                    forced_pairs(c)[m].0,
                    forced_pairs(c)[m].1,
                ) && (((x, y) == (forced_pairs(c)[m].0, forced_pairs(c)[m].1)) || ((x, y) == (
                forced_pairs(c)[m].1,
                forced_pairs(c)[m].0,
                )));
            let q = forced_pairs(c)[m];
            lemma_filter_elem(
                c.pair_seq(),
                |q2: (Seq<char>, Seq<char>)| c.spec_connection_status(
                    q2.0,
                    q2.1,
                ).spec_should_force(),
                m,
            );
            assert(c.pair_seq().contains(q));
            assert(c.pair_set().contains(q));
            assert(c.declared(q.0, q.1));
            crate::config::lemma_force_block_asymmetry(c, q.0, q.1);
            assert(c.spec_connection_status(q.0, q.1) != crate::config::LockStatus::Block);
            crate::config::lemma_connection_status_symmetric(c, q.0, q.1);
        }
    }
    lemma_filter_all_false(
        conn_pairs(after),
        |p: (PortData, PortData)| blocks(c, p),
    );
    assert(spec_disconnect_ops(after, c) =~= Seq::<GraphOp>::empty());
    assert forall|m: int|
        0 <= m < forced_pairs(c).len() implies !forced_eligible(
        after,
        (#[trigger] forced_pairs(c)[m]).0,
        forced_pairs(c)[m].1,
    ) by {
        let q = forced_pairs(c)[m];
        c.pair_seq().lemma_filter_pred(
            |q2: (Seq<char>, Seq<char>)| c.spec_connection_status(q2.0, q2.1).spec_should_force(),
            m,
        );
        lemma_filter_elem(
            c.pair_seq(),
            |q2: (Seq<char>, Seq<char>)| c.spec_connection_status(q2.0, q2.1).spec_should_force(),
            m,
        );
        assert(c.pair_seq().contains(q));
        assert(c.pair_set().contains(q));
        assert(c.declared(q.0, q.1));
        if forced_eligible(after, q.0, q.1) {
            if forced_eligible(before, q.0, q.1) {
                assert(plan_adds(before, c, q.0, q.1));
                assert(after.has_link(q.0, q.1));
                assert(false);
            } else {
                assert(before.has_port(q.0) && before.has_port(q.1));
                before.lemma_same_ports_same_spec_port(after, q.0);
                before.lemma_same_ports_same_spec_port(after, q.1);
                assert(before.has_link(q.0, q.1));
                crate::config::lemma_force_block_asymmetry(c, q.0, q.1);
                assert(!c.spec_connection_status(q.0, q.1).spec_should_block());
                assert(after.has_link(q.0, q.1));
                assert(false);
            }
        }
    }
    lemma_filter_all_false(
        forced_pairs(c),
        |q: (Seq<char>, Seq<char>)| forced_eligible(after, q.0, q.1),
    );
    assert(spec_connect_ops(after, forced_pairs(c)) =~= Seq::<GraphOp>::empty());
    assert(spec_plan(after, c) =~= Seq::<GraphOp>::empty());
}

/// Every element of a filtered sequence comes from the original sequence.
proof fn lemma_filter_elem<A>(s: Seq<A>, pred: spec_fn(A) -> bool, i: int)
    requires
        0 <= i < s.filter(pred).len(),
    ensures
        s.contains(s.filter(pred)[i]),
    decreases s.len(),
{
    reveal(Seq::filter);
    if s.len() > 0 {
        let sub = s.drop_last().filter(pred);
        if pred(s.last()) && i == s.filter(pred).len() - 1 {
            assert(s.filter(pred)[i] == s.last());
            assert(s[s.len() - 1] == s.last());
        } else {
            lemma_filter_elem(s.drop_last(), pred, i);
            let j = choose|j: int| 0 <= j < s.drop_last().len() && s.drop_last()[j] == sub[i];
            assert(s[j] == s.filter(pred)[i]);
        }
    }
}

/// A filter whose predicate holds nowhere yields the empty sequence.
proof fn lemma_filter_all_false<A>(s: Seq<A>, pred: spec_fn(A) -> bool)
    requires
        forall|k: int| 0 <= k < s.len() ==> !pred(#[trigger] s[k]),
    ensures
        s.filter(pred) == Seq::<A>::empty(),
    decreases s.len(),
{
    reveal(Seq::filter);
    if s.len() > 0 {
        lemma_filter_all_false(s.drop_last(), pred);
    }
}

} // verus!
