//! The invariant validator: pure decisions on whether a proposed mutation
//! (link add, link remove, relay crash) is legal against the current
//! topology.
//!
//! Checks run in a fixed order — degree rules first, then client-to-server
//! reachability, then global connectivity — and the first failure found is
//! returned. The what-if checks for removals run on a structural copy of the
//! graph with the mutation applied speculatively; the live graph is never
//! touched here.

use vstd::prelude::*;

use crate::actor::ActorKind;
use crate::errors::Reason;
use crate::paths::{
    client_reaches_all_servers, graph_is_connected, lemma_same_shape_same_invariants,
    lemma_paths_monotone, one_component, reach_inv, relay_connected,
};
use crate::topology::{lemma_same_view, Topology};

verus! {

/// What `validate_add_edge` decides, stated over the graph alone, in the
/// order the checks are made.
pub open spec fn spec_validate_add_edge(g: Topology, a: u8, b: u8) -> Result<(), Reason> {
    if a == b {
        Err(Reason::SelfLoop)
    } else if !g.contains_id(a) || !g.contains_id(b) {
        Err(Reason::NodeNotFound)
    } else if g.adj(a, b) {
        Err(Reason::AlreadyConnected)
    } else if !g.kind_of(a).spec_peers_allowed(g.kind_of(b)) {
        Err(Reason::PeerKindNotAllowed)
    } else if !g.kind_of(a).may_gain_link(g.degree(a)) {
        Err(Reason::DegreeExceeded(a))
    } else if !g.kind_of(b).may_gain_link(g.degree(b)) {
        Err(Reason::DegreeExceeded(b))
    } else {
        Ok(())
    }
}

/// The conjunction under which a link add is accepted.
pub open spec fn add_edge_allowed(g: Topology, a: u8, b: u8) -> bool {
    &&& a != b
    &&& g.contains_id(a)
    &&& g.contains_id(b)
    &&& !g.adj(a, b)
    &&& g.kind_of(a).spec_peers_allowed(g.kind_of(b))
    &&& g.kind_of(a).may_gain_link(g.degree(a))
    &&& g.kind_of(b).may_gain_link(g.degree(b))
}

/// The degree rules of one actor: clients hold one or two links, servers at
/// least two, relays at least one.
pub open spec fn degree_ok(g: Topology, x: u8) -> bool {
    &&& (g.kind_of(x).spec_is_client() ==> 1 <= g.degree(x) <= 2)
    &&& (g.kind_of(x) == ActorKind::Server ==> g.degree(x) >= 2)
    &&& (g.kind_of(x) == ActorKind::Relay ==> g.degree(x) >= 1)
}

/// The degree invariant: every actor in the graph obeys the degree rules of
/// its kind.
pub open spec fn degree_inv(g: Topology) -> bool {
    forall|x: u8| #[trigger] g.contains_id(x) ==> degree_ok(g, x)
}

/// Whether `x` can afford to lose one link and stay at or above the minimum
/// degree of its kind.
pub open spec fn can_lose_link(g: Topology, x: u8) -> bool {
    g.degree(x) >= g.kind_of(x).min_degree() + 1
}

/// How a graph `g2` relates to `g1` when exactly the edge `a -- b` has been
/// taken out: same ids and kinds, same adjacency but for that edge.
pub open spec fn minus_edge_shape(g1: Topology, g2: Topology, a: u8, b: u8) -> bool {
    &&& forall|x: u8| g2.contains_id(x) <==> g1.contains_id(x)
    &&& forall|x: u8| g1.contains_id(x) ==> g2.kind_of(x) == g1.kind_of(x)
    &&& forall|x: u8, y: u8| #[trigger]
        g2.adj(x, y) <==> (g1.adj(x, y) && !(x == a && y == b) && !(x == b && y == a))
}

/// How a graph `g2` relates to `g1` when the node `d` and its incident edges
/// have been taken out.
pub open spec fn minus_node_shape(g1: Topology, g2: Topology, d: u8) -> bool {
    &&& forall|x: u8| g2.contains_id(x) <==> (g1.contains_id(x) && x != d)
    &&& forall|x: u8| g1.contains_id(x) && x != d ==> g2.kind_of(x) == g1.kind_of(x)
    &&& forall|x: u8, y: u8| #[trigger] g2.adj(x, y) <==> (g1.adj(x, y) && x != d && y != d)
}

/// A client that cannot reach every server in `g`.
pub open spec fn client_fails(g: Topology, c: u8) -> bool {
    &&& g.contains_id(c)
    &&& g.kind_of(c).spec_is_client()
    &&& exists|s: u8|
        g.contains_id(s) && g.kind_of(s) == ActorKind::Server && !relay_connected(g, c, s)
}

/// Two graphs of the same shape agree on which clients fail.
pub proof fn lemma_client_fails_same_shape(g1: Topology, g2: Topology, c: u8)
    requires
        forall|x: u8| g1.contains_id(x) <==> g2.contains_id(x),
        forall|x: u8| g1.contains_id(x) ==> g2.kind_of(x) == g1.kind_of(x),
        forall|x: u8, y: u8| g1.adj(x, y) <==> g2.adj(x, y),
        client_fails(g1, c),
    ensures
        client_fails(g2, c),
{
    lemma_paths_monotone(g2, g1);
    let s = choose|s: u8|
        g1.contains_id(s) && g1.kind_of(s) == ActorKind::Server && !relay_connected(g1, c, s);
    assert(g2.contains_id(s) && g2.kind_of(s) == ActorKind::Server);
    assert(!relay_connected(g2, c, s));
}

/// Decide whether the edge `a -- b` may be added: no self-loop, both ends
/// present, not already linked, kinds compatible, and neither client pushed
/// past two links. The first failed check names the error.
pub fn validate_add_edge(g: &Topology, a: u8, b: u8) -> (r: Result<(), Reason>)
    requires
        g.wf(),
    ensures
        r == spec_validate_add_edge(*g, a, b),
        r is Ok <==> add_edge_allowed(*g, a, b),
{
    if a == b {
        return Err(Reason::SelfLoop);
    }
    let ia = match g.lookup(a) {
        Some(i) => i,
        None => { return Err(Reason::NodeNotFound); },
    };
    let ib = match g.lookup(b) {
        Some(i) => i,
        None => { return Err(Reason::NodeNotFound); },
    };
    proof {
        g.lemma_index_of_id_at(ia as int);
        g.lemma_index_of_id_at(ib as int);
    }
    if g.has_edge(a, b) {
        return Err(Reason::AlreadyConnected);
    }
    let ka = g.kind(ia);
    let kb = g.kind(ib);
    if !ka.peers_allowed(kb) {
        return Err(Reason::PeerKindNotAllowed);
    }
    let da = g.degree_at(ia);
    let db = g.degree_at(ib);
    if ka.is_client() && da >= 2 {
        return Err(Reason::DegreeExceeded(a));
    }
    if kb.is_client() && db >= 2 {
        return Err(Reason::DegreeExceeded(b));
    }
    Ok(())
}

/// Run the two traversal checks on an already-mutated what-if graph: every
/// client must reach every server through relays, and the graph must hang
/// together in a single component.
fn check_traversals(h: &Topology) -> (r: Result<(), Reason>)
    requires
        h.wf(),
    ensures
        r is Ok <==> (reach_inv(*h) && one_component(*h)),
        match r {
            Err(Reason::WouldBreakReachability(c)) => client_fails(*h, c),
            _ => true,
        },
        (r matches Err(e) && e is WouldBreakReachability) <==> !reach_inv(*h),
        r == Err::<(), Reason>(Reason::WouldDisconnectGraph) <==> (reach_inv(*h) && !one_component(
            *h,
        )),
{
    let n = h.nodes.len();
    let mut i: usize = 0;
    while i < n
        invariant
            h.wf(),
            n == h.len(),
            i <= n,
            forall|j: int|
                0 <= j < i && (#[trigger] h.kind_at(j)).spec_is_client() ==> (forall|s: u8|
                    h.contains_id(s) && h.kind_of(s) == ActorKind::Server ==> relay_connected(
                        *h,
                        h.id_at(j),
                        s,
                    )),
        decreases n - i,
    {
        let k = h.kind(i);
        if k.is_client() {
            if !client_reaches_all_servers(h, i) {
                proof {
                    h.lemma_index_of_id_at(i as int);
                    let c = h.id_at(i as int);
                    let s = choose|s: u8|
                        h.contains_id(s) && h.kind_of(s) == ActorKind::Server && !relay_connected(
                            *h,
                            c,
                            s,
                        );
                    assert(client_fails(*h, c));
                    assert(!reach_inv(*h));
                }
                return Err(Reason::WouldBreakReachability(h.nodes[i].id));
            }
        }
        i = i + 1;
    }
    proof {
        assert forall|c: u8, s: u8|
            h.contains_id(c) && h.contains_id(s) && h.kind_of(c).spec_is_client() && h.kind_of(s)
                == ActorKind::Server implies #[trigger] relay_connected(*h, c, s) by {
            h.lemma_index_of(c);
            let j = h.index_of(c);
            assert(h.kind_at(j).spec_is_client());
            assert(h.id_at(j) == c);
        }
        assert(reach_inv(*h));
    }
    if !graph_is_connected(h) {
        return Err(Reason::WouldDisconnectGraph);
    }
    Ok(())
}

/// Decide whether the edge `a -- b` may be removed. Checks run in order:
/// first the minimum degree of both endpoints (naming both when both fall
/// short), then — on a copy of the graph without the edge — reachability of
/// every server from every client, then global connectivity.
pub fn validate_remove_edge(g: &Topology, a: u8, b: u8) -> (r: Result<(u8, u8), Reason>)
    requires
        g.wf(),
        g.adj(a, b),
    ensures
        (r matches Err(e) && e is MinDegreeViolation) <==> !(can_lose_link(*g, a) && can_lose_link(
            *g,
            b,
        )),
        !can_lose_link(*g, a) && !can_lose_link(*g, b) ==> r == Err::<(u8, u8), Reason>(
            Reason::MinDegreeViolation(a, Some(b)),
        ),
        !can_lose_link(*g, a) && can_lose_link(*g, b) ==> r == Err::<(u8, u8), Reason>(
            Reason::MinDegreeViolation(a, None),
        ),
        can_lose_link(*g, a) && !can_lose_link(*g, b) ==> r == Err::<(u8, u8), Reason>(
            Reason::MinDegreeViolation(b, None),
        ),
        forall|g2: Topology| #[trigger]
            minus_edge_shape(*g, g2, a, b) ==> {
                &&& (r == Ok::<(u8, u8), Reason>((a, b)) <==> (can_lose_link(*g, a)
                    && can_lose_link(*g, b) && reach_inv(g2) && one_component(g2)))
                &&& ((r matches Err(e) && e is WouldBreakReachability) <==> (can_lose_link(*g, a)
                    && can_lose_link(*g, b) && !reach_inv(g2)))
                &&& (match r {
                    Err(Reason::WouldBreakReachability(c)) => client_fails(g2, c),
                    _ => true,
                })
                &&& (r == Err::<(u8, u8), Reason>(Reason::WouldDisconnectGraph) <==> (can_lose_link(
                    *g,
                    a,
                ) && can_lose_link(*g, b) && reach_inv(g2) && !one_component(g2)))
            },
        r is Ok ==> r == Ok::<(u8, u8), Reason>((a, b)),
{
    proof {
        assert(g.adj(b, a));
    }
    let ia = match g.lookup(a) {
        Some(i) => i,
        None => { proof { assert(false); } 0 },
    };
    let ib = match g.lookup(b) {
        Some(i) => i,
        None => { proof { assert(false); } 0 },
    };
    proof {
        g.lemma_index_of_id_at(ia as int);
        g.lemma_index_of_id_at(ib as int);
    }
    let da = g.degree_at(ia);
    let db = g.degree_at(ib);
    let ma = g.kind(ia).min_degree_exec();
    let mb = g.kind(ib).min_degree_exec();
    let a_ok = da >= ma + 1;
    let b_ok = db >= mb + 1;
    if !a_ok && !b_ok {
        return Err(Reason::MinDegreeViolation(a, Some(b)));
    }
    if !a_ok {
        return Err(Reason::MinDegreeViolation(a, None));
    }
    if !b_ok {
        return Err(Reason::MinDegreeViolation(b, None));
    }
    let mut h = g.duplicate();
    proof {
        lemma_same_view(*g, h);
        assert(h.wf());
        assert(h.adj(a, b));
    }
    h.remove_edge(a, b);
    proof {
        assert(minus_edge_shape(*g, h, a, b));
    }
    let checked = check_traversals(&h);
    proof {
        assert forall|g2: Topology| #[trigger] minus_edge_shape(*g, g2, a, b) implies {
            &&& (reach_inv(g2) <==> reach_inv(h))
            &&& (one_component(g2) <==> one_component(h))
        } by {
            lemma_same_shape_same_invariants(h, g2);
        }
    }
    match checked {
        Ok(()) => Ok((a, b)),
        Err(e) => {
            proof {
                match e {
                    Reason::WouldBreakReachability(c) => {
                        assert forall|g2: Topology| #[trigger]
                            minus_edge_shape(*g, g2, a, b) implies client_fails(g2, c) by {
                            lemma_client_fails_same_shape(h, g2, c);
                        }
                    },
                    _ => {},
                }
            }
            Err(e)
        },
    }
}

/// Decide whether the relay `d` may crash. Checks run in order: first every
/// neighbor's minimum degree, then — on a copy of the graph without the
/// node — reachability of every server from every client, then global
/// connectivity.
#[verifier::rlimit(60)]
pub fn validate_crash(g: &Topology, d: u8) -> (r: Result<(), Reason>)
    requires
        g.wf(),
        g.contains_id(d),
        g.kind_of(d) == ActorKind::Relay,
    ensures
        (r matches Err(e) && e is NeighborMinDegreeViolation) <==> (exists|x: u8|
            #[trigger] g.adj(d, x) && !can_lose_link(*g, x)),
        match r {
            Err(Reason::NeighborMinDegreeViolation(x)) => g.adj(d, x) && !can_lose_link(*g, x),
            _ => true,
        },
        forall|g2: Topology| #[trigger]
            minus_node_shape(*g, g2, d) ==> {
                &&& (r is Ok <==> ((forall|x: u8| #[trigger] g.adj(d, x) ==> can_lose_link(*g, x))
                    && reach_inv(g2) && one_component(g2)))
                &&& ((r matches Err(e) && e is WouldBreakReachability) <==> ((forall|x: u8|
                    #[trigger] g.adj(d, x) ==> can_lose_link(*g, x)) && !reach_inv(g2)))
                &&& (match r {
                    Err(Reason::WouldBreakReachability(c)) => client_fails(g2, c),
                    _ => true,
                })
                &&& (r == Err::<(), Reason>(Reason::WouldDisconnectGraph) <==> ((forall|x: u8|
                    #[trigger] g.adj(d, x) ==> can_lose_link(*g, x)) && reach_inv(g2)
                    && !one_component(g2)))
            },
{
    let di = match g.lookup(d) {
        Some(i) => i,
        None => { proof { assert(false); } 0 },
    };
    proof {
        g.lemma_index_of_id_at(di as int);
        assert(g.nbrs(d) == g.nbrs_at(di as int));
    }
    let deg = g.nodes[di].neighbors.len();
    let mut t: usize = 0;
    while t < deg
        invariant
            g.wf(),
            di < g.len(),
            g.id_at(di as int) == d,
            g.index_of(d) == di,
            g.contains_id(d),
            deg == g.nbrs_at(di as int).len(),
            forall|tt: int|
                #![trigger g.nbrs_at(di as int)[tt]]
                0 <= tt < t ==> can_lose_link(*g, g.nbrs_at(di as int)[tt]),
        decreases deg - t,
    {
        let x = g.nodes[di].neighbors[t];
        proof {
            assert(g.nbrs_at(di as int)[t as int] == x);
            assert(g.nbrs_at(di as int).contains(x));
            assert(g.adj(d, x));
            assert(g.contains_id(x));
        }
        let xi = match g.lookup(x) {
            Some(i) => i,
            None => { proof { assert(false); } 0 },
        };
        proof {
            g.lemma_index_of_id_at(xi as int);
        }
        let dx = g.degree_at(xi);
        let mx = g.kind(xi).min_degree_exec();
        if dx < mx + 1 {
            proof {
                assert(g.adj(d, x) && !can_lose_link(*g, x));
            }
            return Err(Reason::NeighborMinDegreeViolation(x));
        }
        t = t + 1;
    }
    proof {
        assert forall|x: u8| #[trigger] g.adj(d, x) implies can_lose_link(*g, x) by {
            assert(g.nbrs(d).contains(x));
            let tt = choose|tt: int| 0 <= tt < g.nbrs(d).len() && g.nbrs(d)[tt] == x;
            assert(g.nbrs_at(di as int)[tt] == x);
        }
    }
    let mut h = g.duplicate();
    proof {
        lemma_same_view(*g, h);
        assert(h.wf());
        assert(h.contains_id(d));
    }
    h.remove_node(d);
    proof {
        assert(minus_node_shape(*g, h, d));
    }
    let checked = check_traversals(&h);
    proof {
        assert forall|g2: Topology| #[trigger] minus_node_shape(*g, g2, d) implies {
            &&& (reach_inv(g2) <==> reach_inv(h))
            &&& (one_component(g2) <==> one_component(h))
        } by {
            lemma_same_shape_same_invariants(h, g2);
        }
    }
    match checked {
        Ok(()) => Ok(()),
        Err(e) => {
            proof {
                match e {
                    Reason::WouldBreakReachability(c) => {
                        assert forall|g2: Topology| #[trigger]
                            minus_node_shape(*g, g2, d) implies client_fails(g2, c) by {
                            lemma_client_fails_same_shape(h, g2, c);
                        }
                    },
                    _ => {},
                }
            }
            Err(e)
        },
    }
}

} // verus!
