//! Path-existence notions over the topology, and verified breadth-first
//! checks for the two traversal invariants: client-to-server reachability
//! through relays, and global connectivity.

use vstd::prelude::*;

use crate::actor::ActorKind;
use crate::topology::Topology;

verus! {

/// `p` is a walk in `g`: nonempty, every stop present, consecutive stops
/// adjacent.
pub open spec fn is_path(g: Topology, p: Seq<u8>) -> bool {
    &&& p.len() >= 1
    &&& forall|k: int| 0 <= k < p.len() ==> g.contains_id(#[trigger] p[k])
    &&& forall|k: int| 0 <= k < p.len() - 1 ==> g.adj(#[trigger] p[k], p[k + 1])
}

/// `p` is a walk leading from `a` to `b`.
pub open spec fn connects(g: Topology, p: Seq<u8>, a: u8, b: u8) -> bool {
    is_path(g, p) && p.first() == a && p.last() == b
}

/// Some walk joins `a` and `b`.
pub open spec fn connected(g: Topology, a: u8, b: u8) -> bool {
    exists|p: Seq<u8>| connects(g, p, a, b)
}

/// Every stop of `p` after the first is a relay.
pub open spec fn relay_tail(g: Topology, p: Seq<u8>) -> bool {
    forall|k: int| 1 <= k < p.len() ==> g.kind_of(#[trigger] p[k]) == ActorKind::Relay
}

/// Every interior stop of `p` (neither endpoint) is a relay.
pub open spec fn relay_interior(g: Topology, p: Seq<u8>) -> bool {
    forall|k: int| 0 < k < p.len() - 1 ==> g.kind_of(#[trigger] p[k]) == ActorKind::Relay
}

/// A relay route from `a` to `x`: a walk whose every stop after `a` is a
/// relay. These are the walks a traversal that only steps through relays can
/// extend.
pub open spec fn relay_route(g: Topology, a: u8, x: u8) -> bool {
    exists|p: Seq<u8>| connects(g, p, a, x) && relay_tail(g, p)
}

/// `b` can be reached from `a` without stepping *through* any client or
/// server: some walk joins them whose interior stops are all relays.
pub open spec fn relay_connected(g: Topology, a: u8, b: u8) -> bool {
    exists|p: Seq<u8>| connects(g, p, a, b) && relay_interior(g, p)
}

/// The reachability invariant: every client can reach every server through
/// relays.
pub open spec fn reach_inv(g: Topology) -> bool {
    forall|c: u8, s: u8|
        g.contains_id(c) && g.contains_id(s) && g.kind_of(c).spec_is_client() && g.kind_of(s)
            == ActorKind::Server ==> #[trigger] relay_connected(g, c, s)
}

/// The connectivity invariant: the graph forms a single connected component.
pub open spec fn one_component(g: Topology) -> bool {
    forall|a: u8, b: u8|
        g.contains_id(a) && g.contains_id(b) ==> #[trigger] connected(g, a, b)
}

/// The one-stop walk joins a present id to itself.
pub proof fn lemma_connected_refl(g: Topology, a: u8)
    requires
        g.contains_id(a),
    ensures
        connected(g, a, a),
        relay_route(g, a, a),
{
    let p = seq![a];
    assert(p.first() == a && p.last() == a);
    assert(connects(g, p, a, a));
    assert(relay_tail(g, p));
}

/// Extending a relay route by one edge into a relay yields a relay route.
pub proof fn lemma_relay_route_step(g: Topology, a: u8, x: u8, y: u8)
    requires
        relay_route(g, a, x),
        g.adj(x, y),
        g.contains_id(y),
        g.kind_of(y) == ActorKind::Relay,
    ensures
        relay_route(g, a, y),
{
    let p = choose|p: Seq<u8>| connects(g, p, a, x) && relay_tail(g, p);
    let q = p.push(y);
    assert(q.last() == y && q.first() == a);
    assert forall|k: int| 0 <= k < q.len() implies g.contains_id(#[trigger] q[k]) by {
        if k < p.len() {
            assert(q[k] == p[k]);
        }
    }
    assert forall|k: int| 0 <= k < q.len() - 1 implies g.adj(#[trigger] q[k], q[k + 1]) by {
        if k < p.len() - 1 {
            assert(q[k] == p[k] && q[k + 1] == p[k + 1]);
        } else {
            assert(q[k] == p.last() && q[k + 1] == y);
        }
    }
    assert forall|k: int| 1 <= k < q.len() implies g.kind_of(#[trigger] q[k])
        == ActorKind::Relay by {
        if k < p.len() {
            assert(q[k] == p[k]);
        }
    }
    assert(connects(g, q, a, y) && relay_tail(g, q));
}

/// A relay route followed by one edge reaches its target through relays.
pub proof fn lemma_relay_route_reach(g: Topology, a: u8, x: u8, s: u8)
    requires
        relay_route(g, a, x),
        g.adj(x, s),
        g.contains_id(s),
    ensures
        relay_connected(g, a, s),
{
    let p = choose|p: Seq<u8>| connects(g, p, a, x) && relay_tail(g, p);
    let q = p.push(s);
    assert(q.last() == s && q.first() == a);
    assert forall|k: int| 0 <= k < q.len() implies g.contains_id(#[trigger] q[k]) by {
        if k < p.len() {
            assert(q[k] == p[k]);
        }
    }
    assert forall|k: int| 0 <= k < q.len() - 1 implies g.adj(#[trigger] q[k], q[k + 1]) by {
        if k < p.len() - 1 {
            assert(q[k] == p[k] && q[k + 1] == p[k + 1]);
        } else {
            assert(q[k] == p.last() && q[k + 1] == s);
        }
    }
    assert forall|k: int| 0 < k < q.len() - 1 implies g.kind_of(#[trigger] q[k])
        == ActorKind::Relay by {
        assert(q[k] == p[k]);
    }
    assert(connects(g, q, a, s) && relay_interior(g, q));
}

/// A walk with relay interior from `a` to `b`, with `a != b`, decomposes into
/// a relay route to some last hop `x` adjacent to `b`.
pub proof fn lemma_relay_connected_last_hop(g: Topology, a: u8, b: u8) -> (x: u8)
    requires
        relay_connected(g, a, b),
        a != b,
    ensures
        relay_route(g, a, x),
        g.adj(x, b),
{
    let p = choose|p: Seq<u8>| connects(g, p, a, b) && relay_interior(g, p);
    assert(p.len() >= 2) by {
        if p.len() == 1 {
            assert(p.first() == p.last());
        }
    }
    let q = p.drop_last();
    let xx = q.last();
    assert(q.len() == p.len() - 1);
    assert forall|k: int| 0 <= k < q.len() implies g.contains_id(#[trigger] q[k]) by {
        assert(q[k] == p[k]);
    }
    assert forall|k: int| 0 <= k < q.len() - 1 implies g.adj(#[trigger] q[k], q[k + 1]) by {
        assert(q[k] == p[k] && q[k + 1] == p[k + 1]);
    }
    assert forall|k: int| 1 <= k < q.len() implies g.kind_of(#[trigger] q[k])
        == ActorKind::Relay by {
        assert(q[k] == p[k]);
    }
    assert(q.first() == p.first());
    assert(connects(g, q, a, xx) && relay_tail(g, q));
    assert(g.adj(p[p.len() - 2], p[p.len() - 1]));
    assert(xx == p[p.len() - 2] && b == p[p.len() - 1]);
    xx
}

/// Connectivity runs backwards over a well-formed (symmetric) graph.
pub proof fn lemma_connected_sym(g: Topology, a: u8, b: u8)
    requires
        g.wf(),
        connected(g, a, b),
    ensures
        connected(g, b, a),
{
    let p = choose|p: Seq<u8>| connects(g, p, a, b);
    lemma_connects_sym(g, p, a, b);
}

proof fn lemma_connects_sym(g: Topology, p: Seq<u8>, a: u8, b: u8)
    requires
        g.wf(),
        connects(g, p, a, b),
    ensures
        connected(g, b, a),
    decreases p.len(),
{
    if p.len() == 1 {
        assert(a == b);
        lemma_connected_refl(g, a);
    } else {
        let q = p.drop_last();
        assert forall|k: int| 0 <= k < q.len() implies g.contains_id(#[trigger] q[k]) by {
            assert(q[k] == p[k]);
        }
        assert forall|k: int| 0 <= k < q.len() - 1 implies g.adj(#[trigger] q[k], q[k + 1]) by {
            assert(q[k] == p[k] && q[k + 1] == p[k + 1]);
        }
        assert(q.first() == a && q.last() == p[p.len() - 2]);
        assert(connects(g, q, a, p[p.len() - 2]));
        lemma_connects_sym(g, q, a, p[p.len() - 2]);
        assert(connected(g, p[p.len() - 2], a));
        // b is adjacent to the second-to-last stop; prepend it.
        let m = p[p.len() - 2];
        let r = choose|r: Seq<u8>| connects(g, r, m, a);
        let w = seq![b] + r;
        assert(g.adj(p[p.len() - 2], b));
        assert(g.adj(b, p[p.len() - 2]));
        assert(w.len() == r.len() + 1);
        assert forall|k: int| 0 <= k < w.len() implies g.contains_id(#[trigger] w[k]) by {
            if k == 0 {
                assert(w[0] == b);
            } else {
                assert(w[k] == r[k - 1]);
            }
        }
        assert forall|k: int| 0 <= k < w.len() - 1 implies g.adj(#[trigger] w[k], w[k + 1]) by {
            if k == 0 {
                assert(w[0] == b && w[1] == r[0]);
                assert(r[0] == m);
            } else {
                assert(w[k] == r[k - 1] && w[k + 1] == r[k]);
            }
        }
        assert(w.first() == b && w.last() == r.last());
        assert(connects(g, w, b, a));
    }
}

/// Connectivity composes: a walk to `b` and a walk onward to `c` join up.
pub proof fn lemma_connected_trans(g: Topology, a: u8, b: u8, c: u8)
    requires
        connected(g, a, b),
        connected(g, b, c),
    ensures
        connected(g, a, c),
{
    let p = choose|p: Seq<u8>| connects(g, p, a, b);
    let q = choose|q: Seq<u8>| connects(g, q, b, c);
    let w = p + q.drop_first();
    assert(w.len() == p.len() + q.len() - 1);
    assert forall|k: int| 0 <= k < w.len() implies g.contains_id(#[trigger] w[k]) by {
        if k < p.len() {
            assert(w[k] == p[k]);
        } else {
            assert(w[k] == q[k - p.len() + 1]);
        }
    }
    assert forall|k: int| 0 <= k < w.len() - 1 implies g.adj(#[trigger] w[k], w[k + 1]) by {
        if k < p.len() - 1 {
            assert(w[k] == p[k] && w[k + 1] == p[k + 1]);
        } else if k == p.len() - 1 {
            assert(w[k] == p.last());
            if q.len() >= 2 {
                assert(w[k + 1] == q[1]);
                assert(g.adj(q[0], q[1]));
                assert(q[0] == b && p.last() == b);
            }
        } else {
            assert(w[k] == q[k - p.len() + 1] && w[k + 1] == q[k - p.len() + 2]);
        }
    }
    assert(w.first() == a);
    if q.len() == 1 {
        assert(b == c);
        assert(w =~= p);
        assert(w.last() == c);
    } else {
        assert(w.last() == q.last());
    }
    assert(connects(g, w, a, c));
}

/// Walks survive into any graph that keeps the same ids and at least the
/// same adjacencies; relay walks also need the kinds kept.
pub proof fn lemma_paths_monotone(g1: Topology, g2: Topology)
    requires
        forall|x: u8| g1.contains_id(x) ==> g2.contains_id(x),
        forall|x: u8| g1.contains_id(x) ==> g2.kind_of(x) == g1.kind_of(x),
        forall|x: u8, y: u8| g1.adj(x, y) ==> g2.adj(x, y),
    ensures
        forall|a: u8, b: u8| connected(g1, a, b) ==> connected(g2, a, b),
        forall|a: u8, b: u8| relay_connected(g1, a, b) ==> relay_connected(g2, a, b),
{
    assert forall|a: u8, b: u8| connected(g1, a, b) implies connected(g2, a, b) by {
        let p = choose|p: Seq<u8>| connects(g1, p, a, b);
        assert forall|k: int| 0 <= k < p.len() implies g2.contains_id(#[trigger] p[k]) by {}
        assert forall|k: int| 0 <= k < p.len() - 1 implies g2.adj(#[trigger] p[k], p[k + 1]) by {}
        assert(connects(g2, p, a, b));
    }
    assert forall|a: u8, b: u8| relay_connected(g1, a, b) implies relay_connected(g2, a, b) by {
        let p = choose|p: Seq<u8>| connects(g1, p, a, b) && relay_interior(g1, p);
        assert forall|k: int| 0 <= k < p.len() implies g2.contains_id(#[trigger] p[k]) by {}
        assert forall|k: int| 0 <= k < p.len() - 1 implies g2.adj(#[trigger] p[k], p[k + 1]) by {}
        assert forall|k: int| 0 < k < p.len() - 1 implies g2.kind_of(#[trigger] p[k])
            == ActorKind::Relay by {
            assert(g1.contains_id(p[k]));
        }
        assert(connects(g2, p, a, b) && relay_interior(g2, p));
    }
}

/// Number of `true` entries in a boolean sequence.
pub closed spec fn count_true(s: Seq<bool>) -> nat
    decreases s.len(),
{
    if s.len() == 0 {
        0
    } else {
        count_true(s.drop_last()) + (if s.last() {
            1nat
        } else {
            0nat
        })
    }
}

/// A sequence of `false` entries has no `true` entry to count.
pub proof fn lemma_count_true_none(s: Seq<bool>)
    requires
        forall|i: int| 0 <= i < s.len() ==> !s[i],
    ensures
        count_true(s) == 0,
    decreases s.len(),
{
    if s.len() > 0 {
        lemma_count_true_none(s.drop_last());
    }
}

/// At most every entry is `true`.
pub proof fn lemma_count_true_le_len(s: Seq<bool>)
    ensures
        count_true(s) <= s.len(),
    decreases s.len(),
{
    if s.len() > 0 {
        lemma_count_true_le_len(s.drop_last());
    }
}

/// Flipping one entry from `false` to `true` raises the count by one.
pub proof fn lemma_count_true_update(s: Seq<bool>, j: int)
    requires
        0 <= j < s.len(),
        !s[j],
    ensures
        count_true(s.update(j, true)) == count_true(s) + 1,
    decreases s.len(),
{
    let t = s.update(j, true);
    if j == s.len() - 1 {
        assert(t.drop_last() =~= s.drop_last());
        assert(t.last());
    } else {
        assert(t.drop_last() =~= s.drop_last().update(j, true));
        assert(t.last() == s.last());
        lemma_count_true_update(s.drop_last(), j);
    }
}

/// A settled traversal node: each neighbor that is a relay has been visited,
/// and each neighbor that is a server has been recorded.
pub open spec fn frontier_done(
    g: Topology,
    visited: Seq<bool>,
    server_seen: Seq<bool>,
    j: int,
) -> bool {
    forall|y: u8|
        #![trigger g.nbrs_at(j).contains(y)]
        g.nbrs_at(j).contains(y) ==> {
            &&& (g.kind_of(y) == ActorKind::Relay ==> visited[g.index_of(y)])
            &&& (g.kind_of(y) == ActorKind::Server ==> server_seen[g.index_of(y)])
        }
}

/// Being settled survives growth of the visited and recorded sets.
pub proof fn lemma_frontier_done_monotone(
    g: Topology,
    v0: Seq<bool>,
    s0: Seq<bool>,
    v1: Seq<bool>,
    s1: Seq<bool>,
    j: int,
)
    requires
        frontier_done(g, v0, s0, j),
        v1.len() == v0.len(),
        s1.len() == s0.len(),
        forall|i: int| 0 <= i < v0.len() && v0[i] ==> v1[i],
        forall|i: int| 0 <= i < s0.len() && s0[i] ==> s1[i],
        g.wf(),
        0 <= j < g.len(),
        v0.len() == g.len(),
        s0.len() == g.len(),
    ensures
        frontier_done(g, v1, s1, j),
{
    assert forall|y: u8| #![trigger g.nbrs_at(j).contains(y)]
        g.nbrs_at(j).contains(y) implies {
        &&& (g.kind_of(y) == ActorKind::Relay ==> v1[g.index_of(y)])
        &&& (g.kind_of(y) == ActorKind::Server ==> s1[g.index_of(y)])
    } by {
        g.lemma_index_of_id_at(j);
        let a = g.id_at(j);
        assert(g.nbrs(a) == g.nbrs_at(j));
        assert(g.adj(a, y));
        assert(g.contains_id(y));
        g.lemma_index_of(y);
    }
}

/// If every visited node is settled, every relay route from `c` ends in a
/// visited node.
proof fn lemma_route_visited(
    g: Topology,
    c: u8,
    visited: Seq<bool>,
    server_seen: Seq<bool>,
    p: Seq<u8>,
)
    requires
        g.wf(),
        g.contains_id(c),
        visited.len() == g.len(),
        visited[g.index_of(c)],
        forall|j: int|
            0 <= j < g.len() && visited[j] ==> frontier_done(g, visited, server_seen, j),
        is_path(g, p),
        p.first() == c,
        relay_tail(g, p),
    ensures
        visited[g.index_of(p.last())],
    decreases p.len(),
{
    if p.len() == 1 {
        assert(p.last() == c);
    } else {
        let q = p.drop_last();
        assert forall|k: int| 0 <= k < q.len() implies g.contains_id(#[trigger] q[k]) by {
            assert(q[k] == p[k]);
        }
        assert forall|k: int| 0 <= k < q.len() - 1 implies g.adj(#[trigger] q[k], q[k + 1]) by {
            assert(q[k] == p[k] && q[k + 1] == p[k + 1]);
        }
        assert forall|k: int| 1 <= k < q.len() implies g.kind_of(#[trigger] q[k])
            == ActorKind::Relay by {
            assert(q[k] == p[k]);
        }
        assert(q.first() == c);
        lemma_route_visited(g, c, visited, server_seen, q);
        let x = q.last();
        g.lemma_index_of(x);
        let xi = g.index_of(x);
        assert(visited[xi]);
        assert(frontier_done(g, visited, server_seen, xi));
        let z = p.last();
        assert(g.adj(p[p.len() - 2], p[p.len() - 1]));
        assert(x == p[p.len() - 2] && z == p[p.len() - 1]);
        assert(g.nbrs(x) == g.nbrs_at(xi));
        assert(g.nbrs_at(xi).contains(z));
        assert(g.kind_of(z) == ActorKind::Relay);
        assert(visited[g.index_of(z)]);
    }
}

/// If every visited node is settled, every server reachable from `c` through
/// relays has been recorded.
proof fn lemma_server_recorded(
    g: Topology,
    c: u8,
    visited: Seq<bool>,
    server_seen: Seq<bool>,
    s: u8,
)
    requires
        g.wf(),
        g.contains_id(c),
        visited.len() == g.len(),
        server_seen.len() == g.len(),
        visited[g.index_of(c)],
        forall|j: int|
            0 <= j < g.len() && visited[j] ==> frontier_done(g, visited, server_seen, j),
        relay_connected(g, c, s),
        c != s,
        g.kind_of(s) == ActorKind::Server,
    ensures
        server_seen[g.index_of(s)],
{
    let x = lemma_relay_connected_last_hop(g, c, s);
    let p = choose|p: Seq<u8>| connects(g, p, c, x) && relay_tail(g, p);
    lemma_route_visited(g, c, visited, server_seen, p);
    g.lemma_index_of(x);
    let xi = g.index_of(x);
    assert(visited[xi]);
    assert(frontier_done(g, visited, server_seen, xi));
    assert(g.nbrs(x) == g.nbrs_at(xi));
    assert(g.nbrs_at(xi).contains(s));
}

/// A vector of `n` entries, all `false`.
fn false_vec(n: usize) -> (r: Vec<bool>)
    ensures
        r@.len() == n,
        forall|i: int| 0 <= i < n ==> !r@[i],
{
    let mut r: Vec<bool> = Vec::new();
    let mut i: usize = 0;
    while i < n
        invariant
            i <= n,
            r@.len() == i,
            forall|j: int| 0 <= j < i ==> !r@[j],
        decreases n - i,
    {
        r.push(false);
        i = i + 1;
    }
    r
}

/// Decide whether the client at index `ci` can reach every server in the
/// graph on walks whose interior stops are all relays.
pub fn client_reaches_all_servers(g: &Topology, ci: usize) -> (r: bool)
    requires
        g.wf(),
        ci < g.len(),
        g.kind_at(ci as int).spec_is_client(),
    ensures
        r <==> (forall|s: u8|
            g.contains_id(s) && g.kind_of(s) == ActorKind::Server ==> relay_connected(
                *g,
                g.id_at(ci as int),
                s,
            )),
{
    let n = g.nodes.len();
    let ghost c = g.id_at(ci as int);
    proof {
        g.lemma_index_of_id_at(ci as int);
        lemma_connected_refl(*g, c);
    }
    let mut visited: Vec<bool> = false_vec(n);
    let ghost vinit = visited@;
    let mut server_seen: Vec<bool> = false_vec(n);
    let mut queue: Vec<usize> = Vec::new();
    visited.set(ci, true);
    queue.push(ci);
    let mut h: usize = 0;
    proof {
        assert(forall|k: int| 0 <= k < queue@.len() ==> queue@[k] == ci);
        lemma_count_true_none(vinit);
        lemma_count_true_update(vinit, ci as int);
        assert(visited@ == vinit.update(ci as int, true));
        assert forall|j: int| 0 <= j < n && visited@[j] implies queue@.contains(j as usize) by {
            assert(j == ci) by {
                if j != ci {
                    assert(!vinit[j]);
                }
            }
            assert(queue@[0] == ci);
        }
    }
    while h < queue.len()
        invariant
            g.wf(),
            n == g.len(),
            ci < n,
            g.kind_at(ci as int).spec_is_client(),
            c == g.id_at(ci as int),
            g.contains_id(c),
            g.index_of(c) == ci,
            visited@.len() == n,
            server_seen@.len() == n,
            h <= queue@.len(),
            queue@.no_duplicates(),
            forall|k: int| 0 <= k < queue@.len() ==> (#[trigger] queue@[k]) < n,
            forall|k: int| 0 <= k < queue@.len() ==> visited@[#[trigger] queue@[k] as int],
            forall|j: int| 0 <= j < n && visited@[j] ==> queue@.contains(j as usize),
            queue@.len() == count_true(visited@),
            visited@[ci as int],
            forall|j: int|
                0 <= j < n && (#[trigger] visited@[j]) ==> relay_route(*g, c, g.id_at(j)) && (j
                    == ci || g.kind_at(j) == ActorKind::Relay),
            forall|j: int|
                0 <= j < n && (#[trigger] server_seen@[j]) ==> relay_connected(*g, c, g.id_at(j)),
            forall|k: int|
                0 <= k < h ==> frontier_done(*g, visited@, server_seen@, queue@[k] as int),
        decreases n - h,
    {
        proof {
            lemma_count_true_le_len(visited@);
        }
        let x = queue[h];
        let deg = g.nodes[x].neighbors.len();
        let ghost xid = g.id_at(x as int);
        proof {
            g.lemma_index_of_id_at(x as int);
            assert(g.nbrs(xid) == g.nbrs_at(x as int));
            assert(visited@[x as int]);
            assert(relay_route(*g, c, g.id_at(x as int)));
        }
        let mut t: usize = 0;
        while t < deg
            invariant
                g.wf(),
                n == g.len(),
                ci < n,
                c == g.id_at(ci as int),
                g.contains_id(c),
                g.index_of(c) == ci,
                h < queue@.len(),
                x == queue@[h as int],
                x < n,
                xid == g.id_at(x as int),
                g.index_of(xid) == x,
                deg == g.nbrs_at(x as int).len(),
                visited@.len() == n,
                server_seen@.len() == n,
                queue@.no_duplicates(),
                forall|k: int| 0 <= k < queue@.len() ==> (#[trigger] queue@[k]) < n,
                forall|k: int| 0 <= k < queue@.len() ==> visited@[#[trigger] queue@[k] as int],
                forall|j: int| 0 <= j < n && visited@[j] ==> queue@.contains(j as usize),
                queue@.len() == count_true(visited@),
                visited@[ci as int],
                visited@[x as int],
                relay_route(*g, c, xid),
                forall|j: int|
                    0 <= j < n && (#[trigger] visited@[j]) ==> relay_route(*g, c, g.id_at(j)) && (
                    j == ci || g.kind_at(j) == ActorKind::Relay),
                forall|j: int|
                    0 <= j < n && (#[trigger] server_seen@[j]) ==> relay_connected(
                        *g,
                        c,
                        g.id_at(j),
                    ),
                forall|k: int|
                    0 <= k < h ==> frontier_done(*g, visited@, server_seen@, queue@[k] as int),
                forall|tt: int|
                    #![trigger g.nbrs_at(x as int)[tt]]
                    0 <= tt < t ==> {
                        let y = g.nbrs_at(x as int)[tt];
                        &&& (g.kind_of(y) == ActorKind::Relay ==> visited@[g.index_of(y)])
                        &&& (g.kind_of(y) == ActorKind::Server ==> server_seen@[g.index_of(y)])
                    },
            decreases deg - t,
        {
            let y = g.nodes[x].neighbors[t];
            proof {
                assert(g.nbrs_at(x as int)[t as int] == y);
                assert(g.nbrs_at(x as int).contains(y));
                assert(g.adj(xid, y));
                assert(g.contains_id(y));
            }
            let yi = match g.lookup(y) {
                Some(j) => j,
                None => { proof { assert(false); } 0 },
            };
            proof {
                g.lemma_index_of_id_at(yi as int);
            }
            let ghost v0 = visited@;
            let ghost s0 = server_seen@;
            let ghost q0 = queue@;
            let ykind = g.nodes[yi].kind;
            if ykind == ActorKind::Relay {
                if !visited[yi] {
                    visited.set(yi, true);
                    queue.push(yi);
                    proof {
                        lemma_count_true_update(v0, yi as int);
                        assert(queue@ == q0.push(yi));
                        crate::topology::lemma_push_contains(q0, yi, yi);
                        assert forall|j: int| 0 <= j < n && visited@[j] implies queue@.contains(
                            j as usize,
                        ) by {
                            if j != yi {
                                assert(v0[j]);
                                assert(q0.contains(j as usize));
                                let k = choose|k: int|
                                    0 <= k < q0.len() && q0[k] == j as usize;
                                assert(queue@[k] == j as usize);
                            } else {
                                assert(queue@[q0.len() as int] == yi);
                            }
                        }
                        assert forall|k: int|
                            0 <= k < q0.len() && 0 <= k ==> queue@[k] == q0[k] by {}
                        assert(queue@.no_duplicates()) by {
                            assert(!v0[yi as int]);
                            if q0.contains(yi) {
                                assert(v0[yi as int]);
                            }
                            crate::topology::lemma_push_no_duplicates(q0, yi);
                        }
                        lemma_relay_route_step(*g, c, xid, y);
                        assert forall|j: int| 0 <= j < n && visited@[j] implies relay_route(
                            *g,
                            c,
                            g.id_at(j),
                        ) && (j == ci || g.kind_at(j) == ActorKind::Relay) by {
                            if j != yi {
                                assert(v0[j]);
                            }
                        }
                        assert forall|k: int| 0 <= k < h implies frontier_done(
                            *g,
                            visited@,
                            server_seen@,
                            queue@[k] as int,
                        ) by {
                            assert(q0[k] == queue@[k]);
                            assert(frontier_done(*g, v0, s0, q0[k] as int));
                            lemma_frontier_done_monotone(
                                *g,
                                v0,
                                s0,
                                visited@,
                                server_seen@,
                                q0[k] as int,
                            );
                        }
                    }
                }
            } else if ykind == ActorKind::Server {
                server_seen.set(yi, true);
                proof {
                    lemma_relay_route_reach(*g, c, xid, y);
                    assert forall|j: int| 0 <= j < n && server_seen@[j] implies relay_connected(
                        *g,
                        c,
                        g.id_at(j),
                    ) by {
                        if j != yi {
                            assert(s0[j]);
                        }
                    }
                    assert forall|k: int| 0 <= k < h implies frontier_done(
                        *g,
                        visited@,
                        server_seen@,
                        queue@[k] as int,
                    ) by {
                        assert(frontier_done(*g, v0, s0, q0[k] as int));
                        lemma_frontier_done_monotone(
                            *g,
                            v0,
                            s0,
                            visited@,
                            server_seen@,
                            q0[k] as int,
                        );
                    }
                }
            }
            proof {
                let xi = x as int;
                assert forall|tt: int|
                    #![trigger g.nbrs_at(xi)[tt]]
                    0 <= tt < t + 1 implies {
                    let yy = g.nbrs_at(xi)[tt];
                    &&& (g.kind_of(yy) == ActorKind::Relay ==> visited@[g.index_of(yy)])
                    &&& (g.kind_of(yy) == ActorKind::Server ==> server_seen@[g.index_of(yy)])
                } by {
                    let yy = g.nbrs_at(xi)[tt];
                    if tt < t {
                        assert((g.kind_of(yy) == ActorKind::Relay ==> v0[g.index_of(yy)]) && (
                        g.kind_of(yy) == ActorKind::Server ==> s0[g.index_of(yy)]));
                        assert(g.nbrs_at(xi).contains(yy));
                        assert(g.adj(xid, yy));
                        assert(g.contains_id(yy));
                        g.lemma_index_of(yy);
                    } else {
                        assert(yy == y);
                    }
                }
            }
            t = t + 1;
        }
        proof {
            // The node at queue position h is now settled.
            assert forall|y: u8| #![trigger g.nbrs_at(x as int).contains(y)]
                g.nbrs_at(x as int).contains(y) implies {
                &&& (g.kind_of(y) == ActorKind::Relay ==> visited@[g.index_of(y)])
                &&& (g.kind_of(y) == ActorKind::Server ==> server_seen@[g.index_of(y)])
            } by {
                let tt = choose|tt: int|
                    0 <= tt < g.nbrs_at(x as int).len() && g.nbrs_at(x as int)[tt] == y;
                assert(g.nbrs_at(x as int)[tt] == y);
            }
            assert(frontier_done(*g, visited@, server_seen@, x as int));
        }
        h = h + 1;
    }
    // Every visited node is settled; compare the recorded servers with all
    // servers in the graph.
    proof {
        assert forall|j: int|
            0 <= j < n && visited@[j] implies frontier_done(*g, visited@, server_seen@, j) by {
            assert(queue@.contains(j as usize));
            let k = choose|k: int| 0 <= k < queue@.len() && queue@[k] == j as usize;
        }
    }
    let mut i: usize = 0;
    while i < n
        invariant
            g.wf(),
            n == g.len(),
            ci < n,
            g.kind_at(ci as int).spec_is_client(),
            c == g.id_at(ci as int),
            g.contains_id(c),
            g.index_of(c) == ci,
            visited@.len() == n,
            server_seen@.len() == n,
            visited@[ci as int],
            forall|j: int|
                0 <= j < n && visited@[j] ==> frontier_done(*g, visited@, server_seen@, j),
            forall|j: int|
                0 <= j < n && (#[trigger] server_seen@[j]) ==> relay_connected(*g, c, g.id_at(j)),
            forall|j: int|
                0 <= j < i && g.kind_at(j) == ActorKind::Server ==> server_seen@[j],
        decreases n - i,
    {
        if g.nodes[i].kind == ActorKind::Server {
            if !server_seen[i] {
                proof {
                    // This server is genuinely unreachable through relays.
                    let s = g.id_at(i as int);
                    g.lemma_index_of_id_at(i as int);
                    assert(g.kind_of(s) == ActorKind::Server);
                    assert(c != s);
                    if relay_connected(*g, c, s) {
                        lemma_server_recorded(*g, c, visited@, server_seen@, s);
                    }
                    assert(!relay_connected(*g, c, s));
                }
                return false;
            }
        }
        i = i + 1;
    }
    proof {
        assert forall|s: u8|
            g.contains_id(s) && g.kind_of(s) == ActorKind::Server implies relay_connected(
            *g,
            c,
            s,
        ) by {
            g.lemma_index_of(s);
            let j = g.index_of(s);
            assert(g.kind_at(j) == ActorKind::Server);
            assert(server_seen@[j]);
            assert(g.id_at(j) == s);
        }
    }
    true
}

/// Extending a walk by one edge keeps its endpoints joined.
pub proof fn lemma_connected_step(g: Topology, a: u8, x: u8, y: u8)
    requires
        connected(g, a, x),
        g.adj(x, y),
        g.contains_id(y),
    ensures
        connected(g, a, y),
{
    let p = choose|p: Seq<u8>| connects(g, p, a, x);
    let q = p.push(y);
    assert(q.last() == y && q.first() == a);
    assert forall|k: int| 0 <= k < q.len() implies g.contains_id(#[trigger] q[k]) by {
        if k < p.len() {
            assert(q[k] == p[k]);
        }
    }
    assert forall|k: int| 0 <= k < q.len() - 1 implies g.adj(#[trigger] q[k], q[k + 1]) by {
        if k < p.len() - 1 {
            assert(q[k] == p[k] && q[k + 1] == p[k + 1]);
        } else {
            assert(q[k] == p.last() && q[k + 1] == y);
        }
    }
    assert(connects(g, q, a, y));
}

/// A settled node of the unconstrained traversal: every neighbor visited.
pub open spec fn all_done(g: Topology, visited: Seq<bool>, j: int) -> bool {
    forall|y: u8|
        #![trigger g.nbrs_at(j).contains(y)]
        g.nbrs_at(j).contains(y) ==> visited[g.index_of(y)]
}

/// Being settled survives growth of the visited set.
pub proof fn lemma_all_done_monotone(g: Topology, v0: Seq<bool>, v1: Seq<bool>, j: int)
    requires
        all_done(g, v0, j),
        v1.len() == v0.len(),
        forall|i: int| 0 <= i < v0.len() && v0[i] ==> v1[i],
        g.wf(),
        0 <= j < g.len(),
        v0.len() == g.len(),
    ensures
        all_done(g, v1, j),
{
    assert forall|y: u8| #![trigger g.nbrs_at(j).contains(y)]
        g.nbrs_at(j).contains(y) implies v1[g.index_of(y)] by {
        g.lemma_index_of_id_at(j);
        let a = g.id_at(j);
        assert(g.nbrs(a) == g.nbrs_at(j));
        assert(g.adj(a, y));
        assert(g.contains_id(y));
        g.lemma_index_of(y);
    }
}

/// If every visited node is settled, every walk from `a` ends in a visited
/// node.
proof fn lemma_walk_visited(g: Topology, a: u8, visited: Seq<bool>, p: Seq<u8>)
    requires
        g.wf(),
        g.contains_id(a),
        visited.len() == g.len(),
        visited[g.index_of(a)],
        forall|j: int| 0 <= j < g.len() && visited[j] ==> all_done(g, visited, j),
        is_path(g, p),
        p.first() == a,
    ensures
        visited[g.index_of(p.last())],
    decreases p.len(),
{
    if p.len() == 1 {
        assert(p.last() == a);
    } else {
        let q = p.drop_last();
        assert forall|k: int| 0 <= k < q.len() implies g.contains_id(#[trigger] q[k]) by {
            assert(q[k] == p[k]);
        }
        assert forall|k: int| 0 <= k < q.len() - 1 implies g.adj(#[trigger] q[k], q[k + 1]) by {
            assert(q[k] == p[k] && q[k + 1] == p[k + 1]);
        }
        assert(q.first() == a);
        lemma_walk_visited(g, a, visited, q);
        let x = q.last();
        g.lemma_index_of(x);
        let xi = g.index_of(x);
        assert(visited[xi]);
        assert(all_done(g, visited, xi));
        let z = p.last();
        assert(g.adj(p[p.len() - 2], p[p.len() - 1]));
        assert(x == p[p.len() - 2] && z == p[p.len() - 1]);
        assert(g.nbrs(x) == g.nbrs_at(xi));
        assert(g.nbrs_at(xi).contains(z));
        assert(visited[g.index_of(z)]);
    }
}

/// Decide whether the whole graph forms a single connected component. An
/// empty graph counts as connected.
pub fn graph_is_connected(g: &Topology) -> (r: bool)
    requires
        g.wf(),
    ensures
        r <==> one_component(*g),
{
    let n = g.nodes.len();
    if n == 0 {
        proof {
            assert forall|a: u8, b: u8|
                g.contains_id(a) && g.contains_id(b) implies #[trigger] connected(*g, a, b) by {
                assert(false);
            }
        }
        return true;
    }
    let ghost c = g.id_at(0);
    proof {
        g.lemma_index_of_id_at(0);
        lemma_connected_refl(*g, c);
    }
    let mut visited: Vec<bool> = false_vec(n);
    let ghost vinit = visited@;
    let mut queue: Vec<usize> = Vec::new();
    visited.set(0, true);
    queue.push(0);
    let mut h: usize = 0;
    proof {
        assert(forall|k: int| 0 <= k < queue@.len() ==> queue@[k] == 0);
        lemma_count_true_none(vinit);
        lemma_count_true_update(vinit, 0);
        assert(visited@ == vinit.update(0, true));
        assert forall|j: int| 0 <= j < n && visited@[j] implies queue@.contains(j as usize) by {
            assert(j == 0) by {
                if j != 0 {
                    assert(!vinit[j]);
                }
            }
            assert(queue@[0] == 0);
        }
    }
    while h < queue.len()
        invariant
            g.wf(),
            n == g.len(),
            n > 0,
            c == g.id_at(0),
            g.contains_id(c),
            g.index_of(c) == 0,
            visited@.len() == n,
            h <= queue@.len(),
            queue@.no_duplicates(),
            forall|k: int| 0 <= k < queue@.len() ==> (#[trigger] queue@[k]) < n,
            forall|k: int| 0 <= k < queue@.len() ==> visited@[#[trigger] queue@[k] as int],
            forall|j: int| 0 <= j < n && visited@[j] ==> queue@.contains(j as usize),
            queue@.len() == count_true(visited@),
            visited@[0],
            forall|j: int|
                0 <= j < n && (#[trigger] visited@[j]) ==> connected(*g, c, g.id_at(j)),
            forall|k: int| 0 <= k < h ==> all_done(*g, visited@, queue@[k] as int),
        decreases n - h,
    {
        proof {
            lemma_count_true_le_len(visited@);
        }
        let x = queue[h];
        let deg = g.nodes[x].neighbors.len();
        let ghost xid = g.id_at(x as int);
        proof {
            g.lemma_index_of_id_at(x as int);
            assert(g.nbrs(xid) == g.nbrs_at(x as int));
            assert(visited@[x as int]);
            assert(connected(*g, c, g.id_at(x as int)));
        }
        let mut t: usize = 0;
        while t < deg
            invariant
                g.wf(),
                n == g.len(),
                c == g.id_at(0),
                g.contains_id(c),
                g.index_of(c) == 0,
                h < queue@.len(),
                x == queue@[h as int],
                x < n,
                xid == g.id_at(x as int),
                g.index_of(xid) == x,
                deg == g.nbrs_at(x as int).len(),
                visited@.len() == n,
                queue@.no_duplicates(),
                forall|k: int| 0 <= k < queue@.len() ==> (#[trigger] queue@[k]) < n,
                forall|k: int| 0 <= k < queue@.len() ==> visited@[#[trigger] queue@[k] as int],
                forall|j: int| 0 <= j < n && visited@[j] ==> queue@.contains(j as usize),
                queue@.len() == count_true(visited@),
                visited@[0],
                visited@[x as int],
                connected(*g, c, xid),
                forall|j: int|
                    0 <= j < n && (#[trigger] visited@[j]) ==> connected(*g, c, g.id_at(j)),
                forall|k: int| 0 <= k < h ==> all_done(*g, visited@, queue@[k] as int),
                forall|tt: int|
                    #![trigger g.nbrs_at(x as int)[tt]]
                    0 <= tt < t ==> visited@[g.index_of(g.nbrs_at(x as int)[tt])],
            decreases deg - t,
        {
            let y = g.nodes[x].neighbors[t];
            proof {
                assert(g.nbrs_at(x as int)[t as int] == y);
                assert(g.nbrs_at(x as int).contains(y));
                assert(g.adj(xid, y));
                assert(g.contains_id(y));
            }
            let yi = match g.lookup(y) {
                Some(j) => j,
                None => { proof { assert(false); } 0 },
            };
            proof {
                g.lemma_index_of_id_at(yi as int);
            }
            let ghost v0 = visited@;
            let ghost q0 = queue@;
            if !visited[yi] {
                visited.set(yi, true);
                queue.push(yi);
                proof {
                    lemma_count_true_update(v0, yi as int);
                    assert(queue@ == q0.push(yi));
                    crate::topology::lemma_push_contains(q0, yi, yi);
                    assert forall|j: int| 0 <= j < n && visited@[j] implies queue@.contains(
                        j as usize,
                    ) by {
                        if j != yi {
                            assert(v0[j]);
                            assert(q0.contains(j as usize));
                            let k = choose|k: int| 0 <= k < q0.len() && q0[k] == j as usize;
                            assert(queue@[k] == j as usize);
                        } else {
                            assert(queue@[q0.len() as int] == yi);
                        }
                    }
                    assert(queue@.no_duplicates()) by {
                        assert(!v0[yi as int]);
                        if q0.contains(yi) {
                            assert(v0[yi as int]);
                        }
                        crate::topology::lemma_push_no_duplicates(q0, yi);
                    }
                    lemma_connected_step(*g, c, xid, y);
                    assert forall|j: int|
                        0 <= j < n && (#[trigger] visited@[j]) implies connected(
                        *g,
                        c,
                        g.id_at(j),
                    ) by {
                        if j != yi {
                            assert(v0[j]);
                        }
                    }
                    assert forall|k: int| 0 <= k < h implies all_done(
                        *g,
                        visited@,
                        queue@[k] as int,
                    ) by {
                        assert(q0[k] == queue@[k]);
                        assert(all_done(*g, v0, q0[k] as int));
                        lemma_all_done_monotone(*g, v0, visited@, q0[k] as int);
                    }
                }
            }
            proof {
                let xi = x as int;
                assert forall|tt: int|
                    #![trigger g.nbrs_at(xi)[tt]]
                    0 <= tt < t + 1 implies visited@[g.index_of(g.nbrs_at(xi)[tt])] by {
                    let yy = g.nbrs_at(xi)[tt];
                    if tt < t {
                        assert(v0[g.index_of(yy)]);
                        assert(g.nbrs_at(xi).contains(yy));
                        assert(g.adj(xid, yy));
                        assert(g.contains_id(yy));
                        g.lemma_index_of(yy);
                    } else {
                        assert(yy == y);
                        assert(g.index_of(y) == yi as int);
                    }
                }
            }
            t = t + 1;
        }
        proof {
            assert forall|y: u8| #![trigger g.nbrs_at(x as int).contains(y)]
                g.nbrs_at(x as int).contains(y) implies visited@[g.index_of(y)] by {
                let tt = choose|tt: int|
                    0 <= tt < g.nbrs_at(x as int).len() && g.nbrs_at(x as int)[tt] == y;
                assert(g.nbrs_at(x as int)[tt] == y);
            }
            assert(all_done(*g, visited@, x as int));
        }
        h = h + 1;
    }
    proof {
        assert forall|j: int| 0 <= j < n && visited@[j] implies all_done(*g, visited@, j) by {
            assert(queue@.contains(j as usize));
            let k = choose|k: int| 0 <= k < queue@.len() && queue@[k] == j as usize;
        }
    }
    let mut i: usize = 0;
    while i < n
        invariant
            g.wf(),
            n == g.len(),
            n > 0,
            c == g.id_at(0),
            g.contains_id(c),
            g.index_of(c) == 0,
            visited@.len() == n,
            visited@[0],
            forall|j: int| 0 <= j < n && visited@[j] ==> all_done(*g, visited@, j),
            forall|j: int|
                0 <= j < n && (#[trigger] visited@[j]) ==> connected(*g, c, g.id_at(j)),
            forall|j: int| 0 <= j < i ==> visited@[j],
        decreases n - i,
    {
        if !visited[i] {
            proof {
                let b = g.id_at(i as int);
                g.lemma_index_of_id_at(i as int);
                if connected(*g, c, b) {
                    let p = choose|p: Seq<u8>| connects(*g, p, c, b);
                    lemma_walk_visited(*g, c, visited@, p);
                }
                assert(!connected(*g, c, b));
                assert(g.contains_id(b));
                assert(!one_component(*g));
            }
            return false;
        }
        i = i + 1;
    }
    proof {
        assert forall|a: u8, b: u8|
            g.contains_id(a) && g.contains_id(b) implies #[trigger] connected(*g, a, b) by {
            g.lemma_index_of(a);
            g.lemma_index_of(b);
            let ja = g.index_of(a);
            let jb = g.index_of(b);
            assert(visited@[ja] && visited@[jb]);
            assert(connected(*g, c, a) && connected(*g, c, b));
            lemma_connected_sym(*g, c, a);
            lemma_connected_trans(*g, a, c, b);
        }
    }
    true
}

/// Two graphs with the same ids, kinds and adjacency satisfy the same
/// traversal invariants.
pub proof fn lemma_same_shape_same_invariants(g1: Topology, g2: Topology)
    requires
        forall|x: u8| g1.contains_id(x) <==> g2.contains_id(x),
        forall|x: u8| g1.contains_id(x) ==> g2.kind_of(x) == g1.kind_of(x),
        forall|x: u8, y: u8| g1.adj(x, y) <==> g2.adj(x, y),
    ensures
        reach_inv(g1) <==> reach_inv(g2),
        one_component(g1) <==> one_component(g2),
{
    lemma_paths_monotone(g1, g2);
    lemma_paths_monotone(g2, g1);
    if reach_inv(g1) {
        assert forall|c: u8, s: u8|
            g2.contains_id(c) && g2.contains_id(s) && g2.kind_of(c).spec_is_client()
                && g2.kind_of(s) == ActorKind::Server implies #[trigger] relay_connected(
            g2,
            c,
            s,
        ) by {
            assert(relay_connected(g1, c, s));
        }
    }
    if reach_inv(g2) {
        assert forall|c: u8, s: u8|
            g1.contains_id(c) && g1.contains_id(s) && g1.kind_of(c).spec_is_client()
                && g1.kind_of(s) == ActorKind::Server implies #[trigger] relay_connected(
            g1,
            c,
            s,
        ) by {
            assert(relay_connected(g2, c, s));
        }
    }
    if one_component(g1) {
        assert forall|a: u8, b: u8| g2.contains_id(a) && g2.contains_id(b) implies
            #[trigger] connected(g2, a, b) by {
            assert(connected(g1, a, b));
        }
    }
    if one_component(g2) {
        assert forall|a: u8, b: u8| g1.contains_id(a) && g1.contains_id(b) implies
            #[trigger] connected(g1, a, b) by {
            assert(connected(g2, a, b));
        }
    }
}

} // verus!
