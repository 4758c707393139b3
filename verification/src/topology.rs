//! The topology graph store: an undirected, loop-free graph whose nodes are
//! actors, labelled with their kind, and whose edges are bidirectional links.
//!
//! The store keeps only the shape of the network; channel handles live in the
//! registry. Operations here do no invariant checking beyond keeping the
//! representation well formed; deciding whether a mutation is legal is the
//! validator's job.

use vstd::prelude::*;

use crate::actor::ActorKind;

verus! {

/// One node of the topology: an actor's id, its kind, and the ids of its
/// direct neighbors.
pub struct ActorNode {
    /// The actor's globally unique id.
    pub id: u8,
    /// The actor's kind, fixed at creation.
    pub kind: ActorKind,
    /// Ids of the actors this one is linked to, without duplicates and
    /// without the actor's own id.
    pub neighbors: Vec<u8>,
}

/// The undirected topology graph.
pub struct Topology {
    /// The nodes, each id appearing at most once.
    pub nodes: Vec<ActorNode>,
}

impl Topology {
    /// Number of nodes.
    pub open spec fn len(self) -> nat {
        self.nodes@.len()
    }

    /// Id of the node at index `i`.
    pub open spec fn id_at(self, i: int) -> u8 {
        self.nodes@[i].id
    }

    /// Kind of the node at index `i`.
    pub open spec fn kind_at(self, i: int) -> ActorKind {
        self.nodes@[i].kind
    }

    /// Neighbor ids of the node at index `i`.
    pub open spec fn nbrs_at(self, i: int) -> Seq<u8> {
        self.nodes@[i].neighbors@
    }

    /// Whether some node carries id `id`.
    pub open spec fn contains_id(self, id: u8) -> bool {
        exists|i: int| 0 <= i < self.len() && self.id_at(i) == id
    }

    /// The index of the node carrying `id` (meaningful only when
    /// `contains_id(id)` holds and ids are distinct).
    pub open spec fn index_of(self, id: u8) -> int {
        choose|i: int| 0 <= i < self.len() && self.id_at(i) == id
    }

    /// Kind of the actor with id `id`.
    pub open spec fn kind_of(self, id: u8) -> ActorKind {
        self.kind_at(self.index_of(id))
    }

    /// Neighbor ids of the actor with id `id`.
    pub open spec fn nbrs(self, id: u8) -> Seq<u8> {
        self.nbrs_at(self.index_of(id))
    }

    /// Degree of the actor with id `id`.
    pub open spec fn degree(self, id: u8) -> nat {
        self.nbrs(id).len()
    }

    /// Whether the (undirected) edge `a -- b` is present, read off `a`'s
    /// adjacency record.
    pub open spec fn adj(self, a: u8, b: u8) -> bool {
        self.contains_id(a) && self.nbrs(a).contains(b)
    }

    /// No two nodes carry the same id.
    pub open spec fn ids_distinct(self) -> bool {
        forall|i: int, j: int| 0 <= i < j < self.len() ==> self.id_at(i) != self.id_at(j)
    }

    /// The representation invariant: ids are unique, adjacency records are
    /// duplicate-free, loop-free, mention only present ids, and are
    /// symmetric.
    pub open spec fn wf(self) -> bool {
        &&& self.ids_distinct()
        &&& forall|a: u8, b: u8| #[trigger] self.adj(a, b) ==> a != b
        &&& forall|a: u8, b: u8| #[trigger] self.adj(a, b) ==> self.contains_id(b)
        &&& forall|a: u8, b: u8| #[trigger] self.adj(a, b) ==> self.adj(b, a)
        &&& forall|a: u8| self.contains_id(a) ==> (#[trigger] self.nbrs(a)).no_duplicates()
    }

    /// For a graph with distinct ids, `index_of` inverts `id_at`.
    pub proof fn lemma_index_of_id_at(self, i: int)
        requires
            self.ids_distinct(),
            0 <= i < self.len(),
        ensures
            self.index_of(self.id_at(i)) == i,
            self.contains_id(self.id_at(i)),
    {
        let id = self.id_at(i);
        assert(self.contains_id(id));
        let j = self.index_of(id);
        assert(0 <= j < self.len() && self.id_at(j) == id);
        if i != j {
            if i < j {
                assert(self.id_at(i) != self.id_at(j));
            } else {
                assert(self.id_at(j) != self.id_at(i));
            }
        }
    }

    /// When `id` is present, its index is in range and carries it.
    pub proof fn lemma_index_of(self, id: u8)
        requires
            self.contains_id(id),
        ensures
            0 <= self.index_of(id) < self.len(),
            self.id_at(self.index_of(id)) == id,
    {
    }

    /// An empty topology.
    pub fn new() -> (r: Topology)
        ensures
            r.len() == 0,
            r.wf(),
            forall|id: u8| !r.contains_id(id),
    {
        let r = Topology { nodes: Vec::new() };
        proof {
            assert(forall|a: u8, b: u8| !r.adj(a, b));
        }
        r
    }

    /// Find the index of the node with id `id`, if any.
    pub fn lookup(&self, id: u8) -> (r: Option<usize>)
        ensures
            match r {
                Some(i) => i < self.len() && self.id_at(i as int) == id && self.contains_id(id),
                None => !self.contains_id(id),
            },
    {
        let n = self.nodes.len();
        let mut i: usize = 0;
        while i < n
            invariant
                i <= n,
                n == self.len(),
                forall|j: int| 0 <= j < i ==> self.id_at(j) != id,
            decreases n - i,
        {
            if self.nodes[i].id == id {
                return Some(i);
            }
            i = i + 1;
        }
        None
    }

    /// Whether an actor with id `id` is present.
    pub fn contains(&self, id: u8) -> (r: bool)
        ensures
            r == self.contains_id(id),
    {
        self.lookup(id).is_some()
    }

    /// The kind of the actor with id `id`.
    pub fn kind(&self, i: usize) -> (r: ActorKind)
        requires
            i < self.len(),
        ensures
            r == self.kind_at(i as int),
    {
        self.nodes[i].kind
    }

    /// Whether the neighbor list `v` mentions `id`.
    fn list_contains(v: &Vec<u8>, id: u8) -> (r: bool)
        ensures
            r == v@.contains(id),
    {
        let n = v.len();
        let mut i: usize = 0;
        while i < n
            invariant
                i <= n,
                n == v@.len(),
                forall|j: int| 0 <= j < i ==> v@[j] != id,
            decreases n - i,
        {
            if v[i] == id {
                return true;
            }
            i = i + 1;
        }
        false
    }

    /// Whether the edge `a -- b` is present.
    pub fn has_edge(&self, a: u8, b: u8) -> (r: bool)
        requires
            self.ids_distinct(),
        ensures
            r == self.adj(a, b),
    {
        match self.lookup(a) {
            Some(i) => {
                proof {
                    self.lemma_index_of_id_at(i as int);
                }
                Self::list_contains(&self.nodes[i].neighbors, b)
            },
            None => false,
        }
    }

    /// The degree of the node at index `i`.
    pub fn degree_at(&self, i: usize) -> (r: usize)
        requires
            self.ids_distinct(),
            i < self.len(),
        ensures
            r == self.degree(self.id_at(i as int)),
    {
        proof {
            self.lemma_index_of_id_at(i as int);
        }
        self.nodes[i].neighbors.len()
    }

    /// The neighbor ids of the actor with id `id`, as a fresh list.
    pub fn neighbors(&self, id: u8) -> (r: Option<Vec<u8>>)
        requires
            self.ids_distinct(),
        ensures
            match r {
                Some(v) => self.contains_id(id) && v@ == self.nbrs(id),
                None => !self.contains_id(id),
            },
    {
        match self.lookup(id) {
            Some(i) => {
                proof {
                    self.lemma_index_of_id_at(i as int);
                }
                Some(Self::copy_list(&self.nodes[i].neighbors))
            },
            None => None,
        }
    }

    /// Add a fresh, unlinked node.
    pub fn add_node(&mut self, id: u8, kind: ActorKind)
        requires
            old(self).wf(),
            !old(self).contains_id(id),
        ensures
            final(self).wf(),
            final(self).len() == old(self).len() + 1,
            forall|x: u8| final(self).contains_id(x) <==> old(self).contains_id(x) || x == id,
            final(self).kind_of(id) == kind,
            final(self).degree(id) == 0,
            forall|x: u8|
                old(self).contains_id(x) ==> final(self).kind_of(x) == old(self).kind_of(x)
                    && final(self).nbrs(x) == old(self).nbrs(x),
            forall|x: u8, y: u8| #[trigger] final(self).adj(x, y) <==> old(self).adj(x, y),
            forall|i: int|
                0 <= i < old(self).len() ==> final(self).id_at(i) == old(self).id_at(i)
                    && final(self).kind_at(i) == old(self).kind_at(i),
            final(self).id_at(old(self).len() as int) == id,
            final(self).kind_at(old(self).len() as int) == kind,
    {
        let ghost g0 = *self;
        self.nodes.push(ActorNode { id, kind, neighbors: Vec::new() });
        proof {
            let g1 = *self;
            let n0 = g0.len() as int;
            assert forall|i: int| 0 <= i < n0 implies g1.id_at(i) == g0.id_at(i)
                && g1.kind_at(i) == g0.kind_at(i) && g1.nbrs_at(i) == g0.nbrs_at(i) by {}
            assert(g1.id_at(n0) == id && g1.kind_at(n0) == kind && g1.nbrs_at(n0) =~= Seq::<
                u8,
            >::empty());
            assert forall|i: int| 0 <= i < n0 implies g0.id_at(i) != id by {
                assert(g0.contains_id(g0.id_at(i)));
            }
            assert(g1.ids_distinct());
            assert forall|x: u8| g1.contains_id(x) implies g0.contains_id(x) || x == id by {
                let i = choose|i: int| 0 <= i < g1.len() && g1.id_at(i) == x;
                if i < n0 {
                    assert(g0.contains_id(x));
                }
            }
            assert forall|x: u8| g0.contains_id(x) implies g1.contains_id(x) by {
                let i = choose|i: int| 0 <= i < g0.len() && g0.id_at(i) == x;
                assert(g1.id_at(i) == x);
            }
            assert(g1.contains_id(id));
            g1.lemma_index_of_id_at(n0);
            assert(g1.kind_of(id) == kind && g1.degree(id) == 0);
            assert forall|x: u8| g0.contains_id(x) implies g1.kind_of(x) == g0.kind_of(x)
                && g1.nbrs(x) == g0.nbrs(x) by {
                g0.lemma_index_of(x);
                let i = g0.index_of(x);
                g1.lemma_index_of_id_at(i);
                g0.lemma_index_of_id_at(i);
            }
            assert forall|x: u8, y: u8| #[trigger] g1.adj(x, y) implies g0.adj(x, y) by {
                if x == id {
                    assert(g1.nbrs(x).len() == 0);
                } else {
                    assert(g0.contains_id(x));
                    assert(g1.nbrs(x) == g0.nbrs(x));
                }
            }
            assert forall|x: u8, y: u8| g0.adj(x, y) implies g1.adj(x, y) by {
                assert(g1.nbrs(x) == g0.nbrs(x));
            }
            assert forall|a: u8| g1.contains_id(a) implies (#[trigger] g1.nbrs(
                a,
            )).no_duplicates() by {
                if a == id {
                    assert(g1.nbrs(a).len() == 0);
                } else {
                    assert(g1.nbrs(a) == g0.nbrs(a));
                }
            }
            assert(g1.wf());
        }
    }

    /// Add the edge `a -- b` to both adjacency records.
    pub fn add_edge(&mut self, a: u8, b: u8)
        requires
            old(self).wf(),
            old(self).contains_id(a),
            old(self).contains_id(b),
            a != b,
            !old(self).adj(a, b),
        ensures
            final(self).wf(),
            final(self).len() == old(self).len(),
            forall|x: u8| final(self).contains_id(x) <==> old(self).contains_id(x),
            forall|x: u8|
                old(self).contains_id(x) ==> final(self).kind_of(x) == old(self).kind_of(x),
            final(self).degree(a) == old(self).degree(a) + 1,
            final(self).degree(b) == old(self).degree(b) + 1,
            forall|x: u8|
                old(self).contains_id(x) && x != a && x != b ==> final(self).nbrs(x) == old(
                    self,
                ).nbrs(x),
            forall|x: u8, y: u8| #[trigger]
                final(self).adj(x, y) <==> (old(self).adj(x, y) || (x == a && y == b) || (x == b
                    && y == a)),
            forall|i: int|
                0 <= i < old(self).len() ==> final(self).id_at(i) == old(self).id_at(i)
                    && final(self).kind_at(i) == old(self).kind_at(i),
    {
        let ghost g0 = *self;
        let ia = match self.lookup(a) {
            Some(i) => i,
            None => { proof { assert(false); } 0 },
        };
        let ib = match self.lookup(b) {
            Some(i) => i,
            None => { proof { assert(false); } 0 },
        };
        proof {
            g0.lemma_index_of_id_at(ia as int);
            g0.lemma_index_of_id_at(ib as int);
            assert(ia != ib);
        }
        self.nodes[ia].neighbors.push(b);
        self.nodes[ib].neighbors.push(a);
        proof {
            let g1 = *self;
            let n0 = g0.len() as int;
            assert(g1.len() == n0);
            assert forall|i: int| 0 <= i < n0 implies g1.id_at(i) == g0.id_at(i)
                && g1.kind_at(i) == g0.kind_at(i) by {}
            assert forall|i: int| 0 <= i < n0 && i != ia && i != ib implies g1.nbrs_at(i)
                == g0.nbrs_at(i) by {}
            assert(g1.nbrs_at(ia as int) == g0.nbrs_at(ia as int).push(b));
            assert(g1.nbrs_at(ib as int) == g0.nbrs_at(ib as int).push(a));
            assert(g1.ids_distinct());
            assert forall|x: u8| g1.contains_id(x) <==> g0.contains_id(x) by {
                if g1.contains_id(x) {
                    let i = choose|i: int| 0 <= i < g1.len() && g1.id_at(i) == x;
                    assert(g0.id_at(i) == x);
                }
                if g0.contains_id(x) {
                    let i = choose|i: int| 0 <= i < g0.len() && g0.id_at(i) == x;
                    assert(g1.id_at(i) == x);
                }
            }
            assert forall|x: u8| g0.contains_id(x) implies #[trigger] g1.kind_of(x) == g0.kind_of(
                x,
            ) by {
                g0.lemma_index_of(x);
                let i = g0.index_of(x);
                g1.lemma_index_of_id_at(i);
                g0.lemma_index_of_id_at(i);
            }
            assert forall|x: u8|
                g0.contains_id(x) && x != a && x != b implies #[trigger] g1.nbrs(x) == g0.nbrs(
                x,
            ) by {
                g0.lemma_index_of(x);
                let i = g0.index_of(x);
                g1.lemma_index_of_id_at(i);
                g0.lemma_index_of_id_at(i);
                assert(i != ia && i != ib);
            }
            g1.lemma_index_of_id_at(ia as int);
            g0.lemma_index_of_id_at(ia as int);
            g1.lemma_index_of_id_at(ib as int);
            g0.lemma_index_of_id_at(ib as int);
            assert(g1.nbrs(a) == g0.nbrs(a).push(b));
            assert(g1.nbrs(b) == g0.nbrs(b).push(a));
            assert forall|x: u8, y: u8| #[trigger]
                g1.adj(x, y) <==> (g0.adj(x, y) || (x == a && y == b) || (x == b && y == a)) by {
                if x == a {
                    lemma_push_contains(g0.nbrs(a), b, y);
                } else if x == b {
                    lemma_push_contains(g0.nbrs(b), a, y);
                } else {
                    if g1.contains_id(x) {
                        assert(g1.nbrs(x) == g0.nbrs(x));
                    }
                }
            }
            assert(!g0.nbrs(a).contains(b));
            assert(!g0.nbrs(b).contains(a)) by {
                if g0.nbrs(b).contains(a) {
                    assert(g0.adj(b, a));
                    assert(g0.adj(a, b));
                }
            }
            assert forall|x: u8| g1.contains_id(x) implies (#[trigger] g1.nbrs(
                x,
            )).no_duplicates() by {
                if x == a {
                    lemma_push_no_duplicates(g0.nbrs(a), b);
                } else if x == b {
                    lemma_push_no_duplicates(g0.nbrs(b), a);
                } else {
                    assert(g1.nbrs(x) == g0.nbrs(x));
                }
            }
            assert(g1.wf());
        }
    }
}

/// Removing the element at `pos` from a duplicate-free sequence removes
/// exactly that value from the membership.
pub proof fn lemma_remove_at(s: Seq<u8>, pos: int)
    requires
        s.no_duplicates(),
        0 <= pos < s.len(),
    ensures
        s.remove(pos).no_duplicates(),
        s.remove(pos).len() == s.len() - 1,
        forall|y: u8| s.remove(pos).contains(y) <==> (s.contains(y) && y != s[pos]),
{
    let t = s.remove(pos);
    assert forall|j: int| 0 <= j < t.len() implies t[j] == (if j < pos {
        s[j]
    } else {
        s[j + 1]
    }) by {}
    assert forall|y: u8| t.contains(y) implies s.contains(y) && y != s[pos] by {
        let j = choose|j: int| 0 <= j < t.len() && t[j] == y;
        if j < pos {
            assert(s[j] == y);
        } else {
            assert(s[j + 1] == y);
        }
    }
    assert forall|y: u8| s.contains(y) && y != s[pos] implies t.contains(y) by {
        let k = choose|k: int| 0 <= k < s.len() && s[k] == y;
        if k < pos {
            assert(t[k] == y);
        } else {
            assert(k != pos);
            assert(t[k - 1] == y);
        }
    }
    assert forall|i: int, j: int|
        0 <= i < t.len() && 0 <= j < t.len() && i != j implies t[i] != t[j] by {
        let i0: int = if i < pos { i } else { i + 1 };
        let j0: int = if j < pos { j } else { j + 1 };
        assert(t[i] == s[i0] && t[j] == s[j0] && i0 != j0);
    }
}

impl Topology {
    /// Remove one occurrence of `id` from a duplicate-free list.
    fn list_remove(v: &mut Vec<u8>, id: u8)
        requires
            old(v)@.no_duplicates(),
            old(v)@.contains(id),
        ensures
            final(v)@.no_duplicates(),
            final(v)@.len() == old(v)@.len() - 1,
            forall|y: u8| final(v)@.contains(y) <==> (old(v)@.contains(y) && y != id),
    {
        let n = v.len();
        let mut i: usize = 0;
        while i < n
            invariant
                i <= n,
                n == v@.len(),
                v@ == old(v)@,
                old(v)@.no_duplicates(),
                old(v)@.contains(id),
                forall|j: int| 0 <= j < i ==> v@[j] != id,
            decreases n - i,
        {
            if v[i] == id {
                proof {
                    lemma_remove_at(v@, i as int);
                }
                v.remove(i);
                return ;
            }
            i = i + 1;
        }
        proof {
            let j = choose|j: int| 0 <= j < v@.len() && v@[j] == id;
            assert(false);
        }
    }

    /// Remove the edge `a -- b` from both adjacency records.
    pub fn remove_edge(&mut self, a: u8, b: u8)
        requires
            old(self).wf(),
            old(self).adj(a, b),
        ensures
            final(self).wf(),
            final(self).len() == old(self).len(),
            forall|x: u8| final(self).contains_id(x) <==> old(self).contains_id(x),
            forall|x: u8|
                old(self).contains_id(x) ==> final(self).kind_of(x) == old(self).kind_of(x),
            final(self).degree(a) == old(self).degree(a) - 1,
            final(self).degree(b) == old(self).degree(b) - 1,
            forall|x: u8|
                old(self).contains_id(x) && x != a && x != b ==> final(self).nbrs(x) == old(
                    self,
                ).nbrs(x),
            forall|x: u8, y: u8| #[trigger]
                final(self).adj(x, y) <==> (old(self).adj(x, y) && !(x == a && y == b) && !(x == b
                    && y == a)),
            forall|i: int|
                0 <= i < old(self).len() ==> final(self).id_at(i) == old(self).id_at(i)
                    && final(self).kind_at(i) == old(self).kind_at(i),
    {
        let ghost g0 = *self;
        proof {
            assert(g0.adj(b, a));
            assert(a != b);
        }
        let ia = match self.lookup(a) {
            Some(i) => i,
            None => { proof { assert(false); } 0 },
        };
        let ib = match self.lookup(b) {
            Some(i) => i,
            None => { proof { assert(false); } 0 },
        };
        proof {
            g0.lemma_index_of_id_at(ia as int);
            g0.lemma_index_of_id_at(ib as int);
            assert(ia != ib);
            assert(g0.nbrs(a) == g0.nbrs_at(ia as int));
            assert(g0.nbrs(b) == g0.nbrs_at(ib as int));
        }
        Self::list_remove(&mut self.nodes[ia].neighbors, b);
        Self::list_remove(&mut self.nodes[ib].neighbors, a);
        proof {
            let g1 = *self;
            let n0 = g0.len() as int;
            assert(g1.len() == n0);
            assert forall|i: int| 0 <= i < n0 implies g1.id_at(i) == g0.id_at(i)
                && g1.kind_at(i) == g0.kind_at(i) by {}
            assert forall|i: int| 0 <= i < n0 && i != ia && i != ib implies g1.nbrs_at(i)
                == g0.nbrs_at(i) by {}
            assert(g1.ids_distinct());
            assert forall|x: u8| g1.contains_id(x) <==> g0.contains_id(x) by {
                if g1.contains_id(x) {
                    let i = choose|i: int| 0 <= i < g1.len() && g1.id_at(i) == x;
                    assert(g0.id_at(i) == x);
                }
                if g0.contains_id(x) {
                    let i = choose|i: int| 0 <= i < g0.len() && g0.id_at(i) == x;
                    assert(g1.id_at(i) == x);
                }
            }
            assert forall|x: u8| g0.contains_id(x) implies #[trigger] g1.kind_of(x) == g0.kind_of(
                x,
            ) by {
                g0.lemma_index_of(x);
                let i = g0.index_of(x);
                g1.lemma_index_of_id_at(i);
                g0.lemma_index_of_id_at(i);
            }
            assert forall|x: u8|
                g0.contains_id(x) && x != a && x != b implies #[trigger] g1.nbrs(x) == g0.nbrs(
                x,
            ) by {
                g0.lemma_index_of(x);
                let i = g0.index_of(x);
                g1.lemma_index_of_id_at(i);
                g0.lemma_index_of_id_at(i);
                assert(i != ia && i != ib);
            }
            g1.lemma_index_of_id_at(ia as int);
            g0.lemma_index_of_id_at(ia as int);
            g1.lemma_index_of_id_at(ib as int);
            g0.lemma_index_of_id_at(ib as int);
            assert(g1.nbrs(a).len() == g0.nbrs(a).len() - 1);
            assert(g1.nbrs(b).len() == g0.nbrs(b).len() - 1);
            assert(forall|y: u8| g1.nbrs(a).contains(y) <==> (g0.nbrs(a).contains(y) && y != b));
            assert(forall|y: u8| g1.nbrs(b).contains(y) <==> (g0.nbrs(b).contains(y) && y != a));
            assert forall|x: u8, y: u8| #[trigger]
                g1.adj(x, y) <==> (g0.adj(x, y) && !(x == a && y == b) && !(x == b && y
                    == a)) by {
                if x != a && x != b {
                    if g1.contains_id(x) {
                        assert(g1.nbrs(x) == g0.nbrs(x));
                    }
                }
            }
            assert forall|x: u8| g1.contains_id(x) implies (#[trigger] g1.nbrs(
                x,
            )).no_duplicates() by {
                if x != a && x != b {
                    assert(g1.nbrs(x) == g0.nbrs(x));
                }
            }
            assert(g1.wf());
        }
    }

    /// Remove the node with id `d` and every edge incident to it.
    pub fn remove_node(&mut self, d: u8)
        requires
            old(self).wf(),
            old(self).contains_id(d),
        ensures
            final(self).wf(),
            final(self).len() == old(self).len() - 1,
            forall|x: u8| final(self).contains_id(x) <==> (old(self).contains_id(x) && x != d),
            forall|x: u8|
                old(self).contains_id(x) && x != d ==> final(self).kind_of(x) == old(
                    self,
                ).kind_of(x),
            forall|x: u8|
                old(self).contains_id(x) && x != d && !old(self).adj(x, d) ==> final(self).nbrs(x)
                    == old(self).nbrs(x),
            forall|x: u8|
                old(self).contains_id(x) && x != d && old(self).adj(x, d) ==> final(self).degree(x)
                    == old(self).degree(x) - 1,
            forall|x: u8, y: u8| #[trigger]
                final(self).adj(x, y) <==> (old(self).adj(x, y) && x != d && y != d),
            forall|i: int|
                0 <= i < final(self).len() ==> final(self).id_at(i) == (if i < old(
                    self,
                ).index_of(d) {
                    old(self).id_at(i)
                } else {
                    old(self).id_at(i + 1)
                }) && final(self).kind_at(i) == (if i < old(self).index_of(d) {
                    old(self).kind_at(i)
                } else {
                    old(self).kind_at(i + 1)
                }),
    {
        let ghost g0 = *self;
        let idx = match self.lookup(d) {
            Some(i) => i,
            None => { proof { assert(false); } 0 },
        };
        proof {
            g0.lemma_index_of_id_at(idx as int);
        }
        self.nodes.remove(idx);
        let ghost gm = *self;
        proof {
            assert forall|j: int| 0 <= j < gm.len() implies gm.nodes@[j] == (if j < idx {
                g0.nodes@[j]
            } else {
                g0.nodes@[j + 1]
            }) by {}
            assert forall|j: int| 0 <= j < gm.len() implies (#[trigger] gm.nbrs_at(
                j,
            )).no_duplicates() by {
                let j0: int = if j < idx {
                    j
                } else {
                    j + 1
                };
                g0.lemma_index_of_id_at(j0);
                assert(g0.contains_id(g0.id_at(j0)));
                assert(g0.nbrs(g0.id_at(j0)) == g0.nbrs_at(j0));
                assert(gm.nbrs_at(j) == g0.nbrs_at(j0));
            }
        }
        let n = self.nodes.len();
        let mut i: usize = 0;
        while i < n
            invariant
                i <= n,
                n == gm.len(),
                g0.wf(),
                0 <= idx < g0.len(),
                g0.id_at(idx as int) == d,
                gm.len() == g0.len() - 1,
                forall|j: int|
                    0 <= j < n ==> gm.nodes@[j] == (if j < idx {
                        g0.nodes@[j]
                    } else {
                        g0.nodes@[j + 1]
                    }),
                self.len() == n,
                forall|j: int|
                    0 <= j < n ==> self.id_at(j) == gm.id_at(j) && self.kind_at(j) == gm.kind_at(
                        j,
                    ),
                forall|j: int| i <= j < n ==> self.nbrs_at(j) == gm.nbrs_at(j),
                forall|j: int| 0 <= j < i ==> (#[trigger] self.nbrs_at(j)).no_duplicates(),
                forall|j: int| 0 <= j < i ==> !(#[trigger] self.nbrs_at(j)).contains(d),
                forall|j: int, y: u8|
                    #![trigger self.nbrs_at(j).contains(y)]
                    0 <= j < i && y != d ==> (self.nbrs_at(j).contains(y) <==> gm.nbrs_at(
                        j,
                    ).contains(y)),
                forall|j: int|
                    0 <= j < i && gm.nbrs_at(j).contains(d) ==> (#[trigger] self.nbrs_at(j)).len()
                        == gm.nbrs_at(j).len() - 1,
                forall|j: int|
                    0 <= j < i && !gm.nbrs_at(j).contains(d) ==> #[trigger] self.nbrs_at(j)
                        == gm.nbrs_at(j),
                forall|j: int| 0 <= j < n ==> (#[trigger] gm.nbrs_at(j)).no_duplicates(),
            decreases n - i,
        {
            proof {
                let jd: int = if (i as int) < idx {
                    i as int
                } else {
                    i as int + 1
                };
                assert(gm.nbrs_at(i as int) == g0.nbrs_at(jd));
                g0.lemma_index_of_id_at(jd);
                assert(g0.contains_id(g0.id_at(jd)));
                assert(g0.nbrs(g0.id_at(jd)) == g0.nbrs_at(jd));
            }
            let ghost pre = *self;
            let present = Self::list_contains(&self.nodes[i].neighbors, d);
            if present {
                Self::list_remove(&mut self.nodes[i].neighbors, d);
            }
            proof {
                let ii = i as int;
                assert forall|j: int| 0 <= j < n && j != ii implies #[trigger] self.nbrs_at(j)
                    == pre.nbrs_at(j) by {
                    assert(self.nodes@[j] == pre.nodes@[j]);
                }
                assert(self.nbrs_at(ii).no_duplicates());
                assert(!self.nbrs_at(ii).contains(d));
                assert(forall|y: u8|
                    y != d ==> (self.nbrs_at(ii).contains(y) <==> gm.nbrs_at(ii).contains(y)));
                assert(gm.nbrs_at(ii).contains(d) ==> self.nbrs_at(ii).len() == gm.nbrs_at(
                    ii,
                ).len() - 1);
                assert(!gm.nbrs_at(ii).contains(d) ==> self.nbrs_at(ii) == gm.nbrs_at(ii));
                assert forall|j: int| 0 <= j < ii + 1 implies (#[trigger] self.nbrs_at(
                    j,
                )).no_duplicates() by {
                    if j < ii {
                        assert(self.nbrs_at(j) == pre.nbrs_at(j));
                        assert(pre.nbrs_at(j).no_duplicates());
                    }
                }
                assert forall|j: int| 0 <= j < ii + 1 implies !(#[trigger] self.nbrs_at(
                    j,
                )).contains(d) by {
                    if j < ii {
                        assert(self.nbrs_at(j) == pre.nbrs_at(j));
                        assert(!pre.nbrs_at(j).contains(d));
                    }
                }
                assert forall|j: int, y: u8|
                    #![trigger self.nbrs_at(j).contains(y)]
                    0 <= j < ii + 1 && y != d implies (self.nbrs_at(j).contains(y) <==> gm.nbrs_at(
                    j,
                ).contains(y)) by {
                    if j < ii {
                        assert(self.nbrs_at(j) == pre.nbrs_at(j));
                        assert(pre.nbrs_at(j).contains(y) <==> gm.nbrs_at(j).contains(y));
                    }
                }
                assert forall|j: int|
                    0 <= j < ii + 1 && gm.nbrs_at(j).contains(d) implies (#[trigger] self.nbrs_at(
                    j,
                )).len() == gm.nbrs_at(j).len() - 1 by {
                    if j < ii {
                        assert(self.nbrs_at(j) == pre.nbrs_at(j));
                        assert(pre.nbrs_at(j).len() == gm.nbrs_at(j).len() - 1);
                    }
                }
                assert forall|j: int|
                    0 <= j < ii + 1 && !gm.nbrs_at(j).contains(d) implies #[trigger] self.nbrs_at(
                    j,
                ) == gm.nbrs_at(j) by {
                    if j < ii {
                        assert(self.nbrs_at(j) == pre.nbrs_at(j));
                        assert(pre.nbrs_at(j) == gm.nbrs_at(j));
                    }
                }
            }
            i = i + 1;
        }
        proof {
            let g1 = *self;
            let n0 = g0.len() as int;
            // Ids of the remaining nodes are the old ids minus `d`.
            assert forall|j: int| 0 <= j < n0 - 1 implies g1.id_at(j) == (if j < idx {
                g0.id_at(j)
            } else {
                g0.id_at(j + 1)
            }) && g1.kind_at(j) == (if j < idx {
                g0.kind_at(j)
            } else {
                g0.kind_at(j + 1)
            }) by {
                let jd: int = if j < idx {
                    j
                } else {
                    j + 1
                };
                assert(gm.nodes@[j] == g0.nodes@[jd]);
                assert(g1.id_at(j) == gm.id_at(j) && g1.kind_at(j) == gm.kind_at(j));
            }
            assert forall|j: int| 0 <= j < n0 - 1 implies g1.id_at(j) != d by {
                let j0: int = if j < idx {
                    j
                } else {
                    j + 1
                };
                assert(g1.id_at(j) == g0.id_at(j0) && j0 != idx);
                g0.lemma_index_of_id_at(j0);
                g0.lemma_index_of_id_at(idx as int);
            }
            assert forall|i1: int, j1: int| 0 <= i1 < j1 < g1.len() implies g1.id_at(i1)
                != g1.id_at(j1) by {
                let i0: int = if i1 < idx {
                    i1
                } else {
                    i1 + 1
                };
                let j0: int = if j1 < idx {
                    j1
                } else {
                    j1 + 1
                };
                assert(g1.id_at(i1) == g0.id_at(i0) && g1.id_at(j1) == g0.id_at(j0));
                assert(i0 < j0);
            }
            assert forall|x: u8| g1.contains_id(x) implies (g0.contains_id(x) && x != d) by {
                let j = choose|j: int| 0 <= j < g1.len() && g1.id_at(j) == x;
                let j0: int = if j < idx {
                    j
                } else {
                    j + 1
                };
                assert(g0.id_at(j0) == x);
            }
            assert forall|x: u8| g0.contains_id(x) && x != d implies g1.contains_id(x) by {
                let j0 = choose|j0: int| 0 <= j0 < g0.len() && g0.id_at(j0) == x;
                g0.lemma_index_of_id_at(idx as int);
                g0.lemma_index_of_id_at(j0);
                assert(j0 != idx);
                let j: int = if j0 < idx {
                    j0
                } else {
                    j0 - 1
                };
                assert(g1.id_at(j) == x);
            }
            // Relate each remaining node's record to the old one.
            assert forall|x: u8| g0.contains_id(x) && x != d implies #[trigger] g1.kind_of(x)
                == g0.kind_of(x) && (forall|y: u8|
                y != d ==> (g1.nbrs(x).contains(y) <==> g0.nbrs(x).contains(y))) && !g1.nbrs(
                x,
            ).contains(d) && g1.nbrs(x).no_duplicates() && (g0.nbrs(x).contains(d) ==> g1.nbrs(
                x,
            ).len() == g0.nbrs(x).len() - 1) && (!g0.nbrs(x).contains(d) ==> g1.nbrs(x)
                == g0.nbrs(x)) by {
                g0.lemma_index_of(x);
                let j0 = g0.index_of(x);
                g0.lemma_index_of_id_at(idx as int);
                assert(j0 != idx);
                let j: int = if j0 < idx {
                    j0
                } else {
                    j0 - 1
                };
                assert(g1.id_at(j) == x);
                g1.lemma_index_of_id_at(j);
                assert(gm.nbrs_at(j) == g0.nbrs_at(j0));
                assert(g1.nbrs(x) == g1.nbrs_at(j));
                assert(g0.nbrs(x) == g0.nbrs_at(j0));
            }
            assert forall|x: u8, y: u8| #[trigger]
                g1.adj(x, y) <==> (g0.adj(x, y) && x != d && y != d) by {
                if g1.adj(x, y) {
                    assert(g1.contains_id(x) && x != d);
                    assert(!g1.nbrs(x).contains(d));
                    assert(y != d);
                    assert(g0.nbrs(x).contains(y));
                }
                if g0.adj(x, y) && x != d && y != d {
                    assert(g1.contains_id(x));
                    assert(g1.nbrs(x).contains(y));
                }
            }
            assert forall|x: u8| g1.contains_id(x) implies (#[trigger] g1.nbrs(
                x,
            )).no_duplicates() by {}
            assert(g1.wf());
        }
    }

    /// A structural copy of the graph, for speculative what-if checks.
    pub fn duplicate(&self) -> (r: Topology)
        ensures
            r.len() == self.len(),
            forall|i: int|
                0 <= i < self.len() ==> r.id_at(i) == self.id_at(i) && r.kind_at(i) == self.kind_at(
                    i,
                ) && r.nbrs_at(i) == self.nbrs_at(i),
    {
        let n = self.nodes.len();
        let mut nodes: Vec<ActorNode> = Vec::new();
        let mut i: usize = 0;
        while i < n
            invariant
                i <= n,
                n == self.len(),
                nodes@.len() == i,
                forall|j: int|
                    0 <= j < i ==> nodes@[j].id == self.id_at(j) && nodes@[j].kind == self.kind_at(
                        j,
                    ) && nodes@[j].neighbors@ == self.nbrs_at(j),
            decreases n - i,
        {
            let nb = Self::copy_list(&self.nodes[i].neighbors);
            nodes.push(ActorNode { id: self.nodes[i].id, kind: self.nodes[i].kind, neighbors: nb });
            i = i + 1;
        }
        Topology { nodes }
    }

    /// An element-by-element copy of a neighbor list.
    pub(crate) fn copy_list(v: &Vec<u8>) -> (r: Vec<u8>)
        ensures
            r@ == v@,
    {
        let n = v.len();
        let mut r: Vec<u8> = Vec::new();
        let mut i: usize = 0;
        while i < n
            invariant
                i <= n,
                n == v@.len(),
                r@ =~= v@.subrange(0, i as int),
            decreases n - i,
        {
            r.push(v[i]);
            i = i + 1;
        }
        proof {
            assert(r@ =~= v@);
        }
        r
    }
}

/// Two graphs with identical node records agree on every derived notion.
pub proof fn lemma_same_view(g1: Topology, g2: Topology)
    requires
        g1.ids_distinct(),
        g1.len() == g2.len(),
        forall|i: int|
            0 <= i < g1.len() ==> g2.id_at(i) == g1.id_at(i) && g2.kind_at(i) == g1.kind_at(i)
                && g2.nbrs_at(i) == g1.nbrs_at(i),
    ensures
        forall|x: u8| g2.contains_id(x) <==> g1.contains_id(x),
        forall|x: u8|
            g1.contains_id(x) ==> #[trigger] g2.kind_of(x) == g1.kind_of(x) && g2.nbrs(x)
                == g1.nbrs(x),
        forall|x: u8, y: u8| #[trigger] g2.adj(x, y) <==> g1.adj(x, y),
        g1.wf() ==> g2.wf(),
{
    assert(g2.ids_distinct());
    assert forall|x: u8| g2.contains_id(x) <==> g1.contains_id(x) by {
        if g2.contains_id(x) {
            let i = choose|i: int| 0 <= i < g2.len() && g2.id_at(i) == x;
            assert(g1.id_at(i) == x);
        }
        if g1.contains_id(x) {
            let i = choose|i: int| 0 <= i < g1.len() && g1.id_at(i) == x;
            assert(g2.id_at(i) == x);
        }
    }
    assert forall|x: u8| g1.contains_id(x) implies #[trigger] g2.kind_of(x) == g1.kind_of(x)
        && g2.nbrs(x) == g1.nbrs(x) by {
        g1.lemma_index_of(x);
        let i = g1.index_of(x);
        g2.lemma_index_of_id_at(i);
        g1.lemma_index_of_id_at(i);
    }
    assert forall|x: u8, y: u8| #[trigger] g2.adj(x, y) <==> g1.adj(x, y) by {
        if g1.contains_id(x) {
            assert(g2.nbrs(x) == g1.nbrs(x));
        }
    }
    if g1.wf() {
        assert forall|x: u8| g2.contains_id(x) implies (#[trigger] g2.nbrs(
            x,
        )).no_duplicates() by {
            assert(g2.nbrs(x) == g1.nbrs(x));
        }
        assert(g2.wf());
    }
}

/// Membership in a pushed sequence: the new element, or an old member.
pub proof fn lemma_push_contains<T>(s: Seq<T>, v: T, x: T)
    ensures
        s.push(v).contains(x) <==> (s.contains(x) || x == v),
{
    if s.contains(x) {
        let i = choose|i: int| 0 <= i < s.len() && s[i] == x;
        assert(s.push(v)[i] == x);
    }
    assert(s.push(v)[s.len() as int] == v);
    if s.push(v).contains(x) {
        let i = choose|i: int| 0 <= i < s.push(v).len() && s.push(v)[i] == x;
        if i < s.len() {
            assert(s[i] == x);
        }
    }
}

/// Pushing a fresh element keeps a sequence duplicate-free.
pub proof fn lemma_push_no_duplicates<T>(s: Seq<T>, v: T)
    requires
        s.no_duplicates(),
        !s.contains(v),
    ensures
        s.push(v).no_duplicates(),
{
    assert forall|i: int, j: int|
        0 <= i < s.push(v).len() && 0 <= j < s.push(v).len() && i != j implies s.push(v)[i]
        != s.push(v)[j] by {
        if i < s.len() && j < s.len() {
        } else if i < s.len() {
            assert(s[i] != v) by {
                if s[i] == v {
                    assert(s.contains(v));
                }
            }
        } else if j < s.len() {
            assert(s[j] != v) by {
                if s[j] == v {
                    assert(s.contains(v));
                }
            }
        }
    }
}

} // verus!
