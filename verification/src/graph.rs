//! Weighted directed graph over an adjacency list: the hash table maps each
//! vertex to the list of its outgoing edges, each a target vertex with a
//! cost.  Parallel edges and self-loops are permitted and retained.

use crate::hash_table::HashTable;
use crate::keys::TableKey;
use vstd::prelude::*;

verus! {

#[derive(Debug, PartialEq, Eq)]
pub enum GraphError {
    VertexAlreadyExists,
    GraphFull,
    FromNotFound,
    ToNotFound,
    EdgeNotFound,
}

/// The edge list of a vertex, abstracted to target views and costs.
pub open spec fn edges_view<T: TableKey>(v: Seq<(T, u64)>) -> Seq<(T::V, u64)> {
    Seq::new(v.len(), |i: int| (v[i].0@, v[i].1))
}

/// The edges of the list whose target is `tov`, in order.
pub open spec fn edges_to<A>(es: Seq<(A, u64)>, tov: A) -> Seq<(A, u64)> {
    es.filter(|e: (A, u64)| e.0 == tov)
}

/// Appending an edge extends the filtered list exactly when the edge points
/// at the filtered target.
proof fn lemma_edges_to_push<A>(es: Seq<(A, u64)>, e: (A, u64), tov: A)
    ensures
        edges_to(es.push(e), tov) == if e.0 == tov {
            edges_to(es, tov).push(e)
        } else {
            edges_to(es, tov)
        },
{
    es.lemma_filter_push(e, |x: (A, u64)| x.0 == tov);
}

/// Directedness law: adding the edge `a -> b` appends `(b, w)` to `a`'s edge
/// list, as `get_neighbors` then reports it, and leaves the edge list of
/// every other vertex unchanged — in particular `b`'s, so no reverse edge
/// appears.
pub proof fn lemma_add_edge_directed<A>(m: Map<A, Seq<(A, u64)>>, a: A, b: A, w: u64)
    requires
        m.dom().contains(a),
    ensures
        m.insert(a, m[a].push((b, w)))[a].contains((b, w)),
        forall|v: A|
            v != a && m.dom().contains(v) ==> m.insert(a, m[a].push((b, w)))[v] == m[v],
{
    let es = m[a].push((b, w));
    assert(es[es.len() - 1] == (b, w));
    assert(es.contains((b, w)));
}

#[verifier::reject_recursive_types(T)]
pub struct WeightedDirectedGraph<T: TableKey> {
    adj_list: HashTable<T, Vec<(T, u64)>>,
}

impl<T: TableKey> View for WeightedDirectedGraph<T> {
    type V = Map<T::V, Seq<(T::V, u64)>>;

    /// The graph abstracts to the map from vertex views to their edge lists.
    closed spec fn view(&self) -> Map<T::V, Seq<(T::V, u64)>> {
        self.adj_list@.map_values(|v: Vec<(T, u64)>| edges_view(v@))
    }
}

impl<T: TableKey> WeightedDirectedGraph<T> {
    /// The fixed number of slots of the underlying table.
    pub closed spec fn capacity(&self) -> int {
        self.adj_list.capacity()
    }

    /// Well-formedness: the underlying table is well formed and every edge
    /// points at a known vertex.
    pub closed spec fn wf(&self) -> bool {
        &&& self.adj_list.wf()
        &&& forall|kv: T::V, i: int|
            self@.dom().contains(kv) && 0 <= i < self@[kv].len() ==> self@.dom().contains(
                (#[trigger] self@[kv][i]).0,
            )
    }

    /// Every edge of a well-formed graph points at a known vertex.
    pub proof fn lemma_edges_closed(&self)
        requires
            self.wf(),
        ensures
            forall|kv: T::V, i: int|
                self@.dom().contains(kv) && 0 <= i < self@[kv].len() ==> self@.dom().contains(
                    (#[trigger] self@[kv][i]).0,
                ),
    {
    }

    /// Creates an empty graph.
    pub fn new() -> (r: Self)
        ensures
            r.wf(),
            r@ == Map::<T::V, Seq<(T::V, u64)>>::empty(),
            r.capacity() == 101,
    {
        let r = WeightedDirectedGraph { adj_list: HashTable::new() };
        proof {
            assert(r@ =~= Map::<T::V, Seq<(T::V, u64)>>::empty());
        }
        r
    }

    /// The number of vertices of the graph.
    pub fn vertex_count(&self) -> (r: usize)
        requires
            self.wf(),
        ensures
            r == self@.dom().len(),
            self@.dom().finite(),
    {
        proof {
            assert(self@.dom() =~= self.adj_list@.dom());
        }
        self.adj_list.len()
    }

    /// Whether the vertex is known to the graph.
    pub fn contains_vertex(&self, id: &T) -> (r: bool)
        requires
            self.wf(),
        ensures
            r == self@.dom().contains(id@),
    {
        proof {
            assert(self@.dom() =~= self.adj_list@.dom());
        }
        self.adj_list.contains(id)
    }

    /// Adds a vertex with an empty edge list.  Fails with
    /// `VertexAlreadyExists` when the vertex is known, and with `GraphFull`
    /// when the underlying table has no slot left for it.
    pub fn add_vertex(&mut self, id: T) -> (r: Result<(), GraphError>)
        requires
            old(self).wf(),
        ensures
            final(self).wf(),
            final(self).capacity() == old(self).capacity(),
            match r {
                Ok(()) => !old(self)@.dom().contains(id@) && final(self)@ == old(self)@.insert(
                    id@,
                    Seq::<(T::V, u64)>::empty(),
                ),
                Err(e) => final(self)@ == old(self)@ && (e == GraphError::VertexAlreadyExists
                    <==> old(self)@.dom().contains(id@)) && (e == GraphError::GraphFull <==> !old(
                    self,
                )@.dom().contains(id@) && old(self)@.dom().len() == old(self).capacity()),
            },
            r is Ok <==> (!old(self)@.dom().contains(id@) && old(self)@.dom().len() < old(
                self,
            ).capacity()),
    {
        let ghost pre = *self;
        proof {
            assert(self@.dom() =~= self.adj_list@.dom());
        }
        if !self.adj_list.contains(&id) {
            let ghost idv = id@;
            let empty_edges: Vec<(T, u64)> = Vec::new();
            proof {
                assert(edges_view(empty_edges@) =~= Seq::<(T::V, u64)>::empty());
            }
            match self.adj_list.insert(id, empty_edges) {
                Ok(()) => {
                    proof {
                        assert(self@ =~= pre@.insert(idv, Seq::<(T::V, u64)>::empty()));
                        assert(self@.dom() =~= pre@.dom().insert(idv));
                    }
                    Ok(())
                },
                Err(_) => {
                    proof {
                        assert(self@ =~= pre@);
                    }
                    Err(GraphError::GraphFull)
                },
            }
        } else {
            Err(GraphError::VertexAlreadyExists)
        }
    }

    /// Appends the directed edge `from -> to` with the given cost to `from`'s
    /// edge list.  The reverse edge is not added.  Fails with `FromNotFound`
    /// or `ToNotFound` when an endpoint is unknown.
    pub fn add_edge(&mut self, from: T, to: T, cost: u64) -> (r: Result<(), GraphError>)
        requires
            old(self).wf(),
        ensures
            final(self).wf(),
            final(self).capacity() == old(self).capacity(),
            match r {
                Ok(()) => old(self)@.dom().contains(from@) && old(self)@.dom().contains(to@)
                    && final(self)@ == old(self)@.insert(
                    from@,
                    old(self)@[from@].push((to@, cost)),
                ),
                Err(e) => final(self)@ == old(self)@ && (e == GraphError::FromNotFound <==> !old(
                    self,
                )@.dom().contains(from@)) && (e == GraphError::ToNotFound <==> old(
                    self,
                )@.dom().contains(from@) && !old(self)@.dom().contains(to@)),
            },
            r is Ok <==> (old(self)@.dom().contains(from@) && old(self)@.dom().contains(to@)),
    {
        let ghost pre = *self;
        proof {
            assert(self@.dom() =~= self.adj_list@.dom());
        }
        if !self.adj_list.contains(&from) {
            return Err(GraphError::FromNotFound);
        }
        if !self.adj_list.contains(&to) {
            return Err(GraphError::ToNotFound);
        }
        let ghost fromv = from@;
        let ghost tov = to@;
        match self.adj_list.get_mut(&from) {
            Ok(neighbors) => {
                neighbors.push((to, cost));
            },
            Err(_) => {
                return unreached();
            },
        }
        proof {
            let oldvec = pre.adj_list@[fromv];
            assert(self.adj_list@[fromv]@ == oldvec@.push((to, cost)));
            assert(edges_view(self.adj_list@[fromv]@) =~= edges_view(oldvec@).push((tov, cost)));
            assert(pre@[fromv] == edges_view(oldvec@));
            assert(self@ =~= pre@.insert(fromv, pre@[fromv].push((tov, cost))));
            assert(self@.dom() =~= pre@.dom());
            assert forall|kv: T::V, i: int|
                self@.dom().contains(kv) && 0 <= i < self@[kv].len() implies self@.dom().contains(
                (#[trigger] self@[kv][i]).0,
            ) by {
                if kv == fromv && i == self@[kv].len() - 1 {
                    assert(self@[kv][i].0 == tov);
                } else {
                    assert(self@[kv][i] == pre@[kv][i]);
                }
            }
        }
        Ok(())
    }

    /// The outgoing edges of a vertex, as pairs of target and cost; a vertex
    /// that is unknown or has no outgoing edges yields an empty list.
    pub fn get_neighbors(&self, vertex: T) -> (r: Vec<(T, u64)>)
        requires
            self.wf(),
        ensures
            edges_view(r@) == if self@.dom().contains(vertex@) {
                self@[vertex@]
            } else {
                Seq::<(T::V, u64)>::empty()
            },
    {
        match self.adj_list.get(&vertex) {
            Ok(v) => {
                let mut out: Vec<(T, u64)> = Vec::new();
                let mut i: usize = 0;
                let n = v.len();
                while i < n
                    invariant
                        n == v@.len(),
                        0 <= i <= n,
                        out@.len() == i,
                        forall|j: int|
                            0 <= j < i ==> (#[trigger] out@[j]).0@ == v@[j].0@ && out@[j].1
                                == v@[j].1,
                    decreases n - i,
                {
                    let target = v[i].0.dup();
                    let cost = v[i].1;
                    out.push((target, cost));
                    i = i + 1;
                }
                proof {
                    assert(edges_view(out@) =~= edges_view(v@));
                }
                out
            },
            Err(_) => {
                let out: Vec<(T, u64)> = Vec::new();
                proof {
                    assert(edges_view(out@) =~= Seq::<(T::V, u64)>::empty());
                }
                out
            },
        }
    }

    /// All edges `from -> to`, as pairs of target and cost, supporting
    /// parallel edges.  Fails with `FromNotFound` or `ToNotFound` when an
    /// endpoint is unknown and with `EdgeNotFound` when no such edge exists.
    pub fn get_weight(&self, from: T, to: T) -> (r: Result<Vec<(T, u64)>, GraphError>)
        requires
            self.wf(),
        ensures
            match r {
                Ok(es) => self@.dom().contains(from@) && self@.dom().contains(to@) && edges_view(
                    es@,
                ) == edges_to(self@[from@], to@) && es@.len() > 0,
                Err(e) => {
                    &&& (e == GraphError::FromNotFound <==> !self@.dom().contains(from@))
                    &&& (e == GraphError::ToNotFound <==> self@.dom().contains(from@)
                        && !self@.dom().contains(to@))
                    &&& (e == GraphError::EdgeNotFound <==> self@.dom().contains(from@)
                        && self@.dom().contains(to@) && edges_to(self@[from@], to@).len() == 0)
                },
            },
            r is Ok <==> (self@.dom().contains(from@) && self@.dom().contains(to@) && edges_to(
                self@[from@],
                to@,
            ).len() > 0),
    {
        broadcast use vstd::prelude::Seq::lemma_filter_push;

        if !self.adj_list.contains(&from) {
            return Err(GraphError::FromNotFound);
        }
        if !self.adj_list.contains(&to) {
            return Err(GraphError::ToNotFound);
        }
        match self.adj_list.get(&from) {
            Ok(v) => {
                let ghost full = edges_view(v@);
                let mut out: Vec<(T, u64)> = Vec::new();
                let mut i: usize = 0;
                let n = v.len();
                proof {
                    assert(full.take(0) =~= Seq::<(T::V, u64)>::empty());
                    assert(edges_to(full.take(0), to@) =~= Seq::<(T::V, u64)>::empty());
                    assert(self@[from@] == full);
                }
                while i < n
                    invariant
                        n == v@.len(),
                        full == edges_view(v@),
                        full.len() == n,
                        0 <= i <= n,
                        edges_view(out@) == edges_to(full.take(i as int), to@),
                    decreases n - i,
                {
                    let ghost prefix = full.take(i as int);
                    proof {
                        assert(full.take(i + 1) =~= prefix.push(full[i as int]));
                    }
                    if v[i].0.key_eq(&to) {
                        let target = v[i].0.dup();
                        let cost = v[i].1;
                        let ghost oldout = out@;
                        out.push((target, cost));
                        proof {
                            assert(full[i as int].0 == to@);
                            lemma_edges_to_push(prefix, full[i as int], to@);
                            assert(edges_view(out@) =~= edges_view(oldout).push(full[i as int]));
                        }
                    } else {
                        proof {
                            assert(full[i as int].0 != to@);
                            lemma_edges_to_push(prefix, full[i as int], to@);
                        }
                    }
                    i = i + 1;
                }
                proof {
                    assert(full.take(n as int) =~= full);
                }
                if out.is_empty() {
                    proof {
                        assert(edges_view(out@).len() == out@.len());
                    }
                    Err(GraphError::EdgeNotFound)
                } else {
                    proof {
                        assert(edges_view(out@).len() == out@.len());
                    }
                    Ok(out)
                }
            },
            Err(_) => unreached(),
        }
    }
}

} // verus!
