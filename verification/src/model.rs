//! The mathematical model of a red-black graph.
//!
//! A graph is a pair of adjacency relations over one vertex set. Each relation
//! maps a vertex label to the set of its neighbours in that colour. All
//! contracts of the executable graph are stated over this model.

use vstd::prelude::*;

verus! {

/// The neighbours that `adj` records for `x`; none when `x` has no entry.
pub open spec fn neighbors(adj: Map<u32, Set<u32>>, x: u32) -> Set<u32> {
    if adj.contains_key(x) {
        adj[x]
    } else {
        Set::empty()
    }
}

/// `adj` relates `x` to `y`.
pub open spec fn adjacent(adj: Map<u32, Set<u32>>, x: u32, y: u32) -> bool {
    adj.contains_key(x) && adj[x].contains(y)
}

/// Whenever `x` is a neighbour of `y`, `y` is a neighbour of `x`.
pub open spec fn symmetric_adjacency(adj: Map<u32, Set<u32>>) -> bool {
    forall|x: u32, y: u32|
        adj.contains_key(x) && #[trigger] adj[x].contains(y) ==> adj.contains_key(y)
            && adj[y].contains(x)
}

/// Every neighbour set is finite.
pub open spec fn finite_adjacency(adj: Map<u32, Set<u32>>) -> bool {
    forall|x: u32| adj.contains_key(x) ==> (#[trigger] adj[x]).finite()
}

/// `adj` with entries for `u` and `v`, empty where there was none.
pub open spec fn with_vertices(adj: Map<u32, Set<u32>>, u: u32, v: u32) -> Map<u32, Set<u32>> {
    Map::new(|x: u32| adj.contains_key(x) || x == u || x == v, |x: u32| neighbors(adj, x))
}

/// `adj` with entries for `u` and `v` and the edge between them, in both
/// directions.
pub open spec fn with_edge(adj: Map<u32, Set<u32>>, u: u32, v: u32) -> Map<u32, Set<u32>> {
    Map::new(
        |x: u32| adj.contains_key(x) || x == u || x == v,
        |x: u32|
            {
                let n = neighbors(adj, x);
                let n = if x == u {
                    n.insert(v)
                } else {
                    n
                };
                if x == v {
                    n.insert(u)
                } else {
                    n
                }
            },
    )
}

/// `adj` without the entry of `u` and without `u` in any neighbour set.
pub open spec fn without_vertex(adj: Map<u32, Set<u32>>, u: u32) -> Map<u32, Set<u32>> {
    Map::new(|x: u32| adj.contains_key(x) && x != u, |x: u32| adj[x].remove(u))
}

/// `adj` after `v` is folded into `u`: `v` is gone, `u` has exactly the
/// neighbours `merged`, and every other vertex has lost `u` and `v` and is a
/// neighbour of `u` again exactly if `merged` holds it.
pub open spec fn rewired(adj: Map<u32, Set<u32>>, u: u32, v: u32, merged: Set<u32>) -> Map<
    u32,
    Set<u32>,
> {
    Map::new(
        |x: u32| adj.contains_key(x) && x != v,
        |x: u32|
            if x == u {
                merged
            } else if merged.contains(x) {
                adj[x].remove(u).remove(v).insert(u)
            } else {
                adj[x].remove(u).remove(v)
            },
    )
}

/// `adj` with an entry for `u` whose neighbours are exactly `joined`, each of
/// them a neighbour of `u` in turn.
pub open spec fn attached(adj: Map<u32, Set<u32>>, u: u32, joined: Set<u32>) -> Map<
    u32,
    Set<u32>,
> {
    Map::new(
        |x: u32| adj.contains_key(x) || x == u,
        |x: u32|
            if x == u {
                joined
            } else if joined.contains(x) {
                adj[x].insert(u)
            } else {
                adj[x]
            },
    )
}

/// A finite set of labels that lacks one label has at most `u32::MAX`
/// elements.
pub proof fn lemma_label_set_bound(s: Set<u32>, absent: u32)
    requires
        s.finite(),
        !s.contains(absent),
    ensures
        s.len() <= u32::MAX,
{
    let full = s.insert(absent);
    let widen = |x: u32| x as int;
    let image = full.map(widen);
    assert(vstd::relations::injective_on(widen, full));
    vstd::set_lib::lemma_map_size(full, image, widen);
    vstd::set_lib::lemma_int_range(0, 0x1_0000_0000);
    assert(image.subset_of(vstd::set_lib::set_int_range(0, 0x1_0000_0000))) by {
        assert forall|i: int| image.contains(i) implies vstd::set_lib::set_int_range(
            0,
            0x1_0000_0000,
        ).contains(i) by {
            let x = choose|x: u32| full.contains(x) && widen(x) == i;
            assert(0 <= i < 0x1_0000_0000);
        }
    }
    vstd::set_lib::lemma_len_subset(image, vstd::set_lib::set_int_range(0, 0x1_0000_0000));
}

/// The state of a red-black graph: for each colour, the neighbours of each
/// present vertex.
pub struct GraphView {
    pub red: Map<u32, Set<u32>>,
    pub black: Map<u32, Set<u32>>,
}

impl GraphView {
    /// The graph without vertices.
    pub open spec fn empty() -> GraphView {
        GraphView { red: Map::empty(), black: Map::empty() }
    }

    /// A vertex is present when it has an entry in both relations.
    pub open spec fn has_vertex(self, u: u32) -> bool {
        self.red.contains_key(u) && self.black.contains_key(u)
    }

    /// The labels of the present vertices.
    pub open spec fn vertices(self) -> Set<u32> {
        self.black.dom()
    }

    /// `u` and `v` are joined by a red edge.
    pub open spec fn red_adjacent(self, u: u32, v: u32) -> bool {
        adjacent(self.red, u, v)
    }

    /// `u` and `v` are joined by a black edge.
    pub open spec fn black_adjacent(self, u: u32, v: u32) -> bool {
        adjacent(self.black, u, v)
    }

    /// The number of red neighbours of `u`.
    pub open spec fn red_degree(self, u: u32) -> nat {
        neighbors(self.red, u).len()
    }

    /// Both relations are symmetric.
    pub open spec fn symmetric(self) -> bool {
        symmetric_adjacency(self.red) && symmetric_adjacency(self.black)
    }

    /// No two vertices are joined by a red and a black edge at once.
    pub open spec fn color_exclusive(self) -> bool {
        forall|x: u32, y: u32|
            #![trigger self.red[x].contains(y)]
            #![trigger self.black[x].contains(y)]
            !(self.has_vertex(x) && self.red[x].contains(y) && self.black[x].contains(y))
    }

    /// No red edge joins a vertex to itself: a red edge records that two
    /// distinct vertices disagreed on a neighbour.
    pub open spec fn red_irreflexive(self) -> bool {
        forall|x: u32| self.red.contains_key(x) ==> !(#[trigger] self.red[x].contains(x))
    }

    /// The invariant of every graph: both relations range over the same finite
    /// vertex set, neighbour sets are finite, edges are symmetric (so both ends
    /// of an edge are present), no pair is red and black at once, and no
    /// vertex is its own red neighbour.
    pub open spec fn wf(self) -> bool {
        &&& self.red.dom() == self.black.dom()
        &&& self.black.dom().finite()
        &&& finite_adjacency(self.red)
        &&& finite_adjacency(self.black)
        &&& self.symmetric()
        &&& self.color_exclusive()
        &&& self.red_irreflexive()
    }

    /// The graph after a black edge between `u` and `v` is inserted.
    pub open spec fn add_black_edge(self, u: u32, v: u32) -> GraphView {
        GraphView { red: with_vertices(self.red, u, v), black: with_edge(self.black, u, v) }
    }

    /// The graph after a red edge between `u` and `v` is inserted.
    pub open spec fn add_red_edge(self, u: u32, v: u32) -> GraphView {
        GraphView { red: with_edge(self.red, u, v), black: with_vertices(self.black, u, v) }
    }

    /// The graph after `u` and its edges are removed.
    pub open spec fn delete_vertex(self, u: u32) -> GraphView {
        GraphView { red: without_vertex(self.red, u), black: without_vertex(self.black, u) }
    }

    /// The vertices that are a black neighbour of exactly one of `u` and `v`.
    pub open spec fn black_difference(self, u: u32, v: u32) -> Set<u32> {
        let bu = neighbors(self.black, u);
        let bv = neighbors(self.black, v);
        bu.difference(bv).union(bv.difference(bu))
    }

    /// The vertices that are a red neighbour of `u` or of `v`.
    pub open spec fn red_union(self, u: u32, v: u32) -> Set<u32> {
        neighbors(self.red, u).union(neighbors(self.red, v))
    }

    /// The red neighbours of `u` once `v` is merged into it: every vertex
    /// other than `u` and `v` on which the two disagree in black, or that is
    /// a red neighbour of either.
    pub open spec fn merged_red(self, u: u32, v: u32) -> Set<u32> {
        self.black_difference(u, v).union(self.red_union(u, v)).remove(u).remove(v)
    }

    /// The black neighbours of `u` once `v` is merged into it: every
    /// remaining vertex that was a black neighbour of both.
    pub open spec fn merged_black(self, u: u32, v: u32) -> Set<u32> {
        neighbors(self.black, u).intersect(neighbors(self.black, v)).remove(v)
    }

    /// The red degree that `u` will have once `v` is merged into it.
    pub open spec fn merge_cost(self, u: u32, v: u32) -> nat {
        self.merged_red(u, v).len()
    }

    /// The graph after `v` is merged into `u`.
    pub open spec fn merge(self, u: u32, v: u32) -> GraphView {
        GraphView {
            red: rewired(self.red, u, v, self.merged_red(u, v)),
            black: rewired(self.black, u, v, self.merged_black(u, v)),
        }
    }
}

impl GraphView {
    /// In a graph that meets the invariant, `u` is a neighbour of `v` in a
    /// colour exactly if `v` is a neighbour of `u` in that colour.
    pub proof fn lemma_symmetric(self, u: u32, v: u32)
        requires
            self.wf(),
        ensures
            self.red_adjacent(u, v) == self.red_adjacent(v, u),
            self.black_adjacent(u, v) == self.black_adjacent(v, u),
    {
    }

    /// In a graph that meets the invariant, no two vertices are joined by a
    /// red and a black edge at once.
    pub proof fn lemma_color_exclusive(self, u: u32, v: u32)
        requires
            self.wf(),
        ensures
            !(self.red_adjacent(u, v) && self.black_adjacent(u, v)),
    {
    }

    /// Inserting an edge that is there changes nothing.
    pub proof fn lemma_add_edge_again(self, u: u32, v: u32)
        ensures
            self.add_black_edge(u, v).add_black_edge(u, v) == self.add_black_edge(u, v),
            self.add_red_edge(u, v).add_red_edge(u, v) == self.add_red_edge(u, v),
            self.add_black_edge(u, v) == self.add_black_edge(v, u),
            self.add_red_edge(u, v) == self.add_red_edge(v, u),
    {
        let b = self.add_black_edge(u, v);
        assert(b.add_black_edge(u, v).red =~~= b.red);
        assert(b.add_black_edge(u, v).black =~~= b.black);
        assert(self.add_black_edge(v, u).red =~~= b.red);
        assert(self.add_black_edge(v, u).black =~~= b.black);
        let r = self.add_red_edge(u, v);
        assert(r.add_red_edge(u, v).red =~~= r.red);
        assert(r.add_red_edge(u, v).black =~~= r.black);
        assert(self.add_red_edge(v, u).red =~~= r.red);
        assert(self.add_red_edge(v, u).black =~~= r.black);
    }

    /// Inserting a black edge between vertices that no red edge joins keeps
    /// the invariant.
    pub proof fn lemma_add_black_edge_wf(self, u: u32, v: u32)
        requires
            self.wf(),
            !self.red_adjacent(u, v),
        ensures
            self.add_black_edge(u, v).wf(),
    {
        let g = self.add_black_edge(u, v);
        assert(g.red.dom() =~= g.black.dom());
        assert(g.black.dom() =~= self.black.dom().insert(u).insert(v));
    }

    /// Inserting a red edge between distinct vertices that no black edge
    /// joins keeps the invariant.
    pub proof fn lemma_add_red_edge_wf(self, u: u32, v: u32)
        requires
            self.wf(),
            u != v,
            !self.black_adjacent(u, v),
        ensures
            self.add_red_edge(u, v).wf(),
    {
        let g = self.add_red_edge(u, v);
        assert(g.red.dom() =~= g.black.dom());
        assert(g.black.dom() =~= self.black.dom().insert(u).insert(v));
    }

    /// Removing a vertex keeps the invariant, and changes nothing when the
    /// vertex is absent.
    pub proof fn lemma_delete_vertex_wf(self, u: u32)
        requires
            self.wf(),
        ensures
            self.delete_vertex(u).wf(),
            !self.delete_vertex(u).has_vertex(u),
            self.delete_vertex(u).vertices() == self.vertices().remove(u),
            !self.has_vertex(u) ==> self.delete_vertex(u) == self,
    {
        let g = self.delete_vertex(u);
        assert(g.red.dom() =~= self.red.dom().remove(u));
        assert(g.black.dom() =~= self.black.dom().remove(u));
        if !self.has_vertex(u) {
            assert forall|x: u32| self.red.contains_key(x) implies self.red[x].remove(u)
                == self.red[x] by {
                assert(!self.red[x].contains(u));
                assert(self.red[x].remove(u) =~= self.red[x]);
            }
            assert forall|x: u32| self.black.contains_key(x) implies self.black[x].remove(u)
                == self.black[x] by {
                assert(!self.black[x].contains(u));
                assert(self.black[x].remove(u) =~= self.black[x]);
            }
            assert(g.red =~= self.red);
            assert(g.black =~= self.black);
        }
    }

    /// What a merge attaches to `u` lies among the vertices that remain, and no
    /// vertex is attached in both colours.
    pub proof fn lemma_merged_neighbors(self, u: u32, v: u32)
        requires
            self.wf(),
            self.has_vertex(u),
            self.has_vertex(v),
        ensures
            self.merged_red(u, v).finite(),
            self.merged_black(u, v).finite(),
            forall|x: u32|
                self.merged_red(u, v).contains(x) ==> x != u && x != v && self.has_vertex(x),
            forall|x: u32| self.merged_black(u, v).contains(x) ==> x != v && self.has_vertex(x),
            forall|x: u32| self.merged_black(u, v).contains(x) ==> !self.merged_red(u, v).contains(x),
    {
        assert(self.red[u].finite() && self.red[v].finite());
        assert(self.black[u].finite() && self.black[v].finite());
        assert forall|x: u32| self.merged_red(u, v).contains(x) implies self.has_vertex(x) by {
            if self.red[u].contains(x) || self.black[u].contains(x) {
            } else {
                assert(self.red[v].contains(x) || self.black[v].contains(x));
            }
        }
        assert forall|x: u32| self.merged_black(u, v).contains(x) implies self.has_vertex(x)
            && !self.merged_red(u, v).contains(x) by {
            assert(self.black[u].contains(x) && self.black[v].contains(x));
        }
    }

    /// Adding an isolated vertex keeps the invariant.
    pub proof fn lemma_attach_isolated_wf(self, u: u32)
        requires
            self.wf(),
            !self.has_vertex(u),
        ensures
            (GraphView {
                red: attached(self.red, u, Set::empty()),
                black: attached(self.black, u, Set::empty()),
            }).wf(),
    {
        let g = GraphView {
            red: attached(self.red, u, Set::empty()),
            black: attached(self.black, u, Set::empty()),
        };
        assert(g.red.dom() =~= g.black.dom());
        assert(g.black.dom() =~= self.black.dom().insert(u));
    }

    /// Right after `v` is merged into `u`, the red degree of `u` is the one
    /// that the probe of that merge projected.
    pub proof fn lemma_merge_agrees_with_probe(self, u: u32, v: u32)
        requires
            self.has_vertex(u),
            u != v,
        ensures
            self.merge(u, v).red_degree(u) == self.merge_cost(u, v),
    {
    }

    /// A merge keeps the invariant: afterwards the relations are still
    /// symmetric and no pair is joined in both colours. The merged vertex is
    /// gone, the surviving one stays, and no other vertex comes or goes.
    pub proof fn lemma_merge_wf(self, u: u32, v: u32)
        requires
            self.wf(),
            self.has_vertex(u),
            self.has_vertex(v),
            u != v,
        ensures
            self.merge(u, v).wf(),
            self.merge(u, v).vertices() == self.vertices().remove(v),
            self.merge(u, v).has_vertex(u),
            !self.merge(u, v).has_vertex(v),
            self.merge(u, v).vertices().len() == self.vertices().len() - 1,
    {
        let g = self.merge(u, v);
        self.lemma_merged_neighbors(u, v);
        assert(g.red.dom() =~= self.red.dom().remove(v));
        assert(g.black.dom() =~= self.black.dom().remove(v));
        assert(finite_adjacency(g.red)) by {
            assert forall|x: u32| g.red.contains_key(x) implies (#[trigger] g.red[x]).finite() by {
                assert(self.red[x].finite());
            }
        }
        assert(finite_adjacency(g.black)) by {
            assert forall|x: u32| g.black.contains_key(x) implies (#[trigger] g.black[x]).finite() by {
                assert(self.black[x].finite());
            }
        }
        assert(symmetric_adjacency(g.red)) by {
            assert forall|x: u32, y: u32|
                g.red.contains_key(x) && #[trigger] g.red[x].contains(y) implies g.red.contains_key(
                y,
            ) && g.red[y].contains(x) by {
                if x != u && y != u {
                    assert(self.red[x].contains(y));
                }
            }
        }
        assert(symmetric_adjacency(g.black)) by {
            assert forall|x: u32, y: u32|
                g.black.contains_key(x) && #[trigger] g.black[x].contains(y) implies g.black.contains_key(
                y,
            ) && g.black[y].contains(x) by {
                if x != u && y != u {
                    assert(self.black[x].contains(y));
                }
            }
        }
        assert(g.color_exclusive()) by {
            assert forall|x: u32, y: u32|
                !(g.has_vertex(x) && g.red[x].contains(y) && g.black[x].contains(y)) by {
                if g.has_vertex(x) && g.red[x].contains(y) && g.black[x].contains(y) {
                    if x != u && y != u {
                        assert(self.red[x].contains(y));
                        assert(self.black[x].contains(y));
                    }
                }
            }
        }
        assert(g.red_irreflexive()) by {
            assert forall|x: u32| g.red.contains_key(x) implies !(#[trigger] g.red[x].contains(
                x,
            )) by {
                if x != u {
                    assert(!self.red[x].contains(x));
                }
            }
        }
    }
}

} // verus!
