//! The executable red-black graph.

use crate::labels::ascending;
use crate::model::{
    attached, lemma_label_set_bound, neighbors, symmetric_adjacency, without_vertex, GraphView,
};
use crate::walk::{
    add_difference, ascending_keys, ascending_labels, common_except, lemma_set_walk,
    lemma_walked_step, walked, walks,
};
use std::collections::hash_map::Entry;
use std::collections::HashMap;
use std::collections::HashSet;
use vstd::prelude::*;

verus! {

/// What a hash map from labels to label sets stands for.
pub open spec fn adjacency_view(m: HashMap<u32, HashSet<u32>>) -> Map<u32, Set<u32>> {
    Map::new(|x: u32| m@.contains_key(x), |x: u32| m@[x]@)
}

/// A graph with red and black edges over vertices labelled by integers.
#[derive(Debug)]
pub struct Graph {
    red: HashMap<u32, HashSet<u32>>,
    black: HashMap<u32, HashSet<u32>>,
}

impl View for Graph {
    type V = GraphView;

    closed spec fn view(&self) -> GraphView {
        GraphView { red: adjacency_view(self.red), black: adjacency_view(self.black) }
    }
}

/// Removes the entry of `u`, and `u` from the set of each of its neighbours.
fn detach(adj: &mut HashMap<u32, HashSet<u32>>, u: u32)
    requires
        symmetric_adjacency(adjacency_view(*old(adj))),
    ensures
        adjacency_view(*final(adj)) == without_vertex(adjacency_view(*old(adj)), u),
{
    let ghost before = adjacency_view(*adj);
    if let Some(neighbors) = adj.remove(&u) {
        let ghost mut seen = Set::<u32>::empty();
        proof {
            lemma_set_walk(&neighbors);
        }
        for w in it: neighbors.iter()
            invariant
                walks(it.seq(), neighbors@),
                seen == walked(it.seq(), it.index()),
                symmetric_adjacency(before),
                before.contains_key(u),
                before[u] == neighbors@,
                forall|x: u32| adj@.contains_key(x) <==> before.contains_key(x) && x != u,
                forall|x: u32|
                    adj@.contains_key(x) ==> (#[trigger] adj@[x])@ == if seen.contains(x) {
                        before[x].remove(u)
                    } else {
                        before[x]
                    },
        {
            proof {
                lemma_walked_step(it.seq(), it.index());
                seen = seen.insert(*w);
            }
            if *w != u {
                match adj.entry(*w) {
                    Entry::Occupied(mut slot) => {
                        slot.get_mut().remove(&u);
                    },
                    Entry::Vacant(_) => {},
                }
            }
        }
        assert(seen =~= neighbors@);
        assert forall|x: u32| adj@.contains_key(x) implies (#[trigger] adj@[x])@ =~= before[x].remove(
            u,
        ) by {
            if !seen.contains(x) {
                assert(!before[x].contains(u));
            }
        }
    }
    assert(adjacency_view(*adj) =~~= without_vertex(before, u));
}

impl Default for Graph {
    fn default() -> (g: Graph)
        ensures
            g@ == GraphView::empty(),
            g@.wf(),
    {
        Graph::new()
    }
}

impl Graph {
    /// The graph without vertices.
    pub fn new() -> (g: Graph)
        ensures
            g@ == GraphView::empty(),
            g@.wf(),
    {
        let g = Graph { red: HashMap::new(), black: HashMap::new() };
        assert(g@.red =~= Map::empty());
        assert(g@.black =~= Map::empty());
        g
    }

    /// Inserts a red edge between `u` and `v`, creating either vertex if it
    /// is absent. Nothing changes if the edge is there. A red edge joins two
    /// distinct vertices that no black edge joins.
    pub fn add_red_edge(&mut self, u: u32, v: u32)
        requires
            old(self)@.wf(),
            u != v,
            !old(self)@.black_adjacent(u, v),
        ensures
            final(self)@ == old(self)@.add_red_edge(u, v),
            final(self)@.wf(),
    {
        self.red.entry(u).or_insert(HashSet::new()).insert(v);
        self.red.entry(v).or_insert(HashSet::new()).insert(u);
        self.black.entry(u).or_insert(HashSet::new());
        self.black.entry(v).or_insert(HashSet::new());
        assert(self@.red =~~= old(self)@.add_red_edge(u, v).red);
        assert(self@.black =~~= old(self)@.add_red_edge(u, v).black);
        proof {
            old(self)@.lemma_add_red_edge_wf(u, v);
        }
    }

    /// Inserts a black edge between `u` and `v`, creating either vertex if it
    /// is absent. Nothing changes if the edge is there. No red edge may join
    /// the two.
    pub fn add_black_edge(&mut self, u: u32, v: u32)
        requires
            old(self)@.wf(),
            !old(self)@.red_adjacent(u, v),
        ensures
            final(self)@ == old(self)@.add_black_edge(u, v),
            final(self)@.wf(),
    {
        self.black.entry(u).or_insert(HashSet::new()).insert(v);
        self.black.entry(v).or_insert(HashSet::new()).insert(u);
        self.red.entry(u).or_insert(HashSet::new());
        self.red.entry(v).or_insert(HashSet::new());
        assert(self@.red =~~= old(self)@.add_black_edge(u, v).red);
        assert(self@.black =~~= old(self)@.add_black_edge(u, v).black);
        proof {
            old(self)@.lemma_add_black_edge_wf(u, v);
        }
    }

    /// Removes `u` and every edge at `u`. Nothing changes when `u` is absent.
    pub fn delete_vertex(&mut self, u: u32)
        requires
            old(self)@.wf(),
        ensures
            final(self)@ == old(self)@.delete_vertex(u),
            final(self)@.wf(),
            !old(self)@.has_vertex(u) ==> final(self)@ == old(self)@,
    {
        detach(&mut self.black, u);
        detach(&mut self.red, u);
        proof {
            old(self)@.lemma_delete_vertex_wf(u);
        }
    }

    /// The red neighbours that `u` would have once `v` were merged into it.
    fn merged_red_set(&self, u: u32, v: u32) -> (out: HashSet<u32>)
        requires
            self@.wf(),
            self@.has_vertex(u),
            self@.has_vertex(v),
        ensures
            out@ == self@.merged_red(u, v),
            out@.finite(),
    {
        let u_red = self.red.get(&u).unwrap();
        let u_black = self.black.get(&u).unwrap();
        let v_red = self.red.get(&v).unwrap();
        let v_black = self.black.get(&v).unwrap();
        let none: HashSet<u32> = HashSet::new();
        let mut out: HashSet<u32> = HashSet::new();
        add_difference(&mut out, u_black, v_black, u, v);
        add_difference(&mut out, v_black, u_black, u, v);
        add_difference(&mut out, u_red, &none, u, v);
        add_difference(&mut out, v_red, &none, u, v);
        assert(out@ =~= self@.merged_red(u, v));
        out
    }

    /// The black neighbours that `u` would have once `v` were merged into it.
    fn merged_black_set(&self, u: u32, v: u32) -> (out: HashSet<u32>)
        requires
            self@.wf(),
            self@.has_vertex(u),
            self@.has_vertex(v),
        ensures
            out@ == self@.merged_black(u, v),
            out@.finite(),
    {
        let u_black = self.black.get(&u).unwrap();
        let v_black = self.black.get(&v).unwrap();
        common_except(u_black, v_black, v)
    }

    /// Probes the merge of `v` into `u` without changing the graph: the red
    /// degree that `u` has now, and the red degree that `u` would have after
    /// the merge. Both vertices must be present.
    pub fn count_merge(&self, u: u32, v: u32) -> (degrees: (u32, u32))
        requires
            self@.wf(),
            self@.has_vertex(u),
            self@.has_vertex(v),
        ensures
            degrees.0 == self@.red_degree(u),
            degrees.1 == self@.merge_cost(u, v),
    {
        let old_red_degree = self.red.get(&u).unwrap().len();
        let merged = self.merged_red_set(u, v);
        proof {
            lemma_label_set_bound(self@.red[u], u);
            lemma_label_set_bound(merged@, u);
        }
        (old_red_degree as u32, merged.len() as u32)
    }

    /// Merges `v` into `u`: `v` leaves the graph and `u` stays, joined in
    /// black to the remaining vertices that were black neighbours of both, and
    /// in red to those on which the two disagreed or that were a red neighbour
    /// of either. Both vertices must be present, and they must be two.
    pub fn merge(&mut self, u: u32, v: u32)
        requires
            old(self)@.wf(),
            old(self)@.has_vertex(u),
            old(self)@.has_vertex(v),
            u != v,
        ensures
            final(self)@ == old(self)@.merge(u, v),
            final(self)@.wf(),
    {
        let new_red = self.merged_red_set(u, v);
        let new_black = self.merged_black_set(u, v);
        self.delete_vertex(u);
        self.delete_vertex(v);
        let ghost base = self@;
        self.red.entry(u).or_insert(HashSet::new());
        self.black.entry(u).or_insert(HashSet::new());
        proof {
            assert(!base.has_vertex(u));
            assert(self@.red[u] =~= Set::empty());
            assert(self@.black[u] =~= Set::empty());
            assert(self@.red =~~= attached(base.red, u, Set::empty()));
            assert(self@.black =~~= attached(base.black, u, Set::empty()));
            old(self)@.lemma_merged_neighbors(u, v);
            base.lemma_attach_isolated_wf(u);
            lemma_set_walk(&new_red);
            lemma_set_walk(&new_black);
        }
        let ghost mut seen = Set::<u32>::empty();
        for w in it: new_red.iter()
            invariant
                walks(it.seq(), new_red@),
                seen == walked(it.seq(), it.index()),
                self@.wf(),
                base.wf(),
                !base.has_vertex(u),
                forall|x: u32| #[trigger] new_red@.contains(x) ==> x != u && base.has_vertex(x),
                self@.red == attached(base.red, u, seen),
                self@.black == attached(base.black, u, Set::empty()),
        {
            proof {
                lemma_walked_step(it.seq(), it.index());
                seen = seen.insert(*w);
            }
            assert(new_red@.contains(*w));
            self.add_red_edge(u, *w);
            assert(self@.red =~~= attached(base.red, u, seen));
            assert(self@.black =~~= attached(base.black, u, Set::empty()));
        }
        assert(seen =~= new_red@);
        proof {
            seen = Set::empty();
        }
        for w in it: new_black.iter()
            invariant
                walks(it.seq(), new_black@),
                seen == walked(it.seq(), it.index()),
                self@.wf(),
                base.wf(),
                !base.has_vertex(u),
                forall|x: u32| #[trigger] new_black@.contains(x) ==> !new_red@.contains(x),
                forall|x: u32| #[trigger] new_black@.contains(x) ==> x == u || base.has_vertex(x),
                self@.red == attached(base.red, u, new_red@),
                self@.black == attached(base.black, u, seen),
        {
            proof {
                lemma_walked_step(it.seq(), it.index());
                seen = seen.insert(*w);
            }
            assert(new_black@.contains(*w));
            self.add_black_edge(u, *w);
            assert(self@.red =~~= attached(base.red, u, new_red@));
            assert(self@.black =~~= attached(base.black, u, seen));
        }
        assert(seen =~= new_black@);
        assert(self@.red =~~= old(self)@.merge(u, v).red);
        assert(self@.black =~~= old(self)@.merge(u, v).black);
    }

    /// The labels of the present vertices, in ascending order.
    pub fn vertices(&self) -> (labels: Vec<u32>)
        ensures
            ascending(labels@),
            labels@.to_set() == self@.vertices(),
    {
        let labels = ascending_keys(&self.black);
        assert(self.black@.dom() =~= self@.vertices());
        labels
    }

    /// Whether `u` is a vertex of the graph.
    pub fn has_vertex(&self, u: u32) -> (present: bool)
        ensures
            present == self@.has_vertex(u),
    {
        self.red.contains_key(&u) && self.black.contains_key(&u)
    }

    /// The red neighbours of `u`, in ascending order; none if `u` is absent.
    pub fn red_neighbors(&self, u: u32) -> (labels: Vec<u32>)
        ensures
            ascending(labels@),
            labels@.to_set() == neighbors(self@.red, u),
    {
        match self.red.get(&u) {
            Some(set) => ascending_labels(set),
            None => {
                let labels: Vec<u32> = Vec::new();
                assert(labels@.to_set() =~= Set::empty());
                labels
            },
        }
    }

    /// The black neighbours of `u`, in ascending order; none if `u` is absent.
    pub fn black_neighbors(&self, u: u32) -> (labels: Vec<u32>)
        ensures
            ascending(labels@),
            labels@.to_set() == neighbors(self@.black, u),
    {
        match self.black.get(&u) {
            Some(set) => ascending_labels(set),
            None => {
                let labels: Vec<u32> = Vec::new();
                assert(labels@.to_set() =~= Set::empty());
                labels
            },
        }
    }
}

} // verus!
