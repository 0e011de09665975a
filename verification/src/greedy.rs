//! The greedy search for a contraction sequence.
//!
//! While more than one vertex is left, every pair of vertices is probed, the
//! pair whose merge gives the smallest red degree is merged, and the largest
//! red degree that a merge gave is kept as the width. Pairs are tried with
//! the smaller label first, in ascending order of that label and then of the
//! other, and a later pair replaces an earlier one only if it is strictly
//! cheaper.

use crate::graph::Graph;
use crate::labels::{ascending, lemma_ascending_len, remove_label};
use crate::model::GraphView;
use vstd::prelude::*;

verus! {

/// A contraction sequence: the merges in the order in which they were made,
/// each with the surviving vertex first, and the largest red degree that any
/// of them gave.
#[derive(Debug)]
pub struct Sequence {
    pub contractions: Vec<(u32, u32)>,
    pub width: u32,
}

/// The pair `(a, b)` is tried before the pair `(u, v)`.
pub open spec fn tried_before(a: u32, b: u32, u: u32, v: u32) -> bool {
    a < u || (a == u && b < v)
}

impl GraphView {
    /// `(u, v)` is a pair that the search probes: two present vertices, the
    /// smaller label first.
    pub open spec fn candidate(self, u: u32, v: u32) -> bool {
        self.has_vertex(u) && self.has_vertex(v) && u < v
    }

    /// `(u, v)` is the pair that the search picks: no candidate is cheaper,
    /// and no candidate of the same cost is tried before it.
    pub open spec fn picks(self, u: u32, v: u32) -> bool {
        &&& self.candidate(u, v)
        &&& forall|a: u32, b: u32| #[trigger]
            self.candidate(a, b) ==> self.merge_cost(u, v) <= self.merge_cost(a, b) && !(
            self.merge_cost(a, b) == self.merge_cost(u, v) && tried_before(a, b, u, v))
    }

    /// The graph after the merges of `steps`, in order.
    pub open spec fn replay(self, steps: Seq<(u32, u32)>) -> GraphView
        decreases steps.len(),
    {
        if steps.len() == 0 {
            self
        } else {
            self.replay(steps.drop_last()).merge(steps.last().0, steps.last().1)
        }
    }

    /// Each merge of `steps` is the one that the search picks in the graph
    /// that the merges before it gave.
    pub open spec fn greedy_steps(self, steps: Seq<(u32, u32)>) -> bool
        decreases steps.len(),
    {
        steps.len() == 0 || (self.greedy_steps(steps.drop_last()) && self.replay(
            steps.drop_last(),
        ).picks(steps.last().0, steps.last().1))
    }

    /// The largest red degree that a merge of `steps` gives to its surviving
    /// vertex; 0 without a merge.
    pub open spec fn width(self, steps: Seq<(u32, u32)>) -> nat
        decreases steps.len(),
    {
        if steps.len() == 0 {
            0
        } else {
            let before = self.width(steps.drop_last());
            let cost = self.replay(steps.drop_last()).merge_cost(steps.last().0, steps.last().1);
            if cost > before {
                cost
            } else {
                before
            }
        }
    }

    /// `steps` is what the greedy search makes of this graph: every merge is
    /// the one picked, and at most one vertex is left.
    pub open spec fn greedy_run(self, steps: Seq<(u32, u32)>) -> bool {
        self.greedy_steps(steps) && self.replay(steps).vertices().len() <= 1
    }

    /// At most one pair is picked.
    pub proof fn lemma_pick_unique(self, u: u32, v: u32, a: u32, b: u32)
        requires
            self.picks(u, v),
            self.picks(a, b),
        ensures
            u == a,
            v == b,
    {
        assert(self.candidate(u, v));
        assert(self.candidate(a, b));
    }

    /// Greedy steps of one length are the same steps: what the search makes of
    /// a graph is decided by the graph.
    pub proof fn lemma_steps_unique(self, a: Seq<(u32, u32)>, b: Seq<(u32, u32)>)
        requires
            self.greedy_steps(a),
            self.greedy_steps(b),
            a.len() == b.len(),
        ensures
            a == b,
        decreases a.len(),
    {
        if a.len() > 0 {
            self.lemma_steps_unique(a.drop_last(), b.drop_last());
            self.replay(a.drop_last()).lemma_pick_unique(
                a.last().0,
                a.last().1,
                b.last().0,
                b.last().1,
            );
            assert(a =~= a.drop_last().push(a.last()));
            assert(b =~= b.drop_last().push(b.last()));
        } else {
            assert(a =~= b);
        }
    }

    /// Two greedy runs over one graph are the same run, with the same width.
    pub proof fn lemma_run_unique(self, a: Seq<(u32, u32)>, b: Seq<(u32, u32)>)
        requires
            self.wf(),
            self.greedy_run(a),
            self.greedy_run(b),
        ensures
            a == b,
            self.width(a) == self.width(b),
    {
        self.lemma_run_covers(a);
        self.lemma_run_covers(b);
        self.lemma_steps_unique(a, b);
    }

    /// A greedy run over a graph with `n` vertices has `n - 1` merges (none
    /// for the empty graph), leaves a graph that meets the invariant, and
    /// with two vertices or more each vertex is named in some merge.
    pub proof fn lemma_run_covers(self, steps: Seq<(u32, u32)>)
        requires
            self.wf(),
            self.greedy_run(steps),
        ensures
            self.replay(steps).wf(),
            steps.len() == if self.vertices().len() == 0 {
                0
            } else {
                self.vertices().len() - 1
            },
            self.vertices().len() >= 2 ==> forall|x: u32|
                self.has_vertex(x) ==> exists|i: int|
                    0 <= i < steps.len() && ((#[trigger] steps[i]).0 == x || steps[i].1 == x),
    {
        self.lemma_steps(steps);
        if self.vertices().len() >= 2 {
            assert(steps.len() > 0);
            assert forall|x: u32| self.has_vertex(x) implies exists|i: int|
                0 <= i < steps.len() && ((#[trigger] steps[i]).0 == x || steps[i].1 == x) by {
                if !self.replay(steps).has_vertex(x) {
                } else {
                    let last = steps.len() - 1;
                    let left = self.replay(steps).vertices();
                    assert(left.contains(x) && left.contains(steps[last].0));
                    if x != steps[last].0 {
                        assert(left.remove(x).contains(steps[last].0));
                        assert(left.remove(x).len() >= 1);
                    }
                }
            }
        }
    }

    /// What the merges of greedy steps do to the vertex set.
    pub proof fn lemma_steps(self, steps: Seq<(u32, u32)>)
        requires
            self.wf(),
            self.greedy_steps(steps),
        ensures
            self.replay(steps).wf(),
            self.replay(steps).vertices().len() == self.vertices().len() - steps.len(),
            forall|x: u32| self.replay(steps).has_vertex(x) ==> self.has_vertex(x),
            forall|x: u32|
                self.has_vertex(x) && !self.replay(steps).has_vertex(x) ==> exists|i: int|
                    0 <= i < steps.len() && (#[trigger] steps[i]).1 == x,
            steps.len() > 0 ==> self.replay(steps).has_vertex(steps.last().0),
        decreases steps.len(),
    {
        if steps.len() > 0 {
            let head = steps.drop_last();
            let (u, v) = steps.last();
            self.lemma_steps(head);
            let g = self.replay(head);
            g.lemma_merge_wf(u, v);
            assert forall|x: u32|
                self.has_vertex(x) && !self.replay(steps).has_vertex(x) implies exists|i: int|
                0 <= i < steps.len() && (#[trigger] steps[i]).1 == x by {
                if g.has_vertex(x) {
                    assert(x == v);
                    assert(steps[steps.len() - 1].1 == x);
                } else {
                    let i = choose|i: int| 0 <= i < head.len() && (#[trigger] head[i]).1 == x;
                    assert(steps[i].1 == x);
                }
            }
        }
    }
}

/// The pair at `(p, q)` of a list comes up before the pair at `(i, j)` when
/// the pairs are tried row by row.
pub open spec fn visited(p: int, q: int, i: int, j: int) -> bool {
    p < q && (p < i || (p == i && q < j))
}

/// The pair `(u, v)`, at `(bi, bj)` of `list`, is the one picked among the
/// pairs of `list` that come up before `(i, j)`.
pub open spec fn picked_so_far(
    g: GraphView,
    list: Seq<u32>,
    i: int,
    j: int,
    bi: int,
    bj: int,
    cost: u32,
) -> bool {
    &&& 0 <= bi < bj < list.len()
    &&& visited(bi, bj, i, j)
    &&& cost == g.merge_cost(list[bi], list[bj])
    &&& forall|p: int, q: int|
        0 <= p < q < list.len() && #[trigger] visited(p, q, i, j) ==> cost <= g.merge_cost(
            list[p],
            list[q],
        ) && !(g.merge_cost(list[p], list[q]) == cost && visited(p, q, bi, bj))
}

/// When a row of pairs begins, no pair of it has come up.
proof fn lemma_pick_next_row(g: GraphView, list: Seq<u32>, i: int, bi: int, bj: int, cost: u32)
    requires
        picked_so_far(g, list, i, 0, bi, bj, cost),
    ensures
        picked_so_far(g, list, i, i + 1, bi, bj, cost),
{
    assert forall|p: int, q: int|
        0 <= p < q < list.len() && #[trigger] visited(p, q, i, i + 1) implies cost
        <= g.merge_cost(list[p], list[q]) && !(g.merge_cost(list[p], list[q]) == cost && visited(
        p,
        q,
        bi,
        bj,
    )) by {
        assert(visited(p, q, i, 0));
    }
}

/// When a row of pairs ends, the next row begins.
proof fn lemma_pick_row_done(g: GraphView, list: Seq<u32>, i: int, bi: int, bj: int, cost: u32)
    requires
        picked_so_far(g, list, i, list.len() as int, bi, bj, cost),
    ensures
        picked_so_far(g, list, i + 1, 0, bi, bj, cost),
{
    assert forall|p: int, q: int|
        0 <= p < q < list.len() && #[trigger] visited(p, q, i + 1, 0) implies cost <= g.merge_cost(
        list[p],
        list[q],
    ) && !(g.merge_cost(list[p], list[q]) == cost && visited(p, q, bi, bj)) by {
        assert(visited(p, q, i, list.len() as int));
    }
}

/// Probing the pair at `(i, j)`: it replaces the pair held so far exactly if
/// it is strictly cheaper, or if none is held.
proof fn lemma_pick_step(
    g: GraphView,
    list: Seq<u32>,
    i: int,
    j: int,
    bi: int,
    bj: int,
    held: Option<u32>,
    value: u32,
)
    requires
        0 <= i < j < list.len(),
        value == g.merge_cost(list[i], list[j]),
        held is None ==> i == 0 && j == 1,
        held matches Some(cost) ==> picked_so_far(g, list, i, j, bi, bj, cost),
    ensures
        held is None || value < held.unwrap() ==> picked_so_far(g, list, i, j + 1, i, j, value),
        held is Some && value >= held.unwrap() ==> picked_so_far(
            g,
            list,
            i,
            j + 1,
            bi,
            bj,
            held.unwrap(),
        ),
{
    if held is None || value < held.unwrap() {
        assert forall|p: int, q: int|
            0 <= p < q < list.len() && #[trigger] visited(p, q, i, j + 1) implies value
            <= g.merge_cost(list[p], list[q]) && !(g.merge_cost(list[p], list[q]) == value
            && visited(p, q, i, j)) by {
            if p == i && q == j {
            } else {
                assert(visited(p, q, i, j));
            }
        }
    } else {
        let cost = held.unwrap();
        assert forall|p: int, q: int|
            0 <= p < q < list.len() && #[trigger] visited(p, q, i, j + 1) implies cost
            <= g.merge_cost(list[p], list[q]) && !(g.merge_cost(list[p], list[q]) == cost
            && visited(p, q, bi, bj)) by {
            if p == i && q == j {
            } else {
                assert(visited(p, q, i, j));
            }
        }
    }
}

impl Graph {
    /// Probes every pair of `available` and returns the pair that the search
    /// picks, with the red degree that its merge gives.
    fn cheapest_pair(&self, available: &Vec<u32>) -> (best: (u32, u32, u32))
        requires
            self@.wf(),
            ascending(available@),
            available@.to_set() == self@.vertices(),
            available.len() >= 2,
        ensures
            self@.picks(best.0, best.1),
            best.2 == self@.merge_cost(best.0, best.1),
    {
        let n = available.len();
        let mut best: Option<(u32, u32)> = None;
        let mut best_value: Option<u32> = None;
        let ghost mut bi: int = 0;
        let ghost mut bj: int = 0;
        assert forall|k: int| 0 <= k < n implies self@.has_vertex(#[trigger] available@[k]) by {
            assert(available@.to_set().contains(available@[k]));
        }
        for i in 0..n
            invariant
                n == available.len(),
                n >= 2,
                self@.wf(),
                ascending(available@),
                forall|k: int| 0 <= k < n ==> self@.has_vertex(#[trigger] available@[k]),
                best is Some <==> best_value is Some,
                best is None <==> i == 0,
                best matches Some(pair) ==> picked_so_far(
                    self@,
                    available@,
                    i as int,
                    0,
                    bi,
                    bj,
                    best_value.unwrap(),
                ) && pair == (available@[bi], available@[bj]),
        {
            proof {
                if best is Some {
                    lemma_pick_next_row(self@, available@, i as int, bi, bj, best_value.unwrap());
                }
            }
            for j in (i + 1)..n
                invariant
                    n == available.len(),
                    i < n,
                    self@.wf(),
                    ascending(available@),
                    forall|k: int| 0 <= k < n ==> self@.has_vertex(#[trigger] available@[k]),
                    best is Some <==> best_value is Some,
                    best is None <==> i == 0 && j == 1,
                    best matches Some(pair) ==> picked_so_far(
                        self@,
                        available@,
                        i as int,
                        j as int,
                        bi,
                        bj,
                        best_value.unwrap(),
                    ) && pair == (available@[bi], available@[bj]),
            {
                let u = available[i];
                let v = available[j];
                let (_, value) = self.count_merge(u, v);
                let ghost held = best_value;
                let ghost (hi, hj) = (bi, bj);
                if best_value.is_none() || value < best_value.unwrap() {
                    best = Some((u, v));
                    best_value = Some(value);
                    proof {
                        bi = i as int;
                        bj = j as int;
                    }
                }
                proof {
                    lemma_pick_step(self@, available@, i as int, j as int, hi, hj, held, value);
                }
            }
            proof {
                lemma_pick_row_done(self@, available@, i as int, bi, bj, best_value.unwrap());
            }
        }
        let (u, v) = best.unwrap();
        let value = best_value.unwrap();
        proof {
            assert forall|a: u32, b: u32| #[trigger] self@.candidate(a, b) implies self@.merge_cost(
                u,
                v,
            ) <= self@.merge_cost(a, b) && !(self@.merge_cost(a, b) == self@.merge_cost(u, v)
                && tried_before(a, b, u, v)) by {
                assert(available@.to_set().contains(a));
                assert(available@.to_set().contains(b));
                let p = choose|p: int| 0 <= p < n && available@[p] == a;
                let q = choose|q: int| 0 <= q < n && available@[q] == b;
                if p >= q {
                    if p > q {
                        assert(available@[q] < available@[p]);
                    }
                }
                assert(visited(p, q, n as int, 0));
                if visited(p, q, bi, bj) {
                } else {
                    if bi < p {
                        assert(available@[bi] < available@[p]);
                    } else if bj < q {
                        assert(available@[bj] < available@[q]);
                    }
                }
                if tried_before(a, b, u, v) {
                    if p < bi {
                    } else if p == bi {
                        if q >= bj {
                            if q > bj {
                                assert(available@[bj] < available@[q]);
                            }
                        }
                    } else {
                        assert(available@[bi] < available@[p]);
                    }
                }
            }
        }
        (u, v, value)
    }

    /// Merges pairs of vertices until at most one vertex is left, each time the
    /// pair whose merge gives the smallest red degree, and returns the merges
    /// with the largest red degree among them.
    pub fn greedy(self) -> (sequence: Sequence)
        requires
            self@.wf(),
        ensures
            self@.greedy_run(sequence.contractions@),
            sequence.width == self@.width(sequence.contractions@),
            sequence.contractions@.len() == if self@.vertices().len() == 0 {
                0
            } else {
                self@.vertices().len() - 1
            },
            self@.vertices().len() >= 2 ==> forall|x: u32|
                self@.has_vertex(x) ==> exists|i: int|
                    0 <= i < sequence.contractions@.len() && ((
                    #[trigger] sequence.contractions@[i]).0 == x || sequence.contractions@[i].1
                        == x),
    {
        let mut graph = self;
        let mut width: u32 = 0;
        let mut contractions: Vec<(u32, u32)> = Vec::new();
        let mut available = graph.vertices();
        while available.len() > 1
            invariant
                self@.wf(),
                graph@.wf(),
                graph@ == self@.replay(contractions@),
                self@.greedy_steps(contractions@),
                width == self@.width(contractions@),
                ascending(available@),
                available@.to_set() == graph@.vertices(),
            decreases available.len(),
        {
            let (u, v, value) = graph.cheapest_pair(&available);
            let ghost steps = contractions@;
            graph.merge(u, v);
            contractions.push((u, v));
            if value > width {
                width = value;
            }
            proof {
                assert(contractions@.drop_last() =~= steps);
                assert(contractions@.last() == (u, v));
                lemma_ascending_len(available@);
            }
            remove_label(&mut available, v);
            proof {
                lemma_ascending_len(available@);
                self@.replay(steps).lemma_merge_wf(u, v);
            }
        }
        proof {
            lemma_ascending_len(available@);
            self@.lemma_run_covers(contractions@);
        }
        Sequence { contractions, width }
    }
}

} // verus!
