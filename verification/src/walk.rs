//! Walks over hash sets and over the keys of hash maps.
//!
//! A hash set hands out its elements in an order of its own. What a loop over
//! it may rely on is that each element comes up, and nothing else.

use crate::labels::{ascending, insert_label};
use std::collections::HashMap;
use std::collections::HashSet;
use vstd::prelude::*;
use vstd::std_specs::iter::IteratorSpec;

verus! {

/// `walk` yields the elements of `set` and nothing else.
pub open spec fn walks(walk: Seq<&u32>, set: Set<u32>) -> bool {
    &&& forall|j: int| 0 <= j < walk.len() ==> set.contains(*#[trigger] walk[j])
    &&& forall|x: u32| #[trigger]
        set.contains(x) ==> exists|j: int| 0 <= j < walk.len() && *#[trigger] walk[j] == x
}

/// The labels among the first `n` of `walk`.
pub open spec fn walked(walk: Seq<&u32>, n: int) -> Set<u32> {
    Set::new(|x: u32| exists|j: int| 0 <= j < n && *#[trigger] walk[j] == x)
}

/// A walk over a hash set yields its elements.
pub proof fn lemma_set_walk(s: &HashSet<u32>)
    ensures
        walks(s.iter().remaining(), s@),
{
    let walk = s.iter().remaining();
    assert(walk.unref().to_set() == s@);
    assert forall|j: int| 0 <= j < walk.len() implies s@.contains(*#[trigger] walk[j]) by {
        assert(walk.unref()[j] == *walk[j]);
        assert(walk.unref().to_set().contains(walk.unref()[j]));
    }
    assert forall|x: u32| #[trigger] s@.contains(x) implies exists|j: int|
        0 <= j < walk.len() && *#[trigger] walk[j] == x by {
        assert(walk.unref().to_set().contains(x));
        let j = choose|j: int| 0 <= j < walk.unref().len() && walk.unref()[j] == x;
        assert(*walk[j] == x);
    }
}

/// A walk over the keys of a hash map yields its keys.
pub proof fn lemma_key_walk(m: &HashMap<u32, HashSet<u32>>)
    ensures
        walks(m.keys().remaining(), m@.dom()),
{
    let walk = m.keys().remaining();
    assert(walk.unref().to_set() == m@.dom());
    assert forall|j: int| 0 <= j < walk.len() implies m@.dom().contains(*#[trigger] walk[j]) by {
        assert(walk.unref()[j] == *walk[j]);
        assert(walk.unref().to_set().contains(walk.unref()[j]));
    }
    assert forall|x: u32| #[trigger] m@.dom().contains(x) implies exists|j: int|
        0 <= j < walk.len() && *#[trigger] walk[j] == x by {
        assert(walk.unref().to_set().contains(x));
        let j = choose|j: int| 0 <= j < walk.unref().len() && walk.unref()[j] == x;
        assert(*walk[j] == x);
    }
}

/// Before its first step a walk has yielded nothing, and each step adds the
/// label found there.
pub proof fn lemma_walked_step(walk: Seq<&u32>, n: int)
    requires
        0 <= n < walk.len(),
    ensures
        walked(walk, 0) == Set::<u32>::empty(),
        walked(walk, n + 1) == walked(walk, n).insert(*walk[n]),
{
    assert forall|x: u32| walked(walk, n + 1).contains(x) <==> walked(walk, n).insert(
        *walk[n],
    ).contains(x) by {
        if walked(walk, n + 1).contains(x) {
            let j = choose|j: int| 0 <= j < n + 1 && *#[trigger] walk[j] == x;
            if j < n {
                assert(walked(walk, n).contains(x));
            }
        }
        if walked(walk, n).contains(x) {
            let j = choose|j: int| 0 <= j < n && *#[trigger] walk[j] == x;
            assert(0 <= j < n + 1 && *walk[j] == x);
        }
        if x == *walk[n] {
            assert(0 <= n < n + 1 && *walk[n] == x);
        }
    }
    assert(walked(walk, n + 1) =~= walked(walk, n).insert(*walk[n]));
    assert(walked(walk, 0) =~= Set::<u32>::empty());
}

/// The elements of `set`, in ascending order.
pub fn ascending_labels(set: &HashSet<u32>) -> (labels: Vec<u32>)
    ensures
        ascending(labels@),
        labels@.to_set() == set@,
{
    let mut labels: Vec<u32> = Vec::new();
    let ghost mut seen = Set::<u32>::empty();
    assert(labels@.to_set() =~= seen);
    proof {
        lemma_set_walk(set);
    }
    for w in it: set.iter()
        invariant
            walks(it.seq(), set@),
            seen == walked(it.seq(), it.index()),
            ascending(labels@),
            labels@.to_set() == seen,
    {
        proof {
            lemma_walked_step(it.seq(), it.index());
            seen = seen.insert(*w);
        }
        insert_label(&mut labels, *w);
    }
    assert(seen =~= set@);
    labels
}

/// The keys of `map`, in ascending order.
pub fn ascending_keys(map: &HashMap<u32, HashSet<u32>>) -> (labels: Vec<u32>)
    ensures
        ascending(labels@),
        labels@.to_set() == map@.dom(),
{
    let mut labels: Vec<u32> = Vec::new();
    let ghost mut seen = Set::<u32>::empty();
    assert(labels@.to_set() =~= seen);
    proof {
        lemma_key_walk(map);
    }
    for w in it: map.keys()
        invariant
            walks(it.seq(), map@.dom()),
            seen == walked(it.seq(), it.index()),
            ascending(labels@),
            labels@.to_set() == seen,
    {
        proof {
            lemma_walked_step(it.seq(), it.index());
            seen = seen.insert(*w);
        }
        insert_label(&mut labels, *w);
    }
    assert(seen =~= map@.dom());
    labels
}

/// Adds to `out` each element of `from` that `unless` lacks, other than `u`
/// and `v`.
pub fn add_difference(
    out: &mut HashSet<u32>,
    from: &HashSet<u32>,
    unless: &HashSet<u32>,
    u: u32,
    v: u32,
)
    requires
        old(out)@.finite(),
    ensures
        final(out)@ == old(out)@.union(from@.difference(unless@).remove(u).remove(v)),
        final(out)@.finite(),
{
    let ghost before = out@;
    let ghost mut seen = Set::<u32>::empty();
    proof {
        lemma_set_walk(from);
    }
    for w in it: from.iter()
        invariant
            walks(it.seq(), from@),
            seen == walked(it.seq(), it.index()),
            out@.finite(),
            out@ == before.union(seen.difference(unless@).remove(u).remove(v)),
    {
        proof {
            lemma_walked_step(it.seq(), it.index());
            seen = seen.insert(*w);
        }
        if *w != u && *w != v && !unless.contains(w) {
            out.insert(*w);
        }
        assert(out@ =~= before.union(seen.difference(unless@).remove(u).remove(v)));
    }
    assert(seen =~= from@);
}

/// The elements that `a` and `b` share, other than `v`.
pub fn common_except(a: &HashSet<u32>, b: &HashSet<u32>, v: u32) -> (out: HashSet<u32>)
    ensures
        out@ == a@.intersect(b@).remove(v),
        out@.finite(),
{
    let mut out: HashSet<u32> = HashSet::new();
    let ghost mut seen = Set::<u32>::empty();
    proof {
        lemma_set_walk(a);
    }
    for w in it: a.iter()
        invariant
            walks(it.seq(), a@),
            seen == walked(it.seq(), it.index()),
            out@.finite(),
            out@ == seen.intersect(b@).remove(v),
    {
        proof {
            lemma_walked_step(it.seq(), it.index());
            seen = seen.insert(*w);
        }
        if *w != v && b.contains(w) {
            out.insert(*w);
        }
        assert(out@ =~= seen.intersect(b@).remove(v));
    }
    assert(seen =~= a@);
    out
}

} // verus!
