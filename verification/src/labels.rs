//! Lists of vertex labels in ascending order.

use vstd::prelude::*;

verus! {

/// Each label is smaller than every label after it.
pub open spec fn ascending(list: Seq<u32>) -> bool {
    forall|i: int, j: int| 0 <= i < j < list.len() ==> list[i] < list[j]
}

/// An ascending list holds no label twice, so it is as long as its set of
/// labels is large.
pub proof fn lemma_ascending_len(list: Seq<u32>)
    requires
        ascending(list),
    ensures
        list.no_duplicates(),
        list.to_set().finite(),
        list.to_set().len() == list.len(),
{
    assert(list.no_duplicates());
    list.unique_seq_to_set();
    vstd::seq_lib::seq_to_set_is_finite(list);
}

/// Puts `x` into the ascending `list` at its place, unless it is there.
pub fn insert_label(list: &mut Vec<u32>, x: u32)
    requires
        ascending(old(list)@),
    ensures
        ascending(final(list)@),
        final(list)@.to_set() == old(list)@.to_set().insert(x),
{
    let mut at: usize = 0;
    while at < list.len() && list[at] < x
        invariant
            at <= list.len(),
            list@ == old(list)@,
            forall|i: int| 0 <= i < at ==> list@[i] < x,
        decreases list.len() - at,
    {
        at = at + 1;
    }
    if at < list.len() && list[at] == x {
        assert(list@.to_set() =~= list@.to_set().insert(x)) by {
            assert(list@.to_set().contains(list@[at as int]));
        }
    } else {
        let ghost before = list@;
        list.insert(at, x);
        assert forall|y: u32| list@.to_set().contains(y) <==> before.to_set().insert(x).contains(
            y,
        ) by {
            if list@.to_set().contains(y) {
                let k = choose|k: int| 0 <= k < list@.len() && list@[k] == y;
                if k < at {
                    assert(before[k] == y);
                } else if k > at {
                    assert(before[k - 1] == y);
                }
            }
            if before.to_set().contains(y) {
                let k = choose|k: int| 0 <= k < before.len() && before[k] == y;
                if k < at {
                    assert(list@[k] == y);
                } else {
                    assert(list@[k + 1] == y);
                }
            }
            if y == x {
                assert(list@[at as int] == y);
            }
        }
        assert(list@.to_set() =~= before.to_set().insert(x));
    }
}

/// Takes `x` out of the ascending `list`, if it is there.
pub fn remove_label(list: &mut Vec<u32>, x: u32)
    requires
        ascending(old(list)@),
    ensures
        ascending(final(list)@),
        final(list)@.to_set() == old(list)@.to_set().remove(x),
{
    let mut at: usize = 0;
    while at < list.len() && list[at] < x
        invariant
            at <= list.len(),
            list@ == old(list)@,
            forall|i: int| 0 <= i < at ==> list@[i] < x,
        decreases list.len() - at,
    {
        at = at + 1;
    }
    let ghost before = list@;
    if at < list.len() && list[at] == x {
        list.remove(at);
        assert forall|y: u32| list@.to_set().contains(y) <==> before.to_set().remove(x).contains(
            y,
        ) by {
            if list@.to_set().contains(y) {
                let k = choose|k: int| 0 <= k < list@.len() && list@[k] == y;
                if k < at {
                    assert(before[k] == y);
                } else {
                    assert(before[k + 1] == y);
                }
            }
            if before.to_set().contains(y) && y != x {
                let k = choose|k: int| 0 <= k < before.len() && before[k] == y;
                if k < at {
                    assert(list@[k] == y);
                } else {
                    assert(list@[k - 1] == y);
                }
            }
        }
        assert(list@.to_set() =~= before.to_set().remove(x));
    } else {
        assert(!before.to_set().contains(x)) by {
            if before.to_set().contains(x) {
                let k = choose|k: int| 0 <= k < before.len() && before[k] == x;
                if k < at {
                } else if k > at {
                    assert(before[at as int] < before[k]);
                }
            }
        }
        assert(list@.to_set() =~= before.to_set().remove(x));
    }
}

} // verus!
