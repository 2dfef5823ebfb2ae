//! Mathematical model of a slot grid and of the outcome of an assignment run.
use vstd::prelude::*;
use vstd::multiset::Multiset;

verus! {

/// The names of a sequence with every repeat after its first occurrence
/// removed, first occurrences kept in order.
pub open spec fn distinct_in_order(names: Seq<Seq<char>>) -> Seq<Seq<char>>
    decreases names.len(),
{
    if names.len() == 0 {
        Seq::empty()
    } else {
        let kept = distinct_in_order(names.drop_last());
        if kept.contains(names.last()) {
            kept
        } else {
            kept.push(names.last())
        }
    }
}

/// Every slot is empty.
pub open spec fn all_empty(slots: Seq<Option<Seq<char>>>) -> bool {
    forall|p: int| 0 <= p < slots.len() ==> #[trigger] slots[p] is None
}

/// The individuals occupying the slots, each as often as it occurs.
pub open spec fn occupants(slots: Seq<Option<Seq<char>>>) -> Multiset<Seq<char>>
    decreases slots.len(),
{
    if slots.len() == 0 {
        Multiset::empty()
    } else {
        match slots.last() {
            Some(name) => occupants(slots.drop_last()).insert(name),
            None => occupants(slots.drop_last()),
        }
    }
}

/// Number of empty slots.
pub open spec fn empty_count(slots: Seq<Option<Seq<char>>>) -> nat
    decreases slots.len(),
{
    if slots.len() == 0 {
        0
    } else {
        empty_count(slots.drop_last()) + if slots.last() is None {
            1nat
        } else {
            0nat
        }
    }
}

/// The individuals whose fate is `None` (not placed), in processing order.
pub open spec fn left_over(inds: Seq<Seq<char>>, fate: Seq<Option<int>>) -> Seq<Seq<char>>
    decreases inds.len(),
{
    if inds.len() == 0 || fate.len() == 0 {
        Seq::empty()
    } else {
        let before = left_over(inds.drop_last(), fate.drop_last());
        if fate.last() is None {
            before.push(inds.last())
        } else {
            before
        }
    }
}

/// `fate[k]` is the slot that individual `k` came to occupy, or `None`.
/// Each placed individual took a slot that was empty, no two placed
/// individuals share a slot, and every other slot is as it was.
pub open spec fn placements_valid(
    old_slots: Seq<Option<Seq<char>>>,
    new_slots: Seq<Option<Seq<char>>>,
    inds: Seq<Seq<char>>,
    fate: Seq<Option<int>>,
) -> bool {
    &&& fate.len() == inds.len()
    &&& new_slots.len() == old_slots.len()
    &&& forall|k: int|
        0 <= k < fate.len() && #[trigger] fate[k] is Some ==> {
            let p = fate[k]->0;
            &&& 0 <= p < old_slots.len()
            &&& old_slots[p] is None
            &&& new_slots[p] == Some(inds[k])
        }
    &&& forall|j: int, k: int|
        0 <= j < k < fate.len() && #[trigger] fate[j] is Some && #[trigger] fate[k] is Some
            ==> fate[j] != fate[k]
    &&& forall|p: int|
        0 <= p < old_slots.len() && !fate.contains(Some(p)) ==> #[trigger] new_slots[p]
            == old_slots[p]
}

/// What a run over `inds` may leave behind: every individual either occupies
/// a slot of its own that was empty, or is appended to the unassigned list
/// (in processing order), never both and never neither. The first individual
/// of a run on a grid whose slots are all empty is always placed.
pub open spec fn run_outcome(
    old_slots: Seq<Option<Seq<char>>>,
    new_slots: Seq<Option<Seq<char>>>,
    old_unassigned: Seq<Seq<char>>,
    new_unassigned: Seq<Seq<char>>,
    inds: Seq<Seq<char>>,
) -> bool {
    exists|fate: Seq<Option<int>>|
        {
            &&& #[trigger] placements_valid(old_slots, new_slots, inds, fate)
            &&& new_unassigned == old_unassigned + left_over(inds, fate)
            &&& empty_count(new_slots) + inds.len() == empty_count(old_slots) + left_over(
                inds,
                fate,
            ).len()
            &&& occupants(new_slots).add(left_over(inds, fate).to_multiset()) == occupants(
                old_slots,
            ).add(inds.to_multiset())
            &&& (inds.len() > 0 && all_empty(old_slots)) ==> fate[0] is Some
        }
}

/// Filling an empty slot lowers the number of empty slots by one.
pub proof fn lemma_empty_count_fill(slots: Seq<Option<Seq<char>>>, p: int, v: Seq<char>)
    requires
        0 <= p < slots.len(),
        slots[p] is None,
    ensures
        empty_count(slots.update(p, Some(v))) + 1 == empty_count(slots),
    decreases slots.len(),
{
    let filled = slots.update(p, Some(v));
    if p == slots.len() - 1 {
        assert(filled.drop_last() =~= slots.drop_last());
    } else {
        lemma_empty_count_fill(slots.drop_last(), p, v);
        assert(filled.drop_last() =~= slots.drop_last().update(p, Some(v)));
    }
}

/// Filling an empty slot adds its new occupant.
pub proof fn lemma_occupants_fill(slots: Seq<Option<Seq<char>>>, p: int, v: Seq<char>)
    requires
        0 <= p < slots.len(),
        slots[p] is None,
    ensures
        occupants(slots.update(p, Some(v))) == occupants(slots).insert(v),
    decreases slots.len(),
{
    let filled = slots.update(p, Some(v));
    if p == slots.len() - 1 {
        assert(filled.drop_last() =~= slots.drop_last());
    } else {
        lemma_occupants_fill(slots.drop_last(), p, v);
        assert(filled.drop_last() =~= slots.drop_last().update(p, Some(v)));
        match slots.last() {
            Some(name) => {
                assert(occupants(slots.drop_last()).insert(v).insert(name) =~= occupants(
                    slots.drop_last(),
                ).insert(name).insert(v));
            },
            None => {},
        }
    }
}

/// A grid of empty slots has as many empty slots as slots.
pub proof fn lemma_empty_count_all_empty(slots: Seq<Option<Seq<char>>>)
    requires
        forall|p: int| 0 <= p < slots.len() ==> #[trigger] slots[p] is None,
    ensures
        empty_count(slots) == slots.len(),
    decreases slots.len(),
{
    if slots.len() > 0 {
        lemma_empty_count_all_empty(slots.drop_last());
    }
}

} // verus!
