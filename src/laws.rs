//! Properties of every assignment run, proved from the run outcome that
//! `Schedule::assign_individuals` guarantees.
use vstd::prelude::*;
use crate::model::{all_empty, empty_count, occupants, lemma_empty_count_all_empty, left_over, placements_valid, run_outcome};

verus! {

proof fn lemma_left_over_len(inds: Seq<Seq<char>>, fate: Seq<Option<int>>)
    ensures
        left_over(inds, fate).len() <= inds.len(),
    decreases inds.len(),
{
    if inds.len() > 0 && fate.len() > 0 {
        lemma_left_over_len(inds.drop_last(), fate.drop_last());
    }
}

/// Every individual of a run ends either in a slot or in the unassigned
/// list, never both and never neither: the slots filled by the run and the
/// individuals appended to the unassigned list add up to the individuals.
pub proof fn lemma_each_individual_placed_or_unassigned(
    old_slots: Seq<Option<Seq<char>>>,
    new_slots: Seq<Option<Seq<char>>>,
    old_unassigned: Seq<Seq<char>>,
    new_unassigned: Seq<Seq<char>>,
    inds: Seq<Seq<char>>,
)
    requires
        run_outcome(old_slots, new_slots, old_unassigned, new_unassigned, inds),
    ensures
        empty_count(new_slots) <= empty_count(old_slots),
        old_unassigned.len() <= new_unassigned.len(),
        new_unassigned.subrange(0, old_unassigned.len() as int) == old_unassigned,
        (empty_count(old_slots) - empty_count(new_slots)) + (new_unassigned.len()
            - old_unassigned.len()) == inds.len(),
{
    let fate = choose|fate: Seq<Option<int>>|
        {
            &&& #[trigger] placements_valid(old_slots, new_slots, inds, fate)
            &&& new_unassigned == old_unassigned + left_over(inds, fate)
            &&& empty_count(new_slots) + inds.len() == empty_count(old_slots) + left_over(
                inds,
                fate,
            ).len()
        };
    lemma_left_over_len(inds, fate);
    assert(new_unassigned.subrange(0, old_unassigned.len() as int) =~= old_unassigned);
}

/// Every individual of a run, counted by position, ends in exactly one
/// place: the occupants gained by the slots together with the individuals
/// appended to the unassigned list are the run's individuals, each as often
/// as it occurs among them.
pub proof fn lemma_every_individual_accounted_for(
    old_slots: Seq<Option<Seq<char>>>,
    new_slots: Seq<Option<Seq<char>>>,
    old_unassigned: Seq<Seq<char>>,
    new_unassigned: Seq<Seq<char>>,
    inds: Seq<Seq<char>>,
)
    requires
        run_outcome(old_slots, new_slots, old_unassigned, new_unassigned, inds),
    ensures
        old_unassigned.len() <= new_unassigned.len(),
        occupants(new_slots).add(
            new_unassigned.subrange(old_unassigned.len() as int, new_unassigned.len() as int).to_multiset(),
        ) == occupants(old_slots).add(inds.to_multiset()),
{
    let fate = choose|fate: Seq<Option<int>>|
        {
            &&& #[trigger] placements_valid(old_slots, new_slots, inds, fate)
            &&& new_unassigned == old_unassigned + left_over(inds, fate)
            &&& empty_count(new_slots) + inds.len() == empty_count(old_slots) + left_over(
                inds,
                fate,
            ).len()
            &&& occupants(new_slots).add(left_over(inds, fate).to_multiset()) == occupants(
                old_slots,
            ).add(inds.to_multiset())
            &&& (inds.len() > 0 && all_empty(old_slots)) ==> fate[0] is Some
        };
    assert(new_unassigned.subrange(old_unassigned.len() as int, new_unassigned.len() as int)
        =~= left_over(inds, fate));
}

/// A run never vacates or reassigns a slot: every slot occupied before the
/// run holds the same individual after it.
pub proof fn lemma_occupied_slots_are_kept(
    old_slots: Seq<Option<Seq<char>>>,
    new_slots: Seq<Option<Seq<char>>>,
    old_unassigned: Seq<Seq<char>>,
    new_unassigned: Seq<Seq<char>>,
    inds: Seq<Seq<char>>,
)
    requires
        run_outcome(old_slots, new_slots, old_unassigned, new_unassigned, inds),
    ensures
        new_slots.len() == old_slots.len(),
        forall|p: int| 0 <= p < old_slots.len() && old_slots[p] is Some ==> #[trigger] new_slots[p] == old_slots[p],
{
    let fate = choose|fate: Seq<Option<int>>|
        {
            &&& #[trigger] placements_valid(old_slots, new_slots, inds, fate)
            &&& new_unassigned == old_unassigned + left_over(inds, fate)
            &&& empty_count(new_slots) + inds.len() == empty_count(old_slots) + left_over(
                inds,
                fate,
            ).len()
        };
    assert forall|p: int| 0 <= p < old_slots.len() && old_slots[p] is Some implies #[trigger] new_slots[p]
        == old_slots[p] by {
        if fate.contains(Some(p)) {
            let k = choose|k: int| 0 <= k < fate.len() && fate[k] == Some(p);
            assert(fate[k] is Some);
        }
    }
}

/// More individuals than empty slots: however the draws fall, at least the
/// surplus ends in the unassigned list.
pub proof fn lemma_overflow_leaves_unassigned(
    old_slots: Seq<Option<Seq<char>>>,
    new_slots: Seq<Option<Seq<char>>>,
    old_unassigned: Seq<Seq<char>>,
    new_unassigned: Seq<Seq<char>>,
    inds: Seq<Seq<char>>,
)
    requires
        run_outcome(old_slots, new_slots, old_unassigned, new_unassigned, inds),
    ensures
        new_unassigned.len() - old_unassigned.len() >= inds.len() - empty_count(old_slots),
        (forall|p: int| 0 <= p < old_slots.len() ==> #[trigger] old_slots[p] is None)
            ==> new_unassigned.len() - old_unassigned.len() >= inds.len() - old_slots.len(),
{
    lemma_each_individual_placed_or_unassigned(old_slots, new_slots, old_unassigned, new_unassigned, inds);
    if forall|p: int| 0 <= p < old_slots.len() ==> #[trigger] old_slots[p] is None {
        lemma_empty_count_all_empty(old_slots);
    }
}

/// A run over no individuals changes neither the slots nor the unassigned
/// list.
pub proof fn lemma_no_individuals_changes_nothing(
    old_slots: Seq<Option<Seq<char>>>,
    new_slots: Seq<Option<Seq<char>>>,
    old_unassigned: Seq<Seq<char>>,
    new_unassigned: Seq<Seq<char>>,
)
    requires
        run_outcome(old_slots, new_slots, old_unassigned, new_unassigned, Seq::empty()),
    ensures
        new_slots == old_slots,
        new_unassigned == old_unassigned,
{
    let inds = Seq::<Seq<char>>::empty();
    let fate = choose|fate: Seq<Option<int>>|
        {
            &&& #[trigger] placements_valid(old_slots, new_slots, inds, fate)
            &&& new_unassigned == old_unassigned + left_over(inds, fate)
            &&& empty_count(new_slots) + inds.len() == empty_count(old_slots) + left_over(
                inds,
                fate,
            ).len()
        };
    assert(new_slots =~= old_slots) by {
        assert forall|p: int| 0 <= p < old_slots.len() implies new_slots[p] == old_slots[p] by {
            assert(!fate.contains(Some(p)));
        }
    }
    assert(new_unassigned =~= old_unassigned);
}

/// A run on a grid of one empty slot places its first individual there and
/// leaves every later one unassigned, in order.
pub proof fn lemma_single_slot_run(
    old_slots: Seq<Option<Seq<char>>>,
    new_slots: Seq<Option<Seq<char>>>,
    old_unassigned: Seq<Seq<char>>,
    new_unassigned: Seq<Seq<char>>,
    inds: Seq<Seq<char>>,
)
    requires
        run_outcome(old_slots, new_slots, old_unassigned, new_unassigned, inds),
        old_slots.len() == 1,
        old_slots[0] is None,
        inds.len() > 0,
    ensures
        new_slots == seq![Some(inds[0])],
        new_unassigned == old_unassigned + inds.drop_first(),
{
    assert(all_empty(old_slots));
    let fate = choose|fate: Seq<Option<int>>|
        {
            &&& #[trigger] placements_valid(old_slots, new_slots, inds, fate)
            &&& new_unassigned == old_unassigned + left_over(inds, fate)
            &&& empty_count(new_slots) + inds.len() == empty_count(old_slots) + left_over(
                inds,
                fate,
            ).len()
            &&& (inds.len() > 0 && all_empty(old_slots)) ==> fate[0] is Some
        };
    assert(fate[0] is Some);
    assert(new_slots =~= seq![Some(inds[0])]);
    assert forall|k: int| 0 < k < fate.len() implies fate[k] is None by {
        if fate[k] is Some {
            assert(fate[0] is Some && fate[k] is Some);
        }
    }
    lemma_left_over_tail(inds, fate);
    assert(new_unassigned =~= old_unassigned + inds.drop_first());
}

/// With only the first individual placed, the rest are left over.
proof fn lemma_left_over_tail(inds: Seq<Seq<char>>, fate: Seq<Option<int>>)
    requires
        inds.len() > 0,
        fate.len() == inds.len(),
        fate[0] is Some,
        forall|k: int| 0 < k < fate.len() ==> fate[k] is None,
    ensures
        left_over(inds, fate) == inds.drop_first(),
    decreases inds.len(),
{
    if inds.len() == 1 {
        assert(left_over(inds.drop_last(), fate.drop_last()) =~= Seq::<Seq<char>>::empty());
        assert(inds.drop_first() =~= Seq::<Seq<char>>::empty());
    } else {
        lemma_left_over_tail(inds.drop_last(), fate.drop_last());
        assert(inds.drop_last().drop_first().push(inds.last()) =~= inds.drop_first());
    }
}

} // verus!
