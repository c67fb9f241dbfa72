//! What the operations on a block promise together.

use vstd::prelude::*;

use crate::block::BlockState;
use crate::field;
use crate::field::{Generation, Mask, PlacementField};
use crate::numeral;
use crate::numeral::Number;
use crate::tier;

verus! {

/// Whether two masks differ in tiers at most.
pub open spec fn same_rest(a: Number, b: Number) -> bool {
    &&& tier::above_tiers(a.floor as int) == tier::above_tiers(b.floor as int)
    &&& a.fraction == b.fraction
    &&& a.places == b.places
}

proof fn lemma_written_entry(s: BlockState, worker_id: Seq<char>, generation: u64, mask: Number)
    requires
        mask.wf(),
    ensures
        ({
            let t = s.with_entry(worker_id, field::field_text(generation, mask));
            &&& t.field(worker_id) == Some(
                PlacementField { generation: Generation::At(generation), mask: Mask::Held(mask) },
            )
            &&& t.owner(worker_id) == Generation::At(generation)
            &&& t.held(worker_id, generation) == mask
            &&& t.readable(worker_id, generation)
        }),
{
    field::field_reads_back(generation, mask);
}

/// A tier that was set, and not refused, is recorded for the worker's generation,
/// which then owns the entry. The worker's other tiers of that generation, and what else
/// the mask holds, stay as they were.
pub proof fn set_records_the_tier(s: BlockState, worker_id: Seq<char>, bit: u64, generation: u64)
    requires
        tier::is_tier_bit(bit),
        !s.set_unreadable(worker_id, generation),
        !s.owner(worker_id).newer(generation),
    ensures
        ({
            let t = s.after_set(worker_id, bit, generation);
            let before = s.held(worker_id, generation);
            let after = t.held(worker_id, generation);
            &&& t.owner(worker_id) == Generation::At(generation)
            &&& t.readable(worker_id, generation)
            &&& after.has_tier(bit)
            &&& forall|other: u64|
                tier::is_tier_bit(other) && other != bit ==> #[trigger] after.has_tier(other)
                    == before.has_tier(other)
            &&& same_rest(before, after)
        }),
{
    let held = s.held(worker_id, generation);
    tier::with_tier_changes_one_bit(held.floor as int, bit);
    tier::clearing_from_nothing(bit);
    s.held_is_well_formed(worker_id, generation);
    if s.set_reply(worker_id, bit, generation) == 1 {
        let new = held.with_tier(bit);
        assert(new.floor == tier::with_tier(held.floor as int, bit));
        lemma_written_entry(s, worker_id, generation, new);
        assert forall|other: u64| tier::is_tier_bit(other) && other != bit implies #[trigger] new.has_tier(
            other,
        ) == held.has_tier(other) by {
            assert(tier::has_tier(tier::with_tier(held.floor as int, bit), other) == tier::has_tier(
                held.floor as int,
                other,
            ));
        }
    }
}

/// Setting a tier again changes nothing and says so.
pub proof fn set_is_idempotent(s: BlockState, worker_id: Seq<char>, bit: u64, generation: u64)
    requires
        tier::is_tier_bit(bit),
        !s.set_unreadable(worker_id, generation),
    ensures
        ({
            let t = s.after_set(worker_id, bit, generation);
            &&& t.after_set(worker_id, bit, generation) == t
            &&& t.set_reply(worker_id, bit, generation) == if s.owner(worker_id).newer(generation) {
                -1int
            } else {
                0int
            }
            &&& !t.set_unreadable(worker_id, generation)
        }),
{
    if !s.owner(worker_id).newer(generation) {
        set_records_the_tier(s, worker_id, bit, generation);
    }
}

/// A tier that was cleared, and not refused, is recorded no more. The worker's other
/// tiers of that generation, and what else the mask holds, stay as they were.
pub proof fn clear_removes_the_tier(s: BlockState, worker_id: Seq<char>, bit: u64, generation: u64)
    requires
        tier::is_tier_bit(bit),
        !s.clear_unreadable(worker_id, generation),
        !s.clear_fenced(worker_id, generation),
    ensures
        ({
            let t = s.after_clear(worker_id, bit, generation);
            let before = s.held(worker_id, generation);
            let after = t.held(worker_id, generation);
            &&& !after.has_tier(bit)
            &&& forall|other: u64|
                tier::is_tier_bit(other) && other != bit ==> #[trigger] after.has_tier(other)
                    == before.has_tier(other)
            &&& same_rest(before, after)
        }),
{
    let held = s.held(worker_id, generation);
    let left = held.without_tier(bit);
    tier::without_tier_changes_one_bit(held.floor as int, bit);
    s.held_is_well_formed(worker_id, generation);
    assert(left.floor == tier::without_tier(held.floor as int, bit));
    lemma_after_clear_holds(s, worker_id, bit, generation);
    assert forall|other: u64| tier::is_tier_bit(other) && other != bit implies #[trigger] left.has_tier(
        other,
    ) == held.has_tier(other) by {
        assert(tier::has_tier(tier::without_tier(held.floor as int, bit), other) == tier::has_tier(
            held.floor as int,
            other,
        ));
    }
}

proof fn lemma_after_clear_holds(s: BlockState, worker_id: Seq<char>, bit: u64, generation: u64)
    requires
        !s.clear_unreadable(worker_id, generation),
        !s.clear_fenced(worker_id, generation),
    ensures
        ({
            let t = s.after_clear(worker_id, bit, generation);
            let left = s.held(worker_id, generation).without_tier(bit);
            &&& left.wf()
            &&& t.held(worker_id, generation) == left
            &&& !left.is_nought() ==> t.owner(worker_id) == Generation::At(generation)
            &&& !t.clear_unreadable(worker_id, generation)
            &&& !s.set_unreadable(worker_id, generation) ==> !t.set_unreadable(
                worker_id,
                generation,
            )
        }),
{
    let left = s.held(worker_id, generation).without_tier(bit);
    s.held_is_well_formed(worker_id, generation);
    tier::clearing_from_nothing(bit);
    if left.is_nought() {
        numeral::only_zero_is_nought(left);
    } else {
        lemma_written_entry(s, worker_id, generation, left);
    }
}

/// A worker is reported gone exactly when it is left with no tier of that
/// generation.
pub proof fn gone_means_no_tier_left(s: BlockState, worker_id: Seq<char>, bit: u64, generation: u64)
    requires
        !s.clear_unreadable(worker_id, generation),
        !s.clear_fenced(worker_id, generation),
    ensures
        s.worker_gone(worker_id, bit, generation) == 1 <==> s.after_clear(
            worker_id,
            bit,
            generation,
        ).held(worker_id, generation).is_nought(),
{
    lemma_after_clear_holds(s, worker_id, bit, generation);
}

/// Clearing a tier again changes nothing and answers the same.
pub proof fn clear_is_idempotent(s: BlockState, worker_id: Seq<char>, bit: u64, generation: u64)
    requires
        tier::is_tier_bit(bit),
        !s.clear_unreadable(worker_id, generation),
    ensures
        ({
            let t = s.after_clear(worker_id, bit, generation);
            &&& t.after_clear(worker_id, bit, generation) == t
            &&& t.worker_gone(worker_id, bit, generation) == s.worker_gone(
                worker_id,
                bit,
                generation,
            )
            &&& !t.clear_unreadable(worker_id, generation)
        }),
{
    let t = s.after_clear(worker_id, bit, generation);
    let held = s.held(worker_id, generation);
    let left = held.without_tier(bit);
    if !s.clear_fenced(worker_id, generation) {
        tier::without_tier_changes_one_bit(held.floor as int, bit);
        assert(left.floor == tier::without_tier(held.floor as int, bit));
        lemma_after_clear_holds(s, worker_id, bit, generation);
        assert(left.without_tier(bit) == left);
        if left.is_nought() {
            assert(t.settled() =~= t);
        } else {
            lemma_written_entry(s, worker_id, generation, left);
            assert(t.with_entry(worker_id, field::field_text(generation, left)) =~= t);
        }
    }
}

/// Clearing a tier that has just been set leaves the worker's tiers of that
/// generation as they were before, and no entry where there were none.
pub proof fn clear_undoes_set(s: BlockState, worker_id: Seq<char>, bit: u64, generation: u64)
    requires
        tier::is_tier_bit(bit),
        !s.set_unreadable(worker_id, generation),
        s.set_reply(worker_id, bit, generation) == 1,
    ensures
        ({
            let t = s.after_set(worker_id, bit, generation).after_clear(worker_id, bit, generation);
            &&& t.held(worker_id, generation) == s.held(worker_id, generation)
            &&& s.held(worker_id, generation).is_nought() ==> !t.fields.contains_key(worker_id)
        }),
{
    let held = s.held(worker_id, generation);
    let new = held.with_tier(bit);
    s.held_is_well_formed(worker_id, generation);
    tier::clearing_undoes_setting(held.floor as int, bit);
    tier::with_tier_changes_one_bit(held.floor as int, bit);
    assert(new.floor == tier::with_tier(held.floor as int, bit));
    lemma_written_entry(s, worker_id, generation, new);
    let u = s.after_set(worker_id, bit, generation);
    assert(new.without_tier(bit) == held);
    lemma_after_clear_holds(u, worker_id, bit, generation);
}

/// A writer of an older generation cannot touch an entry that a newer one owns, and
/// learns that it is too old.
pub proof fn older_writer_is_fenced(
    s: BlockState,
    worker_id: Seq<char>,
    bit: u64,
    generation: u64,
)
    requires
        s.owner(worker_id).newer(generation),
    ensures
        !s.set_unreadable(worker_id, generation),
        s.set_reply(worker_id, bit, generation) == -1,
        s.after_set(worker_id, bit, generation) == s,
        s.after_clear(worker_id, bit, generation).fields == s.fields,
        !(s.field(worker_id)->0.mask is Absent) ==> s.worker_gone(worker_id, bit, generation) == -1,
        s.after_clear_worker(worker_id, generation).fields == s.fields,
{
}

/// Dropping outdated entries removes every entry of an older generation, keeps one of
/// the current or a newer generation as it is, and is done once.
pub proof fn clear_worker_drops_what_is_outdated(
    s: BlockState,
    worker_id: Seq<char>,
    current_generation: u64,
)
    requires
        !s.owner_unreadable(worker_id),
    ensures
        ({
            let t = s.after_clear_worker(worker_id, current_generation);
            &&& t.fields.contains_key(worker_id) <==> s.fields.contains_key(worker_id)
                && !s.owner(worker_id).older(current_generation)
            &&& t.fields.contains_key(worker_id) ==> t.fields[worker_id] == s.fields[worker_id]
            &&& t.after_clear_worker(worker_id, current_generation) == t
        }),
{
    let t = s.after_clear_worker(worker_id, current_generation);
    assert(t.owner(worker_id) == if t.fields.contains_key(worker_id) {
        s.owner(worker_id)
    } else {
        Generation::At(0)
    });
    assert(t.after_clear_worker(worker_id, current_generation) =~= t);
}

/// No operation for one worker touches another worker's entry.
pub proof fn other_workers_are_left_alone(
    s: BlockState,
    worker_id: Seq<char>,
    other: Seq<char>,
    bit: u64,
    generation: u64,
    now_ms: u64,
)
    requires
        other != worker_id,
    ensures
        s.after_set(worker_id, bit, generation).field(other) == s.field(other),
        s.after_clear(worker_id, bit, generation).field(other) == s.field(other),
        s.after_clear_worker(worker_id, generation).field(other) == s.field(other),
        s.after_hit(now_ms).field(other) == s.field(other),
{
}

/// A block that has no entry keeps no hit counter: every operation preserves this,
/// so a block that was matched and then left by every worker leaves nothing behind.
pub proof fn hit_counter_never_outlives_the_entries(
    s: BlockState,
    worker_id: Seq<char>,
    bit: u64,
    generation: u64,
    claims: Seq<(Seq<char>, u64)>,
    now_ms: u64,
)
    requires
        s.no_stray_hits(),
    ensures
        s.after_set(worker_id, bit, generation).no_stray_hits(),
        s.after_clear(worker_id, bit, generation).no_stray_hits(),
        s.after_clear_worker(worker_id, generation).no_stray_hits(),
        s.counts(claims) ==> s.after_hit(now_ms).no_stray_hits(),
{
    let t = s.after_set(worker_id, bit, generation);
    if !s.set_unreadable(worker_id, generation) && s.set_reply(worker_id, bit, generation) == 1 {
        assert(t.fields.dom().contains(worker_id));
    }
    let u = s.after_clear(worker_id, bit, generation);
    if !s.clear_unreadable(worker_id, generation) && !s.clear_fenced(worker_id, generation)
        && s.keeps_after_clear(worker_id, bit, generation) {
        assert(u.fields.dom().contains(worker_id));
    }
    if s.counts(claims) {
        let i = choose|i: int| 0 <= i < claims.len() && s.backs(#[trigger] claims[i]);
        assert(s.fields.dom().contains(claims[i].0));
    }
}

/// Once a worker's outdated entry has been dropped, or replaced by one of the current
/// generation, a match of an earlier generation of that worker is not counted.
pub proof fn outdated_match_is_not_counted(
    s: BlockState,
    worker_id: Seq<char>,
    bit: u64,
    current_generation: u64,
    claimed: u64,
)
    requires
        claimed < current_generation,
        tier::is_tier_bit(bit),
    ensures
        !s.after_clear_worker(worker_id, current_generation).counts(seq![(worker_id, claimed)]),
        !s.owner(worker_id).newer(current_generation) && !s.set_unreadable(
            worker_id,
            current_generation,
        ) ==> !s.after_set(
            worker_id,
            bit,
            current_generation,
        ).counts(seq![(worker_id, claimed)]),
{
    if !s.owner_unreadable(worker_id) {
        clear_worker_drops_what_is_outdated(s, worker_id, current_generation);
    }
    if !s.owner(worker_id).newer(current_generation) && !s.set_unreadable(
        worker_id,
        current_generation,
    ) {
        set_records_the_tier(s, worker_id, bit, current_generation);
    }
}

} // verus!
