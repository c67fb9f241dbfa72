//! What replaying a batch of placement changes does.
//!
//! A batch carries a worker's changes, in order, under one generation. Its sequence
//! number is committed only after all of its changes, so a batch that was cut short
//! is replayed from the start.

use vstd::prelude::*;

use crate::block::BlockState;
use crate::field;
use crate::field::Generation;
use crate::numeral::Number;
use crate::placement_laws;
use crate::tier;

verus! {

/// A change that a batch makes to a block.
pub enum Change {
    Place { bit: u64 },
    Clear { bit: u64 },
}

impl Change {
    pub open spec fn bit(self) -> u64 {
        match self {
            Change::Place { bit } => bit,
            Change::Clear { bit } => bit,
        }
    }
}

pub open spec fn after_change(
    s: BlockState,
    worker_id: Seq<char>,
    generation: u64,
    change: Change,
) -> BlockState {
    match change {
        Change::Place { bit } => s.after_set(worker_id, bit, generation),
        Change::Clear { bit } => s.after_clear(worker_id, bit, generation),
    }
}

/// A block after a batch, first change first.
pub open spec fn after_batch(
    s: BlockState,
    worker_id: Seq<char>,
    generation: u64,
    changes: Seq<Change>,
) -> BlockState
    decreases changes.len(),
{
    if changes.len() == 0 {
        s
    } else {
        after_change(
            after_batch(s, worker_id, generation, changes.drop_last()),
            worker_id,
            generation,
            changes.last(),
        )
    }
}

/// Whether every change is about a tier.
pub open spec fn about_tiers(changes: Seq<Change>) -> bool {
    forall|i: int| 0 <= i < changes.len() ==> tier::is_tier_bit((#[trigger] changes[i]).bit())
}

/// Whether a tier is set after a batch, given whether it was before: the last change
/// about it decides.
pub open spec fn set_after(changes: Seq<Change>, bit: u64, before: bool) -> bool
    decreases changes.len(),
{
    if changes.len() == 0 {
        before
    } else if changes.last().bit() == bit {
        changes.last() is Place
    } else {
        set_after(changes.drop_last(), bit, before)
    }
}

proof fn lemma_about_earlier(changes: Seq<Change>)
    requires
        about_tiers(changes),
        changes.len() > 0,
    ensures
        about_tiers(changes.drop_last()),
        tier::is_tier_bit(changes.last().bit()),
{
    let earlier = changes.drop_last();
    assert forall|i: int| 0 <= i < earlier.len() implies tier::is_tier_bit(
        (#[trigger] earlier[i]).bit(),
    ) by {
        assert(earlier[i] == changes[i]);
    }
    assert(changes[changes.len() - 1] == changes.last());
}

proof fn lemma_set_after_twice(changes: Seq<Change>, bit: u64, before: bool)
    ensures
        set_after(changes, bit, set_after(changes, bit, before)) == set_after(changes, bit, before),
    decreases changes.len(),
{
    if changes.len() > 0 && changes.last().bit() != bit {
        lemma_set_after_twice(changes.drop_last(), bit, before);
        lemma_set_after_is_constant_or_same(changes.drop_last(), bit, before);
    }
}

proof fn lemma_set_after_is_constant_or_same(changes: Seq<Change>, bit: u64, before: bool)
    ensures
        set_after(changes, bit, before) == before || set_after(changes, bit, true) == set_after(
            changes,
            bit,
            false,
        ),
    decreases changes.len(),
{
    if changes.len() > 0 && changes.last().bit() != bit {
        lemma_set_after_is_constant_or_same(changes.drop_last(), bit, before);
    }
}

proof fn lemma_clear_stays(s: BlockState, worker_id: Seq<char>, bit: u64, generation: u64)
    requires
        s.readable(worker_id, generation),
        !s.owner(worker_id).newer(generation),
    ensures
        s.after_clear(worker_id, bit, generation).readable(worker_id, generation),
        !s.after_clear(worker_id, bit, generation).owner(worker_id).newer(generation),
{
    let left = s.held(worker_id, generation).without_tier(bit);
    s.held_is_well_formed(worker_id, generation);
    if !left.is_nought() {
        field::field_reads_back(generation, left);
    }
}

/// A batch that no newer generation fences sets each tier as its last change about it
/// says, and leaves the other tiers, and what else the mask holds, alone.
pub proof fn last_change_decides(
    s: BlockState,
    worker_id: Seq<char>,
    generation: u64,
    changes: Seq<Change>,
    bit: u64,
)
    requires
        about_tiers(changes),
        tier::is_tier_bit(bit),
        s.readable(worker_id, generation),
        !s.owner(worker_id).newer(generation),
    ensures
        after_batch(s, worker_id, generation, changes).readable(worker_id, generation),
        !after_batch(s, worker_id, generation, changes).owner(worker_id).newer(generation),
        after_batch(s, worker_id, generation, changes).held(worker_id, generation).has_tier(bit)
            == set_after(changes, bit, s.held(worker_id, generation).has_tier(bit)),
        placement_laws::same_rest(
            s.held(worker_id, generation),
            after_batch(s, worker_id, generation, changes).held(worker_id, generation),
        ),
    decreases changes.len(),
{
    if changes.len() > 0 {
        lemma_about_earlier(changes);
        let t = after_batch(s, worker_id, generation, changes.drop_last());
        last_change_decides(s, worker_id, generation, changes.drop_last(), bit);
        match changes.last() {
            Change::Place { bit: b } => {
                placement_laws::set_records_the_tier(t, worker_id, b, generation);
            },
            Change::Clear { bit: b } => {
                placement_laws::clear_removes_the_tier(t, worker_id, b, generation);
                lemma_clear_stays(t, worker_id, b, generation);
            },
        }
    }
}

/// A worker's entry as this generation writes it: none, or one that holds a tier.
spec fn is_clean(s: BlockState, worker_id: Seq<char>, generation: u64) -> bool {
    s.fields.contains_key(worker_id) ==> exists|mask: Number|
        mask.wf() && !mask.is_nought() && s.fields[worker_id] == #[trigger] field::field_text(
            generation,
            mask,
        )
}

proof fn lemma_clean(s: BlockState, worker_id: Seq<char>, generation: u64)
    requires
        is_clean(s, worker_id, generation),
    ensures
        !s.owner(worker_id).newer(generation),
        s.readable(worker_id, generation),
        s.fields.contains_key(worker_id) <==> !s.held(worker_id, generation).is_nought(),
        s.fields.contains_key(worker_id) ==> s.fields[worker_id] == field::field_text(
            generation,
            s.held(worker_id, generation),
        ),
        s.field(worker_id) matches Some(f) ==> f.mask is Held && f.generation == Generation::At(
            generation,
        ),
{
    if s.fields.contains_key(worker_id) {
        let mask = choose|mask: Number|
            mask.wf() && !mask.is_nought() && s.fields[worker_id] == #[trigger] field::field_text(
                generation,
                mask,
            );
        field::field_reads_back(generation, mask);
    }
}

proof fn lemma_change_cleans(s: BlockState, worker_id: Seq<char>, generation: u64, change: Change)
    requires
        tier::is_tier_bit(change.bit()),
        s.readable(worker_id, generation),
    ensures
        ({
            let t = after_change(s, worker_id, generation, change);
            &&& t.fields == s.fields || is_clean(t, worker_id, generation)
            &&& is_clean(s, worker_id, generation) ==> is_clean(t, worker_id, generation)
        }),
{
    let held = s.held(worker_id, generation);
    if is_clean(s, worker_id, generation) {
        lemma_clean(s, worker_id, generation);
    }
    s.held_is_well_formed(worker_id, generation);
    match change {
        Change::Place { bit } => {
            tier::with_tier_changes_one_bit(held.floor as int, bit);
            if s.set_reply(worker_id, bit, generation) == 1 {
                let t = s.after_set(worker_id, bit, generation);
                let new = held.with_tier(bit);
                assert(new.floor == tier::with_tier(held.floor as int, bit));
                assert(t.fields[worker_id] == field::field_text(generation, new));
            }
        },
        Change::Clear { bit } => {
            let t = s.after_clear(worker_id, bit, generation);
            if s.clear_fenced(worker_id, generation) {
            } else if s.keeps_after_clear(worker_id, bit, generation) {
                let left = held.without_tier(bit);
                assert(t.fields[worker_id] == field::field_text(generation, left));
            }
        },
    }
}

proof fn lemma_batch_cleans(
    s: BlockState,
    worker_id: Seq<char>,
    generation: u64,
    changes: Seq<Change>,
)
    requires
        about_tiers(changes),
        s.readable(worker_id, generation),
    ensures
        ({
            let t = after_batch(s, worker_id, generation, changes);
            &&& t.readable(worker_id, generation)
            &&& t.fields == s.fields || is_clean(t, worker_id, generation)
            &&& is_clean(s, worker_id, generation) ==> is_clean(t, worker_id, generation)
        }),
    decreases changes.len(),
{
    if changes.len() > 0 {
        lemma_about_earlier(changes);
        lemma_batch_cleans(s, worker_id, generation, changes.drop_last());
        let t = after_batch(s, worker_id, generation, changes.drop_last());
        lemma_change_cleans(t, worker_id, generation, changes.last());
        let u = after_batch(s, worker_id, generation, changes);
        if is_clean(u, worker_id, generation) {
            lemma_clean(u, worker_id, generation);
        }
    }
}

/// What a batch does to the entries does not depend on the hit counter.
proof fn lemma_same_fields(
    a: BlockState,
    b: BlockState,
    worker_id: Seq<char>,
    generation: u64,
    changes: Seq<Change>,
)
    requires
        a.fields == b.fields,
    ensures
        after_batch(a, worker_id, generation, changes).fields == after_batch(
            b,
            worker_id,
            generation,
            changes,
        ).fields,
    decreases changes.len(),
{
    if changes.len() > 0 {
        lemma_same_fields(a, b, worker_id, generation, changes.drop_last());
    }
}

proof fn lemma_fenced_batch(
    s: BlockState,
    worker_id: Seq<char>,
    generation: u64,
    changes: Seq<Change>,
)
    requires
        s.owner(worker_id).newer(generation),
    ensures
        after_batch(s, worker_id, generation, changes).fields == s.fields,
    decreases changes.len(),
{
    if changes.len() > 0 {
        lemma_fenced_batch(s, worker_id, generation, changes.drop_last());
    }
}

proof fn lemma_others_untouched(
    s: BlockState,
    worker_id: Seq<char>,
    generation: u64,
    changes: Seq<Change>,
)
    ensures
        after_batch(s, worker_id, generation, changes).fields.remove(worker_id)
            =~= s.fields.remove(worker_id),
    decreases changes.len(),
{
    if changes.len() > 0 {
        lemma_others_untouched(s, worker_id, generation, changes.drop_last());
    }
}

/// Replaying a whole batch changes no entry. (A hit counter may go: the replay can
/// pass through a moment in which nobody holds the block.)
pub proof fn replayed_batch_changes_no_entry(
    s: BlockState,
    worker_id: Seq<char>,
    generation: u64,
    changes: Seq<Change>,
)
    requires
        about_tiers(changes),
        s.readable(worker_id, generation),
    ensures
        ({
            let t = after_batch(s, worker_id, generation, changes);
            after_batch(t, worker_id, generation, changes).fields == t.fields
        }),
{
    let t = after_batch(s, worker_id, generation, changes);
    let u = after_batch(t, worker_id, generation, changes);
    lemma_batch_cleans(s, worker_id, generation, changes);
    if t.fields == s.fields {
        lemma_same_fields(t, s, worker_id, generation, changes);
    } else if s.owner(worker_id).newer(generation) {
        lemma_fenced_batch(s, worker_id, generation, changes);
    } else {
        lemma_batch_cleans(t, worker_id, generation, changes);
        lemma_clean(t, worker_id, generation);
        lemma_clean(u, worker_id, generation);
        let a = u.held(worker_id, generation);
        let b = t.held(worker_id, generation);
        assert forall|bit: u64| tier::is_tier_bit(bit) implies #[trigger] tier::has_tier(
            a.floor as int,
            bit,
        ) == tier::has_tier(b.floor as int, bit) by {
            last_change_decides(s, worker_id, generation, changes, bit);
            last_change_decides(t, worker_id, generation, changes, bit);
            lemma_set_after_twice(changes, bit, s.held(worker_id, generation).has_tier(bit));
            assert(a.has_tier(bit) == b.has_tier(bit));
        }
        tier::one_is_a_tier_bit();
        last_change_decides(t, worker_id, generation, changes, 1);
        tier::mask_is_told_by_its_tiers(a.floor as int, b.floor as int);
        assert(a == b);
        lemma_others_untouched(t, worker_id, generation, changes);
        assert forall|w: Seq<char>| u.fields.contains_key(w) == t.fields.contains_key(w) by {
            if w != worker_id {
                assert(u.fields.remove(worker_id).contains_key(w) == t.fields.remove(
                    worker_id,
                ).contains_key(w));
            }
        }
        assert forall|w: Seq<char>| u.fields.contains_key(w) implies u.fields[w] == t.fields[w] by {
            if w != worker_id {
                assert(u.fields.remove(worker_id)[w] == t.fields.remove(worker_id)[w]);
            }
        }
        assert(u.fields =~= t.fields);
    }
}

proof fn lemma_batch_in_two(
    s: BlockState,
    worker_id: Seq<char>,
    generation: u64,
    changes: Seq<Change>,
    done: int,
)
    requires
        0 <= done <= changes.len(),
    ensures
        after_batch(s, worker_id, generation, changes) == after_batch(
            after_batch(s, worker_id, generation, changes.take(done)),
            worker_id,
            generation,
            changes.skip(done),
        ),
    decreases changes.len(),
{
    if done == changes.len() {
        assert(changes.take(done) =~= changes);
    } else {
        let earlier = changes.drop_last();
        assert(earlier.take(done) =~= changes.take(done));
        assert(earlier.skip(done) =~= changes.skip(done).drop_last());
        assert(changes.skip(done).last() == changes.last());
        lemma_batch_in_two(s, worker_id, generation, earlier, done);
    }
}

/// A batch that was cut short at any point and then replayed from the start leaves
/// the entries as if it had run through once.
pub proof fn replay_repairs_a_cut_batch(
    s: BlockState,
    worker_id: Seq<char>,
    generation: u64,
    changes: Seq<Change>,
    done: int,
)
    requires
        about_tiers(changes),
        s.readable(worker_id, generation),
        0 <= done <= changes.len(),
    ensures
        after_batch(
            after_batch(s, worker_id, generation, changes.take(done)),
            worker_id,
            generation,
            changes,
        ).fields == after_batch(s, worker_id, generation, changes).fields,
{
    let head = changes.take(done);
    let t = after_batch(s, worker_id, generation, head);
    assert forall|i: int| 0 <= i < head.len() implies tier::is_tier_bit(
        (#[trigger] head[i]).bit(),
    ) by {
        assert(head[i] == changes[i]);
    }
    replayed_batch_changes_no_entry(s, worker_id, generation, head);
    lemma_batch_in_two(t, worker_id, generation, changes, done);
    lemma_batch_in_two(s, worker_id, generation, changes, done);
    lemma_same_fields(
        after_batch(t, worker_id, generation, head),
        t,
        worker_id,
        generation,
        changes.skip(done),
    );
}

} // verus!
