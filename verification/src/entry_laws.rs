//! What the operations on a block do to one entry, and to everything around it.

use vstd::prelude::*;

use crate::block;
use crate::block::{BlockState, Entry, Hits};
use crate::decimal;
use crate::field;
use crate::field::{Generation, Mask, PlacementField};
use crate::numeral;
use crate::numeral::{Number, Reading};
use crate::tier;

verus! {

/// Every generation that can be told is newer than a worker's, older, or the same, and
/// only one of these: whole ones by their numbers, one between two whole ones newer than
/// the lower and older than the upper, one before zero older than all.
pub proof fn generations_are_ordered(owner: Generation, generation: u64)
    ensures
        owner.newer(generation) <==> match owner {
            Generation::At(g) => generation < g,
            Generation::After(g) => generation <= g,
            _ => false,
        },
        owner.older(generation) <==> match owner {
            Generation::Before => true,
            Generation::At(g) => g < generation,
            Generation::After(g) => g < generation,
            Generation::Unknown => false,
        },
        !(owner.newer(generation) && owner.older(generation)),
        !(owner is Unknown) ==> (owner == Generation::At(generation) <==> !owner.newer(generation)
            && !owner.older(generation)),
{
}

/// A number in the place of the generation stands among the generations as it does among
/// the whole numbers. What is no number stands for zero.
pub proof fn generation_stands_as_its_number(n: Number, floor: i128, generation: u64)
    ensures
        field::generation_of(Reading::Number(n)).newer(generation) <==> n.floor > generation || (
        n.floor == generation && n.fraction > 0),
        field::generation_of(Reading::Number(n)).older(generation) <==> n.floor < generation,
        field::generation_of(Reading::Number(n)) == Generation::At(generation) <==> n.floor
            == generation && n.fraction == 0,
        field::generation_of(Reading::Fine(floor)).newer(generation) <==> floor >= generation,
        field::generation_of(Reading::Fine(floor)).older(generation) <==> floor < generation,
        field::generation_of(Reading::Beyond { negative: false }).newer(generation),
        field::generation_of(Reading::Beyond { negative: true }).older(generation),
        field::generation_of(Reading::NoNumber) == Generation::At(0),
        field::generation_of(Reading::Unknown) is Unknown,
{
}

/// The tiers of an entry are held exactly if they read as a number that can be held, and
/// absent exactly if they are no number.
pub proof fn mask_stands_as_its_number(reading: Reading, n: Number)
    ensures
        field::mask_of(reading) == Mask::Held(n) <==> reading == Reading::Number(n),
        field::mask_of(reading) is Absent <==> reading is NoNumber,
        field::mask_of(reading) is Unknown <==> reading is Unknown,
{
}

/// The first colon parts an entry: what stands before it is the generation, what stands
/// behind it, further colons and all, the tiers.
pub proof fn first_colon_parts_an_entry(head: Seq<char>, tail: Seq<char>)
    requires
        !head.contains(':'),
    ensures
        field::field_of(head.push(':') + tail) == (PlacementField {
            generation: field::generation_of(numeral::reading_of(head)),
            mask: field::mask_of(numeral::reading_of(tail)),
        }),
{
    let raw = head.push(':') + tail;
    raw.index_of_first_ensures(':');
    assert(raw[head.len() as int] == ':');
    let i = raw.index_of_first(':')->0;
    assert(i == head.len()) by {
        if i < head.len() {
            assert(raw[i] == head[i]);
        }
    }
    assert(raw.take(i) =~= head);
    assert(raw.skip(i + 1) =~= tail);
}

/// An entry without a colon is all tiers, of generation zero.
pub proof fn entry_without_a_colon_is_all_tiers(raw: Seq<char>)
    requires
        !raw.contains(':'),
    ensures
        field::field_of(raw) == (PlacementField {
            generation: Generation::At(0),
            mask: field::mask_of(numeral::reading_of(raw)),
        }),
{
    raw.index_of_first_ensures(':');
    numeral::empty_text_is_no_number();
}

/// An entry is written as the numeral of the generation, a colon and the tiers.
pub proof fn entry_is_written_in_two_parts(generation: u64, mask: Number)
    requires
        mask.wf(),
    ensures
        ({
            let raw = field::field_text(generation, mask);
            let head = decimal::decimal_nat(generation as nat);
            &&& raw == head.push(':') + numeral::number_text(mask)
            &&& decimal::all_digits(head) && decimal::digits_value(head) == generation
            &&& numeral::reading_of(numeral::number_text(mask)) == Reading::Number(mask)
        }),
{
    decimal::decimal_nat_reads_back(generation as nat);
    numeral::number_reads_back(mask);
}

/// Storing an entry makes it the worker's, in place of any it had, and touches no other
/// entry and no hit.
pub proof fn stored_entry_takes_the_place(s: BlockState, worker_id: Seq<char>, raw: Seq<char>)
    ensures
        ({
            let t = s.with_entry(worker_id, raw);
            &&& t.fields.contains_key(worker_id) && t.fields[worker_id] == raw
            &&& forall|w: Seq<char>|
                w != worker_id ==> (#[trigger] t.fields.contains_key(w) <==> s.fields.contains_key(
                    w,
                )) && (s.fields.contains_key(w) ==> t.fields[w] == s.fields[w])
            &&& t.hits == s.hits
        }),
{
}

/// A block that is loaded holds, for each worker that is named, the last text given for
/// it, and nothing for any other worker.
pub proof fn last_text_counts(entries: Seq<Entry>, worker_id: Seq<char>)
    ensures
        block::loaded_fields(entries).contains_key(worker_id) <==> exists|i: int|
            0 <= i < entries.len() && (#[trigger] entries[i]).worker_id@ == worker_id,
        forall|i: int|
            0 <= i < entries.len() && (#[trigger] entries[i]).worker_id@ == worker_id && (forall|
                j: int,
            |
                i < j < entries.len() ==> (#[trigger] entries[j]).worker_id@ != worker_id)
                ==> block::loaded_fields(entries)[worker_id] == entries[i].raw@,
    decreases entries.len(),
{
    if entries.len() > 0 {
        let earlier = entries.drop_last();
        let last = entries.len() - 1;
        last_text_counts(earlier, worker_id);
        if exists|i: int| 0 <= i < earlier.len() && (#[trigger] earlier[i]).worker_id@ == worker_id {
            let i = choose|i: int|
                0 <= i < earlier.len() && (#[trigger] earlier[i]).worker_id@ == worker_id;
            assert(entries[i].worker_id@ == worker_id);
        }
        if exists|i: int| 0 <= i < entries.len() && (#[trigger] entries[i]).worker_id@ == worker_id {
            let i = choose|i: int|
                0 <= i < entries.len() && (#[trigger] entries[i]).worker_id@ == worker_id;
            if i < last {
                assert(earlier[i].worker_id@ == worker_id);
            }
        }
        assert forall|i: int|
            0 <= i < entries.len() && (#[trigger] entries[i]).worker_id@ == worker_id && (forall|
                j: int,
            |
                i < j < entries.len() ==> (#[trigger] entries[j]).worker_id@ != worker_id)
            implies block::loaded_fields(entries)[worker_id] == entries[i].raw@ by {
            if i < last {
                assert(entries[last].worker_id@ != worker_id);
                assert(earlier[i] == entries[i]);
                assert forall|j: int| i < j < earlier.len() implies (
                #[trigger] earlier[j]).worker_id@ != worker_id by {
                    assert(entries[j].worker_id@ != worker_id);
                }
            }
        }
    }
}

/// What a worker holds in a generation: the number of its entry where the entry is of
/// that very generation, and else nothing.
pub proof fn held_is_what_the_entry_says(
    s: BlockState,
    worker_id: Seq<char>,
    generation: u64,
    mask: Number,
)
    ensures
        s.fields.contains_key(worker_id) ==> s.field(worker_id) == Some(
            field::field_of(s.fields[worker_id]),
        ) && s.owner(worker_id) == field::field_of(s.fields[worker_id]).generation,
        !s.fields.contains_key(worker_id) ==> s.field(worker_id) is None && s.owner(worker_id)
            == Generation::At(0),
        s.field(worker_id) == Some(
            PlacementField { generation: Generation::At(generation), mask: Mask::Held(mask) },
        ) ==> s.held(worker_id, generation) == mask,
        s.owner(worker_id) != Generation::At(generation) || s.field(worker_id) is None || !(s.field(
            worker_id,
        )->0.mask is Held) ==> {
            let n = s.held(worker_id, generation);
            n.floor == 0 && n.fraction == 0 && n.places == 0
        },
{
}

/// Every entry that an operation writes, every one that holds a mask alone, and a worker
/// without an entry, can be read in every generation.
pub proof fn written_entry_can_be_read(
    s: BlockState,
    worker_id: Seq<char>,
    written_in: u64,
    mask: Number,
    generation: u64,
)
    requires
        mask.wf(),
    ensures
        ({
            let t = s.with_entry(worker_id, field::field_text(written_in, mask));
            &&& !t.set_unreadable(worker_id, generation)
            &&& !t.clear_unreadable(worker_id, generation)
            &&& !t.owner_unreadable(worker_id)
        }),
        !s.fields.contains_key(worker_id) ==> !s.set_unreadable(worker_id, generation)
            && !s.clear_unreadable(worker_id, generation) && !s.owner_unreadable(worker_id),
        ({
            let t = s.with_entry(worker_id, decimal::decimal_nat(written_in as nat));
            &&& !t.set_unreadable(worker_id, generation)
            &&& !t.clear_unreadable(worker_id, generation)
            &&& !t.owner_unreadable(worker_id)
        }),
{
    field::field_reads_back(written_in, mask);
    field::legacy_field_reads_as_generation_zero(written_in);
}

/// Setting needs the generation of an entry, and the tiers only in that very generation;
/// clearing needs the tiers, and the generation only where there are tiers; dropping what
/// is outdated, and counting, need the generation alone.
pub proof fn unreadable_exactly_where_it_is_needed(
    s: BlockState,
    worker_id: Seq<char>,
    generation: u64,
    f: PlacementField,
)
    requires
        s.field(worker_id) == Some(f),
    ensures
        s.set_unreadable(worker_id, generation) <==> f.generation == Generation::Unknown || (
        f.generation == Generation::At(generation) && (f.mask == Mask::Unheld || f.mask
            == Mask::Unknown)),
        s.clear_unreadable(worker_id, generation) <==> f.mask == Mask::Unknown || (f.mask
            != Mask::Absent && f.generation == Generation::Unknown) || (f.mask == Mask::Unheld
            && f.generation == Generation::At(generation)),
        s.owner_unreadable(worker_id) <==> f.generation == Generation::Unknown,
{
}

/// Only what does not fit is refused: a sum beyond the widest mask, or a difference below
/// the lowest one. The bit of a tier always fits.
pub proof fn refused_exactly_if_it_does_not_fit(
    s: BlockState,
    worker_id: Seq<char>,
    bit: u64,
    generation: u64,
)
    ensures
        s.set_overflows(worker_id, bit, generation) <==> s.set_reply(worker_id, bit, generation)
            == 1 && s.held(worker_id, generation).floor + bit > i128::MAX,
        s.clear_overflows(worker_id, bit, generation) ==> s.held(worker_id, generation).floor - bit
            < i128::MIN,
        tier::is_tier_bit(bit) ==> !s.set_overflows(worker_id, bit, generation)
            && !s.clear_overflows(worker_id, bit, generation),
{
    let floor = s.held(worker_id, generation).floor as int;
    if tier::is_tier_bit(bit) {
        tier::with_tier_changes_one_bit(floor, bit);
        tier::without_tier_changes_one_bit(floor, bit);
    }
}

/// Setting a tier is refused exactly to an older writer. Else it answers whether the bit
/// had to be added, and where it had to, the entry is of the writer's generation and
/// holds what was held in that generation with the bit added to it. No other entry and no
/// hit is touched.
pub proof fn set_adds_the_bit(s: BlockState, worker_id: Seq<char>, bit: u64, generation: u64)
    requires
        !s.set_unreadable(worker_id, generation),
        !s.set_overflows(worker_id, bit, generation),
    ensures
        ({
            let t = s.after_set(worker_id, bit, generation);
            let before = s.held(worker_id, generation);
            let reply = s.set_reply(worker_id, bit, generation);
            &&& reply == -1 <==> s.owner(worker_id).newer(generation)
            &&& reply == 0 <==> !s.owner(worker_id).newer(generation) && bit > 0 && (
            before.floor as int / bit as int) % 2 == 1
            &&& reply == 1 <==> reply != -1 && reply != 0
            &&& reply != 1 ==> t == s
            &&& reply == 1 ==> t.field(worker_id) == Some(
                PlacementField {
                    generation: Generation::At(generation),
                    mask: Mask::Held(
                        Number {
                            floor: (before.floor + bit) as i128,
                            fraction: before.fraction,
                            places: before.places,
                        },
                    ),
                },
            )
            &&& t.fields.remove(worker_id) =~= s.fields.remove(worker_id)
            &&& t.hits == s.hits
        }),
{
    let before = s.held(worker_id, generation);
    s.held_is_well_formed(worker_id, generation);
    if s.set_reply(worker_id, bit, generation) == 1 {
        let new = before.with_tier(bit);
        assert(before.on(tier::with_tier(before.floor as int, bit)).wf());
        field::field_reads_back(generation, new);
    }
}

/// What a newer writer sets replaces an entry of an older generation whole: only the bit
/// that was set is held.
pub proof fn newer_writer_keeps_nothing(
    s: BlockState,
    worker_id: Seq<char>,
    bit: u64,
    generation: u64,
)
    requires
        s.owner(worker_id).older(generation),
    ensures
        s.set_reply(worker_id, bit, generation) == 1,
        s.after_set(worker_id, bit, generation).held(worker_id, generation) == (Number {
            floor: bit as i128,
            fraction: 0,
            places: 0,
        }),
        s.after_set(worker_id, bit, generation).owner(worker_id) == Generation::At(generation),
{
    tier::clearing_from_nothing(bit);
    assert(!s.set_unreadable(worker_id, generation));
    set_adds_the_bit(s, worker_id, bit, generation);
}

/// Clearing a tier is refused exactly to an older writer, of an entry that has tiers.
/// Else what was held in the writer's generation is left with the bit taken away, if it
/// was set. The entry stays exactly if something is left or it had no tiers to begin with,
/// and the worker is reported gone exactly if nothing is left. No other entry is touched,
/// and the hit counter goes exactly if no entry is left.
pub proof fn clear_takes_the_bit_away(
    s: BlockState,
    worker_id: Seq<char>,
    bit: u64,
    generation: u64,
)
    requires
        !s.clear_unreadable(worker_id, generation),
        !s.clear_overflows(worker_id, bit, generation),
    ensures
        ({
            let t = s.after_clear(worker_id, bit, generation);
            let gone = s.worker_gone(worker_id, bit, generation);
            let before = s.held(worker_id, generation);
            let set = bit > 0 && (before.floor as int / bit as int) % 2 == 1;
            let floor = before.floor - if set {
                bit as int
            } else {
                0
            };
            let fenced = s.fields.contains_key(worker_id) && !(s.field(worker_id)->0.mask is Absent)
                && s.owner(worker_id).newer(generation);
            &&& gone == -1 <==> fenced
            &&& fenced ==> t == s
            &&& !fenced ==> {
                &&& gone == 1 <==> floor == 0 && before.fraction == 0
                &&& gone == 0 <==> !(floor == 0 && before.fraction == 0)
                &&& gone == 0 ==> t.field(worker_id) == Some(
                    PlacementField {
                        generation: Generation::At(generation),
                        mask: Mask::Held(
                            Number {
                                floor: floor as i128,
                                fraction: before.fraction,
                                places: before.places,
                            },
                        ),
                    },
                )
                &&& gone == 1 ==> (t.fields.contains_key(worker_id) <==> s.fields.contains_key(
                    worker_id,
                ) && s.field(worker_id)->0.mask is Absent)
                &&& gone == 1 && t.fields.contains_key(worker_id) ==> t.fields[worker_id]
                    == s.fields[worker_id]
                &&& t.hits == if (forall|w: Seq<char>| !#[trigger] t.fields.contains_key(w)) {
                    None
                } else {
                    s.hits
                }
            }
            &&& t.fields.remove(worker_id) =~= s.fields.remove(worker_id)
        }),
{
    let before = s.held(worker_id, generation);
    let t = s.after_clear(worker_id, bit, generation);
    s.held_is_well_formed(worker_id, generation);
    tier::clearing_from_nothing(bit);
    let left = before.without_tier(bit);
    assert(before.on(tier::without_tier(before.floor as int, bit)).wf());
    if s.clear_fenced(worker_id, generation) {
    } else if s.keeps_after_clear(worker_id, bit, generation) {
        field::field_reads_back(generation, left);
        assert(t.fields.contains_key(worker_id));
    } else {
        lemma_settled(s);
        lemma_settled(s.without_entry(worker_id));
    }
}

proof fn lemma_settled(s: BlockState)
    ensures
        s.settled().fields == s.fields,
        s.settled().hits == if (forall|w: Seq<char>| !#[trigger] s.fields.contains_key(w)) {
            None
        } else {
            s.hits
        },
{
    if forall|w: Seq<char>| !#[trigger] s.fields.contains_key(w) {
        assert(s.fields.dom() =~= Set::<Seq<char>>::empty());
    } else {
        let w = choose|w: Seq<char>| #[trigger] s.fields.contains_key(w);
        assert(s.fields.dom().contains(w));
    }
}

/// What an older generation left behind goes whole when a newer writer clears any tier,
/// and the worker is reported gone.
pub proof fn leftover_goes_whole(s: BlockState, worker_id: Seq<char>, bit: u64, generation: u64)
    requires
        s.owner(worker_id).older(generation),
        s.field(worker_id) matches Some(f) && f.mask != Mask::Unknown && f.mask != Mask::Absent,
    ensures
        !s.after_clear(worker_id, bit, generation).fields.contains_key(worker_id),
        s.worker_gone(worker_id, bit, generation) == 1,
{
    tier::clearing_from_nothing(bit);
    assert(!s.clear_unreadable(worker_id, generation));
    clear_takes_the_bit_away(s, worker_id, bit, generation);
}

/// Dropping what is outdated drops a worker's entry exactly if it is of an older
/// generation, whatever its tiers. No other entry is touched, and the hit counter goes
/// exactly if no entry is left.
pub proof fn outdated_entry_is_dropped(s: BlockState, worker_id: Seq<char>, generation: u64)
    requires
        s.owner(worker_id) != Generation::Unknown,
    ensures
        ({
            let t = s.after_clear_worker(worker_id, generation);
            &&& t.fields.contains_key(worker_id) <==> s.fields.contains_key(worker_id)
                && !s.owner(worker_id).older(generation)
            &&& t.fields.contains_key(worker_id) ==> t.fields[worker_id] == s.fields[worker_id]
            &&& t.fields.remove(worker_id) =~= s.fields.remove(worker_id)
            &&& t.hits == if (forall|w: Seq<char>| !#[trigger] t.fields.contains_key(w)) {
                None
            } else {
                s.hits
            }
        }),
{
    lemma_settled(s);
    lemma_settled(s.without_entry(worker_id));
}

/// A block is reported empty exactly if no worker has an entry.
pub proof fn empty_means_no_entry(s: BlockState)
    ensures
        s.is_empty() <==> forall|w: Seq<char>| !#[trigger] s.fields.contains_key(w),
{
    if s.is_empty() {
        assert forall|w: Seq<char>| !#[trigger] s.fields.contains_key(w) by {
            assert(!s.fields.dom().contains(w));
        }
    }
    if forall|w: Seq<char>| !#[trigger] s.fields.contains_key(w) {
        assert(s.fields.dom() =~= Set::<Seq<char>>::empty());
    }
}

/// A counted match raises the count by one, from zero where there was no counter, notes
/// the time, and touches no entry.
pub proof fn counted_match_adds_one(s: BlockState, now_ms: u64)
    requires
        s.hit_count() < i64::MAX,
    ensures
        s.hits is None ==> s.hit_count() == 0,
        s.hits matches Some(hits) ==> s.hit_count() == hits.count,
        s.after_hit(now_ms).hits matches Some(hits) && hits.count == s.hit_count() + 1
            && hits.last_seen == now_ms,
        s.after_hit(now_ms).hit_count() == s.hit_count() + 1,
        s.after_hit(now_ms).fields == s.fields,
{
}

/// A block after a run of counted matches, oldest first.
pub open spec fn after_hits(s: BlockState, times: Seq<u64>) -> BlockState
    decreases times.len(),
{
    if times.len() == 0 {
        s
    } else {
        after_hits(s, times.drop_last()).after_hit(times.last())
    }
}

/// After a run of counted matches the count has grown by their number, the time is that
/// of the last one, and the entries are as they were.
pub proof fn hits_add_up(s: BlockState, times: Seq<u64>)
    requires
        s.hits matches Some(hits) ==> hits.count + times.len() <= i64::MAX,
        times.len() <= i64::MAX,
    ensures
        ({
            let t = after_hits(s, times);
            let start = match s.hits {
                Some(hits) => hits.count as int,
                None => 0,
            };
            &&& t.fields == s.fields
            &&& times.len() == 0 ==> t.hits == s.hits
            &&& times.len() > 0 ==> t.hits == Some(
                Hits { count: (start + times.len()) as i64, last_seen: times.last() },
            )
        }),
    decreases times.len(),
{
    if times.len() > 0 {
        hits_add_up(s, times.drop_last());
    }
}

/// Whether a claim names an entry of the claimed generation, and whether it names one
/// whose generation can be told.
pub open spec fn claim_holds(s: BlockState, claim: (Seq<char>, u64)) -> bool {
    s.fields.contains_key(claim.0) && field::field_of(s.fields[claim.0]).generation
        == Generation::At(claim.1)
}

pub open spec fn claim_can_be_told(s: BlockState, claim: (Seq<char>, u64)) -> bool {
    s.fields.contains_key(claim.0) ==> field::field_of(s.fields[claim.0]).generation
        != Generation::Unknown
}

/// A match is counted exactly if one of its workers still has an entry of the generation
/// in which it was matched, whatever the tiers of the entry and however many others there
/// are. It cannot be told only if an entry whose generation cannot be told comes first.
pub proof fn match_counts_exactly_if_a_claim_holds(
    s: BlockState,
    claims: Seq<(Seq<char>, u64)>,
)
    ensures
        (forall|i: int| 0 <= i < claims.len() ==> claim_can_be_told(s, #[trigger] claims[i])) ==> {
            &&& s.counts(claims) <==> exists|i: int|
                0 <= i < claims.len() && claim_holds(s, #[trigger] claims[i])
            &&& !s.count_unreadable(claims)
        },
        claims.len() > 0 && claim_holds(s, claims[0]) ==> s.counts(claims) && !s.count_unreadable(
            claims,
        ),
        claims.len() > 0 && !claim_can_be_told(s, claims[0]) ==> !s.counts(claims)
            && s.count_unreadable(claims),
        claims.len() == 0 ==> !s.counts(claims) && !s.count_unreadable(claims),
{
    if forall|i: int| 0 <= i < claims.len() ==> claim_can_be_told(s, #[trigger] claims[i]) {
        assert forall|i: int| 0 <= i < claims.len() implies !s.owner_unreadable(
            (#[trigger] claims[i]).0,
        ) by {
            assert(claim_can_be_told(s, claims[i]));
        }
        assert forall|i: int| 0 <= i < claims.len() implies s.backs(#[trigger] claims[i])
            == claim_holds(s, claims[i]) by {}
        if exists|i: int| 0 <= i < claims.len() && claim_holds(s, #[trigger] claims[i]) {
            let i = choose|i: int| 0 <= i < claims.len() && claim_holds(s, #[trigger] claims[i]);
            assert(s.backs(claims[i]));
        }
        if s.counts(claims) {
            let i = choose|i: int|
                0 <= i < claims.len() && s.backs(#[trigger] claims[i]) && forall|j: int|
                    0 <= j < i ==> !s.owner_unreadable((#[trigger] claims[j]).0);
            assert(claim_holds(s, claims[i]));
        }
    }
    if claims.len() > 0 && claim_holds(s, claims[0]) {
        assert(s.backs(claims[0]));
        if s.count_unreadable(claims) {
            let i = choose|i: int|
                0 <= i < claims.len() && s.owner_unreadable((#[trigger] claims[i]).0) && forall|
                    j: int,
                |
                    0 <= j < i ==> !s.backs(#[trigger] claims[j]);
            assert(i == 0);
        }
    }
    if claims.len() > 0 && !claim_can_be_told(s, claims[0]) {
        assert(s.owner_unreadable(claims[0].0));
        if s.counts(claims) {
            let i = choose|i: int|
                0 <= i < claims.len() && s.backs(#[trigger] claims[i]) && forall|j: int|
                    0 <= j < i ==> !s.owner_unreadable((#[trigger] claims[j]).0);
            assert(i == 0);
        }
    }
}

/// Once a tier has been set, a match of the worker in that generation is counted, and one
/// in any other generation is not.
pub proof fn set_backs_a_match_of_its_generation(
    s: BlockState,
    worker_id: Seq<char>,
    bit: u64,
    generation: u64,
    claimed: u64,
)
    requires
        tier::is_tier_bit(bit),
        !s.set_unreadable(worker_id, generation),
        !s.owner(worker_id).newer(generation),
    ensures
        s.after_set(worker_id, bit, generation).counts(seq![(worker_id, claimed)]) <==> claimed
            == generation,
{
    let t = s.after_set(worker_id, bit, generation);
    crate::placement_laws::set_records_the_tier(s, worker_id, bit, generation);
    tier::clearing_from_nothing(bit);
    assert(t.fields.contains_key(worker_id));
    let claims = seq![(worker_id, claimed)];
    match_counts_exactly_if_a_claim_holds(t, claims);
    assert(claims[0] == (worker_id, claimed));
    assert(claim_holds(t, claims[0]) == (claimed == generation));
}

} // verus!
