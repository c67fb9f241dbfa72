//! One block's placement: which workers hold it and at which tiers, together with
//! the block's hit counter.
//!
//! A block is a pair of records that live and die together: the placement hash,
//! which maps a worker to its entry, and the hit counter, which is created by the
//! first counted match and goes when the last entry goes. Each operation here is
//! atomic. Setting a tier, clearing one and dropping the leftover of an older
//! generation are safe to repeat; counting a match again counts it twice.

use vstd::prelude::*;

use crate::field;
use crate::field::{Generation, Mask, PlacementField};
use crate::numeral;
use crate::numeral::Number;
use crate::tier;

verus! {

/// The hit counter of a block.
#[derive(Clone, Copy, Debug, PartialEq, Eq, Structural)]
pub struct Hits {
    /// How many matches were counted.
    pub count: i64,
    /// When the last one was counted, in milliseconds.
    pub last_seen: u64,
}

/// What one block's records hold.
#[verifier::ext_equal]
pub struct BlockState {
    /// The text of each worker's entry, by worker id.
    pub fields: Map<Seq<char>, Seq<char>>,
    pub hits: Option<Hits>,
}

impl BlockState {
    /// Whether no worker has an entry.
    pub open spec fn is_empty(self) -> bool {
        self.fields.dom() =~= Set::<Seq<char>>::empty()
    }

    /// A worker's entry, as it reads.
    pub open spec fn field(self, worker_id: Seq<char>) -> Option<PlacementField> {
        if self.fields.contains_key(worker_id) {
            Some(field::field_of(self.fields[worker_id]))
        } else {
            None
        }
    }

    /// The generation that owns a worker's entry, zero where there is no entry.
    pub open spec fn owner(self, worker_id: Seq<char>) -> Generation {
        match self.field(worker_id) {
            Some(field) => field.generation,
            None => Generation::At(0),
        }
    }

    /// The tiers at which a worker holds the block in a given generation. An entry
    /// of another generation counts for nothing.
    pub open spec fn held(self, worker_id: Seq<char>, generation: u64) -> Number {
        match self.field(worker_id) {
            Some(PlacementField { generation: Generation::At(g), mask: Mask::Held(mask) }) =>
            if g == generation {
                mask
            } else {
                numeral::whole(0)
            },
            _ => numeral::whole(0),
        }
    }

    /// Whether setting a tier needs a number that cannot be read: the generation of the
    /// entry, or, in that very generation, the tiers.
    pub open spec fn set_unreadable(self, worker_id: Seq<char>, generation: u64) -> bool {
        self.field(worker_id) matches Some(f) && (f.generation is Unknown || (f.generation
            == Generation::At(generation) && (f.mask is Unheld || f.mask is Unknown)))
    }

    /// Whether clearing a tier needs a number that cannot be read: the tiers, or the
    /// generation where there are tiers. Tiers that cannot be held matter only in that
    /// very generation.
    pub open spec fn clear_unreadable(self, worker_id: Seq<char>, generation: u64) -> bool {
        self.field(worker_id) matches Some(f) && (f.mask is Unknown || (!(f.mask is Absent)
            && f.generation is Unknown) || (f.generation == Generation::At(generation)
            && f.mask is Unheld))
    }

    /// Whether an entry can be read for every change that a generation makes.
    pub open spec fn readable(self, worker_id: Seq<char>, generation: u64) -> bool {
        !self.set_unreadable(worker_id, generation) && !self.clear_unreadable(
            worker_id,
            generation,
        )
    }

    /// The tiers that a worker holds are a number that is well formed, and one that can
    /// be written stays so whatever whole number stands below its fraction.
    pub proof fn held_is_well_formed(self, worker_id: Seq<char>, generation: u64)
        ensures
            self.held(worker_id, generation).wf(),
            forall|floor: int| #[trigger] self.held(worker_id, generation).on(floor).wf(),
    {
        numeral::nought_is_well_formed();
        if self.fields.contains_key(worker_id) {
            field::held_mask_is_well_formed(self.fields[worker_id]);
        }
    }

    pub open spec fn with_entry(self, worker_id: Seq<char>, raw: Seq<char>) -> BlockState {
        BlockState { fields: self.fields.insert(worker_id, raw), ..self }
    }

    pub open spec fn without_entry(self, worker_id: Seq<char>) -> BlockState {
        BlockState { fields: self.fields.remove(worker_id), ..self }
    }

    /// The state in which a hit counter does not outlive the last entry.
    pub open spec fn settled(self) -> BlockState {
        if self.is_empty() {
            BlockState { hits: None, ..self }
        } else {
            self
        }
    }

    /// No hit counter without an entry.
    pub open spec fn no_stray_hits(self) -> bool {
        self.hits is Some ==> !self.is_empty()
    }

    /// Whether the mask that setting a tier would give does not fit.
    pub open spec fn set_overflows(self, worker_id: Seq<char>, bit: u64, generation: u64) -> bool {
        &&& self.set_reply(worker_id, bit, generation) == 1
        &&& !tier::fits(
            tier::with_tier(self.held(worker_id, generation).floor as int, bit),
        )
    }

    /// What setting a tier answers: `-1` where a newer generation owns the entry,
    /// `0` where the tier was set already, `1` where it was not.
    pub open spec fn set_reply(self, worker_id: Seq<char>, bit: u64, generation: u64) -> int {
        if self.owner(worker_id).newer(generation) {
            -1
        } else if self.held(worker_id, generation).has_tier(bit) {
            0
        } else {
            1
        }
    }

    /// What setting a tier leaves.
    pub open spec fn after_set(self, worker_id: Seq<char>, bit: u64, generation: u64) -> BlockState {
        if !self.set_unreadable(worker_id, generation) && self.set_reply(worker_id, bit, generation)
            == 1 {
            self.with_entry(
                worker_id,
                field::field_text(generation, self.held(worker_id, generation).with_tier(bit)),
            )
        } else {
            self
        }
    }

    /// Whether clearing a tier is refused, because a newer generation owns the entry.
    pub open spec fn clear_fenced(self, worker_id: Seq<char>, generation: u64) -> bool {
        self.field(worker_id) matches Some(f) && !(f.mask is Absent) && f.generation.newer(
            generation,
        )
    }

    /// Whether the mask that clearing a tier would give does not fit.
    pub open spec fn clear_overflows(
        self,
        worker_id: Seq<char>,
        bit: u64,
        generation: u64,
    ) -> bool {
        !tier::fits(tier::without_tier(self.held(worker_id, generation).floor as int, bit))
    }

    /// Whether a worker keeps the block after one tier is cleared.
    pub open spec fn keeps_after_clear(
        self,
        worker_id: Seq<char>,
        bit: u64,
        generation: u64,
    ) -> bool {
        !self.held(worker_id, generation).without_tier(bit).is_nought()
    }

    /// What clearing a tier leaves. An entry of an older generation goes whole; one
    /// whose mask is no number stays, as it holds nothing.
    pub open spec fn after_clear(
        self,
        worker_id: Seq<char>,
        bit: u64,
        generation: u64,
    ) -> BlockState {
        if self.clear_unreadable(worker_id, generation) || self.clear_fenced(
            worker_id,
            generation,
        ) {
            self
        } else if self.keeps_after_clear(worker_id, bit, generation) {
            self.with_entry(
                worker_id,
                field::field_text(generation, self.held(worker_id, generation).without_tier(bit)),
            )
        } else if self.field(worker_id) matches Some(f) && !(f.mask is Absent) {
            self.without_entry(worker_id).settled()
        } else {
            self.settled()
        }
    }

    /// What clearing a tier answers: `-1` where a newer generation owns the entry,
    /// `1` where the worker holds the block at no tier any more, `0` where it does.
    pub open spec fn worker_gone(self, worker_id: Seq<char>, bit: u64, generation: u64) -> int {
        if self.clear_fenced(worker_id, generation) {
            -1
        } else if self.keeps_after_clear(worker_id, bit, generation) {
            0
        } else {
            1
        }
    }

    /// Whether the generation of a worker's entry cannot be read.
    pub open spec fn owner_unreadable(self, worker_id: Seq<char>) -> bool {
        self.owner(worker_id) is Unknown
    }

    /// What dropping a worker's outdated entry leaves.
    pub open spec fn after_clear_worker(
        self,
        worker_id: Seq<char>,
        current_generation: u64,
    ) -> BlockState {
        if self.owner_unreadable(worker_id) {
            self
        } else if self.fields.contains_key(worker_id) && self.owner(worker_id).older(
            current_generation,
        ) {
            self.without_entry(worker_id).settled()
        } else {
            self.settled()
        }
    }

    /// Whether a claim names an entry of exactly the claimed generation.
    pub open spec fn backs(self, claim: (Seq<char>, u64)) -> bool {
        self.fields.contains_key(claim.0) && self.owner(claim.0) == Generation::At(claim.1)
    }

    /// Whether a match is to be counted: some claim is backed by an entry, and no claim
    /// before it names an entry whose generation cannot be read.
    pub open spec fn counts(self, claims: Seq<(Seq<char>, u64)>) -> bool {
        exists|i: int|
            0 <= i < claims.len() && self.backs(#[trigger] claims[i]) && forall|j: int|
                0 <= j < i ==> !self.owner_unreadable((#[trigger] claims[j]).0)
    }

    /// Whether it cannot be told if a match is to be counted: some claim names an entry
    /// whose generation cannot be read, and no claim before it is backed.
    pub open spec fn count_unreadable(self, claims: Seq<(Seq<char>, u64)>) -> bool {
        exists|i: int|
            0 <= i < claims.len() && self.owner_unreadable((#[trigger] claims[i]).0) && forall|
                j: int,
            |
                0 <= j < i ==> !self.backs(#[trigger] claims[j])
    }

    /// The count so far.
    pub open spec fn hit_count(self) -> i64 {
        match self.hits {
            Some(hits) => hits.count,
            None => 0,
        }
    }

    /// What counting a match leaves.
    pub open spec fn after_hit(self, now_ms: u64) -> BlockState {
        BlockState {
            hits: Some(Hits { count: (self.hit_count() + 1) as i64, last_seen: now_ms }),
            ..self
        }
    }
}

/// The answer to clearing a tier.
#[derive(Clone, Copy, Debug, PartialEq, Eq, Structural)]
pub struct ClearReply {
    /// `-1` where a newer generation owns the entry, `1` where the worker holds the
    /// block at no tier any more, `0` where it still does.
    pub worker_gone: i64,
    /// Whether no worker has an entry any more.
    pub key_empty: bool,
}

/// Why an operation on a block was not done. Nothing has changed then.
#[derive(Clone, Copy, Debug, PartialEq, Eq, Structural)]
pub enum BlockError {
    /// The counter stands at the largest value.
    CounterOverflow,
    /// The mask that was asked for does not fit.
    MaskOverflow,
    /// A stored number that decides cannot be held, or engines do not agree on it.
    Unreadable,
}

/// One worker's entry.
#[derive(Clone, Debug, PartialEq, Eq)]
pub struct Entry {
    pub worker_id: String,
    pub raw: String,
}

/// A worker and the generation in which it was matched.
#[derive(Clone, Debug, PartialEq, Eq)]
pub struct HitClaim {
    pub worker_id: String,
    pub generation: u64,
}

/// The fields that a list of entries gives, later ones over earlier ones.
pub open spec fn loaded_fields(entries: Seq<Entry>) -> Map<Seq<char>, Seq<char>>
    decreases entries.len(),
{
    if entries.len() == 0 {
        Map::empty()
    } else {
        loaded_fields(entries.drop_last()).insert(entries.last().worker_id@, entries.last().raw@)
    }
}

/// The claims that a list of them makes.
pub open spec fn claim_seq(claims: Seq<HitClaim>) -> Seq<(Seq<char>, u64)> {
    claims.map_values(|c: HitClaim| (c.worker_id@, c.generation))
}

/// One block's placement and hit counter.
#[derive(Clone, Debug)]
pub struct Block {
    entries: Vec<Entry>,
    hits: Option<Hits>,
}

spec fn has_entry(entries: Seq<Entry>, worker_id: Seq<char>) -> bool {
    exists|i: int| 0 <= i < entries.len() && (#[trigger] entries[i]).worker_id@ == worker_id
}

spec fn entry_index(entries: Seq<Entry>, worker_id: Seq<char>) -> int {
    choose|i: int| 0 <= i < entries.len() && (#[trigger] entries[i]).worker_id@ == worker_id
}

spec fn entry_map(entries: Seq<Entry>) -> Map<Seq<char>, Seq<char>> {
    Map::new(
        |w: Seq<char>| has_entry(entries, w),
        |w: Seq<char>| entries[entry_index(entries, w)].raw@,
    )
}

spec fn distinct_workers(entries: Seq<Entry>) -> bool {
    forall|i: int, j: int|
        0 <= i < j < entries.len() ==> (#[trigger] entries[i]).worker_id@ != (#[trigger] entries[j]).worker_id@
}

proof fn lemma_entry_at(entries: Seq<Entry>, i: int)
    requires
        distinct_workers(entries),
        0 <= i < entries.len(),
    ensures
        entry_map(entries).contains_key(entries[i].worker_id@),
        entry_map(entries)[entries[i].worker_id@] == entries[i].raw@,
{
    let w = entries[i].worker_id@;
    assert(has_entry(entries, w));
    let k = entry_index(entries, w);
    assert(0 <= k < entries.len() && entries[k].worker_id@ == w);
    assert(k == i);
}

proof fn lemma_no_entries(entries: Seq<Entry>)
    ensures
        entries.len() == 0 <==> entry_map(entries).dom() =~= Set::<Seq<char>>::empty(),
{
    if entries.len() > 0 {
        assert(has_entry(entries, entries[0].worker_id@));
        assert(entry_map(entries).dom().contains(entries[0].worker_id@));
    }
}

proof fn lemma_push_entry(entries: Seq<Entry>, entry: Entry)
    requires
        distinct_workers(entries),
        !has_entry(entries, entry.worker_id@),
    ensures
        distinct_workers(entries.push(entry)),
        entry_map(entries.push(entry)) == entry_map(entries).insert(entry.worker_id@, entry.raw@),
{
    let new = entries.push(entry);
    let m = entry_map(entries).insert(entry.worker_id@, entry.raw@);
    assert forall|w: Seq<char>| entry_map(new).contains_key(w) == m.contains_key(w) by {
        if has_entry(new, w) {
            let i = entry_index(new, w);
            if i < entries.len() {
                assert(entries[i].worker_id@ == w);
            }
        }
        if has_entry(entries, w) {
            let i = entry_index(entries, w);
            assert(new[i].worker_id@ == w);
        }
        if w == entry.worker_id@ {
            assert(new[entries.len() as int].worker_id@ == w);
        }
    }
    assert forall|w: Seq<char>| entry_map(new).contains_key(w) implies entry_map(new)[w] == m[w] by {
        let i = entry_index(new, w);
        assert(0 <= i < new.len() && new[i].worker_id@ == w);
        lemma_entry_at(new, i);
        if i < entries.len() {
            lemma_entry_at(entries, i);
        }
    }
    assert(entry_map(new) =~= m);
}

proof fn lemma_update_entry(entries: Seq<Entry>, i: int, entry: Entry)
    requires
        distinct_workers(entries),
        0 <= i < entries.len(),
        entries[i].worker_id@ == entry.worker_id@,
    ensures
        distinct_workers(entries.update(i, entry)),
        entry_map(entries.update(i, entry)) == entry_map(entries).insert(
            entry.worker_id@,
            entry.raw@,
        ),
{
    let new = entries.update(i, entry);
    let m = entry_map(entries).insert(entry.worker_id@, entry.raw@);
    assert forall|w: Seq<char>| entry_map(new).contains_key(w) == m.contains_key(w) by {
        if has_entry(new, w) {
            let k = entry_index(new, w);
            assert(entries[k].worker_id@ == w);
        }
        if has_entry(entries, w) {
            let k = entry_index(entries, w);
            assert(new[k].worker_id@ == w);
        }
        if w == entry.worker_id@ {
            assert(new[i].worker_id@ == w);
        }
    }
    assert forall|w: Seq<char>| entry_map(new).contains_key(w) implies entry_map(new)[w] == m[w] by {
        let k = entry_index(new, w);
        assert(0 <= k < new.len() && new[k].worker_id@ == w);
        lemma_entry_at(new, k);
        lemma_entry_at(entries, k);
    }
    assert(entry_map(new) =~= m);
}

proof fn lemma_remove_entry(entries: Seq<Entry>, i: int)
    requires
        distinct_workers(entries),
        0 <= i < entries.len(),
    ensures
        distinct_workers(entries.remove(i)),
        entry_map(entries.remove(i)) == entry_map(entries).remove(entries[i].worker_id@),
{
    let new = entries.remove(i);
    let gone = entries[i].worker_id@;
    let m = entry_map(entries).remove(gone);
    assert forall|w: Seq<char>| entry_map(new).contains_key(w) == m.contains_key(w) by {
        if has_entry(new, w) {
            let k = entry_index(new, w);
            if k < i {
                assert(entries[k].worker_id@ == w);
            } else {
                assert(entries[k + 1].worker_id@ == w);
            }
        }
        if has_entry(entries, w) && w != gone {
            let k = entry_index(entries, w);
            if k < i {
                assert(new[k].worker_id@ == w);
            } else {
                assert(new[k - 1].worker_id@ == w);
            }
        }
    }
    assert forall|w: Seq<char>| entry_map(new).contains_key(w) implies entry_map(new)[w] == m[w] by {
        let k = entry_index(new, w);
        assert(0 <= k < new.len() && new[k].worker_id@ == w);
        lemma_entry_at(new, k);
        lemma_entry_at(entries, if k < i { k } else { k + 1 });
    }
    assert(entry_map(new) =~= m);
}

impl View for Block {
    type V = BlockState;

    closed spec fn view(&self) -> BlockState {
        BlockState { fields: entry_map(self.entries@), hits: self.hits }
    }
}

impl Block {
    /// Each worker has at most one entry.
    pub closed spec fn wf(&self) -> bool {
        distinct_workers(self.entries@)
    }

    /// A block that no worker holds.
    pub fn new() -> (block: Block)
        ensures
            block.wf(),
            block@ == (BlockState { fields: Map::empty(), hits: None }),
    {
        let block = Block { entries: Vec::new(), hits: None };
        assert(entry_map(block.entries@) =~= Map::empty());
        block
    }

    /// A block as it is stored. Where a worker occurs twice, the later entry counts.
    pub fn load(entries: &Vec<Entry>, hits: Option<Hits>) -> (block: Block)
        ensures
            block.wf(),
            block@ == (BlockState { fields: loaded_fields(entries@), hits }),
    {
        let mut block = Block::new();
        block.hits = hits;
        let n = entries.len();
        let mut i: usize = 0;
        while i < n
            invariant
                n == entries@.len(),
                i <= n,
                block.wf(),
                block@ == (BlockState { fields: loaded_fields(entries@.take(i as int)), hits }),
            decreases n - i,
        {
            block.put_entry(entries[i].worker_id.as_str(), entries[i].raw.clone());
            assert(entries@.take(i + 1).drop_last() =~= entries@.take(i as int));
            i = i + 1;
        }
        assert(entries@.take(n as int) =~= entries@);
        block
    }

    fn find(&self, worker_id: &str) -> (found: Option<usize>)
        ensures
            match found {
                Some(i) => i < self.entries@.len() && self.entries@[i as int].worker_id@ == worker_id@,
                None => !has_entry(self.entries@, worker_id@),
            },
    {
        let wanted = worker_id.to_owned();
        let n = self.entries.len();
        let mut i: usize = 0;
        while i < n
            invariant
                n == self.entries@.len(),
                i <= n,
                wanted@ == worker_id@,
                forall|j: int|
                    0 <= j < i ==> (#[trigger] self.entries@[j]).worker_id@ != worker_id@,
            decreases n - i,
        {
            if self.entries[i].worker_id == wanted {
                return Some(i);
            }
            i = i + 1;
        }
        None
    }

    /// Stores the text of a worker's entry, in place of the one it had.
    pub fn put_entry(&mut self, worker_id: &str, raw: String)
        requires
            old(self).wf(),
        ensures
            final(self).wf(),
            final(self)@ == old(self)@.with_entry(worker_id@, raw@),
    {
        let entry = Entry { worker_id: worker_id.to_owned(), raw };
        match self.find(worker_id) {
            Some(i) => {
                proof {
                    lemma_update_entry(self.entries@, i as int, entry);
                }
                self.entries.set(i, entry);
            },
            None => {
                proof {
                    lemma_push_entry(self.entries@, entry);
                }
                self.entries.push(entry);
            },
        }
    }

    fn settle(&mut self)
        requires
            old(self).wf(),
        ensures
            final(self).wf(),
            final(self)@ == old(self)@.settled(),
    {
        proof {
            lemma_no_entries(self.entries@);
        }
        if self.entries.is_empty() {
            self.hits = None;
        }
    }

    /// A worker's entry, as it reads.
    pub fn get(&self, worker_id: &str) -> (found: Option<PlacementField>)
        requires
            self.wf(),
        ensures
            found == self@.field(worker_id@),
    {
        match self.find(worker_id) {
            Some(i) => {
                proof {
                    lemma_entry_at(self.entries@, i as int);
                }
                Some(field::parse_field(self.entries[i].raw.as_str()))
            },
            None => None,
        }
    }

    fn drop_entry(&mut self, worker_id: &str)
        requires
            old(self).wf(),
            old(self)@.fields.contains_key(worker_id@),
        ensures
            final(self).wf(),
            final(self)@ == old(self)@.without_entry(worker_id@),
    {
        if let Some(i) = self.find(worker_id) {
            proof {
                lemma_remove_entry(self.entries@, i as int);
            }
            self.entries.remove(i);
        }
    }
}

impl Block {
    /// Records that a worker of a generation holds the block at a tier.
    ///
    /// Answers `-1` and changes nothing if a newer generation owns the worker's
    /// entry, `0` if the tier was recorded already, `1` if it was not. An entry of an
    /// older generation is replaced, with none of its tiers kept. The bit of a tier
    /// always fits in the mask; another number may not, and is then refused.
    /// Nothing is done where the answer rests on a stored number that cannot be read.
    pub fn placement_set(&mut self, worker_id: &str, bit: u64, generation: u64) -> (reply: Result<
        i64,
        BlockError,
    >)
        requires
            old(self).wf(),
        ensures
            final(self).wf(),
            match reply {
                Ok(code) => {
                    &&& !old(self)@.set_unreadable(worker_id@, generation)
                    &&& !old(self)@.set_overflows(worker_id@, bit, generation)
                    &&& code == old(self)@.set_reply(worker_id@, bit, generation)
                    &&& final(self)@ == old(self)@.after_set(worker_id@, bit, generation)
                },
                Err(BlockError::Unreadable) => {
                    &&& old(self)@.set_unreadable(worker_id@, generation)
                    &&& final(self)@ == old(self)@
                },
                Err(BlockError::MaskOverflow) => {
                    &&& !old(self)@.set_unreadable(worker_id@, generation)
                    &&& old(self)@.set_overflows(worker_id@, bit, generation)
                    &&& final(self)@ == old(self)@
                },
                Err(BlockError::CounterOverflow) => false,
            },
            tier::is_tier_bit(bit) ==> reply != Err::<i64, BlockError>(BlockError::MaskOverflow),
    {
        let mut held = Number { floor: 0, fraction: 0, places: 0 };
        if let Some(field) = self.get(worker_id) {
            if field.generation == Generation::Unknown {
                return Err(BlockError::Unreadable);
            }
            if field.generation.is_newer(generation) {
                return Ok(-1);
            }
            if field.generation == Generation::At(generation) {
                match field.mask {
                    Mask::Held(mask) => {
                        held = mask;
                    },
                    Mask::Absent => {},
                    _ => {
                        return Err(BlockError::Unreadable);
                    },
                }
            }
        }
        assert(held == self@.held(worker_id@, generation));
        proof {
            self@.held_is_well_formed(worker_id@, generation);
        }
        if tier::tier_is_set(held.floor, bit) {
            return Ok(0);
        }
        match tier::set_tier(held.floor, bit) {
            Some(floor) => {
                let mask = Number { floor, fraction: held.fraction, places: held.places };
                assert(mask == held.with_tier(bit));
                self.put_entry(worker_id, field::format_field(generation, &mask));
                Ok(1)
            },
            None => Err(BlockError::MaskOverflow),
        }
    }

    /// Records that a worker of a generation no longer holds the block at a tier.
    ///
    /// Nothing changes if a newer generation owns the worker's entry. An entry of an
    /// older generation is a leftover and goes whole. Where the last entry goes, the
    /// hit counter goes with it. A worker that has no entry is reported as gone, so
    /// that a caller can repeat what it does for a worker that left. The bit of a tier
    /// can always be cleared; another number may not fit, and is then refused. Nothing
    /// is done where the answer rests on a stored number that cannot be read.
    pub fn placement_clear(&mut self, worker_id: &str, bit: u64, generation: u64) -> (reply:
        Result<ClearReply, BlockError>)
        requires
            old(self).wf(),
        ensures
            final(self).wf(),
            match reply {
                Ok(answer) => {
                    &&& !old(self)@.clear_unreadable(worker_id@, generation)
                    &&& !old(self)@.clear_overflows(worker_id@, bit, generation)
                    &&& final(self)@ == old(self)@.after_clear(worker_id@, bit, generation)
                    &&& answer.worker_gone == old(self)@.worker_gone(worker_id@, bit, generation)
                    &&& answer.key_empty == (answer.worker_gone != -1 && final(self)@.is_empty())
                },
                Err(BlockError::Unreadable) => {
                    &&& old(self)@.clear_unreadable(worker_id@, generation)
                    &&& final(self)@ == old(self)@
                },
                Err(BlockError::MaskOverflow) => {
                    &&& !old(self)@.clear_unreadable(worker_id@, generation)
                    &&& old(self)@.clear_overflows(worker_id@, bit, generation)
                    &&& final(self)@ == old(self)@
                },
                Err(BlockError::CounterOverflow) => false,
            },
            tier::is_tier_bit(bit) ==> reply != Err::<ClearReply, BlockError>(
                BlockError::MaskOverflow,
            ),
    {
        let mut worker_gone: i64 = 1;
        proof {
            self@.held_is_well_formed(worker_id@, generation);
            tier::clearing_from_nothing(bit);
        }
        if let Some(field) = self.get(worker_id) {
            if field.mask == Mask::Unknown || (field.mask != Mask::Absent && field.generation
                == Generation::Unknown) {
                return Err(BlockError::Unreadable);
            }
            if field.mask != Mask::Absent {
                if field.generation.is_newer(generation) {
                    return Ok(ClearReply { worker_gone: -1, key_empty: false });
                }
                let mut left = Number { floor: 0, fraction: 0, places: 0 };
                if field.generation == Generation::At(generation) {
                    match field.mask {
                        Mask::Held(mask) => match tier::clear_tier(mask.floor, bit) {
                            Some(floor) => {
                                left =
                                Number { floor, fraction: mask.fraction, places: mask.places };
                            },
                            None => {
                                return Err(BlockError::MaskOverflow);
                            },
                        },
                        _ => {
                            return Err(BlockError::Unreadable);
                        },
                    }
                }
                assert(left == self@.held(worker_id@, generation).without_tier(bit));
                if left.is_zero() {
                    self.drop_entry(worker_id);
                } else {
                    self.put_entry(worker_id, field::format_field(generation, &left));
                    worker_gone = 0;
                }
            }
        }
        self.settle();
        proof {
            lemma_no_entries(self.entries@);
        }
        Ok(ClearReply { worker_gone, key_empty: self.entries.is_empty() })
    }

    /// Drops a worker's entry if an older generation than the current one owns it.
    /// Where the last entry goes, the hit counter goes with it. The tiers of the entry do
    /// not matter. Nothing is done where its generation cannot be read.
    pub fn placement_clear_worker(&mut self, worker_id: &str, current_generation: u64) -> (reply:
        Result<(), BlockError>)
        requires
            old(self).wf(),
        ensures
            final(self).wf(),
            reply == (if old(self)@.owner_unreadable(worker_id@) {
                Err::<(), BlockError>(BlockError::Unreadable)
            } else {
                Ok::<(), BlockError>(())
            }),
            final(self)@ == old(self)@.after_clear_worker(worker_id@, current_generation),
    {
        if let Some(field) = self.get(worker_id) {
            if field.generation == Generation::Unknown {
                return Err(BlockError::Unreadable);
            }
            if field.generation.is_older(current_generation) {
                self.drop_entry(worker_id);
            }
        }
        self.settle();
        Ok(())
    }

    /// Counts a match, if one of the matched workers still has an entry of the
    /// generation it was matched in. Answers `1` if the match was counted, else `0`.
    /// At most one hit is counted, whatever the number of workers. Nothing is counted where
    /// an entry is met, before one that decides, whose generation cannot be read.
    pub fn hit_bump(&mut self, now_ms: u64, claims: &Vec<HitClaim>) -> (reply: Result<
        i64,
        BlockError,
    >)
        requires
            old(self).wf(),
        ensures
            final(self).wf(),
            reply == (if old(self)@.counts(claim_seq(claims@)) {
                if old(self)@.hit_count() < i64::MAX {
                    Ok::<i64, BlockError>(1)
                } else {
                    Err::<i64, BlockError>(BlockError::CounterOverflow)
                }
            } else if old(self)@.count_unreadable(claim_seq(claims@)) {
                Err::<i64, BlockError>(BlockError::Unreadable)
            } else {
                Ok::<i64, BlockError>(0)
            }),
            final(self)@ == (if reply == Ok::<i64, BlockError>(1) {
                old(self)@.after_hit(now_ms)
            } else {
                old(self)@
            }),
    {
        let n = claims.len();
        let mut i: usize = 0;
        while i < n
            invariant
                n == claims@.len(),
                i <= n,
                self.wf(),
                self@ == old(self)@,
                forall|j: int|
                    0 <= j < i ==> !self@.backs(#[trigger] claim_seq(claims@)[j])
                        && !self@.owner_unreadable(claim_seq(claims@)[j].0),
            decreases n - i,
        {
            let claim = &claims[i];
            assert(claim_seq(claims@)[i as int] == (claim.worker_id@, claim.generation));
            if let Some(field) = self.get(claim.worker_id.as_str()) {
                if field.generation == Generation::Unknown {
                    assert(self@.owner_unreadable(claim_seq(claims@)[i as int].0));
                    assert(!self@.backs(claim_seq(claims@)[i as int]));
                    return Err(BlockError::Unreadable);
                }
                if field.generation == Generation::At(claim.generation) {
                    assert(self@.backs(claim_seq(claims@)[i as int]));
                    let count: i64 = match self.hits {
                        Some(hits) => hits.count,
                        None => 0,
                    };
                    if count == i64::MAX {
                        return Err(BlockError::CounterOverflow);
                    }
                    self.hits = Some(Hits { count: count + 1, last_seen: now_ms });
                    return Ok(1);
                }
            }
            i = i + 1;
        }
        Ok(0)
    }

    /// The entries, one per worker, in no particular order.
    pub fn match_hash(&self) -> (entries: &Vec<Entry>)
        requires
            self.wf(),
        ensures
            forall|i: int, j: int|
                0 <= i < j < entries@.len() ==> (#[trigger] entries@[i]).worker_id@ != (
                #[trigger] entries@[j]).worker_id@,
            forall|i: int|
                0 <= i < entries@.len() ==> self@.fields.contains_key(
                    (#[trigger] entries@[i]).worker_id@,
                ) && self@.fields[entries@[i].worker_id@] == entries@[i].raw@,
            forall|w: Seq<char>| #[trigger]
                self@.fields.contains_key(w) ==> exists|i: int|
                    0 <= i < entries@.len() && (#[trigger] entries@[i]).worker_id@ == w,
    {
        proof {
            assert forall|i: int| 0 <= i < self.entries@.len() implies self@.fields.contains_key(
                (#[trigger] self.entries@[i]).worker_id@,
            ) && self@.fields[self.entries@[i].worker_id@] == self.entries@[i].raw@ by {
                lemma_entry_at(self.entries@, i);
            }
        }
        &self.entries
    }

    /// The hit counter.
    pub fn hits(&self) -> (hits: Option<Hits>)
        ensures
            hits == self@.hits,
    {
        self.hits
    }
}

} // verus!
