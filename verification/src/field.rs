//! The text of one worker's entry in a block's placement hash.
//!
//! An entry is written as `generation:mask`. Entries written before generations
//! existed hold the mask alone and belong to generation zero.

use vstd::prelude::*;
use vstd::slice::slice_subrange;
use vstd::string::StringExecFns;

use crate::decimal;
use crate::numeral;
use crate::numeral::{Number, Reading};

verus! {

/// Where the generation of an entry stands among the generations that a worker can have.
#[derive(Clone, Copy, Debug, PartialEq, Eq, Structural)]
pub enum Generation {
    /// Before them all.
    Before,
    /// It is this one.
    At(u64),
    /// After this one and before the next, if there is a next.
    After(u64),
    /// Engines do not agree on it.
    Unknown,
}

impl Generation {
    /// Whether it is later than a worker's generation.
    pub open spec fn newer(self, generation: u64) -> bool {
        match self {
            Generation::At(g) => g > generation,
            Generation::After(g) => g >= generation,
            _ => false,
        }
    }

    /// Whether it is earlier than a worker's generation.
    pub open spec fn older(self, generation: u64) -> bool {
        match self {
            Generation::Before => true,
            Generation::At(g) => g < generation,
            Generation::After(g) => g < generation,
            Generation::Unknown => false,
        }
    }

    /// Tells whether it is later than a worker's generation.
    pub fn is_newer(self, generation: u64) -> (newer: bool)
        ensures
            newer == self.newer(generation),
    {
        match self {
            Generation::At(g) => g > generation,
            Generation::After(g) => g >= generation,
            _ => false,
        }
    }

    /// Tells whether it is earlier than a worker's generation.
    pub fn is_older(self, generation: u64) -> (older: bool)
        ensures
            older == self.older(generation),
    {
        match self {
            Generation::Before => true,
            Generation::At(g) => g < generation,
            Generation::After(g) => g < generation,
            Generation::Unknown => false,
        }
    }
}

/// The tiers of an entry, as they read.
#[derive(Clone, Copy, Debug, PartialEq, Eq, Structural)]
pub enum Mask {
    /// There is no number.
    Absent,
    /// There is this number.
    Held(Number),
    /// There is a number that cannot be held.
    Unheld,
    /// Engines do not agree on it.
    Unknown,
}

/// A placement entry as it is read: the generation of the worker that wrote it,
/// and the tiers at which the worker holds the block, one bit per tier.
///
/// Each part is a number as [`crate::numeral`] reads it. A generation that is none
/// reads as zero.
#[derive(Clone, Copy, Debug, PartialEq, Eq, Structural)]
pub struct PlacementField {
    pub generation: Generation,
    pub mask: Mask,
}

/// The text of the generation in an entry: what stands before the first `:`, nothing
/// where there is none.
pub open spec fn generation_text(raw: Seq<char>) -> Seq<char> {
    match raw.index_of_first(':') {
        Some(i) => raw.take(i),
        None => Seq::empty(),
    }
}

/// The text of the mask in an entry: what stands behind the first `:`, the whole text
/// where there is none.
pub open spec fn mask_text(raw: Seq<char>) -> Seq<char> {
    match raw.index_of_first(':') {
        Some(i) => raw.skip(i + 1),
        None => raw,
    }
}

/// Where a number stands among the generations, given the whole number next below it.
pub open spec fn place(floor: int, exact: bool) -> Generation {
    if floor < 0 {
        Generation::Before
    } else if floor > u64::MAX {
        Generation::After(u64::MAX)
    } else if exact {
        Generation::At(floor as u64)
    } else {
        Generation::After(floor as u64)
    }
}

/// The generation that a reading gives, zero where it gives no number.
pub open spec fn generation_of(reading: Reading) -> Generation {
    match reading {
        Reading::Number(n) => place(n.floor as int, n.fraction == 0),
        Reading::Fine(floor) => place(floor as int, false),
        Reading::Beyond { negative } => if negative {
            Generation::Before
        } else {
            Generation::After(u64::MAX)
        },
        Reading::NoNumber => Generation::At(0),
        Reading::Unknown => Generation::Unknown,
    }
}

/// The tiers that a reading gives.
pub open spec fn mask_of(reading: Reading) -> Mask {
    match reading {
        Reading::Number(n) => Mask::Held(n),
        Reading::Fine(_) => Mask::Unheld,
        Reading::Beyond { .. } => Mask::Unheld,
        Reading::NoNumber => Mask::Absent,
        Reading::Unknown => Mask::Unknown,
    }
}

/// How an entry reads.
pub open spec fn field_of(raw: Seq<char>) -> PlacementField {
    PlacementField {
        generation: generation_of(numeral::reading_of(generation_text(raw))),
        mask: mask_of(numeral::reading_of(mask_text(raw))),
    }
}

/// How an entry is written.
pub open spec fn field_text(generation: u64, mask: Number) -> Seq<char> {
    decimal::decimal_nat(generation as nat).push(':') + numeral::number_text(mask)
}

/// An entry reads back as it was written.
pub proof fn field_reads_back(generation: u64, mask: Number)
    requires
        mask.wf(),
    ensures
        field_of(field_text(generation, mask)) == (PlacementField {
            generation: Generation::At(generation),
            mask: Mask::Held(mask),
        }),
{
    let g = decimal::decimal_nat(generation as nat);
    let m = numeral::number_text(mask);
    let raw = field_text(generation, mask);
    decimal::decimal_nat_reads_back(generation as nat);
    raw.index_of_first_ensures(':');
    assert(raw[g.len() as int] == ':');
    let i = raw.index_of_first(':')->0;
    assert(i == g.len()) by {
        if i < g.len() {
            assert(decimal::is_digit(g[i]));
            assert(raw[i] == g[i]);
        }
    }
    assert(raw.take(i) =~= g);
    assert(raw.skip(i + 1) =~= m);
    numeral::decimal_numeral_reads_back(generation);
    numeral::number_reads_back(mask);
}

/// A mask alone reads as an entry of generation zero.
pub proof fn legacy_field_reads_as_generation_zero(mask: u64)
    ensures
        field_of(decimal::decimal_nat(mask as nat)) == (PlacementField {
            generation: Generation::At(0),
            mask: Mask::Held(numeral::whole(mask as int)),
        }),
{
    let raw = decimal::decimal_nat(mask as nat);
    decimal::decimal_nat_reads_back(mask as nat);
    raw.index_of_first_ensures(':');
    if raw.contains(':') {
        let i = choose|i: int| 0 <= i < raw.len() && raw[i] == ':';
        assert(decimal::is_digit(raw[i]));
    }
    numeral::empty_text_is_no_number();
    numeral::decimal_numeral_reads_back(mask);
}

/// The tiers that are read are a number that is well formed, where they are held.
pub proof fn held_mask_is_well_formed(raw: Seq<char>)
    ensures
        field_of(raw).mask matches Mask::Held(n) ==> n.wf(),
{
    numeral::reading_is_well_formed(mask_text(raw));
}

fn placed(floor: i128, exact: bool) -> (generation: Generation)
    ensures
        generation == place(floor as int, exact),
{
    if floor < 0 {
        Generation::Before
    } else if floor > u64::MAX as i128 {
        Generation::After(u64::MAX)
    } else if exact {
        Generation::At(floor as u64)
    } else {
        Generation::After(floor as u64)
    }
}

fn read_generation(chars: &[char]) -> (generation: Generation)
    ensures
        generation == generation_of(numeral::reading_of(chars@)),
{
    match numeral::read_number(chars) {
        Reading::Number(n) => placed(n.floor, n.fraction == 0),
        Reading::Fine(floor) => placed(floor, false),
        Reading::Beyond { negative } => if negative {
            Generation::Before
        } else {
            Generation::After(u64::MAX)
        },
        Reading::NoNumber => Generation::At(0),
        Reading::Unknown => Generation::Unknown,
    }
}

fn read_mask(chars: &[char]) -> (mask: Mask)
    ensures
        mask == mask_of(numeral::reading_of(chars@)),
{
    match numeral::read_number(chars) {
        Reading::Number(n) => Mask::Held(n),
        Reading::Fine(_) => Mask::Unheld,
        Reading::Beyond { .. } => Mask::Unheld,
        Reading::NoNumber => Mask::Absent,
        Reading::Unknown => Mask::Unknown,
    }
}

/// Reads a placement entry.
pub fn parse_field(raw: &str) -> (field: PlacementField)
    ensures
        field == field_of(raw@),
{
    let chars = decimal::text_chars(raw);
    let n = chars.len();
    let mut i: usize = 0;
    while i < n && chars[i] != ':'
        invariant
            n == chars@.len(),
            i <= n,
            forall|j: int| 0 <= j < i ==> chars@[j] != ':',
        decreases n - i,
    {
        i = i + 1;
    }
    proof {
        raw@.index_of_first_ensures(':');
    }
    if i < n {
        let head = slice_subrange(chars.as_slice(), 0, i);
        let tail = slice_subrange(chars.as_slice(), i + 1, n);
        proof {
            assert(raw@[i as int] == ':');
            assert(raw@.index_of_first(':')->0 == i) by {
                let k = raw@.index_of_first(':')->0;
                if k < i {
                    assert(chars@[k] != ':');
                }
            }
            assert(head@ =~= raw@.take(i as int));
            assert(tail@ =~= raw@.skip(i + 1));
        }
        PlacementField { generation: read_generation(head), mask: read_mask(tail) }
    } else {
        proof {
            assert(!raw@.contains(':'));
            numeral::empty_text_is_no_number();
        }
        PlacementField { generation: Generation::At(0), mask: read_mask(chars.as_slice()) }
    }
}

/// Writes a placement entry.
pub fn format_field(generation: u64, mask: &Number) -> (raw: String)
    requires
        mask.wf(),
    ensures
        raw@ == field_text(generation, *mask),
{
    let mut raw = decimal::decimal_u64(generation);
    raw.append(":");
    raw.append(numeral::write_number(mask).as_str());
    proof {
        reveal_strlit(":");
        assert(raw@ =~= field_text(generation, *mask));
    }
    raw
}

} // verus!
