//! What a caller is told and finds, call by call and over calls that follow each other.

use vstd::prelude::*;

use crate::block::{Block, BlockError, ClearReply, Entry, HitClaim, Hits};
use crate::client;
use crate::client::{
    Deadline, GrpcPrefixIndex, MatchExternalKvPrefixRequest, MatchExternalKvPrefixResponse,
    PrefixIndexConfig, PrefixIndexError, PrefixOutcome, QueryPlan, QueryReply,
};
use crate::client_laws;
use crate::code::Code;
use crate::decimal;
use crate::entry_laws;
use crate::field;
use crate::field::{Generation, Mask, PlacementField};
use crate::numeral;
use crate::numeral::{Number, Reading};
use crate::placement_laws;
use crate::prefix;
use crate::prefix::KnownWorker;
use crate::prefix_laws;
use crate::scripts;
use crate::scripts::{LuaScript, Operation};
use crate::server;
use crate::tier;
use crate::worker::{CounterOverflow, Live, SeqReply, TouchReply, Worker, WorkerView};

verus! {

/// A worker that was never heard of is of generation zero, has no process, no address, no
/// sequence number and no mark, has left nobody behind and owes no wipe.
pub proof fn new_worker_is_blank(w: Worker)
    requires
        call_ensures(Worker::new, (), w),
    ensures
        w.generation == 0,
        w.incarnation is None,
        w.addr is None,
        !w.reset_pending,
        w.seq is None,
        !w.expiring,
        w.live is None,
        forall|token: Seq<char>| !#[trigger] w@.retired.contains(token),
{
}

/// A contact is answered with the generation that is then stored. It is turned away
/// exactly with a token that was left behind, and fails only where a restart can no longer
/// be counted. Where it is neither, the mark is that of the contact if it carries a time
/// to live, and the address that of the contact if it carries one.
pub proof fn contact_is_answered(
    w: &mut Worker,
    now_ms: u64,
    ttl_ms: u64,
    addr: &str,
    incarnation: &str,
    reply: Result<TouchReply, CounterOverflow>,
)
    requires
        old(w)@.incarnation matches Some(token) ==> !old(w)@.retired.contains(token),
        old(w)@.incarnation is None ==> forall|token: Seq<char>|
            !#[trigger] old(w)@.retired.contains(token),
        call_ensures(Worker::touch_meta, (w, now_ms, ttl_ms, addr, incarnation), reply),
    ensures
        ({
            let left_behind = incarnation@.len() > 0 && old(w)@.retired.contains(incarnation@);
            let restart = incarnation@.len() > 0 && !left_behind && old(w)@.incarnation is Some
                && old(w)@.incarnation != Some(incarnation@);
            &&& reply is Err <==> restart && old(w).generation >= i64::MAX
            &&& reply is Err ==> {
                &&& final(w).generation == old(w).generation
                &&& final(w)@.incarnation == old(w)@.incarnation
                &&& final(w)@.addr == old(w)@.addr
                &&& final(w).reset_pending == old(w).reset_pending
                &&& final(w).live == old(w).live
                &&& forall|token: Seq<char>| #[trigger]
                    final(w)@.retired.contains(token) <==> old(w)@.retired.contains(token)
                        || old(w)@.incarnation == Some(token)
            }
            &&& reply matches Ok(answer) ==> {
                &&& answer.generation == final(w).generation
                &&& answer.status == if left_behind {
                    -1
                } else if final(w).reset_pending {
                    1
                } else {
                    0
                }
                &&& final(w).generation == old(w).generation + if restart {
                    1int
                } else {
                    0int
                }
                &&& final(w).reset_pending == (old(w).reset_pending || restart)
                &&& final(w)@.incarnation == if incarnation@.len() > 0 && !left_behind {
                    Some(incarnation@)
                } else {
                    old(w)@.incarnation
                }
                &&& final(w)@.addr == if addr@.len() > 0 && !left_behind {
                    Some(addr@)
                } else {
                    old(w)@.addr
                }
                &&& final(w).live == if ttl_ms > 0 && !left_behind {
                    Some(Live { stamp_ms: now_ms, ttl_ms })
                } else {
                    old(w).live
                }
                &&& forall|token: Seq<char>| #[trigger]
                    final(w)@.retired.contains(token) <==> old(w)@.retired.contains(token) || (
                    restart && old(w)@.incarnation == Some(token))
            }
            &&& final(w).seq == old(w).seq
            &&& !final(w).expiring
        }),
{
}

/// Routing is given the stored address, empty where there is none, the generation, and
/// whether the worker is alive: no wipe is owed and, where liveness is watched, the mark
/// lasts.
pub proof fn view_tells_the_records(w: Worker, ttl_enabled: bool, view: WorkerView)
    requires
        call_ensures(Worker::worker_view, (&w, ttl_enabled), view),
    ensures
        view.generation == w.generation,
        w.addr matches Some(addr) ==> view.addr@ == addr@,
        w.addr is None ==> view.addr@.len() == 0,
        view.alive <==> !w.reset_pending && (ttl_enabled ==> w.live is Some),
{
}

/// A check tells the stored sequence number and whether the batch is to be applied.
pub proof fn check_tells_the_last(w: Worker, seq: u64, expected_generation: u64, reply: SeqReply)
    requires
        call_ensures(Worker::seq_check, (&w, seq, expected_generation), reply),
    ensures
        reply.last == w.seq,
        reply.status == if expected_generation != w.generation {
            -1
        } else if w.seq is Some && seq <= w.seq->0 {
            0
        } else {
            1
        },
{
}

/// A commit tells the sequence number that is then stored, the larger of the two, and
/// whether it was of the running generation. It touches nothing else.
pub proof fn commit_tells_the_last(
    w: &mut Worker,
    seq: u64,
    expected_generation: u64,
    reply: SeqReply,
)
    requires
        call_ensures(Worker::seq_commit, (w, seq, expected_generation), reply),
    ensures
        reply.last == final(w).seq,
        expected_generation != old(w).generation ==> reply.status == -1 && final(w).seq == old(
            w,
        ).seq,
        expected_generation == old(w).generation ==> reply.status == 1 && final(w).seq == Some(
            if old(w).seq is Some && old(w).seq->0 > seq {
                old(w).seq->0
            } else {
                seq
            },
        ),
        final(w).generation == old(w).generation,
        final(w)@.incarnation == old(w)@.incarnation,
        final(w)@.addr == old(w)@.addr,
        final(w).reset_pending == old(w).reset_pending,
        final(w).expiring == old(w).expiring,
        final(w).live == old(w).live,
        final(w)@.retired == old(w)@.retired,
{
}

/// A batch that has been committed is taken for applied by the next check of its
/// generation, and the one after it is let through, unless a later one was committed
/// before.
pub proof fn committed_batch_is_known_to_the_next_check(
    w: &mut Worker,
    seq: u64,
    committed: SeqReply,
    next: u64,
    checked: SeqReply,
)
    requires
        call_ensures(Worker::seq_commit, (w, seq, old(w).generation), committed),
        call_ensures(Worker::seq_check, (&*final(w), next, old(w).generation), checked),
    ensures
        next <= seq ==> checked.status == 0,
        next > seq && (old(w).seq matches Some(last) ==> next > last) ==> checked.status == 1,
        checked.last == committed.last,
{
}

/// Finishing a wipe tells whether there was one to finish in the running generation, and
/// then opens the generation: the wipe is owed no more and any batch may come first.
pub proof fn finish_tells_and_opens(w: &mut Worker, expected_generation: u64, status: i64)
    requires
        call_ensures(Worker::reset_finish, (w, expected_generation), status),
    ensures
        status == if expected_generation != old(w).generation {
            -1
        } else if old(w).reset_pending {
            1
        } else {
            0
        },
        status == 1 ==> final(w).seq is None && !final(w).reset_pending,
        status != 1 ==> final(w).seq == old(w).seq && final(w).reset_pending == old(
            w,
        ).reset_pending,
        final(w).generation == old(w).generation,
        final(w)@.incarnation == old(w)@.incarnation,
        final(w)@.addr == old(w)@.addr,
        final(w).expiring == old(w).expiring,
        final(w).live == old(w).live,
        final(w)@.retired == old(w)@.retired,
{
}

/// A block that no worker holds has no entry and no counter.
pub proof fn new_block_is_blank(block: Block)
    requires
        call_ensures(Block::new, (), block),
    ensures
        block.wf(),
        block@.hits is None,
        forall|w: Seq<char>| !#[trigger] block@.fields.contains_key(w),
{
}

/// A loaded block has the given counter and, for each worker that is named, the last text
/// given for it.
pub proof fn loaded_block_is_as_stored(
    entries: Vec<Entry>,
    hits: Option<Hits>,
    block: Block,
    i: int,
)
    requires
        call_ensures(Block::load, (&entries, hits), block),
        0 <= i < entries@.len(),
        forall|j: int|
            i < j < entries@.len() ==> (#[trigger] entries@[j]).worker_id@
                != entries@[i].worker_id@,
    ensures
        block.wf(),
        block@.hits == hits,
        block@.fields.contains_key(entries@[i].worker_id@),
        block@.fields[entries@[i].worker_id@] == entries@[i].raw@,
        forall|w: Seq<char>| #[trigger]
            block@.fields.contains_key(w) ==> exists|k: int|
                0 <= k < entries@.len() && (#[trigger] entries@[k]).worker_id@ == w,
{
    entry_laws::last_text_counts(entries@, entries@[i].worker_id@);
    assert forall|w: Seq<char>| #[trigger] block@.fields.contains_key(w) implies exists|k: int|
        0 <= k < entries@.len() && (#[trigger] entries@[k]).worker_id@ == w by {
        entry_laws::last_text_counts(entries@, w);
    }
}

/// An entry that has been stored is what is found, and nothing else has changed.
pub proof fn stored_entry_is_found(
    block: &mut Block,
    worker_id: &str,
    raw: String,
    found: Option<PlacementField>,
)
    requires
        old(block).wf(),
        call_ensures(Block::put_entry, (block, worker_id, raw), ()),
        call_ensures(Block::get, (&*final(block), worker_id), found),
    ensures
        final(block).wf(),
        found == Some(field::field_of(raw@)),
        final(block)@.fields[worker_id@] == raw@,
        final(block)@.fields.remove(worker_id@) =~= old(block)@.fields.remove(worker_id@),
        final(block)@.hits == old(block)@.hits,
{
}

/// A worker without an entry is found to have none.
pub proof fn missing_entry_is_not_found(block: Block, worker_id: &str, found: Option<PlacementField>)
    requires
        call_ensures(Block::get, (&block, worker_id), found),
    ensures
        found is Some <==> block@.fields.contains_key(worker_id@),
        found matches Some(f) ==> f == field::field_of(block@.fields[worker_id@]),
{
}

/// A tier of a worker without an entry, or with an entry of its generation that can be
/// read, is set: the worker is then found to have an entry of its generation with the bit
/// set, and is told whether it had to be added.
pub proof fn set_tier_is_found(
    block: &mut Block,
    worker_id: &str,
    bit: u64,
    generation: u64,
    reply: Result<i64, BlockError>,
    found: Option<PlacementField>,
)
    requires
        old(block).wf(),
        tier::is_tier_bit(bit),
        !old(block)@.fields.contains_key(worker_id@) || (old(block)@.field(worker_id@) matches Some(
            f,
        ) && f.generation == Generation::At(generation) && f.mask is Held),
        call_ensures(Block::placement_set, (block, worker_id, bit, generation), reply),
        call_ensures(Block::get, (&*final(block), worker_id), found),
    ensures
        ({
            let floor = old(block)@.held(worker_id@, generation).floor as int;
            let set = (floor / bit as int) % 2 == 1;
            &&& final(block).wf()
            &&& reply == Ok::<i64, BlockError>(
                if set {
                    0
                } else {
                    1
                },
            )
            &&& found matches Some(
                PlacementField { generation: Generation::At(g), mask: Mask::Held(n) },
            )
            &&& g == generation
            &&& n.floor == if set {
                floor
            } else {
                floor + bit
            }
            &&& (n.floor as int / bit as int) % 2 == 1
            &&& final(block)@.fields.remove(worker_id@) =~= old(block)@.fields.remove(worker_id@)
            &&& final(block)@.hits == old(block)@.hits
        }),
{
    let s = old(block)@;
    entry_laws::refused_exactly_if_it_does_not_fit(s, worker_id@, bit, generation);
    entry_laws::generations_are_ordered(s.owner(worker_id@), generation);
    entry_laws::set_adds_the_bit(s, worker_id@, bit, generation);
    placement_laws::set_records_the_tier(s, worker_id@, bit, generation);
    tier::clearing_from_nothing(bit);
    tier::with_tier_changes_one_bit(s.held(worker_id@, generation).floor as int, bit);
}

/// Setting a tier fails only where a number that decides cannot be read, or the sum does
/// not fit; an older writer is turned away. In each case nothing changes.
pub proof fn set_that_is_not_done_changes_nothing(
    block: &mut Block,
    worker_id: &str,
    bit: u64,
    generation: u64,
    reply: Result<i64, BlockError>,
)
    requires
        old(block).wf(),
        call_ensures(Block::placement_set, (block, worker_id, bit, generation), reply),
    ensures
        final(block).wf(),
        (reply matches Ok(code) && code == -1) <==> old(block)@.owner(worker_id@).newer(generation),
        reply != Ok::<i64, BlockError>(1) ==> final(block)@ == old(block)@,
        reply == Err::<i64, BlockError>(BlockError::Unreadable) <==> old(block)@.set_unreadable(
            worker_id@,
            generation,
        ),
        reply == Err::<i64, BlockError>(BlockError::MaskOverflow) ==> old(block)@.held(
            worker_id@,
            generation,
        ).floor + bit > i128::MAX,
        reply != Err::<i64, BlockError>(BlockError::CounterOverflow),
{
    let s = old(block)@;
    entry_laws::refused_exactly_if_it_does_not_fit(s, worker_id@, bit, generation);
    entry_laws::generations_are_ordered(s.owner(worker_id@), generation);
}

/// A cleared tier is found no more, and the answer tells the truth: the worker is reported
/// gone exactly if it is left with nothing, and the block empty exactly if no entry is
/// left. The counter stays while an entry does.
pub proof fn cleared_tier_is_not_found(
    block: &mut Block,
    worker_id: &str,
    bit: u64,
    generation: u64,
    mask: Number,
    reply: Result<ClearReply, BlockError>,
    found: Option<PlacementField>,
)
    requires
        old(block).wf(),
        tier::is_tier_bit(bit),
        old(block)@.field(worker_id@) == Some(
            PlacementField { generation: Generation::At(generation), mask: Mask::Held(mask) },
        ),
        call_ensures(Block::placement_clear, (block, worker_id, bit, generation), reply),
        call_ensures(Block::get, (&*final(block), worker_id), found),
    ensures
        ({
            let set = (mask.floor as int / bit as int) % 2 == 1;
            let left = if set {
                mask.floor - bit
            } else {
                mask.floor as int
            };
            let nothing = left == 0 && mask.fraction == 0;
            let empty = forall|w: Seq<char>| !#[trigger] final(block)@.fields.contains_key(w);
            &&& final(block).wf()
            &&& reply matches Ok(answer) && answer.worker_gone == (if nothing {
                1int
            } else {
                0int
            }) && answer.key_empty == empty
            &&& found is None <==> nothing
            &&& found matches Some(f) ==> f == (PlacementField {
                generation: Generation::At(generation),
                mask: Mask::Held(Number { floor: left as i128, ..mask }),
            }) && (left / bit as int) % 2 == 0
            &&& final(block)@.fields.remove(worker_id@) =~= old(block)@.fields.remove(worker_id@)
            &&& final(block)@.hits == if empty {
                None
            } else {
                old(block)@.hits
            }
        }),
{
    let s = old(block)@;
    entry_laws::refused_exactly_if_it_does_not_fit(s, worker_id@, bit, generation);
    entry_laws::clear_takes_the_bit_away(s, worker_id@, bit, generation);
    entry_laws::empty_means_no_entry(final(block)@);
    tier::without_tier_changes_one_bit(mask.floor as int, bit);
    let k = choose|k: nat| bit == #[trigger] vstd::arithmetic::power2::pow2(k);
    vstd::arithmetic::power2::lemma_pow2_pos(k);
    assert(s.held(worker_id@, generation) == mask);
}

/// Clearing a tier of a worker that has no entry reports it gone and touches no entry;
/// the block is reported empty exactly if nobody has one.
pub proof fn clearing_what_is_gone_reports_it_gone(
    block: &mut Block,
    worker_id: &str,
    bit: u64,
    generation: u64,
    reply: Result<ClearReply, BlockError>,
)
    requires
        old(block).wf(),
        !old(block)@.fields.contains_key(worker_id@),
        call_ensures(Block::placement_clear, (block, worker_id, bit, generation), reply),
    ensures
        ({
            let empty = forall|w: Seq<char>| !#[trigger] old(block)@.fields.contains_key(w);
            &&& reply matches Ok(answer) && answer.worker_gone == 1 && answer.key_empty == empty
            &&& final(block)@.fields =~= old(block)@.fields
            &&& final(block)@.hits == if empty {
                None
            } else {
                old(block)@.hits
            }
        }),
{
    let s = old(block)@;
    tier::clearing_from_nothing(bit);
    entry_laws::clear_takes_the_bit_away(s, worker_id@, bit, generation);
    entry_laws::empty_means_no_entry(final(block)@);
    entry_laws::empty_means_no_entry(s);
    assert(final(block)@.fields =~= s.fields);
}

/// Clearing a tier that a newer generation owns is turned away and changes nothing.
/// Clearing fails only where a number that decides cannot be read, or the difference does
/// not fit, and then changes nothing either.
pub proof fn clear_that_is_not_done_changes_nothing(
    block: &mut Block,
    worker_id: &str,
    bit: u64,
    generation: u64,
    reply: Result<ClearReply, BlockError>,
)
    requires
        old(block).wf(),
        call_ensures(Block::placement_clear, (block, worker_id, bit, generation), reply),
    ensures
        final(block).wf(),
        reply is Err ==> final(block)@ == old(block)@,
        reply matches Ok(answer) ==> (answer.worker_gone == -1 ==> final(block)@ == old(block)@
            && !answer.key_empty),
        reply == Err::<ClearReply, BlockError>(BlockError::Unreadable) <==> old(
            block,
        )@.clear_unreadable(worker_id@, generation),
        reply == Err::<ClearReply, BlockError>(BlockError::MaskOverflow) ==> old(block)@.held(
            worker_id@,
            generation,
        ).floor - bit < i128::MIN,
        reply != Err::<ClearReply, BlockError>(BlockError::CounterOverflow),
        old(block)@.owner(worker_id@).newer(generation) && old(block)@.field(worker_id@)->0.mask
            is Held ==> (reply matches Ok(answer) && answer.worker_gone == -1),
{
    let s = old(block)@;
    tier::clearing_from_nothing(bit);
    entry_laws::refused_exactly_if_it_does_not_fit(s, worker_id@, bit, generation);
    entry_laws::generations_are_ordered(s.owner(worker_id@), generation);
    if !s.clear_unreadable(worker_id@, generation) && !s.clear_overflows(
        worker_id@,
        bit,
        generation,
    ) {
        entry_laws::clear_takes_the_bit_away(s, worker_id@, bit, generation);
    }
}

/// After outdated entries were dropped, a worker is found exactly if it had an entry that
/// is not outdated, and that one as it was. It fails exactly where the generation cannot
/// be read, and then changes nothing.
pub proof fn outdated_entry_is_not_found(
    block: &mut Block,
    worker_id: &str,
    generation: u64,
    reply: Result<(), BlockError>,
    found: Option<PlacementField>,
)
    requires
        old(block).wf(),
        call_ensures(Block::placement_clear_worker, (block, worker_id, generation), reply),
        call_ensures(Block::get, (&*final(block), worker_id), found),
    ensures
        ({
            let owner = old(block)@.owner(worker_id@);
            let empty = forall|w: Seq<char>| !#[trigger] final(block)@.fields.contains_key(w);
            &&& final(block).wf()
            &&& reply is Err <==> owner == Generation::Unknown
            &&& reply is Err ==> final(block)@ == old(block)@
            &&& reply is Ok ==> {
                &&& found == if owner.older(generation) {
                    None
                } else {
                    old(block)@.field(worker_id@)
                }
                &&& final(block)@.fields.remove(worker_id@) =~= old(block)@.fields.remove(
                    worker_id@,
                )
                &&& final(block)@.hits == if empty {
                    None
                } else {
                    old(block)@.hits
                }
            }
        }),
{
    let s = old(block)@;
    if s.owner(worker_id@) != Generation::Unknown {
        entry_laws::outdated_entry_is_dropped(s, worker_id@, generation);
    }
}

/// A match is counted once for all its workers, exactly if one of them still has an entry
/// of the generation in which it was matched: the counter that is then found stands one
/// higher, with the time of the match. Where it is not counted, the counter is as it was.
/// No entry is touched.
pub proof fn counted_match_is_found(
    block: &mut Block,
    now_ms: u64,
    claims: Vec<HitClaim>,
    reply: Result<i64, BlockError>,
    found: Option<Hits>,
)
    requires
        old(block).wf(),
        forall|i: int|
            0 <= i < claims@.len() ==> entry_laws::claim_can_be_told(
                old(block)@,
                ((#[trigger] claims@[i]).worker_id@, claims@[i].generation),
            ),
        call_ensures(Block::hit_bump, (block, now_ms, &claims), reply),
        call_ensures(Block::hits, (&*final(block),), found),
    ensures
        ({
            let before = match old(block)@.hits {
                Some(hits) => hits.count as int,
                None => 0,
            };
            let counts = exists|i: int|
                0 <= i < claims@.len() && entry_laws::claim_holds(
                    old(block)@,
                    ((#[trigger] claims@[i]).worker_id@, claims@[i].generation),
                );
            &&& final(block).wf()
            &&& final(block)@.fields == old(block)@.fields
            &&& found == final(block)@.hits
            &&& counts && before < i64::MAX ==> reply == Ok::<i64, BlockError>(1) && found == Some(
                Hits { count: (before + 1) as i64, last_seen: now_ms },
            )
            &&& counts && before == i64::MAX ==> reply == Err::<i64, BlockError>(
                BlockError::CounterOverflow,
            ) && found == old(block)@.hits
            &&& !counts ==> reply == Ok::<i64, BlockError>(0) && found == old(block)@.hits
        }),
{
    let s = old(block)@;
    let cs = crate::block::claim_seq(claims@);
    assert forall|i: int| 0 <= i < cs.len() implies entry_laws::claim_can_be_told(
        s,
        #[trigger] cs[i],
    ) by {
        assert(cs[i] == (claims@[i].worker_id@, claims@[i].generation));
    }
    entry_laws::match_counts_exactly_if_a_claim_holds(s, cs);
    if exists|i: int|
        0 <= i < claims@.len() && entry_laws::claim_holds(
            s,
            ((#[trigger] claims@[i]).worker_id@, claims@[i].generation),
        ) {
        let i = choose|i: int|
            0 <= i < claims@.len() && entry_laws::claim_holds(
                s,
                ((#[trigger] claims@[i]).worker_id@, claims@[i].generation),
            );
        assert(entry_laws::claim_holds(s, cs[i]));
    }
    if exists|i: int| 0 <= i < cs.len() && entry_laws::claim_holds(s, #[trigger] cs[i]) {
        let i = choose|i: int| 0 <= i < cs.len() && entry_laws::claim_holds(s, #[trigger] cs[i]);
        assert(entry_laws::claim_holds(s, (claims@[i].worker_id@, claims@[i].generation)));
    }
}

/// A query for blocks is answered with every worker that is alive, has an address and
/// holds the first block, and with nobody else, each with the run of blocks that it holds.
pub proof fn query_is_answered_from_the_placements(
    workers: Vec<KnownWorker>,
    blocks: Vec<Block>,
    response: MatchExternalKvPrefixResponse,
    i: int,
    k: int,
)
    requires
        blocks@.len() <= u32::MAX,
        call_ensures(prefix::match_external_kv_prefix, (&workers, &blocks), response),
    ensures
        ({
            let states = blocks@.map_values(|b: Block| b@);
            let ms = response.matches@;
            &&& 0 <= i < workers@.len() && prefix_laws::is_due(workers@[i], states) ==> exists|
                n: int,
            |
                0 <= n < ms.len() && prefix_laws::names(#[trigger] ms[n], workers@[i], states)
            &&& 0 <= k < ms.len() ==> exists|n: int|
                0 <= n < workers@.len() && prefix_laws::is_due(#[trigger] workers@[n], states)
                    && prefix_laws::names(ms[k], workers@[n], states)
            &&& ms.len() == workers@.filter(
                |w: KnownWorker| prefix_laws::is_due(w, states),
            ).len()
            &&& client_laws::answer_in_order(response)
            &&& response.blocks_read == blocks@.len()
            &&& ms.len() == 0 ==> response.best_prefix_blocks == 0
        }),
{
    let states = blocks@.map_values(|b: Block| b@);
    assert(prefix::block_states(blocks@) =~= states);
    if 0 <= i < workers@.len() && prefix_laws::is_due(workers@[i], states) {
        prefix_laws::due_worker_is_named(workers@, states, response, i);
    }
    if 0 <= k < response.matches@.len() {
        prefix_laws::named_worker_is_due(workers@, states, response, k);
    }
    prefix_laws::answer_is_complete_and_falling(workers@, states, response);
    prefix_laws::answer_is_in_order(workers@, states, response);
}

/// Whether an endpoint could be parsed decides whether there is one to ask; the deadline is
/// the configured one.
pub proof fn index_keeps_its_configuration(
    accepted: bool,
    config: PrefixIndexConfig,
    index: GrpcPrefixIndex,
    endpoint: Option<&String>,
    deadline: Deadline,
)
    requires
        call_ensures(GrpcPrefixIndex::with_endpoint, (accepted, config), index),
        call_ensures(GrpcPrefixIndex::endpoint, (&index,), endpoint),
        call_ensures(GrpcPrefixIndex::deadline, (&index,), deadline),
    ensures
        endpoint is Some <==> accepted,
        endpoint matches Some(text) ==> text@ == config.endpoint@,
        deadline == config.query_deadline,
{
}

/// A configuration keeps the endpoint as it is given, and allows a tenth of a second.
pub proof fn default_configuration_allows_a_tenth_of_a_second(
    endpoint: &str,
    config: PrefixIndexConfig,
)
    requires
        call_ensures(PrefixIndexConfig::new, (endpoint,), config),
    ensures
        config.endpoint@ == endpoint@,
        config.query_deadline.secs == 0,
        config.query_deadline.nanos == 100_000_000,
{
}

/// A span of milliseconds is that many thousandths of a second.
pub proof fn milliseconds_are_thousandths(millis: u64, deadline: Deadline)
    requires
        call_ensures(Deadline::from_millis, (millis,), deadline),
    ensures
        deadline.secs == millis / 1000,
        deadline.nanos == (millis % 1000) * 1_000_000,
{
    let secs = deadline.secs as int;
    let nanos = deadline.nanos as int;
    let q = millis as int / 1000;
    let r = millis as int % 1000;
    assert(millis == q * 1000 + r && 0 <= r < 1000);
    assert(secs * 1_000_000_000 + nanos == q * 1_000_000_000 + r * 1_000_000);
    assert(secs == q && nanos == r * 1_000_000) by (nonlinear_arith)
        requires
            secs * 1_000_000_000 + nanos == q * 1_000_000_000 + r * 1_000_000,
            0 <= nanos < 1_000_000_000,
            0 <= r < 1000,
    ;
}

/// A query is asked exactly if there is an endpoint and there are hashes, and then with one
/// numeral for each. Without an endpoint it fails as unreachable; without hashes it is
/// empty.
pub proof fn query_is_asked_exactly_with_need(
    index: GrpcPrefixIndex,
    endpoint: Option<&String>,
    hashes: Vec<i64>,
    plan: QueryPlan,
)
    requires
        call_ensures(GrpcPrefixIndex::endpoint, (&index,), endpoint),
        call_ensures(GrpcPrefixIndex::plan, (&index, &hashes), plan),
    ensures
        plan is Ask <==> endpoint is Some && hashes@.len() > 0,
        plan matches QueryPlan::Ask(request) ==> request.max_blocks == 0
            && request.hashes@.len() == hashes@.len() && forall|i: int|
            0 <= i < hashes@.len() ==> (#[trigger] request.hashes@[i])@ == decimal::decimal_int(
                hashes@[i] as int,
            ),
        endpoint is None ==> plan == QueryPlan::Settled(Err(PrefixIndexError::Unreachable)),
        endpoint is Some && hashes@.len() == 0 ==> plan == QueryPlan::Settled(
            Ok(PrefixOutcome::Empty),
        ),
{
}

/// The end of a query is turned into its result: a failure into an error that tells its
/// cause, an answer that names nobody into an empty result, and any other answer into the
/// workers that it names, as it names them.
pub proof fn reply_becomes_the_result(
    reply: QueryReply,
    result: Result<PrefixOutcome, PrefixIndexError>,
)
    requires
        call_ensures(GrpcPrefixIndex::conclude, (reply,), result),
    ensures
        reply is DeadlineElapsed ==> result == Err::<PrefixOutcome, PrefixIndexError>(
            PrefixIndexError::Timeout,
        ),
        reply matches QueryReply::Failed(code) ==> result == Err::<PrefixOutcome, PrefixIndexError>(
            if code == Code::Unavailable {
                PrefixIndexError::Unreachable
            } else if code == Code::DeadlineExceeded {
                PrefixIndexError::Timeout
            } else {
                PrefixIndexError::Rejected(code)
            },
        ),
        reply matches QueryReply::Answered(response) ==> {
            &&& response.matches@.len() == 0 <==> result == Ok::<PrefixOutcome, PrefixIndexError>(
                PrefixOutcome::Empty,
            )
            &&& response.matches@.len() > 0 ==> {
                &&& result matches Ok(PrefixOutcome::Matched { matches, best_prefix_blocks })
                &&& best_prefix_blocks == response.best_prefix_blocks
                &&& matches@.len() == response.matches@.len()
                &&& forall|i: int|
                    0 <= i < matches@.len() ==> {
                        &&& (#[trigger] matches@[i]).address == response.matches@[i].worker_address
                        &&& matches@[i].worker_id == response.matches@[i].worker_id
                        &&& matches@[i].matched_prefix_blocks
                            == response.matches@[i].matched_prefix_blocks
                    }
            }
        },
{
    if let QueryReply::Answered(response) = reply {
        client_laws::outcome_repeats_the_answer(response, result);
    }
}

/// A failed status is sorted into the kinds of error by what it says of the service.
pub proof fn status_is_sorted(code: Code, error: PrefixIndexError)
    requires
        call_ensures(client::classify, (code,), error),
    ensures
        error == PrefixIndexError::Unreachable <==> code == Code::Unavailable,
        error == PrefixIndexError::Timeout <==> code == Code::DeadlineExceeded,
        code != Code::Unavailable && code != Code::DeadlineExceeded ==> error
            == PrefixIndexError::Rejected(code),
{
}

/// Hashes are written one by one, in their order, and no two look alike.
pub proof fn hashes_are_written_one_by_one(
    hashes: Vec<i64>,
    encoded: Vec<String>,
    i: int,
    j: int,
)
    requires
        call_ensures(client::encode_hashes, (&hashes,), encoded),
        0 <= i < hashes@.len(),
        0 <= j < hashes@.len(),
    ensures
        encoded@.len() == hashes@.len(),
        encoded@[i]@ == decimal::decimal_int(hashes@[i] as int),
        encoded@[i]@ == encoded@[j]@ <==> hashes@[i] == hashes@[j],
{
    if encoded@[i]@ == encoded@[j]@ {
        decimal::decimal_int_is_injective(hashes@[i] as int, hashes@[j] as int);
    }
}

/// A status survives the way over its number, and each number stands for its status.
pub proof fn status_survives_its_number(code: Code, number: i32, back: Code)
    requires
        call_ensures(Code::number, (code,), number),
        call_ensures(Code::from_i32, (number,), back),
    ensures
        back == code,
        0 <= number <= 16,
        code == Code::Success <==> number == 0,
        code == Code::DeadlineExceeded <==> number == 4,
        code == Code::Unavailable <==> number == 14,
{
    client_laws::each_status_has_its_number(number);
}

/// An error in words says what failed.
pub proof fn message_says_what_failed(error: PrefixIndexError, text: String)
    requires
        call_ensures(PrefixIndexError::message, (&error,), text),
    ensures
        error is Unreachable ==> text@ == "KV Indexer is unreachable"@,
        error is Timeout ==> text@ == "KV Indexer query timed out"@,
        error matches PrefixIndexError::Rejected(code) ==> text@
            == "KV Indexer rejected the query with "@ + crate::code::meaning(code),
{
}

/// The service listens where it is told to, and else on the local address.
pub proof fn listens_where_it_is_told(configured: Option<String>, addr: String)
    requires
        call_ensures(server::listen_addr, (configured,), addr),
    ensures
        configured matches Some(text) ==> addr@ == text@,
        configured is None ==> addr@ == "[::1]:50051"@,
{
}

/// Each operation is prepared with its own program, under the digest of that program.
pub proof fn operation_has_its_program(operation: Operation, script: LuaScript)
    requires
        call_ensures(LuaScript::of, (operation,), script),
    ensures
        script.digest@ == scripts::script_digest(script.code@),
        operation is TouchMeta ==> script.code@ == scripts::TOUCH_META@,
        operation is WorkerView ==> script.code@ == scripts::WORKER_VIEW@,
        operation is PlacementClearWorker ==> script.code@ == scripts::PLACEMENT_CLEAR_WORKER@,
        operation is SeqCheck ==> script.code@ == scripts::SEQ_CHECK@,
        operation is SeqCommit ==> script.code@ == scripts::SEQ_COMMIT@,
        operation is ResetFinish ==> script.code@ == scripts::RESET_FINISH@,
        operation is PlacementSet ==> script.code@ == scripts::PLACEMENT_SET@,
        operation is PlacementClear ==> script.code@ == scripts::PLACEMENT_CLEAR@,
        operation is MatchHash ==> script.code@ == scripts::MATCH_HASH@,
        operation is HitBump ==> script.code@ == scripts::HIT_BUMP@,
{
}

/// A tier that is set is found set, one that is cleared is found clear, and neither changes
/// another tier or fails.
pub proof fn tier_is_found_as_it_was_left(
    mask: i128,
    bit: u64,
    other: u64,
    set: Option<i128>,
    cleared: Option<i128>,
    before: bool,
)
    requires
        tier::is_tier_bit(bit),
        tier::is_tier_bit(other),
        bit != other,
        call_ensures(tier::set_tier, (mask, bit), set),
        call_ensures(tier::clear_tier, (mask, bit), cleared),
        call_ensures(tier::tier_is_set, (mask, other), before),
    ensures
        set matches Some(m) && (m as int / bit as int) % 2 == 1 && ((m as int / other as int) % 2
            == 1) == before && (m == mask || m == mask + bit),
        cleared matches Some(m) && (m as int / bit as int) % 2 == 0 && ((m as int / other as int)
            % 2 == 1) == before && (m == mask || m == mask - bit),
        before == ((mask as int / other as int) % 2 == 1),
{
    tier::with_tier_changes_one_bit(mask as int, bit);
    tier::without_tier_changes_one_bit(mask as int, bit);
    let k = choose|k: nat| bit == #[trigger] vstd::arithmetic::power2::pow2(k);
    vstd::arithmetic::power2::lemma_pow2_pos(k);
    let j = choose|j: nat| other == #[trigger] vstd::arithmetic::power2::pow2(j);
    vstd::arithmetic::power2::lemma_pow2_pos(j);
    let a = tier::with_tier(mask as int, bit);
    let b = tier::without_tier(mask as int, bit);
    assert(tier::has_tier(a, other) == tier::has_tier(mask as int, other));
    assert(tier::has_tier(b, other) == tier::has_tier(mask as int, other));
}

/// A number that is written is read back as it was.
pub proof fn written_number_is_read_back(n: Number, text: String, chars: &[char], reading: Reading)
    requires
        n.wf(),
        call_ensures(numeral::write_number, (&n,), text),
        chars@ == text@,
        call_ensures(numeral::read_number, (chars,), reading),
    ensures
        reading == Reading::Number(n),
{
    numeral::number_reads_back(n);
}

/// An entry that is written is read back as it was.
pub proof fn written_entry_is_read_back(
    generation: u64,
    mask: Number,
    raw: String,
    text: &str,
    found: PlacementField,
)
    requires
        mask.wf(),
        call_ensures(field::format_field, (generation, &mask), raw),
        text@ == raw@,
        call_ensures(field::parse_field, (text,), found),
    ensures
        found.generation == Generation::At(generation),
        found.mask == Mask::Held(mask),
{
    field::field_reads_back(generation, mask);
}

/// Without an endpoint a query fails as unreachable, without hashes it is empty, and else
/// it asks for one numeral per hash: it succeeds exactly if it is answered, and is late if
/// the deadline passed.
pub proof fn query_makes_the_result_of_the_reply<
    F: FnOnce(MatchExternalKvPrefixRequest) -> QueryReply,
>(
    index: GrpcPrefixIndex,
    endpoint: Option<&String>,
    hashes: Vec<i64>,
    ask: F,
    result: Result<PrefixOutcome, PrefixIndexError>,
)
    requires
        call_ensures(GrpcPrefixIndex::endpoint, (&index,), endpoint),
        call_ensures(GrpcPrefixIndex::match_prefix::<F>, (&index, hashes, ask), result),
    ensures
        endpoint is None ==> result == Err::<PrefixOutcome, PrefixIndexError>(
            PrefixIndexError::Unreachable,
        ),
        endpoint is Some && hashes@.len() == 0 ==> result == Ok::<PrefixOutcome, PrefixIndexError>(
            PrefixOutcome::Empty,
        ),
        endpoint is Some && hashes@.len() > 0 ==> exists|
            request: MatchExternalKvPrefixRequest,
            reply: QueryReply,
        | #[trigger]
            call_ensures(ask, (request,), reply) && request.max_blocks == 0
                && request.hashes@.len() == hashes@.len() && (forall|i: int|
                0 <= i < hashes@.len() ==> (#[trigger] request.hashes@[i])@ == decimal::decimal_int(
                    hashes@[i] as int,
                )) && (result is Ok <==> reply is Answered) && (reply is DeadlineElapsed ==> result
                == Err::<PrefixOutcome, PrefixIndexError>(PrefixIndexError::Timeout)),
{
}

/// The endpoint that is asked is the configured one where it could be parsed, and else
/// there is none; the deadline is the configured one.
pub proof fn new_index_asks_what_is_configured(
    config: PrefixIndexConfig,
    index: GrpcPrefixIndex,
    endpoint: Option<&String>,
    deadline: Deadline,
)
    requires
        call_ensures(GrpcPrefixIndex::new, (config,), index),
        call_ensures(GrpcPrefixIndex::endpoint, (&index,), endpoint),
        call_ensures(GrpcPrefixIndex::deadline, (&index,), deadline),
    ensures
        endpoint is Some <==> client::endpoint_accepted(config.endpoint@),
        endpoint matches Some(text) ==> text@ == config.endpoint@,
        deadline == config.query_deadline,
{
}

/// The entries that are listed are those that are stored, each once and as it is.
pub proof fn listed_entries_are_the_stored_ones(block: Block, entries: &Vec<Entry>, w: Seq<char>)
    requires
        block.wf(),
        call_ensures(Block::match_hash, (&block,), entries),
    ensures
        block@.fields.contains_key(w) <==> exists|i: int|
            0 <= i < entries@.len() && (#[trigger] entries@[i]).worker_id@ == w,
        forall|i: int|
            0 <= i < entries@.len() && (#[trigger] entries@[i]).worker_id@ == w ==> entries@[i].raw@
                == block@.fields[w],
        forall|i: int, j: int|
            0 <= i < j < entries@.len() ==> (#[trigger] entries@[i]).worker_id@ != (
            #[trigger] entries@[j]).worker_id@,
{
}

/// A generation is told to be newer, older or neither by its place among the whole ones.
pub proof fn generation_is_told_by_its_place(
    owner: Generation,
    generation: u64,
    newer: bool,
    older: bool,
)
    requires
        call_ensures(Generation::is_newer, (owner, generation), newer),
        call_ensures(Generation::is_older, (owner, generation), older),
    ensures
        !(newer && older),
        owner matches Generation::At(g) ==> newer == (g > generation) && older == (g < generation),
        owner matches Generation::After(g) ==> newer == (g >= generation) && older == (g
            < generation),
        owner is Before ==> older && !newer,
        owner is Unknown ==> !older && !newer,
{
}

/// A number is written in its digits, no more than it takes, behind a sign exactly if it
/// is negative.
pub proof fn numeral_has_the_digits_of_its_number(n: u64, i: i64, a: String, b: String)
    requires
        call_ensures(decimal::decimal_u64, (n,), a),
        call_ensures(decimal::decimal_i64, (i,), b),
    ensures
        decimal::all_digits(a@) && decimal::digits_value(a@) == n,
        a@.len() > 1 ==> a@[0] != '0',
        i >= 0 ==> decimal::all_digits(b@) && decimal::digits_value(b@) == i,
        i < 0 ==> b@.len() > 1 && b@[0] == '-' && decimal::all_digits(b@.skip(1))
            && decimal::digits_value(b@.skip(1)) == -i,
{
    let size = if i < 0 {
        (-i) as nat
    } else {
        i as nat
    };
    decimal::decimal_nat_reads_back(n as nat);
    decimal::numeral_has_no_leading_zero(n as nat);
    decimal::decimal_nat_reads_back(size);
    if i < 0 {
        assert(b@.skip(1) =~= decimal::decimal_nat(size));
    }
}

} // verus!
