//! What an answer to a prefix query promises.

use vstd::prelude::*;

use crate::block::BlockState;
use crate::client::{
    ExternalKvPrefixMatch, MatchExternalKvPrefixResponse, PrefixIndexError, PrefixOutcome,
    QueryReply,
};
use crate::client;
use crate::client_laws;
use crate::field;
use crate::field::{Generation, Mask, PlacementField};
use crate::placement_laws;
use crate::prefix;
use crate::prefix::KnownWorker;
use crate::tier;
use crate::worker::{Contact, WorkerState};
use crate::worker_laws;
use crate::worker_laws::Step;

verus! {

proof fn lemma_found(workers: Seq<KnownWorker>, blocks: Seq<BlockState>)
    ensures
        forall|i: int|
            0 <= i < workers.len() && (#[trigger] workers[i]).matched(blocks) ==> prefix::found(
                workers,
                blocks,
            ).contains(workers[i].as_match(blocks)),
        forall|m: ExternalKvPrefixMatch| #[trigger]
            prefix::found(workers, blocks).contains(m) ==> exists|i: int|
                0 <= i < workers.len() && (#[trigger] workers[i]).matched(blocks)
                    && workers[i].as_match(blocks) == m,
{
    let pred = |w: KnownWorker| w.matched(blocks);
    let kept = workers.filter(pred);
    let all = prefix::found(workers, blocks);
    assert forall|i: int|
        0 <= i < workers.len() && (#[trigger] workers[i]).matched(blocks) implies all.contains(
        workers[i].as_match(blocks),
    ) by {
        workers.lemma_filter_contains(pred, i);
        let k = choose|k: int| 0 <= k < kept.len() && kept[k] == workers[i];
        assert(all[k] == workers[i].as_match(blocks));
    }
    assert forall|m: ExternalKvPrefixMatch| #[trigger] all.contains(m) implies exists|i: int|
        0 <= i < workers.len() && (#[trigger] workers[i]).matched(blocks) && workers[i].as_match(
            blocks,
        ) == m by {
        let k = choose|k: int| 0 <= k < all.len() && all[k] == m;
        workers.lemma_filter_pred(pred, k);
        assert(kept[k].as_match(blocks) == m);
        lemma_filter_subset(workers, pred, k);
        let i = choose|i: int| 0 <= i < workers.len() && workers[i] == kept[k];
        assert(workers[i].matched(blocks));
    }
}

proof fn lemma_filter_subset(
    workers: Seq<KnownWorker>,
    pred: spec_fn(KnownWorker) -> bool,
    k: int,
)
    requires
        0 <= k < workers.filter(pred).len(),
    ensures
        workers.contains(workers.filter(pred)[k]),
    decreases workers.len(),
{
    reveal(Seq::filter);
    let kept = workers.filter(pred);
    let earlier = workers.drop_last();
    if k < earlier.filter(pred).len() {
        lemma_filter_subset(earlier, pred, k);
        assert(kept[k] == earlier.filter(pred)[k]);
        let i = choose|i: int| 0 <= i < earlier.len() && earlier[i] == kept[k];
        assert(workers[i] == kept[k]);
    } else {
        assert(kept[k] == workers[workers.len() - 1]);
    }
}

/// An answer names exactly the workers that may be routed to and hold the first
/// block, each with its address and the length of its prefix.
pub proof fn answer_names_who_holds_a_prefix(
    workers: Seq<KnownWorker>,
    blocks: Seq<BlockState>,
    response: MatchExternalKvPrefixResponse,
)
    requires
        prefix::answers(workers, blocks, response),
    ensures
        forall|i: int|
            0 <= i < workers.len() && (#[trigger] workers[i]).routable() && blocks.len() > 0
                && workers[i].holds(blocks[0]) ==> response.matches@.contains(
                workers[i].as_match(blocks),
            ),
        forall|k: int|
            0 <= k < response.matches@.len() ==> exists|i: int|
                0 <= i < workers.len() && (#[trigger] workers[i]).matched(blocks)
                    && workers[i].as_match(blocks) == #[trigger] response.matches@[k],
{
    let ms = response.matches@;
    let all = prefix::found(workers, blocks);
    lemma_found(workers, blocks);
    assert forall|i: int|
        0 <= i < workers.len() && (#[trigger] workers[i]).routable() && blocks.len() > 0
            && workers[i].holds(blocks[0]) implies ms.contains(workers[i].as_match(blocks)) by {
        let m = workers[i].as_match(blocks);
        assert(workers[i].matched(blocks));
        vstd::seq_lib::to_multiset_contains(all, m);
        vstd::seq_lib::to_multiset_contains(ms, m);
    }
    assert forall|k: int| 0 <= k < ms.len() implies exists|i: int|
        0 <= i < workers.len() && (#[trigger] workers[i]).matched(blocks) && workers[i].as_match(
            blocks,
        ) == #[trigger] ms[k] by {
        vstd::seq_lib::to_multiset_contains(ms, ms[k]);
        vstd::seq_lib::to_multiset_contains(all, ms[k]);
        assert(ms.contains(ms[k]));
        assert(all.contains(ms[k]));
    }
}

/// Every answer is in order, as a router relies on it: by falling length, with the
/// best length first, and with neither an empty hit nor an empty address.
pub proof fn answer_is_in_order(
    workers: Seq<KnownWorker>,
    blocks: Seq<BlockState>,
    response: MatchExternalKvPrefixResponse,
)
    requires
        blocks.len() <= u32::MAX,
        prefix::answers(workers, blocks, response),
    ensures
        client_laws::answer_in_order(response),
{
    answer_names_who_holds_a_prefix(workers, blocks, response);
    let ms = response.matches@;
    assert forall|k: int| 0 <= k < ms.len() implies (#[trigger] ms[k]).matched_prefix_blocks > 0
        && ms[k].worker_address@.len() > 0 by {
        let i = choose|i: int|
            0 <= i < workers.len() && (#[trigger] workers[i]).matched(blocks)
                && workers[i].as_match(blocks) == ms[k];
        prefix::prefix_ends_at_the_first_gap(workers[i], blocks);
    }
}

/// The best length is reached by a worker and passed by none.
pub proof fn best_is_the_longest(
    workers: Seq<KnownWorker>,
    blocks: Seq<BlockState>,
    response: MatchExternalKvPrefixResponse,
)
    requires
        blocks.len() <= u32::MAX,
        prefix::answers(workers, blocks, response),
    ensures
        forall|i: int|
            0 <= i < workers.len() && (#[trigger] workers[i]).routable() ==> workers[i].prefix_len(
                blocks,
            ) <= response.best_prefix_blocks,
        response.best_prefix_blocks > 0 ==> exists|i: int|
            0 <= i < workers.len() && (#[trigger] workers[i]).routable() && workers[i].prefix_len(
                blocks,
            ) == response.best_prefix_blocks,
{
    answer_names_who_holds_a_prefix(workers, blocks, response);
    let ms = response.matches@;
    assert forall|i: int|
        0 <= i < workers.len() && (#[trigger] workers[i]).routable() implies workers[i].prefix_len(
        blocks,
    ) <= response.best_prefix_blocks by {
        prefix::prefix_ends_at_the_first_gap(workers[i], blocks);
        if workers[i].prefix_len(blocks) > 0 {
            let m = workers[i].as_match(blocks);
            assert(ms.contains(m));
            let k = choose|k: int| 0 <= k < ms.len() && ms[k] == m;
            assert(ms[0].matched_prefix_blocks >= ms[k].matched_prefix_blocks);
        }
    }
    if response.best_prefix_blocks > 0 {
        let i = choose|i: int|
            0 <= i < workers.len() && (#[trigger] workers[i]).matched(blocks)
                && workers[i].as_match(blocks) == ms[0];
        prefix::prefix_ends_at_the_first_gap(workers[i], blocks);
        assert(workers[i].routable());
    }
}

/// Whether some worker that may be routed to holds a block.
pub open spec fn somebody_holds(workers: Seq<KnownWorker>, block: BlockState) -> bool {
    exists|i: int|
        0 <= i < workers.len() && (#[trigger] workers[i]).routable() && workers[i].holds(block)
}

/// How deep a tree of reported chains can be walked along the blocks: up to the last
/// one that somebody holds, whoever holds the ones before it.
pub open spec fn tree_depth(workers: Seq<KnownWorker>, blocks: Seq<BlockState>) -> nat
    decreases blocks.len(),
{
    if blocks.len() == 0 {
        0
    } else if somebody_holds(workers, blocks.last()) {
        blocks.len()
    } else {
        tree_depth(workers, blocks.drop_last())
    }
}

/// Whether no worker has lost a block and kept a later one.
pub open spec fn hole_free(workers: Seq<KnownWorker>, blocks: Seq<BlockState>) -> bool {
    forall|w: int, i: int, j: int|
        0 <= w < workers.len() && workers[w].routable() && 0 <= i <= j < blocks.len()
            && (#[trigger] workers[w].holds(#[trigger] blocks[j])) ==> workers[w].holds(
            #[trigger] blocks[i],
        )
}

proof fn lemma_tree_depth(workers: Seq<KnownWorker>, blocks: Seq<BlockState>)
    ensures
        tree_depth(workers, blocks) <= blocks.len(),
        tree_depth(workers, blocks) > 0 ==> somebody_holds(
            workers,
            blocks[tree_depth(workers, blocks) - 1],
        ),
        forall|j: int|
            tree_depth(workers, blocks) <= j < blocks.len() ==> !somebody_holds(
                workers,
                #[trigger] blocks[j],
            ),
    decreases blocks.len(),
{
    if blocks.len() > 0 && !somebody_holds(workers, blocks.last()) {
        let rest = blocks.drop_last();
        lemma_tree_depth(workers, rest);
        assert forall|j: int| tree_depth(workers, blocks) <= j < blocks.len() implies !somebody_holds(
            workers,
            #[trigger] blocks[j],
        ) by {
            if j < rest.len() {
                assert(rest[j] == blocks[j]);
            }
        }
    }
}

/// An answer never promises more than the tree: where the two differ, the answer is
/// the shorter one.
pub proof fn answer_is_conservative(
    workers: Seq<KnownWorker>,
    blocks: Seq<BlockState>,
    response: MatchExternalKvPrefixResponse,
)
    requires
        blocks.len() <= u32::MAX,
        prefix::answers(workers, blocks, response),
    ensures
        response.best_prefix_blocks <= tree_depth(workers, blocks),
{
    best_is_the_longest(workers, blocks, response);
    lemma_tree_depth(workers, blocks);
    let best = response.best_prefix_blocks as int;
    if best > tree_depth(workers, blocks) {
        let i = choose|i: int|
            0 <= i < workers.len() && (#[trigger] workers[i]).routable() && workers[i].prefix_len(
                blocks,
            ) == best;
        prefix::prefix_ends_at_the_first_gap(workers[i], blocks);
        assert(workers[i].holds(blocks[best - 1]));
        assert(somebody_holds(workers, blocks[best - 1]));
    }
}

/// A worker that lost a block is credited with no more than the blocks before it.
pub proof fn credit_stops_at_a_hole(w: KnownWorker, blocks: Seq<BlockState>, hole: int)
    requires
        0 <= hole < blocks.len(),
        !w.holds(blocks[hole]),
    ensures
        w.prefix_len(blocks) <= hole,
{
    prefix::prefix_ends_at_the_first_gap(w, blocks);
    if w.prefix_len(blocks) > hole {
        assert(w.holds(blocks[hole]));
    }
}

/// Where no worker has a hole, the answer is that of the tree: the best length is the
/// tree's depth, and the workers that reach it are those that hold the deepest block.
pub proof fn answer_equals_the_tree_without_holes(
    workers: Seq<KnownWorker>,
    blocks: Seq<BlockState>,
    response: MatchExternalKvPrefixResponse,
)
    requires
        blocks.len() <= u32::MAX,
        prefix::answers(workers, blocks, response),
        hole_free(workers, blocks),
    ensures
        response.best_prefix_blocks == tree_depth(workers, blocks),
        response.best_prefix_blocks > 0 ==> forall|i: int|
            0 <= i < workers.len() && (#[trigger] workers[i]).routable() ==> (workers[i].prefix_len(
                blocks,
            ) == response.best_prefix_blocks <==> workers[i].holds(
                blocks[tree_depth(workers, blocks) - 1],
            )),
{
    answer_is_conservative(workers, blocks, response);
    best_is_the_longest(workers, blocks, response);
    lemma_tree_depth(workers, blocks);
    let depth = tree_depth(workers, blocks) as int;
    assert forall|i: int|
        depth > 0 && 0 <= i < workers.len() && (#[trigger] workers[i]).routable() implies (
    workers[i].prefix_len(blocks) == depth <==> workers[i].holds(blocks[depth - 1])) by {
        let w = workers[i];
        prefix::prefix_ends_at_the_first_gap(w, blocks);
        let n = w.prefix_len(blocks) as int;
        if w.holds(blocks[depth - 1]) {
            if n < depth {
                assert(w.holds(blocks[n]));
            }
            if n > depth {
                assert(w.holds(blocks[n - 1]));
                assert(somebody_holds(workers, blocks[n - 1]));
            }
        }
    }
    if depth > 0 {
        let i = choose|i: int|
            0 <= i < workers.len() && (#[trigger] workers[i]).routable() && workers[i].holds(
                blocks[depth - 1],
            );
        assert(workers[i].prefix_len(blocks) == depth);
    }
}

/// No prefix is longer than what was read, and no more is read than was asked for.
pub proof fn best_prefix_was_read(
    workers: Seq<KnownWorker>,
    blocks: Seq<BlockState>,
    response: MatchExternalKvPrefixResponse,
)
    requires
        blocks.len() <= u32::MAX,
        prefix::answers(workers, blocks, response),
    ensures
        response.best_prefix_blocks <= response.blocks_read <= blocks.len(),
        forall|i: int|
            0 <= i < response.matches@.len() ==> (
            #[trigger] response.matches@[i]).matched_prefix_blocks <= response.blocks_read,
{
    best_is_the_longest(workers, blocks, response);
    if response.best_prefix_blocks > 0 {
        let i = choose|i: int|
            0 <= i < workers.len() && (#[trigger] workers[i]).routable() && workers[i].prefix_len(
                blocks,
            ) == response.best_prefix_blocks;
        prefix::prefix_ends_at_the_first_gap(workers[i], blocks);
    }
    let ms = response.matches@;
    assert forall|i: int| 0 <= i < ms.len() implies (#[trigger] ms[i]).matched_prefix_blocks
        <= response.blocks_read by {
        assert(ms[0].matched_prefix_blocks >= ms[i].matched_prefix_blocks);
    }
}

/// From the placements to the router: the query comes back empty exactly if no worker
/// that may be routed to holds the first block, and else in order, with the length of
/// the longest prefix that a single worker holds.
pub proof fn router_sees_the_longest_prefix(
    workers: Seq<KnownWorker>,
    blocks: Seq<BlockState>,
    response: MatchExternalKvPrefixResponse,
    result: Result<PrefixOutcome, PrefixIndexError>,
)
    requires
        blocks.len() <= u32::MAX,
        prefix::answers(workers, blocks, response),
        client::concludes(QueryReply::Answered(response), result),
    ensures
        result matches Ok(outcome) && client_laws::outcome_in_order(outcome),
        result == Ok::<PrefixOutcome, PrefixIndexError>(PrefixOutcome::Empty) <==> !(blocks.len()
            > 0 && somebody_holds(workers, blocks[0])),
        result matches Ok(PrefixOutcome::Matched { best_prefix_blocks, .. }) ==> forall|i: int|
            0 <= i < workers.len() && (#[trigger] workers[i]).routable() ==> workers[i].prefix_len(
                blocks,
            ) <= best_prefix_blocks,
{
    answer_is_in_order(workers, blocks, response);
    client_laws::order_is_kept(response, result);
    best_is_the_longest(workers, blocks, response);
    answer_names_who_holds_a_prefix(workers, blocks, response);
    let ms = response.matches@;
    if ms.len() > 0 {
        let i = choose|i: int|
            0 <= i < workers.len() && (#[trigger] workers[i]).matched(blocks)
                && workers[i].as_match(blocks) == ms[0];
        prefix::prefix_ends_at_the_first_gap(workers[i], blocks);
        assert(workers[i].holds(blocks[0]));
        assert(workers[i].routable());
    } else if blocks.len() > 0 && somebody_holds(workers, blocks[0]) {
        let i = choose|i: int|
            0 <= i < workers.len() && (#[trigger] workers[i]).routable() && workers[i].holds(
                blocks[0],
            );
        assert(ms.contains(workers[i].as_match(blocks)));
    }
}

/// What another generation than the current one placed is not matched.
pub proof fn outdated_placement_is_not_matched(w: KnownWorker, block: BlockState)
    requires
        block.owner(w.worker_id@) != Generation::At(w.view.generation),
    ensures
        !w.holds(block),
{
}

/// From a restart on, nothing that the earlier process placed is matched again,
/// whatever happens to the worker's records since, and whether or not the entry was
/// wiped. The same holds of an entry that the earlier process still manages to write.
pub proof fn restart_outdates_placements(
    s: WorkerState,
    c: Contact,
    steps: Seq<Step>,
    w: KnownWorker,
    block: BlockState,
)
    requires
        s.consistent(),
        s.is_restart(c.incarnation),
        s.generation + 1 + steps.len() <= i64::MAX,
        w.view.generation == worker_laws::after_history(s.after_touch(c), steps).generation,
        !block.owner(w.worker_id@).newer(s.generation),
    ensures
        !w.holds(block),
{
    worker_laws::history_never_goes_back(s.after_touch(c), steps);
}

/// A match on a block is counted as a hit, as long as the entry stays as it is.
pub proof fn matched_block_counts_a_hit(w: KnownWorker, block: BlockState)
    requires
        w.holds(block),
    ensures
        block.counts(seq![(w.worker_id@, w.view.generation)]),
{
    assert(block.backs(seq![(w.worker_id@, w.view.generation)][0]));
}

/// A worker holds a block exactly if its entry is of the worker's current generation and
/// holds a mask with a whole number other than zero.
pub proof fn holds_by_an_entry_of_the_generation(w: KnownWorker, block: BlockState)
    ensures
        w.holds(block) <==> block.fields.contains_key(w.worker_id@) && (field::field_of(
            block.fields[w.worker_id@],
        ) matches PlacementField { generation: Generation::At(g), mask: Mask::Held(n) } && g
            == w.view.generation && n.floor != 0),
{
}

/// A worker whose entry of the current generation has the bit of any tier set holds the
/// block. Where it holds the block, and the mask has nothing but tiers, some tier's bit is
/// set.
pub proof fn holds_at_any_tier(w: KnownWorker, block: BlockState, bit: u64)
    ensures
        ({
            let floor = block.held(w.worker_id@, w.view.generation).floor;
            &&& bit > 0 && (floor as int / bit as int) % 2 == 1 ==> w.holds(block)
            &&& w.holds(block) && 0 <= floor <= u64::MAX ==> exists|b: u64|
                tier::is_tier_bit(b) && #[trigger] tier::has_tier(floor as int, b)
        }),
{
    let floor = block.held(w.worker_id@, w.view.generation).floor as int;
    tier::clearing_from_nothing(bit);
    if w.holds(block) && 0 <= floor <= u64::MAX {
        tier::empty_mask_has_no_tier(floor);
    }
}

/// Once a tier has been set for a worker in its current generation, and not refused, the
/// worker holds the block, whichever tier it was.
pub proof fn placed_block_is_held(w: KnownWorker, block: BlockState, bit: u64)
    requires
        tier::is_tier_bit(bit),
        !block.set_unreadable(w.worker_id@, w.view.generation),
        !block.owner(w.worker_id@).newer(w.view.generation),
    ensures
        w.holds(block.after_set(w.worker_id@, bit, w.view.generation)),
{
    let t = block.after_set(w.worker_id@, bit, w.view.generation);
    placement_laws::set_records_the_tier(block, w.worker_id@, bit, w.view.generation);
    holds_at_any_tier(w, t, bit);
}

/// A worker stops holding a block by clearing only when no tier is left: as long as
/// another tier's bit is set, it still holds the block. Once it is reported gone, it holds
/// the block no more.
pub proof fn cleared_block_is_held_while_a_tier_is_left(
    w: KnownWorker,
    block: BlockState,
    bit: u64,
    other: u64,
)
    requires
        tier::is_tier_bit(bit),
        tier::is_tier_bit(other),
        !block.clear_unreadable(w.worker_id@, w.view.generation),
        !block.clear_fenced(w.worker_id@, w.view.generation),
    ensures
        ({
            let t = block.after_clear(w.worker_id@, bit, w.view.generation);
            let floor = block.held(w.worker_id@, w.view.generation).floor;
            &&& other != bit && (floor as int / other as int) % 2 == 1 ==> w.holds(t)
            &&& block.worker_gone(w.worker_id@, bit, w.view.generation) == 1 ==> !w.holds(t)
        }),
{
    let t = block.after_clear(w.worker_id@, bit, w.view.generation);
    let before = block.held(w.worker_id@, w.view.generation);
    let after = t.held(w.worker_id@, w.view.generation);
    placement_laws::clear_removes_the_tier(block, w.worker_id@, bit, w.view.generation);
    placement_laws::gone_means_no_tier_left(block, w.worker_id@, bit, w.view.generation);
    if other != bit {
        assert(after.has_tier(other) == before.has_tier(other));
        let k = choose|k: nat| other == #[trigger] vstd::arithmetic::power2::pow2(k);
        vstd::arithmetic::power2::lemma_pow2_pos(k);
        holds_at_any_tier(w, t, other);
    }
}

/// A worker is credited with every block of a request if a tier was set for it on each,
/// at whichever tiers.
pub proof fn placed_blocks_are_credited(
    w: KnownWorker,
    before: Seq<BlockState>,
    bits: Seq<u64>,
    blocks: Seq<BlockState>,
)
    requires
        before.len() == blocks.len(),
        bits.len() == blocks.len(),
        forall|i: int|
            0 <= i < blocks.len() ==> {
                &&& tier::is_tier_bit(#[trigger] bits[i])
                &&& !before[i].set_unreadable(w.worker_id@, w.view.generation)
                &&& !before[i].owner(w.worker_id@).newer(w.view.generation)
                &&& blocks[i] == before[i].after_set(w.worker_id@, bits[i], w.view.generation)
            },
    ensures
        w.prefix_len(blocks) == blocks.len(),
{
    prefix::prefix_ends_at_the_first_gap(w, blocks);
    let n = w.prefix_len(blocks) as int;
    if n < blocks.len() {
        assert(tier::is_tier_bit(bits[n]));
        placed_block_is_held(w, before[n], bits[n]);
    }
}

/// Whether a number of blocks is the run that a worker holds from the first one on: it
/// holds all of them, and not the one behind them.
pub open spec fn is_credit(w: KnownWorker, blocks: Seq<BlockState>, n: int) -> bool {
    &&& 0 <= n <= blocks.len()
    &&& forall|j: int| 0 <= j < n ==> w.holds(#[trigger] blocks[j])
    &&& n < blocks.len() ==> !w.holds(blocks[n])
}

/// Whether a worker is to be named for a request: it is alive, it has an address, and it
/// holds the first block.
pub open spec fn is_due(w: KnownWorker, blocks: Seq<BlockState>) -> bool {
    w.view.alive && w.view.addr@.len() > 0 && blocks.len() > 0 && w.holds(blocks[0])
}

proof fn lemma_due_is_matched(w: KnownWorker, blocks: Seq<BlockState>)
    ensures
        w.matched(blocks) == is_due(w, blocks),
        is_credit(w, blocks, w.prefix_len(blocks) as int),
{
    prefix::prefix_ends_at_the_first_gap(w, blocks);
    if w.prefix_len(blocks) > 0 {
        assert(w.holds(blocks[0]));
    }
}

proof fn lemma_same_filter(
    workers: Seq<KnownWorker>,
    p: spec_fn(KnownWorker) -> bool,
    q: spec_fn(KnownWorker) -> bool,
)
    requires
        forall|w: KnownWorker| #[trigger] p(w) == q(w),
    ensures
        workers.filter(p) == workers.filter(q),
    decreases workers.len(),
{
    reveal(Seq::filter);
    if workers.len() > 0 {
        lemma_same_filter(workers.drop_last(), p, q);
        assert(p(workers.last()) == q(workers.last()));
    }
}

/// Whether a match names a worker as it should: under its id and address, and with the
/// run of blocks that it holds from the first one on.
pub open spec fn names(m: ExternalKvPrefixMatch, w: KnownWorker, blocks: Seq<BlockState>) -> bool {
    &&& m.worker_id == w.worker_id
    &&& m.worker_address == w.view.addr
    &&& is_credit(w, blocks, m.matched_prefix_blocks as int)
}

proof fn lemma_match_names(w: KnownWorker, blocks: Seq<BlockState>)
    requires
        blocks.len() <= u32::MAX,
    ensures
        names(w.as_match(blocks), w, blocks),
        w.matched(blocks) == is_due(w, blocks),
{
    lemma_due_is_matched(w, blocks);
}

proof fn lemma_same_members(
    workers: Seq<KnownWorker>,
    blocks: Seq<BlockState>,
    response: MatchExternalKvPrefixResponse,
    m: ExternalKvPrefixMatch,
)
    requires
        prefix::answers(workers, blocks, response),
    ensures
        response.matches@.contains(m) <==> prefix::found(workers, blocks).contains(m),
{
    vstd::seq_lib::to_multiset_contains(response.matches@, m);
    vstd::seq_lib::to_multiset_contains(prefix::found(workers, blocks), m);
}

/// An answer names each worker that is alive, has an address and holds the first block,
/// under its id and address and with the run of blocks that it holds from the first one
/// on.
pub proof fn due_worker_is_named(
    workers: Seq<KnownWorker>,
    blocks: Seq<BlockState>,
    response: MatchExternalKvPrefixResponse,
    i: int,
)
    requires
        blocks.len() <= u32::MAX,
        prefix::answers(workers, blocks, response),
        0 <= i < workers.len(),
        is_due(workers[i], blocks),
    ensures
        exists|k: int|
            0 <= k < response.matches@.len() && names(
                #[trigger] response.matches@[k],
                workers[i],
                blocks,
            ),
{
    lemma_match_names(workers[i], blocks);
    let m = workers[i].as_match(blocks);
    lemma_found(workers, blocks);
    assert(prefix::found(workers, blocks).contains(m));
    lemma_same_members(workers, blocks, response, m);
    let k = choose|k: int| 0 <= k < response.matches@.len() && response.matches@[k] == m;
    assert(names(response.matches@[k], workers[i], blocks));
}

/// Whoever is named in an answer is a known worker that is alive, has an address and holds
/// the first block, and is named as it should be.
pub proof fn named_worker_is_due(
    workers: Seq<KnownWorker>,
    blocks: Seq<BlockState>,
    response: MatchExternalKvPrefixResponse,
    k: int,
)
    requires
        blocks.len() <= u32::MAX,
        prefix::answers(workers, blocks, response),
        0 <= k < response.matches@.len(),
    ensures
        exists|i: int|
            0 <= i < workers.len() && is_due(#[trigger] workers[i], blocks) && names(
                response.matches@[k],
                workers[i],
                blocks,
            ),
{
    let m = response.matches@[k];
    assert(response.matches@.contains(m));
    lemma_same_members(workers, blocks, response, m);
    lemma_found(workers, blocks);
    let i = choose|i: int|
        0 <= i < workers.len() && (#[trigger] workers[i]).matched(blocks)
            && workers[i].as_match(blocks) == m;
    lemma_match_names(workers[i], blocks);
    assert(is_due(workers[i], blocks));
}

/// An answer has one match for each known worker that is due. It lists them by falling
/// length, its best length is the first one's, zero where there is none, and all blocks
/// were read.
pub proof fn answer_is_complete_and_falling(
    workers: Seq<KnownWorker>,
    blocks: Seq<BlockState>,
    response: MatchExternalKvPrefixResponse,
)
    requires
        blocks.len() <= u32::MAX,
        prefix::answers(workers, blocks, response),
    ensures
        ({
            let ms = response.matches@;
            &&& ms.len() == workers.filter(|w: KnownWorker| is_due(w, blocks)).len()
            &&& forall|i: int, j: int|
                0 <= i <= j < ms.len() ==> (#[trigger] ms[i]).matched_prefix_blocks >= (
                #[trigger] ms[j]).matched_prefix_blocks
            &&& response.best_prefix_blocks == if ms.len() == 0 {
                0
            } else {
                ms[0].matched_prefix_blocks
            }
            &&& response.blocks_read == blocks.len()
        }),
{
    let p = |w: KnownWorker| w.matched(blocks);
    let q = |w: KnownWorker| is_due(w, blocks);
    assert forall|w: KnownWorker| #[trigger] p(w) == q(w) by {
        lemma_match_names(w, blocks);
    }
    lemma_same_filter(workers, p, q);
    vstd::seq_lib::to_multiset_len(response.matches@);
    vstd::seq_lib::to_multiset_len(prefix::found(workers, blocks));
}

} // verus!
