//! The prefix-match query over placements.
//!
//! A worker is credited with the leading blocks of a request that it holds without a
//! gap. Only a worker that may be routed to is credited, and only for entries of its
//! current generation: what an earlier process left behind is never matched.

use vstd::prelude::*;

use crate::block::{Block, BlockState};
use crate::client::{ExternalKvPrefixMatch, MatchExternalKvPrefixResponse};
use crate::field::{Generation, Mask};
use crate::worker::WorkerView;

verus! {

/// A worker, and what routing needs to know of it.
#[derive(Clone, Debug, PartialEq, Eq)]
pub struct KnownWorker {
    pub worker_id: String,
    pub view: WorkerView,
}

impl KnownWorker {
    /// Whether the worker may be routed to.
    pub open spec fn routable(self) -> bool {
        self.view.alive && self.view.addr@.len() > 0
    }

    /// Whether the worker holds a block, at any tier, in its current generation.
    pub open spec fn holds(self, block: BlockState) -> bool {
        block.held(self.worker_id@, self.view.generation).floor != 0
    }

    /// How many leading blocks the worker holds without a gap.
    pub open spec fn prefix_len(self, blocks: Seq<BlockState>) -> nat
        decreases blocks.len(),
    {
        if blocks.len() == 0 || !self.holds(blocks[0]) {
            0
        } else {
            1 + self.prefix_len(blocks.drop_first())
        }
    }

    /// Whether the worker belongs in the answer.
    pub open spec fn matched(self, blocks: Seq<BlockState>) -> bool {
        self.routable() && self.prefix_len(blocks) > 0
    }

    /// How the worker stands in the answer.
    pub open spec fn as_match(self, blocks: Seq<BlockState>) -> ExternalKvPrefixMatch {
        ExternalKvPrefixMatch {
            worker_id: self.worker_id,
            worker_address: self.view.addr,
            matched_prefix_blocks: self.prefix_len(blocks) as u32,
        }
    }
}

/// The states of a list of blocks.
pub open spec fn block_states(blocks: Seq<Block>) -> Seq<BlockState> {
    blocks.map_values(|b: Block| b@)
}

/// The matches that a query finds, in the order of the workers.
pub open spec fn found(workers: Seq<KnownWorker>, blocks: Seq<BlockState>) -> Seq<
    ExternalKvPrefixMatch,
> {
    workers.filter(|w: KnownWorker| w.matched(blocks)).map_values(
        |w: KnownWorker| w.as_match(blocks),
    )
}

/// By falling length.
pub open spec fn falling(ms: Seq<ExternalKvPrefixMatch>) -> bool {
    forall|i: int, j: int|
        0 <= i <= j < ms.len() ==> (#[trigger] ms[i]).matched_prefix_blocks >= (
        #[trigger] ms[j]).matched_prefix_blocks
}

/// Whether a response answers a query: it names every worker that was found, by
/// falling length, the best length, and how many blocks were read, which is all.
pub open spec fn answers(
    workers: Seq<KnownWorker>,
    blocks: Seq<BlockState>,
    response: MatchExternalKvPrefixResponse,
) -> bool {
    &&& response.matches@.to_multiset() == found(workers, blocks).to_multiset()
    &&& falling(response.matches@)
    &&& response.best_prefix_blocks == if response.matches@.len() == 0 {
        0
    } else {
        response.matches@[0].matched_prefix_blocks
    }
    &&& response.blocks_read == blocks.len()
}

/// The prefix length is the number of blocks before the first one that the worker
/// does not hold.
pub proof fn prefix_ends_at_the_first_gap(w: KnownWorker, blocks: Seq<BlockState>)
    ensures
        w.prefix_len(blocks) <= blocks.len(),
        forall|i: int| 0 <= i < w.prefix_len(blocks) ==> w.holds(#[trigger] blocks[i]),
        w.prefix_len(blocks) < blocks.len() ==> !w.holds(blocks[w.prefix_len(blocks) as int]),
    decreases blocks.len(),
{
    if blocks.len() > 0 && w.holds(blocks[0]) {
        let rest = blocks.drop_first();
        prefix_ends_at_the_first_gap(w, rest);
        assert forall|i: int| 0 <= i < w.prefix_len(blocks) implies w.holds(#[trigger] blocks[i]) by {
            if i > 0 {
                assert(rest[i - 1] == blocks[i]);
            }
        }
        if w.prefix_len(blocks) < blocks.len() {
            assert(rest[w.prefix_len(rest) as int] == blocks[w.prefix_len(blocks) as int]);
        }
    }
}

proof fn lemma_prefix_is(w: KnownWorker, blocks: Seq<BlockState>, n: nat)
    requires
        n <= blocks.len(),
        forall|i: int| 0 <= i < n ==> w.holds(#[trigger] blocks[i]),
        n < blocks.len() ==> !w.holds(blocks[n as int]),
    ensures
        w.prefix_len(blocks) == n,
{
    prefix_ends_at_the_first_gap(w, blocks);
    let m = w.prefix_len(blocks);
    if m < n {
        assert(w.holds(blocks[m as int]));
    }
}

fn count_prefix(worker: &KnownWorker, blocks: &Vec<Block>) -> (n: u32)
    requires
        blocks@.len() <= u32::MAX,
        forall|i: int| 0 <= i < blocks@.len() ==> (#[trigger] blocks@[i]).wf(),
    ensures
        n == worker.prefix_len(block_states(blocks@)),
{
    let total = blocks.len();
    let mut n: usize = 0;
    while n < total
        invariant
            total == blocks@.len(),
            total <= u32::MAX,
            n <= total,
            forall|i: int| 0 <= i < blocks@.len() ==> (#[trigger] blocks@[i]).wf(),
            forall|i: int| 0 <= i < n ==> worker.holds(#[trigger] block_states(blocks@)[i]),
        decreases total - n,
    {
        let held: i128 = match blocks[n].get(worker.worker_id.as_str()) {
            Some(field) => match field.mask {
                Mask::Held(mask) => if field.generation == Generation::At(worker.view.generation) {
                    mask.floor
                } else {
                    0
                },
                _ => 0,
            },
            None => 0,
        };
        assert(block_states(blocks@)[n as int] == blocks@[n as int]@);
        if held == 0 {
            proof {
                lemma_prefix_is(*worker, block_states(blocks@), n as nat);
            }
            return n as u32;
        }
        n = n + 1;
    }
    proof {
        lemma_prefix_is(*worker, block_states(blocks@), n as nat);
    }
    n as u32
}

fn insert_falling(ranked: &mut Vec<ExternalKvPrefixMatch>, m: ExternalKvPrefixMatch)
    requires
        falling(old(ranked)@),
    ensures
        falling(final(ranked)@),
        final(ranked)@.to_multiset() == old(ranked)@.to_multiset().insert(m),
{
    let n = ranked.len();
    let mut at: usize = 0;
    while at < n && ranked[at].matched_prefix_blocks >= m.matched_prefix_blocks
        invariant
            n == ranked@.len(),
            at <= n,
            forall|i: int|
                0 <= i < at ==> (#[trigger] ranked@[i]).matched_prefix_blocks
                    >= m.matched_prefix_blocks,
        decreases n - at,
    {
        at = at + 1;
    }
    let ghost before = ranked@;
    ranked.insert(at, m);
    proof {
        vstd::seq_lib::to_multiset_insert(before, at as int, m);
        let new = ranked@;
        assert forall|i: int, j: int| 0 <= i <= j < new.len() implies (
        #[trigger] new[i]).matched_prefix_blocks >= (#[trigger] new[j]).matched_prefix_blocks by {
            let bi = if i < at { i } else { i - 1 };
            let bj = if j < at { j } else { j - 1 };
            if i < at && j > at {
                assert(before[bi].matched_prefix_blocks >= before[bj].matched_prefix_blocks);
            } else if i == at && j > at {
                assert(before[at as int].matched_prefix_blocks >= before[bj].matched_prefix_blocks);
            } else if i != at && j != at {
                assert(before[bi].matched_prefix_blocks >= before[bj].matched_prefix_blocks);
            }
        }
    }
}

proof fn lemma_found_step(workers: Seq<KnownWorker>, blocks: Seq<BlockState>, i: int)
    requires
        0 <= i < workers.len(),
    ensures
        found(workers.take(i + 1), blocks) == if workers[i].matched(blocks) {
            found(workers.take(i), blocks).push(workers[i].as_match(blocks))
        } else {
            found(workers.take(i), blocks)
        },
{
    reveal(Seq::filter);
    let next = workers.take(i + 1);
    assert(next.drop_last() =~= workers.take(i));
    assert(next.last() == workers[i]);
    assert(found(next, blocks) =~= if workers[i].matched(blocks) {
        found(workers.take(i), blocks).push(workers[i].as_match(blocks))
    } else {
        found(workers.take(i), blocks)
    });
}

/// Answers a prefix query: which of the known workers hold a leading part of the
/// blocks, and how long a part. The blocks are those of the request, in its order.
pub fn match_external_kv_prefix(workers: &Vec<KnownWorker>, blocks: &Vec<Block>) -> (response:
    MatchExternalKvPrefixResponse)
    requires
        blocks@.len() <= u32::MAX,
        forall|i: int| 0 <= i < blocks@.len() ==> (#[trigger] blocks@[i]).wf(),
    ensures
        answers(workers@, block_states(blocks@), response),
{
    let n = workers.len();
    let ghost states = block_states(blocks@);
    let mut ranked: Vec<ExternalKvPrefixMatch> = Vec::new();
    let mut i: usize = 0;
    proof {
        reveal(Seq::filter);
        assert(found(workers@.take(0), states) =~= Seq::<ExternalKvPrefixMatch>::empty());
    }
    while i < n
        invariant
            n == workers@.len(),
            i <= n,
            states == block_states(blocks@),
            blocks@.len() <= u32::MAX,
            forall|i: int| 0 <= i < blocks@.len() ==> (#[trigger] blocks@[i]).wf(),
            falling(ranked@),
            ranked@.to_multiset() == found(workers@.take(i as int), states).to_multiset(),
        decreases n - i,
    {
        let worker = &workers[i];
        proof {
            lemma_found_step(workers@, states, i as int);
            vstd::seq_lib::to_multiset_build(
                found(workers@.take(i as int), states),
                worker.as_match(states),
            );
        }
        if worker.view.alive && !worker.view.addr.as_str().is_empty() {
            let matched_prefix_blocks: u32 = count_prefix(worker, blocks);
            if matched_prefix_blocks > 0 {
                let m = ExternalKvPrefixMatch {
                    worker_id: worker.worker_id.clone(),
                    worker_address: worker.view.addr.clone(),
                    matched_prefix_blocks,
                };
                assert(m == worker.as_match(states));
                insert_falling(&mut ranked, m);
            }
        }
        i = i + 1;
    }
    assert(workers@.take(n as int) =~= workers@);
    let best_prefix_blocks: u32 = if ranked.is_empty() {
        0
    } else {
        ranked[0].matched_prefix_blocks
    };
    MatchExternalKvPrefixResponse {
        matches: ranked,
        best_prefix_blocks,
        blocks_read: blocks.len() as u32,
    }
}

} // verus!
