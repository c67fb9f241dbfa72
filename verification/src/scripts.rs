//! The operations on workers and blocks as Lua programs, for records that are kept in
//! a Redis-compatible store.
//!
//! Every program declares all keys it touches in `KEYS`, and all keys of one run share
//! one hash tag, so each program runs in a single cluster slot, atomically. Masks are
//! handled with plain arithmetic, without a bit library, to run on every engine.
//!
//! The operations themselves are proved in [`crate::worker`] and [`crate::block`]. The
//! programs write the same steps down for the store; their texts are not checked
//! against the proved ones. A store computes with its engine's numbers. Where those are
//! doubles, they are exact only as far as a double is, and a number that is joined into
//! an entry is written with fourteen digits at most, which is fewer than a double holds.
//! What is proved here is exact as far as a number can be held. How a stored text reads
//! as a number is said in [`crate::numeral`].

use vstd::prelude::*;

verus! {

/// Takes note of a worker's contact; the effect is that of [`crate::worker::Worker::touch_meta`].
///
/// KEYS: `[worker_meta_key, worker_live_key, worker_retired_incarnations_key]`
/// ARGV: `[now_ms, ttl_ms, addr, incarnation]`
/// Returns `{status, generation}`.
pub const TOUCH_META: &'static str = r#"
redis.call('PERSIST', KEYS[1])
local generation = tonumber(redis.call('HGET', KEYS[1], 'generation')) or 0
if ARGV[4] ~= '' then
  local prev = redis.call('HGET', KEYS[1], 'incarnation')
  if not prev then
    redis.call('HSET', KEYS[1], 'incarnation', ARGV[4], 'generation', generation)
  elseif prev ~= ARGV[4] then
    if redis.call('SISMEMBER', KEYS[3], ARGV[4]) == 1 then
      return {-1, generation}
    end
    redis.call('SADD', KEYS[3], prev)
    generation = redis.call('HINCRBY', KEYS[1], 'generation', 1)
    redis.call('HSET', KEYS[1], 'incarnation', ARGV[4])
    redis.call('HSET', KEYS[1], 'reset_pending', '1')
  end
end
if ARGV[3] ~= '' then
  redis.call('HSET', KEYS[1], 'addr', ARGV[3])
end
if tonumber(ARGV[2]) > 0 then
  redis.call('SET', KEYS[2], ARGV[1], 'PX', tonumber(ARGV[2]))
end
if redis.call('HGET', KEYS[1], 'reset_pending') == '1' then
  return {1, generation}
end
return {0, generation}
"#;

/// Reads what routing needs to know of a worker, as [`crate::worker::Worker::worker_view`].
///
/// KEYS: `[worker_meta_key, worker_live_key]`
/// ARGV: `[ttl_enabled ("0"|"1")]`
/// Returns `{addr, alive, generation}`.
pub const WORKER_VIEW: &'static str = r#"
local addr = redis.call('HGET', KEYS[1], 'addr')
if not addr then addr = '' end
local generation = tonumber(redis.call('HGET', KEYS[1], 'generation')) or 0
if redis.call('HGET', KEYS[1], 'reset_pending') == '1' then
  return {addr, 0, generation}
end
local alive = 1
if ARGV[1] == '1' and redis.call('EXISTS', KEYS[2]) == 0 then
  alive = 0
end
return {addr, alive, generation}
"#;

/// Drops a worker's outdated entry, as [`crate::block::Block::placement_clear_worker`].
///
/// KEYS: `[placement_key, hit_key]`
/// ARGV: `[worker_id, current_generation]`
/// Returns `1`.
pub const PLACEMENT_CLEAR_WORKER: &'static str = r#"
local raw = redis.call('HGET', KEYS[1], ARGV[1])
if raw then
  local stored_generation = 0
  local sep = string.find(raw, ':', 1, true)
  if sep then
    stored_generation = tonumber(string.sub(raw, 1, sep - 1)) or 0
  end
  if stored_generation < tonumber(ARGV[2]) then
    redis.call('HDEL', KEYS[1], ARGV[1])
  end
end
if redis.call('HLEN', KEYS[1]) == 0 then
  redis.call('DEL', KEYS[1])
  redis.call('DEL', KEYS[2])
end
return 1
"#;

/// Asks whether a batch may be applied, as [`crate::worker::Worker::seq_check`].
///
/// KEYS: `[worker_meta_key]`
/// ARGV: `[seq, expected_generation]`
/// Returns `{status, last}`, with `-1` for no last number.
pub const SEQ_CHECK: &'static str = r#"
local last = redis.call('HGET', KEYS[1], 'seq')
local generation = tonumber(redis.call('HGET', KEYS[1], 'generation')) or 0
if generation ~= tonumber(ARGV[2]) then
  return {-1, last or '-1'}
end
if last ~= false and tonumber(ARGV[1]) <= tonumber(last) then
  return {0, last}
end
if last == false then
  return {1, '-1'}
end
return {1, last}
"#;

/// Notes that a batch was applied, as [`crate::worker::Worker::seq_commit`].
///
/// KEYS: `[worker_meta_key]`
/// ARGV: `[seq, expected_generation]`
/// Returns `{status, last}`, with `-1` for no last number.
pub const SEQ_COMMIT: &'static str = r#"
local last = redis.call('HGET', KEYS[1], 'seq')
local generation = tonumber(redis.call('HGET', KEYS[1], 'generation')) or 0
if generation ~= tonumber(ARGV[2]) then
  return {-1, last or '-1'}
end
if last == false or tonumber(ARGV[1]) > tonumber(last) then
  redis.call('HSET', KEYS[1], 'seq', ARGV[1])
  return {1, ARGV[1]}
end
return {1, last}
"#;

/// Finishes the wipe that a restart owed, as [`crate::worker::Worker::reset_finish`].
///
/// KEYS: `[worker_meta_key]`
/// ARGV: `[expected_generation]`
/// Returns the status.
pub const RESET_FINISH: &'static str = r#"
local generation = tonumber(redis.call('HGET', KEYS[1], 'generation')) or 0
if generation ~= tonumber(ARGV[1]) then return -1 end
if redis.call('HGET', KEYS[1], 'reset_pending') ~= '1' then return 0 end
redis.call('HDEL', KEYS[1], 'seq')
redis.call('HDEL', KEYS[1], 'reset_pending')
return 1
"#;

/// Sets a tier bit in a worker's entry, as [`crate::block::Block::placement_set`]. A caller
/// also adds the block to the worker's reverse index, whatever the answer, so that a
/// replay repairs a failure between the two.
///
/// KEYS: `[placement_key]`
/// ARGV: `[worker_id, bit, generation]`
/// Returns the code.
pub const PLACEMENT_SET: &'static str = r#"
local raw = redis.call('HGET', KEYS[1], ARGV[1])
local cur = 0
local stored_generation = 0
if raw then
  local sep = string.find(raw, ':', 1, true)
  if sep then
    stored_generation = tonumber(string.sub(raw, 1, sep - 1)) or 0
    cur = tonumber(string.sub(raw, sep + 1)) or 0
  else
    cur = tonumber(raw) or 0
  end
end
local generation = tonumber(ARGV[3])
if stored_generation > generation then return -1 end
if stored_generation < generation then cur = 0 end
local bit = tonumber(ARGV[2])
if math.floor(cur / bit) % 2 == 1 then
  return 0
end
redis.call('HSET', KEYS[1], ARGV[1], ARGV[3] .. ':' .. (cur + bit))
return 1
"#;

/// Clears a tier bit in a worker's entry, as [`crate::block::Block::placement_clear`].
///
/// KEYS: `[placement_key, hit_key]`
/// ARGV: `[worker_id, bit, generation]`
/// Returns `{worker_gone, key_empty}`.
pub const PLACEMENT_CLEAR: &'static str = r#"
local raw = redis.call('HGET', KEYS[1], ARGV[1])
local cur = nil
local stored_generation = 0
if raw then
  local sep = string.find(raw, ':', 1, true)
  if sep then
    stored_generation = tonumber(string.sub(raw, 1, sep - 1)) or 0
    cur = tonumber(string.sub(raw, sep + 1))
  else
    cur = tonumber(raw)
  end
end
local generation = tonumber(ARGV[3])
local bit = tonumber(ARGV[2])
local worker_gone = 0
if cur == nil then
  -- Placement already reached the target state, but a previous SREM may have
  -- failed. Ask the caller to retry the idempotent reverse-index removal.
  worker_gone = 1
elseif stored_generation ~= generation then
  if stored_generation > generation then
    return {-1, 0}
  else
    -- A stale orphan from an older generation is never part of the current
    -- worker state. Remove it while repairing the reverse-index postcondition.
    redis.call('HDEL', KEYS[1], ARGV[1])
    worker_gone = 1
  end
else
  local new = cur
  if math.floor(cur / bit) % 2 == 1 then new = cur - bit end
  if new == 0 then
    redis.call('HDEL', KEYS[1], ARGV[1])
    worker_gone = 1
  else
    redis.call('HSET', KEYS[1], ARGV[1], ARGV[3] .. ':' .. new)
  end
end
local empty = 0
if redis.call('HLEN', KEYS[1]) == 0 then
  redis.call('DEL', KEYS[1])
  redis.call('DEL', KEYS[2])
  empty = 1
end
return {worker_gone, empty}
"#;

/// Reads a placement hash, as [`crate::block::Block::match_hash`]. Hits are counted later, once
/// liveness and generation have been looked at.
///
/// KEYS: `[placement_key]`
/// Returns `[worker, "generation:mask", ...]`.
pub const MATCH_HASH: &'static str = r#"
return redis.call('HGETALL', KEYS[1])
"#;

/// Counts a hit, as [`crate::block::Block::hit_bump`].
///
/// KEYS: `[placement_key, hit_key]`
/// ARGV: `[now_ms, worker_id, generation, ...]`
/// Returns `1` if it was counted, else `0`.
pub const HIT_BUMP: &'static str = r#"
for i = 2, #ARGV, 2 do
  local raw = redis.call('HGET', KEYS[1], ARGV[i])
  if raw then
    local stored_generation = 0
    local sep = string.find(raw, ':', 1, true)
    if sep then
      stored_generation = tonumber(string.sub(raw, 1, sep - 1)) or 0
    end
    if stored_generation == tonumber(ARGV[i + 1]) then
      redis.call('HINCRBY', KEYS[2], 'c', 1)
      redis.call('HSET', KEYS[2], 'ls', ARGV[1])
      return 1
    end
  end
end
return 0
"#;

/// The programs by name.
#[derive(Clone, Copy, Debug, PartialEq, Eq, Structural)]
pub enum Operation {
    TouchMeta,
    WorkerView,
    PlacementClearWorker,
    SeqCheck,
    SeqCommit,
    ResetFinish,
    PlacementSet,
    PlacementClear,
    MatchHash,
    HitBump,
}

/// The text of each program.
pub open spec fn program(operation: Operation) -> Seq<char> {
    match operation {
        Operation::TouchMeta => TOUCH_META@,
        Operation::WorkerView => WORKER_VIEW@,
        Operation::PlacementClearWorker => PLACEMENT_CLEAR_WORKER@,
        Operation::SeqCheck => SEQ_CHECK@,
        Operation::SeqCommit => SEQ_COMMIT@,
        Operation::ResetFinish => RESET_FINISH@,
        Operation::PlacementSet => PLACEMENT_SET@,
        Operation::PlacementClear => PLACEMENT_CLEAR@,
        Operation::MatchHash => MATCH_HASH@,
        Operation::HitBump => HIT_BUMP@,
    }
}

/// The SHA-1 digest under which a script is cached, in hexadecimal, as `redis::Script`
/// computes it.
pub uninterp spec fn script_digest(code: Seq<char>) -> Seq<char>;

/// `redis::Script::new` and `redis::Script::get_hash`: the digest of the text. It is
/// the SHA-1 of the bytes, so it is a function of the text.
#[verifier::external_body]
fn redis_script_digest(code: &str) -> (digest: String)
    ensures
        digest@ == script_digest(code@),
{
    redis::Script::new(code).get_hash().to_string()
}

/// A program, ready to be run: by its digest where the store has it, else by its
/// text.
#[derive(Clone, Debug, PartialEq, Eq)]
pub struct LuaScript {
    pub code: String,
    pub digest: String,
}

impl LuaScript {
    /// Prepares a program.
    pub fn new(code: &str) -> (script: LuaScript)
        ensures
            script.code@ == code@,
            script.digest@ == script_digest(code@),
    {
        LuaScript { code: code.to_owned(), digest: redis_script_digest(code) }
    }

    /// Prepares the program of an operation.
    pub fn of(operation: Operation) -> (script: LuaScript)
        ensures
            script.code@ == program(operation),
            script.digest@ == script_digest(program(operation)),
    {
        let code: &'static str = match operation {
            Operation::TouchMeta => TOUCH_META,
            Operation::WorkerView => WORKER_VIEW,
            Operation::PlacementClearWorker => PLACEMENT_CLEAR_WORKER,
            Operation::SeqCheck => SEQ_CHECK,
            Operation::SeqCommit => SEQ_COMMIT,
            Operation::ResetFinish => RESET_FINISH,
            Operation::PlacementSet => PLACEMENT_SET,
            Operation::PlacementClear => PLACEMENT_CLEAR,
            Operation::MatchHash => MATCH_HASH,
            Operation::HitBump => HIT_BUMP,
        };
        LuaScript::new(code)
    }
}

} // verus!
