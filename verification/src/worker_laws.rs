//! What the operations on a worker promise together, over any history.

use vstd::prelude::*;

use crate::worker::{Contact, Live, WorkerState};

verus! {

/// Anything that can happen to a worker's records.
pub enum Step {
    /// The worker makes contact.
    Touch(Contact),
    /// A batch is committed.
    Commit { seq: u64, expected_generation: u64 },
    /// A wipe is finished.
    Finish { expected_generation: u64 },
    /// The liveness mark expires.
    Expire,
}

pub open spec fn after_step(s: WorkerState, step: Step) -> WorkerState {
    match step {
        Step::Touch(c) => s.after_touch(c),
        Step::Commit { seq, expected_generation } => s.after_commit(seq, expected_generation),
        Step::Finish { expected_generation } => s.after_finish(expected_generation),
        Step::Expire => WorkerState { live: None, ..s },
    }
}

/// The records after a history, oldest step first.
pub open spec fn after_history(s: WorkerState, steps: Seq<Step>) -> WorkerState
    decreases steps.len(),
{
    if steps.len() == 0 {
        s
    } else {
        after_step(after_history(s, steps.drop_last()), steps.last())
    }
}

/// Whether every restart of a history can be counted.
pub open spec fn countable(s: WorkerState, steps: Seq<Step>) -> bool {
    s.generation + steps.len() <= i64::MAX
}

/// A restart is counted, a wipe is owed for it, the process that was left behind is
/// retired, and nothing else moves the generation.
pub proof fn generation_counts_restarts(s: WorkerState, c: Contact)
    requires
        !s.restart_overflows(c.incarnation),
    ensures
        ({
            let t = s.after_touch(c);
            &&& t.generation == s.generation + if s.is_restart(c.incarnation) {
                1int
            } else {
                0int
            }
            &&& s.is_restart(c.incarnation) ==> t.reset_pending && s.touch_status(c) == 1
                && t.incarnation == Some(c.incarnation) && t.retired.contains(s.incarnation->0)
        }),
        forall|seq: u64, g: u64| (#[trigger] s.after_commit(seq, g)).generation == s.generation,
        forall|g: u64| (#[trigger] s.after_finish(g)).generation == s.generation,
{
}

/// A contact with a token that was left behind is turned away. It changes neither
/// the process, the generation, the address nor the liveness mark.
pub proof fn retired_token_is_turned_away(s: WorkerState, c: Contact)
    requires
        s.consistent(),
        c.incarnation.len() > 0,
        s.retired.contains(c.incarnation),
    ensures
        s.touch_status(c) == -1,
        s.after_touch(c) == (WorkerState { expiring: false, ..s }),
{
}

/// A contact leaves the metadata durable.
pub proof fn contact_makes_durable(s: WorkerState, c: Contact)
    ensures
        !s.after_touch(c).expiring,
{
}

/// Over any history the generation never falls, no token is taken out of
/// retirement, and the running process is never a retired one.
pub proof fn history_never_goes_back(s: WorkerState, steps: Seq<Step>)
    requires
        s.consistent(),
        countable(s, steps),
    ensures
        ({
            let t = after_history(s, steps);
            &&& s.generation <= t.generation <= s.generation + steps.len()
            &&& s.retired.subset_of(t.retired)
            &&& t.consistent()
        }),
    decreases steps.len(),
{
    if steps.len() > 0 {
        history_never_goes_back(s, steps.drop_last());
    }
}

/// Once a token has been left behind, it is turned away after any history.
pub proof fn retired_token_never_returns(s: WorkerState, steps: Seq<Step>, c: Contact)
    requires
        s.consistent(),
        countable(s, steps),
        c.incarnation.len() > 0,
        s.retired.contains(c.incarnation),
    ensures
        after_history(s, steps).touch_status(c) == -1,
        after_history(s, steps).after_touch(c).incarnation == after_history(s, steps).incarnation,
        after_history(s, steps).after_touch(c).generation == after_history(s, steps).generation,
{
    history_never_goes_back(s, steps);
    retired_token_is_turned_away(after_history(s, steps), c);
}

/// A step that was begun before a restart is turned away after it, whatever else has
/// happened since.
pub proof fn earlier_generation_is_fenced(s: WorkerState, c: Contact, steps: Seq<Step>, seq: u64)
    requires
        s.consistent(),
        s.is_restart(c.incarnation),
        s.generation + 1 + steps.len() <= i64::MAX,
    ensures
        ({
            let t = after_history(s.after_touch(c), steps);
            &&& t.check_status(seq, s.generation) == -1
            &&& t.after_commit(seq, s.generation) == t
            &&& t.finish_status(s.generation) == -1
            &&& t.after_finish(s.generation) == t
        }),
{
    generation_counts_restarts(s, c);
    history_never_goes_back(s.after_touch(c), steps);
}

proof fn lemma_within_generation(s: WorkerState, steps: Seq<Step>)
    requires
        s.consistent(),
        countable(s, steps),
        after_history(s, steps).generation == s.generation,
        !s.reset_pending,
    ensures
        !after_history(s, steps).reset_pending,
        s.seq matches Some(last) ==> after_history(s, steps).seq is Some && after_history(
            s,
            steps,
        ).seq->0 >= last,
    decreases steps.len(),
{
    if steps.len() > 0 {
        history_never_goes_back(s, steps.drop_last());
        lemma_within_generation(s, steps.drop_last());
    }
}

/// A batch that was committed is recognised as applied for as long as the generation
/// lasts, and so is every earlier one.
pub proof fn committed_batch_stays_applied(
    s: WorkerState,
    seq: u64,
    steps: Seq<Step>,
    replayed: u64,
)
    requires
        s.consistent(),
        countable(s, steps),
        !s.reset_pending,
        after_history(s.after_commit(seq, s.generation), steps).generation == s.generation,
        replayed <= seq,
    ensures
        after_history(s.after_commit(seq, s.generation), steps).check_status(replayed, s.generation)
            == 0,
{
    lemma_within_generation(s.after_commit(seq, s.generation), steps);
}

/// A batch is let through exactly if it is newer than the one that was committed
/// last.
pub proof fn newer_batch_proceeds(s: WorkerState, seq: u64, next: u64)
    ensures
        ({
            let t = s.after_commit(seq, s.generation);
            t.check_status(next, s.generation) == if next > t.seq->0 {
                1int
            } else {
                0int
            }
        }),
        s.after_commit(seq, s.generation).seq->0 >= seq,
{
}

/// Committing a batch again changes nothing.
pub proof fn commit_is_idempotent(s: WorkerState, seq: u64, expected_generation: u64)
    ensures
        s.after_commit(seq, expected_generation).after_commit(seq, expected_generation)
            == s.after_commit(seq, expected_generation),
{
}

/// From a restart on, the worker is not routed to until the wipe of its generation is
/// finished, with or without watched liveness.
pub proof fn restart_stops_routing_until_the_wipe(
    s: WorkerState,
    c: Contact,
    steps: Seq<Step>,
    ttl_enabled: bool,
)
    requires
        s.is_restart(c.incarnation),
        forall|i: int| 0 <= i < steps.len() ==> !(#[trigger] steps[i] is Finish),
    ensures
        !after_history(s.after_touch(c), steps).is_alive(ttl_enabled),
    decreases steps.len(),
{
    if steps.len() > 0 {
        let earlier = steps.drop_last();
        assert forall|i: int| 0 <= i < earlier.len() implies !(#[trigger] earlier[i] is Finish) by {
            assert(earlier[i] == steps[i]);
        }
        restart_stops_routing_until_the_wipe(s, c, earlier, ttl_enabled);
        assert(!(steps[steps.len() - 1] is Finish));
        assert(after_history(s.after_touch(c), earlier).reset_pending) by {
            lemma_pending_persists(s.after_touch(c), earlier);
        }
    }
}

proof fn lemma_pending_persists(s: WorkerState, steps: Seq<Step>)
    requires
        s.reset_pending,
        forall|i: int| 0 <= i < steps.len() ==> !(#[trigger] steps[i] is Finish),
    ensures
        after_history(s, steps).reset_pending,
    decreases steps.len(),
{
    if steps.len() > 0 {
        let earlier = steps.drop_last();
        assert forall|i: int| 0 <= i < earlier.len() implies !(#[trigger] earlier[i] is Finish) by {
            assert(earlier[i] == steps[i]);
        }
        lemma_pending_persists(s, earlier);
        assert(!(steps[steps.len() - 1] is Finish));
    }
}

/// A wipe is finished once: after it, finishing again finds nothing owed for as long
/// as the generation lasts.
pub proof fn wipe_finishes_once(s: WorkerState, steps: Seq<Step>)
    requires
        s.consistent(),
        countable(s, steps),
        s.finish_status(s.generation) == 1,
        after_history(s.after_finish(s.generation), steps).generation == s.generation,
    ensures
        after_history(s.after_finish(s.generation), steps).finish_status(s.generation) == 0,
{
    lemma_within_generation(s.after_finish(s.generation), steps);
}

/// After the wipe the new process may begin with any sequence number.
pub proof fn wipe_opens_the_generation(s: WorkerState, seq: u64)
    requires
        s.finish_status(s.generation) == 1,
    ensures
        s.after_finish(s.generation).check_status(seq, s.generation) == 1,
        s.after_finish(s.generation).is_alive(false),
        s.after_finish(s.generation).is_alive(true) == (s.live is Some),
{
}

/// Where liveness is watched, a worker is routed to only while its mark lasts, and a
/// contact with a time to live renews the mark.
pub proof fn liveness_follows_the_mark(s: WorkerState, c: Contact)
    requires
        !s.reset_pending,
        !s.is_other(c.incarnation),
        c.ttl_ms > 0,
    ensures
        !after_step(s, Step::Expire).is_alive(true),
        after_step(s, Step::Expire).is_alive(false),
        after_step(s, Step::Expire).after_touch(c).is_alive(true),
{
}

/// A contact is turned away exactly if it carries the token of a process that was left
/// behind, and it is told so. It then makes the metadata durable and changes nothing
/// else. Any other contact is told whether a wipe is owed.
pub proof fn turned_away_exactly_if_left_behind(s: WorkerState, c: Contact)
    requires
        s.incarnation matches Some(token) ==> !s.retired.contains(token),
        s.incarnation is None ==> forall|token: Seq<char>| !#[trigger] s.retired.contains(token),
    ensures
        ({
            let t = s.after_touch(c);
            let left_behind = c.incarnation.len() > 0 && s.retired.contains(c.incarnation);
            &&& s.touch_status(c) == if left_behind {
                -1int
            } else if t.reset_pending {
                1int
            } else {
                0int
            }
            &&& left_behind ==> {
                &&& t.generation == s.generation
                &&& t.incarnation == s.incarnation
                &&& t.addr == s.addr
                &&& t.reset_pending == s.reset_pending
                &&& t.seq == s.seq
                &&& t.live == s.live
                &&& t.retired == s.retired
                &&& s.next_generation(c.incarnation) == s.generation
                &&& !s.restart_overflows(c.incarnation)
            }
            &&& !t.expiring
        }),
{
}

/// A contact with a token that is neither the running process's nor one that was left
/// behind is a restart: the generation grows by one, the answer tells the new one, the
/// token takes the place of the old one, the old one and no other joins those that were
/// left behind, and a wipe is owed.
pub proof fn new_token_is_a_restart(s: WorkerState, c: Contact, token: Seq<char>)
    requires
        s.incarnation == Some(token),
        c.incarnation.len() > 0,
        c.incarnation != token,
        !s.retired.contains(c.incarnation),
        s.generation < i64::MAX,
    ensures
        ({
            let t = s.after_touch(c);
            &&& !s.restart_overflows(c.incarnation)
            &&& t.generation == s.generation + 1
            &&& s.next_generation(c.incarnation) == t.generation
            &&& t.incarnation == Some(c.incarnation)
            &&& t.reset_pending
            &&& s.touch_status(c) == 1
            &&& forall|other: Seq<char>| #[trigger]
                t.retired.contains(other) <==> s.retired.contains(other) || other == token
        }),
{
}

/// A contact without a token, with the first token, or with that of the running process
/// is no restart: the generation stays and the answer tells it, nobody is left behind,
/// and a wipe is owed only if it was before. The first token is stored.
pub proof fn known_token_is_no_restart(s: WorkerState, c: Contact)
    requires
        c.incarnation.len() == 0 || s.incarnation is None || s.incarnation == Some(c.incarnation),
    ensures
        ({
            let t = s.after_touch(c);
            &&& !s.restart_overflows(c.incarnation)
            &&& t.generation == s.generation
            &&& s.next_generation(c.incarnation) == s.generation
            &&& t.retired == s.retired
            &&& t.reset_pending == s.reset_pending
            &&& s.touch_status(c) == if s.reset_pending {
                1int
            } else {
                0int
            }
            &&& c.incarnation.len() > 0 ==> t.incarnation == Some(c.incarnation)
            &&& c.incarnation.len() == 0 ==> t.incarnation == s.incarnation
        }),
{
}

/// A contact that is not turned away and carries a time to live leaves a liveness mark
/// of that contact's time and time to live, whether or not there was a mark before. No
/// other contact touches the mark.
pub proof fn contact_renews_the_mark(s: WorkerState, c: Contact)
    ensures
        s.touch_status(c) != -1 && c.ttl_ms > 0 ==> s.after_touch(c).live == Some(
            Live { stamp_ms: c.now_ms, ttl_ms: c.ttl_ms },
        ),
        s.touch_status(c) == -1 || c.ttl_ms == 0 ==> s.after_touch(c).live == s.live,
{
}

/// A contact that is not turned away and carries an address sets the address to route
/// to. No other contact touches it.
pub proof fn contact_sets_the_address(s: WorkerState, c: Contact)
    ensures
        s.touch_status(c) != -1 && c.addr.len() > 0 ==> s.after_touch(c).addr == Some(c.addr)
            && s.after_touch(c).route() == c.addr,
        s.touch_status(c) == -1 || c.addr.len() == 0 ==> s.after_touch(c).addr == s.addr
            && s.after_touch(c).route() == s.route(),
{
}

/// No contact touches the sequence number, not even a restart: it goes with the wipe.
pub proof fn contact_leaves_the_sequence_alone(s: WorkerState, c: Contact)
    ensures
        s.after_touch(c).seq == s.seq,
{
}

/// The address to route to is the stored one, and empty exactly where none is stored or
/// an empty one is: what else the records hold does not matter.
pub proof fn route_is_the_stored_address(s: WorkerState, t: WorkerState, addr: Seq<char>)
    ensures
        s.addr == Some(addr) ==> s.route() == addr,
        s.addr is None ==> s.route().len() == 0,
        s.addr == t.addr ==> s.route() == t.route(),
{
}

/// The last address that a contact gave which was not turned away, or else the one that
/// was stored at the start, if any.
pub open spec fn last_address(s: WorkerState, steps: Seq<Step>) -> Seq<char>
    decreases steps.len(),
{
    if steps.len() == 0 {
        match s.addr {
            Some(addr) => addr,
            None => seq![],
        }
    } else {
        let earlier = steps.drop_last();
        match steps.last() {
            Step::Touch(c) => if c.addr.len() > 0 && after_history(s, earlier).touch_status(c) != -1 {
                c.addr
            } else {
                last_address(s, earlier)
            },
            _ => last_address(s, earlier),
        }
    }
}

/// After any history the address to route to is the last one that was reported, whatever
/// was committed, wiped or expired since.
pub proof fn route_is_the_last_address(s: WorkerState, steps: Seq<Step>)
    ensures
        after_history(s, steps).route() == last_address(s, steps),
    decreases steps.len(),
{
    if steps.len() > 0 {
        route_is_the_last_address(s, steps.drop_last());
    } else {
        assert(s.addr is None ==> s.route() =~= seq![]);
    }
}

/// The last liveness mark that was made and has not expired.
pub open spec fn last_mark(s: WorkerState, steps: Seq<Step>) -> Option<Live>
    decreases steps.len(),
{
    if steps.len() == 0 {
        s.live
    } else {
        let earlier = steps.drop_last();
        match steps.last() {
            Step::Touch(c) => if c.ttl_ms > 0 && after_history(s, earlier).touch_status(c) != -1 {
                Some(Live { stamp_ms: c.now_ms, ttl_ms: c.ttl_ms })
            } else {
                last_mark(s, earlier)
            },
            Step::Expire => None,
            _ => last_mark(s, earlier),
        }
    }
}

/// After any history the liveness mark is the last one that was made and has not
/// expired. Where liveness is watched, the worker is routed to exactly while there is
/// such a mark and no wipe is owed; where it is not, exactly while no wipe is owed.
pub proof fn mark_is_that_of_the_last_contact(s: WorkerState, steps: Seq<Step>)
    ensures
        ({
            let t = after_history(s, steps);
            &&& t.live == last_mark(s, steps)
            &&& t.is_alive(true) == (last_mark(s, steps) is Some && !t.reset_pending)
            &&& t.is_alive(false) == !t.reset_pending
        }),
    decreases steps.len(),
{
    if steps.len() > 0 {
        mark_is_that_of_the_last_contact(s, steps.drop_last());
    }
}

/// A restart is what makes a wipe owed, finishing it in the running generation is what
/// ends that, and nothing else changes it.
pub proof fn wipe_is_owed_from_restart_to_finish(s: WorkerState, c: Contact, g: u64)
    ensures
        s.after_touch(c).reset_pending == (s.reset_pending || (c.incarnation.len() > 0
            && s.incarnation is Some && s.incarnation != Some(c.incarnation)
            && !s.retired.contains(c.incarnation))),
        s.after_finish(g).reset_pending == (s.reset_pending && g != s.generation),
        forall|seq: u64| (#[trigger] s.after_commit(seq, g)).reset_pending == s.reset_pending,
{
}

/// A commit in the running generation leaves the larger of the committed and the stored
/// sequence number, and the committed one where none was stored. It touches nothing
/// else, and one of another generation touches nothing at all.
pub proof fn commit_keeps_the_larger(s: WorkerState, seq: u64, expected_generation: u64)
    ensures
        ({
            let t = s.after_commit(seq, expected_generation);
            &&& s.generation != expected_generation ==> t == s
            &&& s.generation == expected_generation ==> {
                &&& t.seq matches Some(last) && last >= seq && (last == seq || s.seq == Some(last))
                &&& s.seq matches Some(stored) ==> t.seq->0 >= stored
                &&& s.seq is None ==> t.seq == Some(seq)
            }
            &&& t.generation == s.generation
            &&& t.incarnation == s.incarnation
            &&& t.addr == s.addr
            &&& t.reset_pending == s.reset_pending
            &&& t.expiring == s.expiring
            &&& t.live == s.live
            &&& t.retired == s.retired
        }),
{
}

/// The records after a run of commits in the running generation.
pub open spec fn after_commits(s: WorkerState, seqs: Seq<u64>) -> WorkerState
    decreases seqs.len(),
{
    if seqs.len() == 0 {
        s
    } else {
        after_commits(s, seqs.drop_last()).after_commit(seqs.last(), s.generation)
    }
}

/// Whether a batch is newer than every one of a run, and than the one stored at the start.
pub open spec fn newer_than_all(s: WorkerState, seqs: Seq<u64>, next: u64) -> bool {
    &&& forall|i: int| 0 <= i < seqs.len() ==> #[trigger] seqs[i] < next
    &&& s.seq matches Some(stored) ==> stored < next
}

/// After a run of commits, in any order, a batch is let through exactly if it is newer
/// than every batch that was committed; any other is taken for applied.
pub proof fn batch_proceeds_exactly_if_newer_than_all(s: WorkerState, seqs: Seq<u64>, next: u64)
    ensures
        after_commits(s, seqs).generation == s.generation,
        after_commits(s, seqs).check_status(next, s.generation) == if newer_than_all(s, seqs, next) {
            1int
        } else {
            0int
        },
    decreases seqs.len(),
{
    if seqs.len() > 0 {
        let earlier = seqs.drop_last();
        batch_proceeds_exactly_if_newer_than_all(s, earlier, next);
        assert(newer_than_all(s, seqs, next) == (newer_than_all(s, earlier, next) && seqs.last()
            < next)) by {
            if newer_than_all(s, seqs, next) {
                assert forall|i: int| 0 <= i < earlier.len() implies #[trigger] earlier[i] < next by {
                    assert(earlier[i] == seqs[i]);
                }
                assert(seqs[seqs.len() - 1] < next);
            }
            if newer_than_all(s, earlier, next) && seqs.last() < next {
                assert forall|i: int| 0 <= i < seqs.len() implies #[trigger] seqs[i] < next by {
                    if i < earlier.len() {
                        assert(earlier[i] == seqs[i]);
                    }
                }
            }
        }
        commit_keeps_the_larger(after_commits(s, earlier), seqs.last(), s.generation);
        check_answers_from_the_last(after_commits(s, earlier), next, s.generation);
        check_answers_from_the_last(after_commits(s, seqs), next, s.generation);
    } else {
        check_answers_from_the_last(s, next, s.generation);
    }
}

/// A check of another generation is turned away. In the running one a batch is taken for
/// applied exactly up to the stored sequence number, and let through beyond it, or where
/// none is stored.
pub proof fn check_answers_from_the_last(s: WorkerState, seq: u64, expected_generation: u64)
    ensures
        s.check_status(seq, expected_generation) == -1 <==> s.generation != expected_generation,
        s.check_status(seq, expected_generation) == 0 <==> s.generation == expected_generation
            && s.seq is Some && seq <= s.seq->0,
        s.check_status(seq, expected_generation) == 1 <==> s.generation == expected_generation && (
        s.seq is None || seq > s.seq->0),
{
}

/// A wipe is finished exactly where one is owed in the running generation. It forgets the
/// sequence number and that a wipe is owed, and nothing else; where it is not finished,
/// nothing changes.
pub proof fn finish_forgets_the_sequence(s: WorkerState, expected_generation: u64)
    ensures
        ({
            let t = s.after_finish(expected_generation);
            let status = s.finish_status(expected_generation);
            &&& status == -1 <==> s.generation != expected_generation
            &&& status == 0 <==> s.generation == expected_generation && !s.reset_pending
            &&& status == 1 <==> s.generation == expected_generation && s.reset_pending
            &&& status == 1 ==> t.seq is None && !t.reset_pending
            &&& status != 1 ==> t.seq == s.seq && t.reset_pending == s.reset_pending
            &&& t.generation == s.generation
            &&& t.incarnation == s.incarnation
            &&& t.addr == s.addr
            &&& t.expiring == s.expiring
            &&& t.live == s.live
            &&& t.retired == s.retired
        }),
{
}

/// A worker is routed to exactly while no wipe is owed and, where liveness is watched,
/// its mark lasts: what else the records hold does not matter.
pub proof fn alive_exactly_while_wiped_and_marked(s: WorkerState)
    ensures
        s.is_alive(false) == !s.reset_pending,
        s.is_alive(true) == (!s.reset_pending && s.live is Some),
{
}

/// A worker that has just made contact with an address and a time to live is routed to at
/// that address, in the generation that it was told, unless it was turned away or a wipe
/// is owed.
pub proof fn contact_opens_routing(s: WorkerState, c: Contact, ttl_enabled: bool)
    requires
        s.touch_status(c) == 0,
        !s.restart_overflows(c.incarnation),
        c.addr.len() > 0,
        c.ttl_ms > 0,
    ensures
        s.after_touch(c).is_alive(ttl_enabled),
        s.after_touch(c).route() == c.addr,
        s.after_touch(c).generation == s.next_generation(c.incarnation),
{
}

} // verus!
