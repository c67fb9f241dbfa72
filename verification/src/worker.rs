//! One worker's records: its durable metadata, its liveness mark and the
//! incarnations it has left behind.
//!
//! A worker names its running process with an incarnation token. A token that
//! differs from the stored one is a restart: the worker's generation grows by one
//! and what it held before has to be wiped before the new process counts. Every
//! later step carries the generation it was begun in and is turned away once the
//! generation has moved on.

use vstd::prelude::*;


verus! {

/// A counter could not be raised, as it stands at the largest value.
#[derive(Clone, Copy, Debug, PartialEq, Eq, Structural)]
pub struct CounterOverflow;

/// A liveness mark, which is removed by itself when its time to live is over.
#[derive(Clone, Copy, Debug, PartialEq, Eq, Structural)]
pub struct Live {
    /// When the mark was made, in milliseconds.
    pub stamp_ms: u64,
    /// How long it lasts, in milliseconds.
    pub ttl_ms: u64,
}

/// What one worker's records hold.
#[verifier::ext_equal]
pub struct WorkerState {
    pub generation: u64,
    pub incarnation: Option<Seq<char>>,
    pub addr: Option<Seq<char>>,
    pub reset_pending: bool,
    pub seq: Option<u64>,
    pub expiring: bool,
    pub live: Option<Live>,
    pub retired: Set<Seq<char>>,
}

/// What a worker reports when it makes contact.
pub struct Contact {
    pub now_ms: u64,
    pub ttl_ms: u64,
    pub addr: Seq<char>,
    pub incarnation: Seq<char>,
}

impl WorkerState {
    /// The running process is not one that was left behind, and a worker that never
    /// had a process has left none behind.
    pub open spec fn consistent(self) -> bool {
        match self.incarnation {
            Some(token) => !self.retired.contains(token),
            None => self.retired =~= Set::<Seq<char>>::empty(),
        }
    }

    /// Whether a token tells of another process than the stored one.
    pub open spec fn is_other(self, incarnation: Seq<char>) -> bool {
        &&& incarnation.len() > 0
        &&& self.incarnation matches Some(token) && token != incarnation
    }

    /// Whether a contact is turned away: it comes from a process that was left behind.
    pub open spec fn refuses(self, incarnation: Seq<char>) -> bool {
        self.is_other(incarnation) && self.retired.contains(incarnation)
    }

    /// Whether a contact is a restart.
    pub open spec fn is_restart(self, incarnation: Seq<char>) -> bool {
        self.is_other(incarnation) && !self.retired.contains(incarnation)
    }

    /// Whether a restart cannot be counted any more.
    pub open spec fn restart_overflows(self, incarnation: Seq<char>) -> bool {
        self.is_restart(incarnation) && self.generation >= i64::MAX
    }

    /// The generation after a contact.
    pub open spec fn next_generation(self, incarnation: Seq<char>) -> int {
        if self.is_restart(incarnation) {
            self.generation + 1
        } else {
            self.generation as int
        }
    }

    /// What a contact leaves.
    pub open spec fn after_touch(self, c: Contact) -> WorkerState {
        if self.refuses(c.incarnation) {
            WorkerState { expiring: false, ..self }
        } else {
            WorkerState {
                generation: self.next_generation(c.incarnation) as u64,
                incarnation: if c.incarnation.len() > 0 {
                    Some(c.incarnation)
                } else {
                    self.incarnation
                },
                addr: if c.addr.len() > 0 {
                    Some(c.addr)
                } else {
                    self.addr
                },
                reset_pending: self.reset_pending || self.is_restart(c.incarnation),
                seq: self.seq,
                expiring: false,
                live: if c.ttl_ms > 0 {
                    Some(Live { stamp_ms: c.now_ms, ttl_ms: c.ttl_ms })
                } else {
                    self.live
                },
                retired: if self.is_restart(c.incarnation) {
                    self.retired.insert(self.incarnation->0)
                } else {
                    self.retired
                },
            }
        }
    }

    /// What a contact answers: `-1` where it is turned away, `1` where a wipe is
    /// owed, `0` else.
    pub open spec fn touch_status(self, c: Contact) -> int {
        if self.refuses(c.incarnation) {
            -1
        } else if self.after_touch(c).reset_pending {
            1
        } else {
            0
        }
    }

    /// Whether a worker may be routed to.
    pub open spec fn is_alive(self, ttl_enabled: bool) -> bool {
        !self.reset_pending && (ttl_enabled ==> self.live is Some)
    }

    /// The address to route to, empty where none is known.
    pub open spec fn route(self) -> Seq<char> {
        match self.addr {
            Some(addr) => addr,
            None => Seq::empty(),
        }
    }

    /// What asking to apply a batch answers: `-1` where the generation has moved on,
    /// `0` where the batch was applied before, `1` where it may proceed.
    pub open spec fn check_status(self, seq: u64, expected_generation: u64) -> int {
        if self.generation != expected_generation {
            -1
        } else if self.seq matches Some(last) && seq <= last {
            0
        } else {
            1
        }
    }

    /// What committing a batch leaves.
    pub open spec fn after_commit(self, seq: u64, expected_generation: u64) -> WorkerState {
        if self.generation != expected_generation {
            self
        } else {
            WorkerState {
                seq: Some(
                    match self.seq {
                        Some(last) => if seq > last {
                            seq
                        } else {
                            last
                        },
                        None => seq,
                    },
                ),
                ..self
            }
        }
    }

    /// What finishing a wipe answers: `-1` where the generation has moved on, `0`
    /// where no wipe is owed, `1` where one was.
    pub open spec fn finish_status(self, expected_generation: u64) -> int {
        if self.generation != expected_generation {
            -1
        } else if !self.reset_pending {
            0
        } else {
            1
        }
    }

    /// What finishing a wipe leaves.
    pub open spec fn after_finish(self, expected_generation: u64) -> WorkerState {
        if self.finish_status(expected_generation) == 1 {
            WorkerState { seq: None, reset_pending: false, ..self }
        } else {
            self
        }
    }
}

/// One worker's records.
#[derive(Clone, Debug)]
pub struct Worker {
    /// How many restarts were accepted.
    pub generation: u64,
    /// The token of the running process.
    pub incarnation: Option<String>,
    /// The address to route to.
    pub addr: Option<String>,
    /// Whether what an earlier process held is still to be wiped.
    pub reset_pending: bool,
    /// The sequence number of the last batch that was applied.
    pub seq: Option<u64>,
    /// Whether the metadata would expire by itself. An older layout let it.
    pub expiring: bool,
    /// The liveness mark, while it lasts.
    pub live: Option<Live>,
    /// The tokens of earlier processes.
    pub retired: Vec<String>,
}

pub open spec fn opt_text(text: Option<String>) -> Option<Seq<char>> {
    match text {
        Some(text) => Some(text@),
        None => None,
    }
}

/// The texts in a list.
pub open spec fn text_set(texts: Seq<String>) -> Set<Seq<char>> {
    Set::new(|t: Seq<char>| exists|i: int| 0 <= i < texts.len() && (#[trigger] texts[i])@ == t)
}

impl View for Worker {
    type V = WorkerState;

    open spec fn view(&self) -> WorkerState {
        WorkerState {
            generation: self.generation,
            incarnation: opt_text(self.incarnation),
            addr: opt_text(self.addr),
            reset_pending: self.reset_pending,
            seq: self.seq,
            expiring: self.expiring,
            live: self.live,
            retired: text_set(self.retired@),
        }
    }
}

/// The answer to a contact.
#[derive(Clone, Copy, Debug, PartialEq, Eq, Structural)]
pub struct TouchReply {
    /// `-1` where the contact was turned away, `1` where a wipe is owed, `0` else.
    pub status: i64,
    pub generation: u64,
}

/// The answer about a batch, with the last sequence number that was applied.
#[derive(Clone, Copy, Debug, PartialEq, Eq, Structural)]
pub struct SeqReply {
    pub status: i64,
    pub last: Option<u64>,
}

/// What routing needs to know of a worker.
#[derive(Clone, Debug, PartialEq, Eq)]
pub struct WorkerView {
    /// The address to route to, empty where none is known.
    pub addr: String,
    pub alive: bool,
    pub generation: u64,
}

fn is_retired(retired: &Vec<String>, token: &String) -> (found: bool)
    ensures
        found == text_set(retired@).contains(token@),
{
    let n = retired.len();
    let mut i: usize = 0;
    while i < n
        invariant
            n == retired@.len(),
            i <= n,
            forall|j: int| 0 <= j < i ==> (#[trigger] retired@[j])@ != token@,
        decreases n - i,
    {
        if retired[i] == *token {
            return true;
        }
        i = i + 1;
    }
    false
}

fn retire(retired: &mut Vec<String>, token: String)
    ensures
        text_set(final(retired)@) == text_set(old(retired)@).insert(token@),
{
    if !is_retired(retired, &token) {
        let ghost before = retired@;
        retired.push(token);
        proof {
            assert forall|t: Seq<char>| text_set(retired@).contains(t) == text_set(before).insert(
                token@,
            ).contains(t) by {
                if text_set(before).contains(t) {
                    let i = choose|i: int| 0 <= i < before.len() && (#[trigger] before[i])@ == t;
                    assert(retired@[i]@ == t);
                }
                if t == token@ {
                    assert(retired@[before.len() as int]@ == t);
                }
                if text_set(retired@).contains(t) {
                    let i = choose|i: int| 0 <= i < retired@.len() && (#[trigger] retired@[i])@ == t;
                    if i < before.len() {
                        assert(before[i]@ == t);
                    }
                }
            }
            assert(text_set(retired@) =~= text_set(before).insert(token@));
        }
    } else {
        assert(text_set(retired@) =~= text_set(retired@).insert(token@));
    }
}

impl Worker {
    /// A worker that was never heard of.
    pub fn new() -> (worker: Worker)
        ensures
            worker@.consistent(),
            worker@ == (WorkerState {
                generation: 0,
                incarnation: None,
                addr: None,
                reset_pending: false,
                seq: None,
                expiring: false,
                live: None,
                retired: Set::empty(),
            }),
    {
        let worker = Worker {
            generation: 0,
            incarnation: None,
            addr: None,
            reset_pending: false,
            seq: None,
            expiring: false,
            live: None,
            retired: Vec::new(),
        };
        assert(text_set(worker.retired@) =~= Set::empty());
        worker
    }

    /// Takes note of a contact.
    ///
    /// The metadata is made durable. An empty `addr` or `incarnation` says nothing
    /// about it, and a `ttl_ms` of zero leaves the liveness mark alone. The first
    /// token is stored as it is. Another token than the stored one is a restart: the
    /// stored one is retired, the generation grows by one and a wipe is owed. A
    /// retired token is turned away, so that it cannot bring an earlier process back.
    ///
    /// A restart that can no longer be counted is an error; the stored token is
    /// retired all the same.
    pub fn touch_meta(
        &mut self,
        now_ms: u64,
        ttl_ms: u64,
        addr: &str,
        incarnation: &str,
    ) -> (reply: Result<TouchReply, CounterOverflow>)
        ensures
            match reply {
                Ok(reply) => {
                    let c = Contact { now_ms, ttl_ms, addr: addr@, incarnation: incarnation@ };
                    &&& !old(self)@.restart_overflows(incarnation@)
                    &&& final(self)@ == old(self)@.after_touch(c)
                    &&& reply.status == old(self)@.touch_status(c)
                    &&& reply.generation == old(self)@.next_generation(incarnation@)
                },
                Err(_) => {
                    &&& old(self)@.restart_overflows(incarnation@)
                    &&& final(self)@ == (WorkerState {
                        expiring: false,
                        retired: old(self)@.retired.insert(old(self)@.incarnation->0),
                        ..old(self)@
                    })
                },
            },
    {
        self.expiring = false;
        if !incarnation.is_empty() {
            let token = incarnation.to_owned();
            match &self.incarnation {
                None => {
                    self.incarnation = Some(token);
                },
                Some(stored) => {
                    if *stored != token {
                        if is_retired(&self.retired, &token) {
                            return Ok(TouchReply { status: -1, generation: self.generation });
                        }
                        let leaving = stored.clone();
                        retire(&mut self.retired, leaving);
                        if self.generation >= i64::MAX as u64 {
                            return Err(CounterOverflow);
                        }
                        self.generation = self.generation + 1;
                        self.incarnation = Some(token);
                        self.reset_pending = true;
                    }
                },
            }
        }
        if !addr.is_empty() {
            self.addr = Some(addr.to_owned());
        }
        if ttl_ms > 0 {
            self.live = Some(Live { stamp_ms: now_ms, ttl_ms });
        }
        let status: i64 = if self.reset_pending {
            1
        } else {
            0
        };
        Ok(TouchReply { status, generation: self.generation })
    }

    /// What routing needs to know of the worker. It is not alive while a wipe is
    /// owed, nor, where liveness is watched, once its mark has expired.
    pub fn worker_view(&self, ttl_enabled: bool) -> (view: WorkerView)
        ensures
            view.addr@ == self@.route(),
            view.alive == self@.is_alive(ttl_enabled),
            view.generation == self@.generation,
    {
        let addr = match &self.addr {
            Some(addr) => addr.clone(),
            None => String::new(),
        };
        let alive = !self.reset_pending && !(ttl_enabled && self.live.is_none());
        WorkerView { addr, alive, generation: self.generation }
    }

    /// Asks whether a batch may be applied.
    ///
    /// The status is `-1` where the generation has moved on, `0` where the batch was
    /// applied before, `1` where it may proceed.
    pub fn seq_check(&self, seq: u64, expected_generation: u64) -> (reply: SeqReply)
        ensures
            reply.status == self@.check_status(seq, expected_generation),
            reply.last == self@.seq,
    {
        let status: i64 = if self.generation != expected_generation {
            -1
        } else {
            match self.seq {
                Some(last) if seq <= last => 0,
                _ => 1,
            }
        };
        SeqReply { status, last: self.seq }
    }

    /// Notes that a batch was applied: the stored sequence number becomes the larger
    /// of the two.
    ///
    /// The status is `-1`, with nothing changed, where the generation has moved on,
    /// and `1` else.
    pub fn seq_commit(&mut self, seq: u64, expected_generation: u64) -> (reply: SeqReply)
        ensures
            final(self)@ == old(self)@.after_commit(seq, expected_generation),
            reply.status == if old(self)@.generation != expected_generation {
                -1int
            } else {
                1int
            },
            reply.last == final(self)@.seq,
    {
        if self.generation != expected_generation {
            return SeqReply { status: -1, last: self.seq };
        }
        let newer = match self.seq {
            Some(last) => seq > last,
            None => true,
        };
        if newer {
            self.seq = Some(seq);
        }
        SeqReply { status: 1, last: self.seq }
    }

    /// Finishes the wipe that a restart owed: forgets the sequence number and opens
    /// the generation for batches.
    ///
    /// Answers `-1` where the generation has moved on, `0` where no wipe is owed, `1`
    /// where one was; only the last changes anything.
    pub fn reset_finish(&mut self, expected_generation: u64) -> (status: i64)
        ensures
            final(self)@ == old(self)@.after_finish(expected_generation),
            status == old(self)@.finish_status(expected_generation),
    {
        if self.generation != expected_generation {
            return -1;
        }
        if !self.reset_pending {
            return 0;
        }
        self.seq = None;
        self.reset_pending = false;
        1
    }
}

} // verus!
