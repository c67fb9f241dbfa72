//! Router-facing side of the prefix-match query.
//!
//! A successful query tells a real match from an empty result. Transport failures,
//! deadlines and server rejections stay errors, so that a caller fails the routing
//! request and does not silently use a different signal.
//!
//! The query itself is made elsewhere. What is sent, and what is made of the reply,
//! is decided here.

use vstd::prelude::*;
use vstd::string::StringExecFns;

use crate::code;
use crate::code::Code;
use crate::decimal;

verus! {

/// How long a query may take when nothing else is asked for. A failed query is a
/// failed request, so this allows for ordinary scheduling jitter between hosts.
pub const DEFAULT_QUERY_DEADLINE_MILLIS: u64 = 100;

/// A span of time.
#[derive(Clone, Copy, Debug, PartialEq, Eq, Structural)]
pub struct Deadline {
    pub secs: u64,
    /// Below one second.
    pub nanos: u32,
}

impl Deadline {
    pub open spec fn wf(self) -> bool {
        self.nanos < 1_000_000_000
    }

    /// The whole span in nanoseconds.
    pub open spec fn total_nanos(self) -> int {
        self.secs * 1_000_000_000 + self.nanos
    }

    pub fn from_millis(millis: u64) -> (deadline: Deadline)
        ensures
            deadline.wf(),
            deadline.total_nanos() == millis * 1_000_000,
    {
        Deadline { secs: millis / 1000, nanos: ((millis % 1000) * 1_000_000) as u32 }
    }
}

/// One worker's contiguous prefix hit.
#[derive(Clone, Debug, PartialEq, Eq)]
pub struct PrefixMatch {
    /// Router-facing routing identity, to be compared byte for byte with registered
    /// worker URLs. A service that drops unroutable workers never leaves it empty.
    pub address: String,
    /// Length of the contiguous request prefix this worker holds.
    pub matched_prefix_blocks: u32,
    /// Opaque worker id, for the caller's logs only.
    pub worker_id: String,
}

/// A failed prefix query.
#[derive(Clone, Copy, Debug, PartialEq, Eq, Structural)]
pub enum PrefixIndexError {
    /// The endpoint could not be reached.
    Unreachable,
    /// The query exceeded its deadline.
    Timeout,
    /// The server rejected the request.
    Rejected(Code),
}

impl PrefixIndexError {
    /// What the error says.
    pub open spec fn text(self) -> Seq<char> {
        match self {
            PrefixIndexError::Unreachable => "KV Indexer is unreachable"@,
            PrefixIndexError::Timeout => "KV Indexer query timed out"@,
            PrefixIndexError::Rejected(code) => "KV Indexer rejected the query with "@
                + code::meaning(code),
        }
    }

    /// The error in words.
    pub fn message(&self) -> (text: String)
        ensures
            text@ == self.text(),
    {
        match self {
            PrefixIndexError::Unreachable => "KV Indexer is unreachable".to_owned(),
            PrefixIndexError::Timeout => "KV Indexer query timed out".to_owned(),
            PrefixIndexError::Rejected(code) => {
                let mut text = "KV Indexer rejected the query with ".to_owned();
                text.append(code.description().as_str());
                text
            },
        }
    }
}

/// Result of a successful prefix query.
#[derive(Clone, Debug, PartialEq, Eq)]
pub enum PrefixOutcome {
    Matched {
        /// Sorted by `matched_prefix_blocks`, descending.
        matches: Vec<PrefixMatch>,
        /// Longest contiguous prefix held by any single worker.
        best_prefix_blocks: u32,
    },
    /// No worker holds a prefix (or the request had no hashes).
    Empty,
}

/// Client configuration.
#[derive(Clone, Debug)]
pub struct PrefixIndexConfig {
    /// Endpoint of the service, such as `http://10.0.0.1:50051`.
    pub endpoint: String,
    /// Per-query deadline.
    pub query_deadline: Deadline,
}

impl PrefixIndexConfig {
    /// Configuration with the default query deadline.
    pub fn new(endpoint: &str) -> (config: PrefixIndexConfig)
        ensures
            config.endpoint@ == endpoint@,
            config.query_deadline.wf(),
            config.query_deadline.total_nanos() == DEFAULT_QUERY_DEADLINE_MILLIS * 1_000_000,
    {
        PrefixIndexConfig {
            endpoint: endpoint.to_owned(),
            query_deadline: Deadline::from_millis(DEFAULT_QUERY_DEADLINE_MILLIS),
        }
    }
}

/// The query that is sent.
#[derive(Clone, Debug, PartialEq, Eq)]
pub struct MatchExternalKvPrefixRequest {
    /// Block hashes as decimal numerals, in prompt order.
    pub hashes: Vec<String>,
    /// A bound on the blocks of the query. A router sends zero.
    pub max_blocks: u32,
}

/// One worker in an answer.
#[derive(Clone, Debug, PartialEq, Eq)]
pub struct ExternalKvPrefixMatch {
    pub worker_id: String,
    pub worker_address: String,
    pub matched_prefix_blocks: u32,
}

/// The answer to a query.
#[derive(Clone, Debug, PartialEq, Eq)]
pub struct MatchExternalKvPrefixResponse {
    pub matches: Vec<ExternalKvPrefixMatch>,
    pub best_prefix_blocks: u32,
    /// How many blocks were read for the answer.
    pub blocks_read: u32,
}

/// How a query ended.
#[derive(Clone, Debug, PartialEq, Eq)]
pub enum QueryReply {
    /// The deadline passed first.
    DeadlineElapsed,
    /// The call failed with a status.
    Failed(Code),
    /// The service answered.
    Answered(MatchExternalKvPrefixResponse),
}

/// What to do for a query.
#[derive(Debug, PartialEq, Eq)]
pub enum QueryPlan {
    /// The result is known without asking.
    Settled(Result<PrefixOutcome, PrefixIndexError>),
    /// The service has to be asked.
    Ask(MatchExternalKvPrefixRequest),
}

/// The error that a status stands for.
pub open spec fn error_of(code: Code) -> PrefixIndexError {
    match code {
        Code::Unavailable => PrefixIndexError::Unreachable,
        Code::DeadlineExceeded => PrefixIndexError::Timeout,
        _ => PrefixIndexError::Rejected(code),
    }
}

/// Sorts a failed status into the kinds of error.
pub fn classify(code: Code) -> (error: PrefixIndexError)
    ensures
        error == error_of(code),
{
    match code {
        Code::Unavailable => PrefixIndexError::Unreachable,
        Code::DeadlineExceeded => PrefixIndexError::Timeout,
        _ => PrefixIndexError::Rejected(code),
    }
}

/// Whether a request carries these hashes: one numeral for each, in the same order,
/// with no limit on the blocks.
pub open spec fn carries(request: MatchExternalKvPrefixRequest, hashes: Seq<i64>) -> bool {
    &&& request.max_blocks == 0
    &&& request.hashes@.len() == hashes.len()
    &&& forall|i: int|
        0 <= i < hashes.len() ==> (#[trigger] request.hashes@[i])@ == decimal::decimal_int(
            hashes[i] as int,
        )
}

/// A worker of an answer, as the router sees it.
pub open spec fn match_of(m: ExternalKvPrefixMatch) -> PrefixMatch {
    PrefixMatch {
        address: m.worker_address,
        matched_prefix_blocks: m.matched_prefix_blocks,
        worker_id: m.worker_id,
    }
}

/// What a reply amounts to: an error for anything but an answer, no match for an
/// answer that names nobody, and else the workers of the answer, in its order, with
/// its best length.
pub open spec fn concludes(
    reply: QueryReply,
    result: Result<PrefixOutcome, PrefixIndexError>,
) -> bool {
    match reply {
        QueryReply::DeadlineElapsed => result == Err::<PrefixOutcome, PrefixIndexError>(
            PrefixIndexError::Timeout,
        ),
        QueryReply::Failed(code) => result == Err::<PrefixOutcome, PrefixIndexError>(
            error_of(code),
        ),
        QueryReply::Answered(response) => if response.matches@.len() == 0 {
            result == Ok::<PrefixOutcome, PrefixIndexError>(PrefixOutcome::Empty)
        } else {
            &&& result matches Ok(PrefixOutcome::Matched { matches, best_prefix_blocks })
            &&& matches@ == response.matches@.map_values(
                |m: ExternalKvPrefixMatch| match_of(m),
            )
            &&& best_prefix_blocks == response.best_prefix_blocks
        },
    }
}

/// Writes block hashes the way they are reported, as decimal numerals.
pub fn encode_hashes(hashes: &Vec<i64>) -> (encoded: Vec<String>)
    ensures
        encoded@.len() == hashes@.len(),
        forall|i: int|
            0 <= i < hashes@.len() ==> (#[trigger] encoded@[i])@ == decimal::decimal_int(
                hashes@[i] as int,
            ),
{
    let n = hashes.len();
    let mut encoded: Vec<String> = Vec::new();
    let mut i: usize = 0;
    while i < n
        invariant
            n == hashes@.len(),
            i <= n,
            encoded@.len() == i,
            forall|j: int|
                0 <= j < i ==> (#[trigger] encoded@[j])@ == decimal::decimal_int(
                    hashes@[j] as int,
                ),
        decreases n - i,
    {
        encoded.push(decimal::decimal_i64(hashes[i]));
        i = i + 1;
    }
    encoded
}

fn router_matches(matches: Vec<ExternalKvPrefixMatch>) -> (seen: Vec<PrefixMatch>)
    ensures
        seen@ == matches@.map_values(|m: ExternalKvPrefixMatch| match_of(m)),
{
    let mut seen: Vec<PrefixMatch> = Vec::new();
    for m in it: matches
        invariant
            seen@ == matches@.take(it.index() as int).map_values(
                |m: ExternalKvPrefixMatch| match_of(m),
            ),
            it.seq() == matches@,
    {
        seen.push(
            PrefixMatch {
                address: m.worker_address,
                matched_prefix_blocks: m.matched_prefix_blocks,
                worker_id: m.worker_id,
            },
        );
    }
    assert(matches@.take(matches@.len() as int) =~= matches@);
    seen
}

/// Whether `tonic::transport::Endpoint::from_shared` accepts a text as an endpoint.
pub uninterp spec fn endpoint_accepted(endpoint: Seq<char>) -> bool;

/// `tonic::transport::Endpoint::from_shared`, reduced to whether it succeeds. It only
/// parses, so the answer is a function of the text.
#[verifier::external_body]
fn tonic_endpoint_parses(endpoint: &str) -> (accepted: bool)
    ensures
        accepted == endpoint_accepted(endpoint@),
{
    tonic::transport::Endpoint::from_shared(endpoint.to_string()).is_ok()
}

/// The prefix query against a remote service.
#[derive(Clone, Debug)]
pub struct GrpcPrefixIndex {
    /// `None` when the endpoint could not be parsed; queries then fail as
    /// [`PrefixIndexError::Unreachable`].
    endpoint: Option<String>,
    deadline: Deadline,
}

impl GrpcPrefixIndex {
    /// The endpoint to ask, if there is one.
    pub closed spec fn endpoint_text(&self) -> Option<Seq<char>> {
        match self.endpoint {
            Some(endpoint) => Some(endpoint@),
            None => None,
        }
    }

    pub closed spec fn query_deadline(&self) -> Deadline {
        self.deadline
    }

    /// Prepares queries as configured. Nothing is connected yet.
    pub fn new(config: PrefixIndexConfig) -> (index: GrpcPrefixIndex)
        ensures
            index.endpoint_text() == (if endpoint_accepted(config.endpoint@) {
                Some(config.endpoint@)
            } else {
                None
            }),
            index.query_deadline() == config.query_deadline,
    {
        Self::with_endpoint(tonic_endpoint_parses(config.endpoint.as_str()), config)
    }

    /// Prepares queries as configured, given whether the endpoint could be parsed.
    pub fn with_endpoint(accepted: bool, config: PrefixIndexConfig) -> (index: GrpcPrefixIndex)
        ensures
            index.endpoint_text() == (if accepted {
                Some(config.endpoint@)
            } else {
                None
            }),
            index.query_deadline() == config.query_deadline,
    {
        let endpoint = if accepted {
            Some(config.endpoint)
        } else {
            None
        };
        GrpcPrefixIndex { endpoint, deadline: config.query_deadline }
    }

    /// The endpoint to ask, if there is one.
    pub fn endpoint(&self) -> (endpoint: Option<&String>)
        ensures
            match endpoint {
                Some(endpoint) => self.endpoint_text() == Some(endpoint@),
                None => self.endpoint_text() is None,
            },
    {
        self.endpoint.as_ref()
    }

    /// How long a query may take.
    pub fn deadline(&self) -> (deadline: Deadline)
        ensures
            deadline == self.query_deadline(),
    {
        self.deadline
    }

    /// Decides what to do for a query. Without an endpoint it fails at once; with no
    /// hashes there is nothing to ask.
    pub fn plan(&self, hashes: &Vec<i64>) -> (plan: QueryPlan)
        ensures
            match plan {
                QueryPlan::Settled(result) => if self.endpoint_text() is None {
                    result == Err::<PrefixOutcome, PrefixIndexError>(PrefixIndexError::Unreachable)
                } else {
                    &&& hashes@.len() == 0
                    &&& result == Ok::<PrefixOutcome, PrefixIndexError>(PrefixOutcome::Empty)
                },
                QueryPlan::Ask(request) => {
                    &&& self.endpoint_text() is Some
                    &&& hashes@.len() > 0
                    &&& carries(request, hashes@)
                },
            },
    {
        if self.endpoint.is_none() {
            return QueryPlan::Settled(Err(PrefixIndexError::Unreachable));
        }
        if hashes.is_empty() {
            return QueryPlan::Settled(Ok(PrefixOutcome::Empty));
        }
        QueryPlan::Ask(MatchExternalKvPrefixRequest { hashes: encode_hashes(hashes), max_blocks: 0 })
    }

    /// Turns the end of a query into its result.
    pub fn conclude(reply: QueryReply) -> (result: Result<PrefixOutcome, PrefixIndexError>)
        ensures
            concludes(reply, result),
    {
        match reply {
            QueryReply::DeadlineElapsed => Err(PrefixIndexError::Timeout),
            QueryReply::Failed(code) => Err(classify(code)),
            QueryReply::Answered(response) => {
                if response.matches.is_empty() {
                    return Ok(PrefixOutcome::Empty);
                }
                Ok(
                    PrefixOutcome::Matched {
                        matches: router_matches(response.matches),
                        best_prefix_blocks: response.best_prefix_blocks,
                    },
                )
            },
        }
    }

    /// Queries the longest contiguous prefix each worker holds for `hashes`, in prompt
    /// order, through `ask`, which makes the call under the deadline. Nothing is asked
    /// without an endpoint or without hashes.
    pub fn match_prefix<F: FnOnce(MatchExternalKvPrefixRequest) -> QueryReply>(
        &self,
        hashes: Vec<i64>,
        ask: F,
    ) -> (result: Result<PrefixOutcome, PrefixIndexError>)
        requires
            self.endpoint_text() is Some && hashes@.len() > 0 ==> forall|
                request: MatchExternalKvPrefixRequest,
            |
                carries(request, hashes@) ==> call_requires(ask, (request,)),
        ensures
            self.endpoint_text() is None ==> result == Err::<PrefixOutcome, PrefixIndexError>(
                PrefixIndexError::Unreachable,
            ),
            self.endpoint_text() is Some && hashes@.len() == 0 ==> result == Ok::<
                PrefixOutcome,
                PrefixIndexError,
            >(PrefixOutcome::Empty),
            self.endpoint_text() is Some && hashes@.len() > 0 ==> exists|
                request: MatchExternalKvPrefixRequest,
                reply: QueryReply,
            |
                carries(request, hashes@) && #[trigger] call_ensures(ask, (request,), reply)
                    && concludes(reply, result),
    {
        match self.plan(&hashes) {
            QueryPlan::Settled(result) => result,
            QueryPlan::Ask(request) => Self::conclude(ask(request)),
        }
    }
}

} // verus!
