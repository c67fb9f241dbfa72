//! What a query promises, whatever the reply.

use vstd::prelude::*;

use crate::client::{
    Deadline, ExternalKvPrefixMatch, MatchExternalKvPrefixRequest, MatchExternalKvPrefixResponse,
    PrefixIndexError, PrefixOutcome, QueryReply,
};
use crate::client;
use crate::code;
use crate::code::Code;
use crate::decimal;

verus! {

/// A query fails exactly if the service did not answer: a failure is never taken for
/// an empty result, and an answer never for a failure.
pub proof fn only_an_answer_succeeds(
    reply: QueryReply,
    result: Result<PrefixOutcome, PrefixIndexError>,
)
    requires
        client::concludes(reply, result),
    ensures
        result is Ok <==> reply is Answered,
{
}

/// A query comes back empty exactly if the service answered and named nobody.
pub proof fn empty_means_nobody_was_named(
    reply: QueryReply,
    result: Result<PrefixOutcome, PrefixIndexError>,
)
    requires
        client::concludes(reply, result),
    ensures
        result == Ok::<PrefixOutcome, PrefixIndexError>(PrefixOutcome::Empty) <==> (
        reply matches QueryReply::Answered(response) && response.matches@.len() == 0),
{
}

/// Each kind of error has its own causes: an unavailable service is unreachable, a
/// deadline that passed here or there is a timeout, and any other status is a
/// rejection that carries the status.
pub proof fn errors_tell_their_cause(
    reply: QueryReply,
    result: Result<PrefixOutcome, PrefixIndexError>,
    code: Code,
)
    requires
        client::concludes(reply, result),
    ensures
        result == Err::<PrefixOutcome, PrefixIndexError>(PrefixIndexError::Unreachable) <==> reply
            == QueryReply::Failed(Code::Unavailable),
        result == Err::<PrefixOutcome, PrefixIndexError>(PrefixIndexError::Timeout) <==> reply
            == QueryReply::DeadlineElapsed || reply == QueryReply::Failed(Code::DeadlineExceeded),
        result == Err::<PrefixOutcome, PrefixIndexError>(PrefixIndexError::Rejected(code)) <==> reply
            == QueryReply::Failed(code) && code != Code::Unavailable && code
            != Code::DeadlineExceeded,
{
}

/// What a service owes in an answer that names somebody: the workers by falling
/// length, all with a hit and an address, and the best length first.
pub open spec fn answer_in_order(response: MatchExternalKvPrefixResponse) -> bool {
    let ms = response.matches@;
    &&& ms.len() > 0 ==> response.best_prefix_blocks == ms[0].matched_prefix_blocks
    &&& forall|i: int, j: int|
        0 <= i <= j < ms.len() ==> (#[trigger] ms[i]).matched_prefix_blocks >= (
        #[trigger] ms[j]).matched_prefix_blocks
    &&& forall|i: int|
        0 <= i < ms.len() ==> (#[trigger] ms[i]).matched_prefix_blocks > 0
            && ms[i].worker_address@.len() > 0
}

/// What the router relies on in an outcome.
pub open spec fn outcome_in_order(outcome: PrefixOutcome) -> bool {
    match outcome {
        PrefixOutcome::Matched { matches, best_prefix_blocks } => {
            let ms = matches@;
            &&& ms.len() > 0
            &&& best_prefix_blocks == ms[0].matched_prefix_blocks
            &&& forall|i: int, j: int|
                0 <= i <= j < ms.len() ==> (#[trigger] ms[i]).matched_prefix_blocks >= (
                #[trigger] ms[j]).matched_prefix_blocks
            &&& forall|i: int|
                0 <= i < ms.len() ==> (#[trigger] ms[i]).matched_prefix_blocks > 0
                    && ms[i].address@.len() > 0
        },
        PrefixOutcome::Empty => true,
    }
}

/// An answer in order gives an outcome in order: the query neither sorts, drops nor
/// changes what the service said.
pub proof fn order_is_kept(
    response: MatchExternalKvPrefixResponse,
    result: Result<PrefixOutcome, PrefixIndexError>,
)
    requires
        client::concludes(QueryReply::Answered(response), result),
        answer_in_order(response),
    ensures
        result matches Ok(outcome) && outcome_in_order(outcome),
{
    if response.matches@.len() > 0 {
        let from = response.matches@;
        let ms = from.map_values(|m: ExternalKvPrefixMatch| client::match_of(m));
        assert forall|i: int| 0 <= i < ms.len() implies #[trigger] ms[i] == client::match_of(from[i]) by {}
    }
}

/// A request tells the hashes it was made for: no two queries look alike.
pub proof fn request_tells_the_hashes(
    request: MatchExternalKvPrefixRequest,
    a: Seq<i64>,
    b: Seq<i64>,
)
    requires
        client::carries(request, a),
        client::carries(request, b),
    ensures
        a == b,
{
    assert forall|i: int| 0 <= i < a.len() implies a[i] == b[i] by {
        assert(request.hashes@[i]@ == decimal::decimal_int(a[i] as int));
        decimal::decimal_int_is_injective(a[i] as int, b[i] as int);
    }
    assert(a =~= b);
}

/// The router is told what the service said: each worker under its id and address and with
/// its length, in the order of the answer, and the best length.
pub proof fn outcome_repeats_the_answer(
    response: MatchExternalKvPrefixResponse,
    result: Result<PrefixOutcome, PrefixIndexError>,
)
    requires
        client::concludes(QueryReply::Answered(response), result),
    ensures
        response.matches@.len() == 0 ==> result == Ok::<PrefixOutcome, PrefixIndexError>(
            PrefixOutcome::Empty,
        ),
        response.matches@.len() > 0 ==> {
            &&& result matches Ok(PrefixOutcome::Matched { matches, best_prefix_blocks })
            &&& best_prefix_blocks == response.best_prefix_blocks
            &&& matches@.len() == response.matches@.len()
            &&& forall|i: int|
                0 <= i < matches@.len() ==> {
                    &&& (#[trigger] matches@[i]).address == response.matches@[i].worker_address
                    &&& matches@[i].worker_id == response.matches@[i].worker_id
                    &&& matches@[i].matched_prefix_blocks
                        == response.matches@[i].matched_prefix_blocks
                }
        },
{
}

/// A request carries one numeral for each hash, in the order of the prompt: the digits of
/// the hash's size, no more than it takes, behind a sign exactly if it is negative. It
/// sets no bound.
pub proof fn request_carries_the_numerals(
    request: MatchExternalKvPrefixRequest,
    hashes: Seq<i64>,
    i: int,
)
    requires
        client::carries(request, hashes),
        0 <= i < hashes.len(),
    ensures
        request.max_blocks == 0,
        request.hashes@.len() == hashes.len(),
        ({
            let text = request.hashes@[i]@;
            let h = hashes[i] as int;
            let digits = if h < 0 {
                text.skip(1)
            } else {
                text
            };
            &&& h < 0 ==> text.len() > 1 && text[0] == '-'
            &&& digits.len() > 0
            &&& decimal::all_digits(digits)
            &&& decimal::digits_value(digits) == if h < 0 {
                -h
            } else {
                h
            }
            &&& digits.len() > 1 ==> digits[0] != '0'
        }),
{
    let h = hashes[i] as int;
    let text = request.hashes@[i]@;
    assert(text == decimal::decimal_int(h));
    let size = if h < 0 {
        (-h) as nat
    } else {
        h as nat
    };
    decimal::decimal_nat_reads_back(size);
    decimal::numeral_has_no_leading_zero(size);
    if h < 0 {
        assert(text.skip(1) =~= decimal::decimal_nat(size));
    }
}

/// Each error says in words what failed, and a rejection says which status it was.
pub proof fn messages_say_the_cause(code: Code)
    ensures
        PrefixIndexError::Unreachable.text() == "KV Indexer is unreachable"@,
        PrefixIndexError::Timeout.text() == "KV Indexer query timed out"@,
        PrefixIndexError::Rejected(code).text() == "KV Indexer rejected the query with "@
            + code::meaning(code),
{
}

/// Each status has one number, and a number that is none's stands for an unknown one.
pub proof fn each_status_has_its_number(number: i32)
    ensures
        code::code_of(number) == Code::Success <==> number == 0,
        code::code_of(number) == Code::Cancelled <==> number == 1,
        code::code_of(number) == Code::Unknown <==> number == 2 || number < 0 || number > 16,
        code::code_of(number) == Code::InvalidArgument <==> number == 3,
        code::code_of(number) == Code::DeadlineExceeded <==> number == 4,
        code::code_of(number) == Code::NotFound <==> number == 5,
        code::code_of(number) == Code::AlreadyExists <==> number == 6,
        code::code_of(number) == Code::PermissionDenied <==> number == 7,
        code::code_of(number) == Code::ResourceExhausted <==> number == 8,
        code::code_of(number) == Code::FailedPrecondition <==> number == 9,
        code::code_of(number) == Code::Aborted <==> number == 10,
        code::code_of(number) == Code::OutOfRange <==> number == 11,
        code::code_of(number) == Code::Unimplemented <==> number == 12,
        code::code_of(number) == Code::Internal <==> number == 13,
        code::code_of(number) == Code::Unavailable <==> number == 14,
        code::code_of(number) == Code::DataLoss <==> number == 15,
        code::code_of(number) == Code::Unauthenticated <==> number == 16,
{
}

/// A span of time is its seconds and the nanoseconds beyond them.
pub proof fn deadline_is_its_seconds_and_nanoseconds(deadline: Deadline)
    ensures
        deadline.total_nanos() == deadline.secs * 1_000_000_000 + deadline.nanos,
        deadline.wf() <==> deadline.nanos < 1_000_000_000,
{
}

} // verus!
