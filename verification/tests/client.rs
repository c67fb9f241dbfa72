use sgl_kv_indexer::client::{
    classify, encode_hashes, Deadline, ExternalKvPrefixMatch, MatchExternalKvPrefixRequest,
    MatchExternalKvPrefixResponse, QueryPlan, QueryReply, DEFAULT_QUERY_DEADLINE_MILLIS,
};
use sgl_kv_indexer::code::Code;
use sgl_kv_indexer::decimal::{decimal_i64, decimal_u64};
use sgl_kv_indexer::server::{listen_addr, DEFAULT_LISTEN_ADDR};
use sgl_kv_indexer::{
    GrpcPrefixIndex, PrefixIndexConfig, PrefixIndexError, PrefixMatch, PrefixOutcome,
};

const NUMBERED: [Code; 17] = [
    Code::Success,
    Code::Cancelled,
    Code::Unknown,
    Code::InvalidArgument,
    Code::DeadlineExceeded,
    Code::NotFound,
    Code::AlreadyExists,
    Code::PermissionDenied,
    Code::ResourceExhausted,
    Code::FailedPrecondition,
    Code::Aborted,
    Code::OutOfRange,
    Code::Unimplemented,
    Code::Internal,
    Code::Unavailable,
    Code::DataLoss,
    Code::Unauthenticated,
];

fn index() -> GrpcPrefixIndex {
    GrpcPrefixIndex::new(PrefixIndexConfig::new("http://10.0.0.1:50051"))
}

fn named(worker_id: &str, worker_address: &str, matched_prefix_blocks: u32) -> ExternalKvPrefixMatch {
    ExternalKvPrefixMatch {
        worker_id: worker_id.to_string(),
        worker_address: worker_address.to_string(),
        matched_prefix_blocks,
    }
}

#[test]
fn config_has_the_default_deadline() {
    let config = PrefixIndexConfig::new("http://10.0.0.1:50051");
    assert_eq!(config.endpoint, "http://10.0.0.1:50051");
    assert_eq!(DEFAULT_QUERY_DEADLINE_MILLIS, 100);
    assert_eq!(config.query_deadline, Deadline { secs: 0, nanos: 100_000_000 });
}

#[test]
fn deadline_splits_into_seconds_and_nanoseconds() {
    assert_eq!(Deadline::from_millis(0), Deadline { secs: 0, nanos: 0 });
    assert_eq!(Deadline::from_millis(2_345), Deadline { secs: 2, nanos: 345_000_000 });
    let longest = Deadline::from_millis(u64::MAX);
    assert_eq!(longest, Deadline { secs: 18_446_744_073_709_551, nanos: 615_000_000 });
}

#[test]
fn endpoint_is_kept_if_it_parses() {
    let good = index();
    assert_eq!(good.endpoint().map(|e| e.as_str()), Some("http://10.0.0.1:50051"));
    assert_eq!(good.deadline(), Deadline::from_millis(100));
    let bad = GrpcPrefixIndex::new(PrefixIndexConfig::new("not a uri"));
    assert!(bad.endpoint().is_none());
    let empty = GrpcPrefixIndex::new(PrefixIndexConfig::new(""));
    assert!(empty.endpoint().is_none());
}

#[test]
fn endpoint_follows_the_parse() {
    let config = PrefixIndexConfig::new("anything");
    assert!(GrpcPrefixIndex::with_endpoint(true, config.clone()).endpoint().is_some());
    assert!(GrpcPrefixIndex::with_endpoint(false, config).endpoint().is_none());
}

#[test]
fn without_an_endpoint_every_query_is_unreachable() {
    let bad = GrpcPrefixIndex::new(PrefixIndexConfig::new("not a uri"));
    assert_eq!(
        bad.plan(&vec![1, 2]),
        QueryPlan::Settled(Err(PrefixIndexError::Unreachable))
    );
    assert_eq!(
        bad.plan(&Vec::new()),
        QueryPlan::Settled(Err(PrefixIndexError::Unreachable))
    );
}

#[test]
fn without_hashes_nothing_is_asked() {
    assert_eq!(
        index().plan(&Vec::new()),
        QueryPlan::Settled(Ok(PrefixOutcome::Empty))
    );
}

#[test]
fn hashes_are_sent_as_decimals_in_order() {
    let chain: Vec<i64> = vec![
        978178666101069530,
        -895308556211281782,
        -8033692805846017938,
        835415944263129316,
    ];
    let expected = MatchExternalKvPrefixRequest {
        hashes: vec![
            "978178666101069530".to_string(),
            "-895308556211281782".to_string(),
            "-8033692805846017938".to_string(),
            "835415944263129316".to_string(),
        ],
        max_blocks: 0,
    };
    assert_eq!(index().plan(&chain), QueryPlan::Ask(expected));
}

#[test]
fn decimals_are_those_of_the_standard_library() {
    for i in [0, 1, -1, 9, 10, -10, 99, 100, i64::MAX, i64::MIN, i64::MIN + 1] {
        assert_eq!(decimal_i64(i), i.to_string());
        assert_eq!(encode_hashes(&vec![i]), vec![i.to_string()]);
    }
    for n in [0, 7, 10, 12345, u64::MAX] {
        assert_eq!(decimal_u64(n), n.to_string());
    }
}

#[test]
fn failures_stay_errors() {
    assert_eq!(
        GrpcPrefixIndex::conclude(QueryReply::DeadlineElapsed),
        Err(PrefixIndexError::Timeout)
    );
    assert_eq!(
        GrpcPrefixIndex::conclude(QueryReply::Failed(Code::Unavailable)),
        Err(PrefixIndexError::Unreachable)
    );
    assert_eq!(
        GrpcPrefixIndex::conclude(QueryReply::Failed(Code::DeadlineExceeded)),
        Err(PrefixIndexError::Timeout)
    );
    assert_eq!(
        GrpcPrefixIndex::conclude(QueryReply::Failed(Code::InvalidArgument)),
        Err(PrefixIndexError::Rejected(Code::InvalidArgument))
    );
}

#[test]
fn every_other_status_is_a_rejection() {
    for code in NUMBERED {
        let error = classify(code);
        match code {
            Code::Unavailable => assert_eq!(error, PrefixIndexError::Unreachable),
            Code::DeadlineExceeded => assert_eq!(error, PrefixIndexError::Timeout),
            _ => assert_eq!(error, PrefixIndexError::Rejected(code)),
        }
    }
}

#[test]
fn answer_that_names_nobody_is_empty() {
    let response = MatchExternalKvPrefixResponse { matches: Vec::new(), best_prefix_blocks: 7, blocks_read: 9 };
    assert_eq!(
        GrpcPrefixIndex::conclude(QueryReply::Answered(response)),
        Ok(PrefixOutcome::Empty)
    );
}

#[test]
fn answer_is_passed_on_in_its_order() {
    let response = MatchExternalKvPrefixResponse {
        matches: vec![named("long", "10.0.0.1:9000", 3), named("short", "10.0.0.2:9000", 1)],
        best_prefix_blocks: 3,
        blocks_read: 3,
    };
    let expected = PrefixOutcome::Matched {
        matches: vec![
            PrefixMatch {
                address: "10.0.0.1:9000".to_string(),
                matched_prefix_blocks: 3,
                worker_id: "long".to_string(),
            },
            PrefixMatch {
                address: "10.0.0.2:9000".to_string(),
                matched_prefix_blocks: 1,
                worker_id: "short".to_string(),
            },
        ],
        best_prefix_blocks: 3,
    };
    assert_eq!(GrpcPrefixIndex::conclude(QueryReply::Answered(response)), Ok(expected));
}

#[test]
fn query_runs_through_the_given_call() {
    let response = MatchExternalKvPrefixResponse {
        matches: vec![named("w", "10.0.0.1:9000", 1)],
        best_prefix_blocks: 1,
        blocks_read: 1,
    };
    let result = index().match_prefix(vec![-5], |request| {
        assert_eq!(request.hashes, vec!["-5".to_string()]);
        QueryReply::Answered(response)
    });
    match result {
        Ok(PrefixOutcome::Matched { matches, best_prefix_blocks }) => {
            assert_eq!(best_prefix_blocks, 1);
            assert_eq!(matches.len(), 1);
            assert_eq!(matches[0].worker_id, "w");
        }
        other => panic!("{other:?}"),
    }
}

#[test]
fn query_is_not_made_without_need() {
    let result = index().match_prefix(Vec::new(), |_| unreachable!());
    assert_eq!(result, Ok(PrefixOutcome::Empty));
    let bad = GrpcPrefixIndex::new(PrefixIndexConfig::new("not a uri"));
    let result = bad.match_prefix(vec![1], |_| unreachable!());
    assert_eq!(result, Err(PrefixIndexError::Unreachable));
}

#[test]
fn messages_say_what_failed() {
    assert_eq!(PrefixIndexError::Unreachable.message(), "KV Indexer is unreachable");
    assert_eq!(PrefixIndexError::Timeout.message(), "KV Indexer query timed out");
    assert_eq!(
        PrefixIndexError::Rejected(Code::InvalidArgument).message(),
        "KV Indexer rejected the query with Client specified an invalid argument"
    );
    for code in NUMBERED {
        let theirs = tonic::Code::from_i32(code.number());
        assert_eq!(
            PrefixIndexError::Rejected(code).message(),
            format!("KV Indexer rejected the query with {theirs}")
        );
    }
}

#[test]
fn codes_are_numbered_as_on_the_wire() {
    for (i, code) in NUMBERED.into_iter().enumerate() {
        assert_eq!(code.number(), i as i32);
        assert_eq!(Code::from_i32(i as i32), code);
        assert_eq!(tonic::Code::from_i32(i as i32) as i32, code.number());
    }
    assert_eq!(Code::from_i32(17), Code::Unknown);
    assert_eq!(Code::from_i32(-1), Code::Unknown);
    assert_eq!(tonic::Code::Unavailable as i32, Code::Unavailable.number());
    assert_eq!(tonic::Code::DeadlineExceeded as i32, Code::DeadlineExceeded.number());
}

#[test]
fn listens_where_configured() {
    assert_eq!(listen_addr(None), "[::1]:50051");
    assert_eq!(DEFAULT_LISTEN_ADDR, "[::1]:50051");
    assert_eq!(listen_addr(Some("0.0.0.0:1".to_string())), "0.0.0.0:1");
}
