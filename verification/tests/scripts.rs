use sgl_kv_indexer::scripts::{
    LuaScript, Operation, HIT_BUMP, MATCH_HASH, PLACEMENT_CLEAR, PLACEMENT_CLEAR_WORKER,
    PLACEMENT_SET, RESET_FINISH, SEQ_CHECK, SEQ_COMMIT, TOUCH_META, WORKER_VIEW,
};

const ALL: [(Operation, &str, usize); 10] = [
    (Operation::TouchMeta, TOUCH_META, 3),
    (Operation::WorkerView, WORKER_VIEW, 2),
    (Operation::PlacementClearWorker, PLACEMENT_CLEAR_WORKER, 2),
    (Operation::SeqCheck, SEQ_CHECK, 1),
    (Operation::SeqCommit, SEQ_COMMIT, 1),
    (Operation::ResetFinish, RESET_FINISH, 1),
    (Operation::PlacementSet, PLACEMENT_SET, 1),
    (Operation::PlacementClear, PLACEMENT_CLEAR, 2),
    (Operation::MatchHash, MATCH_HASH, 1),
    (Operation::HitBump, HIT_BUMP, 2),
];

#[test]
fn each_operation_has_its_program() {
    for (operation, code, _) in ALL {
        let script = LuaScript::of(operation);
        assert_eq!(script.code, code);
        assert_eq!(script.digest, redis::Script::new(code).get_hash());
    }
}

#[test]
fn digest_is_the_sha1_of_the_text() {
    let script = LuaScript::new("");
    assert_eq!(script.digest, "da39a3ee5e6b4b0d3255bfef95601890afd80709");
    let script = LuaScript::new("return 1");
    assert_eq!(script.code, "return 1");
    assert_eq!(script.digest, "e0e1f9fabfc9d4800c877a703b823ac0578ff8db");
}

#[test]
fn programs_use_only_the_keys_they_declare() {
    for (_, code, keys) in ALL {
        for k in 1..=9 {
            assert_eq!(code.contains(&format!("KEYS[{k}]")), k <= keys, "{code}");
        }
        assert!(!code.contains("bit."), "{code}");
    }
}
