use sgl_kv_indexer::worker::{CounterOverflow, Live, SeqReply, TouchReply, Worker, WorkerView};

fn touched(status: i64, generation: u64) -> Result<TouchReply, CounterOverflow> {
    Ok(TouchReply { status, generation })
}

fn seen(addr: &str, alive: bool, generation: u64) -> WorkerView {
    WorkerView { addr: addr.to_string(), alive, generation }
}

#[test]
fn first_contact_is_no_restart() {
    let mut w = Worker::new();
    w.expiring = true;
    assert_eq!(w.touch_meta(5, 30, "10.0.0.1:9000", "a"), touched(0, 0));
    assert_eq!(w.incarnation.as_deref(), Some("a"));
    assert_eq!(w.live, Some(Live { stamp_ms: 5, ttl_ms: 30 }));
    assert!(!w.expiring);
    assert_eq!(w.worker_view(true), seen("10.0.0.1:9000", true, 0));
}

#[test]
fn empty_parts_of_a_contact_say_nothing() {
    let mut w = Worker::new();
    w.touch_meta(5, 30, "10.0.0.1:9000", "a").unwrap();
    assert_eq!(w.touch_meta(6, 0, "", ""), touched(0, 0));
    assert_eq!(w.incarnation.as_deref(), Some("a"));
    assert_eq!(w.addr.as_deref(), Some("10.0.0.1:9000"));
    assert_eq!(w.live, Some(Live { stamp_ms: 5, ttl_ms: 30 }));
}

#[test]
fn restart_raises_the_generation_and_owes_a_wipe() {
    let mut w = Worker::new();
    w.touch_meta(1, 30, "x", "a").unwrap();
    assert_eq!(w.touch_meta(2, 30, "y", "b"), touched(1, 1));
    assert_eq!(w.retired, vec!["a".to_string()]);
    assert_eq!(w.worker_view(false), seen("y", false, 1));
    assert_eq!(w.worker_view(true), seen("y", false, 1));
    assert_eq!(w.touch_meta(3, 30, "", "b"), touched(1, 1));
    assert_eq!(w.reset_finish(1), 1);
    assert_eq!(w.worker_view(true), seen("y", true, 1));
    assert_eq!(w.touch_meta(4, 30, "", "b"), touched(0, 1));
}

#[test]
fn process_that_was_left_behind_is_turned_away() {
    let mut w = Worker::new();
    w.touch_meta(1, 30, "x", "a").unwrap();
    w.touch_meta(2, 30, "y", "b").unwrap();
    w.expiring = true;
    assert_eq!(w.touch_meta(3, 40, "z", "a"), touched(-1, 1));
    assert_eq!(w.incarnation.as_deref(), Some("b"));
    assert_eq!(w.addr.as_deref(), Some("y"));
    assert_eq!(w.live, Some(Live { stamp_ms: 2, ttl_ms: 30 }));
    assert!(!w.expiring);
    assert_eq!(w.touch_meta(4, 30, "", "c"), touched(1, 2));
    assert_eq!(w.touch_meta(5, 30, "", "b"), touched(-1, 2));
    assert_eq!(w.touch_meta(6, 30, "", "a"), touched(-1, 2));
}

#[test]
fn restart_that_cannot_be_counted_is_an_error() {
    let mut w = Worker::new();
    w.touch_meta(1, 30, "x", "a").unwrap();
    w.generation = i64::MAX as u64;
    assert_eq!(w.touch_meta(2, 30, "y", "b"), Err(CounterOverflow));
    assert_eq!(w.generation, i64::MAX as u64);
    assert_eq!(w.incarnation.as_deref(), Some("a"));
    assert_eq!(w.retired, vec!["a".to_string()]);
    assert_eq!(w.addr.as_deref(), Some("x"));
}

#[test]
fn liveness_counts_only_where_it_is_watched() {
    let mut w = Worker::new();
    assert_eq!(w.worker_view(false), seen("", true, 0));
    assert_eq!(w.worker_view(true), seen("", false, 0));
    w.touch_meta(1, 30, "x", "").unwrap();
    assert!(w.worker_view(true).alive);
    w.live = None;
    assert!(!w.worker_view(true).alive);
    assert!(w.worker_view(false).alive);
    w.touch_meta(2, 30, "", "").unwrap();
    assert!(w.worker_view(true).alive);
}

#[test]
fn batch_is_applied_once() {
    let mut w = Worker::new();
    assert_eq!(w.seq_check(7, 0), SeqReply { status: 1, last: None });
    assert_eq!(w.seq_commit(7, 0), SeqReply { status: 1, last: Some(7) });
    assert_eq!(w.seq_check(7, 0), SeqReply { status: 0, last: Some(7) });
    assert_eq!(w.seq_check(6, 0), SeqReply { status: 0, last: Some(7) });
    assert_eq!(w.seq_check(8, 0), SeqReply { status: 1, last: Some(7) });
    assert_eq!(w.seq_commit(3, 0), SeqReply { status: 1, last: Some(7) });
    assert_eq!(w.seq_commit(u64::MAX, 0), SeqReply { status: 1, last: Some(u64::MAX) });
    assert_eq!(w.seq_check(u64::MAX, 0), SeqReply { status: 0, last: Some(u64::MAX) });
}

#[test]
fn step_of_an_earlier_generation_is_turned_away() {
    let mut w = Worker::new();
    w.touch_meta(1, 30, "x", "a").unwrap();
    w.seq_commit(7, 0);
    w.touch_meta(2, 30, "x", "b").unwrap();
    assert_eq!(w.seq_check(8, 0), SeqReply { status: -1, last: Some(7) });
    assert_eq!(w.seq_commit(8, 0), SeqReply { status: -1, last: Some(7) });
    assert_eq!(w.reset_finish(0), -1);
    assert!(w.reset_pending);
    assert_eq!(w.seq, Some(7));
}

#[test]
fn wipe_is_finished_once() {
    let mut w = Worker::new();
    assert_eq!(w.reset_finish(0), 0);
    w.touch_meta(1, 30, "x", "a").unwrap();
    w.seq_commit(7, 0);
    w.touch_meta(2, 30, "x", "b").unwrap();
    assert_eq!(w.reset_finish(1), 1);
    assert_eq!(w.seq_check(1, 1), SeqReply { status: 1, last: None });
    assert_eq!(w.seq_commit(1, 1), SeqReply { status: 1, last: Some(1) });
    assert_eq!(w.reset_finish(1), 0);
    assert_eq!(w.seq, Some(1));
}
