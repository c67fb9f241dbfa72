use std::collections::{HashMap, HashSet};

use sgl_kv_indexer::block::Block;
use sgl_kv_indexer::client::{MatchExternalKvPrefixResponse, QueryReply};
use sgl_kv_indexer::decimal::decimal_i64;
use sgl_kv_indexer::prefix::{match_external_kv_prefix, KnownWorker};
use sgl_kv_indexer::worker::Worker;
use sgl_kv_indexer::{GrpcPrefixIndex, PrefixOutcome};

const CHAIN: [i64; 4] = [
    978178666101069530,
    -895308556211281782,
    -8033692805846017938,
    835415944263129316,
];

const HBM: u64 = 1;

#[derive(Default)]
struct Placements {
    blocks: HashMap<String, Block>,
    workers: Vec<(String, Worker)>,
}

impl Placements {
    fn worker(&mut self, id: &str) -> &mut Worker {
        if let Some(at) = self.workers.iter().position(|(w, _)| w == id) {
            return &mut self.workers[at].1;
        }
        self.workers.push((id.to_string(), Worker::new()));
        &mut self.workers.last_mut().unwrap().1
    }

    fn report_keys(&mut self, worker: &str, address: &str, keys: &[&str]) {
        let generation = self.worker(worker).touch_meta(1, 30, address, "").unwrap().generation;
        for key in keys {
            let block = self.blocks.entry(key.to_string()).or_insert_with(Block::new);
            block.placement_set(worker, HBM, generation).unwrap();
        }
    }

    fn report(&mut self, worker: &str, address: &str, chain: &[i64]) {
        let keys: Vec<String> = chain.iter().map(|h| decimal_i64(*h)).collect();
        let keys: Vec<&str> = keys.iter().map(|k| k.as_str()).collect();
        self.report_keys(worker, address, &keys);
    }

    fn revoke(&mut self, worker: &str, hashes: &[i64]) {
        let generation = self.worker(worker).generation;
        for h in hashes {
            if let Some(block) = self.blocks.get_mut(&decimal_i64(*h)) {
                block.placement_clear(worker, HBM, generation).unwrap();
            }
        }
    }

    fn query_keys(&self, keys: &[&str]) -> MatchExternalKvPrefixResponse {
        let workers = self
            .workers
            .iter()
            .map(|(id, w)| KnownWorker { worker_id: id.clone(), view: w.worker_view(true) })
            .collect();
        let blocks = keys
            .iter()
            .map(|k| self.blocks.get(*k).cloned().unwrap_or_else(Block::new))
            .collect();
        match_external_kv_prefix(&workers, &blocks)
    }

    fn query(&self, chain: &[i64]) -> (u32, HashSet<String>) {
        let keys: Vec<String> = chain.iter().map(|h| decimal_i64(*h)).collect();
        let keys: Vec<&str> = keys.iter().map(|k| k.as_str()).collect();
        let response = self.query_keys(&keys);
        let winners = response
            .matches
            .iter()
            .filter(|m| m.matched_prefix_blocks == response.best_prefix_blocks)
            .map(|m| m.worker_id.clone())
            .collect();
        (response.best_prefix_blocks, winners)
    }
}

type NodeId = u64;
const ROOT: NodeId = 0;

struct Node {
    block_hash: i64,
    parent: Option<NodeId>,
    workers: HashSet<String>,
    children: HashMap<i64, NodeId>,
}

/// A tree of reported chains, which credits the workers of the deepest node alone.
struct HashTree {
    nodes: HashMap<NodeId, Node>,
    by_hash: HashMap<i64, HashSet<NodeId>>,
    next_id: NodeId,
}

impl HashTree {
    fn new() -> Self {
        let mut nodes = HashMap::new();
        nodes.insert(
            ROOT,
            Node {
                block_hash: i64::MIN,
                parent: None,
                workers: HashSet::new(),
                children: HashMap::new(),
            },
        );
        Self { nodes, by_hash: HashMap::new(), next_id: 1 }
    }

    fn insert(&mut self, worker: &str, chain: &[i64]) {
        let mut current = ROOT;
        for &h in chain {
            let child = self.nodes[&current].children.get(&h).copied();
            let id = match child {
                Some(id) => id,
                None => {
                    let id = self.next_id;
                    self.next_id += 1;
                    self.nodes.insert(
                        id,
                        Node {
                            block_hash: h,
                            parent: Some(current),
                            workers: HashSet::new(),
                            children: HashMap::new(),
                        },
                    );
                    self.nodes.get_mut(&current).unwrap().children.insert(h, id);
                    self.by_hash.entry(h).or_default().insert(id);
                    id
                }
            };
            self.nodes.get_mut(&id).unwrap().workers.insert(worker.to_string());
            current = id;
        }
    }

    fn remove(&mut self, worker: &str, hashes: &[i64]) {
        let mut targets: Vec<NodeId> = Vec::new();
        for h in hashes {
            if let Some(set) = self.by_hash.get(h) {
                targets.extend(set.iter().copied());
            }
        }
        for id in targets {
            if let Some(node) = self.nodes.get_mut(&id) {
                node.workers.remove(worker);
            }
            self.prune_cascade(id);
        }
    }

    fn match_prefix(&self, hashes: &[i64]) -> (usize, HashSet<String>) {
        let mut current = ROOT;
        let mut matched = 0usize;
        let mut last: Option<NodeId> = None;
        for &h in hashes {
            match self.nodes[&current].children.get(&h).copied() {
                Some(child) => {
                    current = child;
                    matched += 1;
                    last = Some(child);
                }
                None => break,
            }
        }
        let workers = last.map(|id| self.nodes[&id].workers.clone()).unwrap_or_default();
        (matched, workers)
    }

    fn prune_cascade(&mut self, start: NodeId) {
        let mut cursor = start;
        while cursor != ROOT {
            let (parent, block_hash) = match self.nodes.get(&cursor) {
                Some(n) if n.workers.is_empty() && n.children.is_empty() => {
                    (n.parent.unwrap(), n.block_hash)
                }
                _ => return,
            };
            self.nodes.get_mut(&parent).unwrap().children.remove(&block_hash);
            if let Some(set) = self.by_hash.get_mut(&block_hash) {
                set.remove(&cursor);
            }
            self.nodes.remove(&cursor);
            cursor = parent;
        }
    }
}

#[test]
fn equivalent_on_hole_free_placement() {
    let mut tree = HashTree::new();
    let mut mem = Placements::default();

    // w-long holds all 4 blocks; w-short holds the first 2.
    tree.insert("w-long", &CHAIN);
    tree.insert("w-short", &CHAIN[..2]);
    mem.report("w-long", "10.0.0.1:9000", &CHAIN);
    mem.report("w-short", "10.0.0.2:9000", &CHAIN[..2]);

    // The full chain: the deepest prefix is 4, held only by w-long.
    let (oracle_len, oracle_workers) = tree.match_prefix(&CHAIN);
    let (len, workers) = mem.query(&CHAIN);
    assert_eq!(len as usize, oracle_len);
    assert_eq!(len, 4);
    assert_eq!(workers, oracle_workers);
    assert_eq!(workers, HashSet::from(["w-long".to_string()]));

    // Only the first 2 blocks: both workers tie at prefix 2.
    let (oracle_len, oracle_workers) = tree.match_prefix(&CHAIN[..2]);
    let (len, workers) = mem.query(&CHAIN[..2]);
    assert_eq!(len as usize, oracle_len);
    assert_eq!(workers, oracle_workers);
    assert_eq!(
        workers,
        HashSet::from(["w-long".to_string(), "w-short".to_string()])
    );
}

#[test]
fn conservative_when_worker_drops_a_middle_block() {
    let hole = CHAIN[1];

    let mut tree = HashTree::new();
    tree.insert("w1", &CHAIN);
    tree.remove("w1", &[hole]);

    let mut mem = Placements::default();
    mem.report("w1", "10.0.0.1:9000", &CHAIN);
    mem.revoke("w1", &[hole]);

    let (oracle_len, oracle_workers) = tree.match_prefix(&CHAIN);
    let (len, _workers) = mem.query(&CHAIN);

    assert_eq!(oracle_len, 4, "oracle walks through the hole");
    assert_eq!(oracle_workers, HashSet::from(["w1".to_string()]));
    assert_eq!(len, 1, "implementation stops at the hole");
    assert!((len as usize) < oracle_len, "implementation must be the conservative side");
}

#[test]
fn answer_goes_by_falling_length() {
    let mut mem = Placements::default();
    mem.report_keys("short", "10.0.0.2:9000", &["mp-a"]);
    mem.report_keys("long", "10.0.0.1:9000", &["mp-a", "mp-b", "mp-c"]);
    let response = mem.query_keys(&["mp-a", "mp-b", "mp-c"]);
    assert_eq!(response.best_prefix_blocks, 3);
    assert_eq!(response.blocks_read, 3);
    assert_eq!(response.matches.len(), 2);
    assert_eq!(response.matches[0].worker_id, "long");
    assert_eq!(response.matches[0].matched_prefix_blocks, 3);
    assert_eq!(response.matches[0].worker_address, "10.0.0.1:9000");
    assert_eq!(response.matches[1].worker_id, "short");
    assert_eq!(response.matches[1].matched_prefix_blocks, 1);
    match GrpcPrefixIndex::conclude(QueryReply::Answered(response)) {
        Ok(PrefixOutcome::Matched { matches, best_prefix_blocks }) => {
            assert_eq!(best_prefix_blocks, 3);
            assert_eq!(matches[0].address, "10.0.0.1:9000");
            assert_eq!(matches[1].address, "10.0.0.2:9000");
        }
        other => panic!("{other:?}"),
    }
}

#[test]
fn nobody_is_named_without_a_prefix() {
    let mut mem = Placements::default();
    mem.report_keys("w", "10.0.0.1:9000", &["b"]);
    for keys in [&["a", "b"][..], &[][..]] {
        let response = mem.query_keys(keys);
        assert!(response.matches.is_empty());
        assert_eq!(response.best_prefix_blocks, 0);
        assert_eq!(
            GrpcPrefixIndex::conclude(QueryReply::Answered(response)),
            Ok(PrefixOutcome::Empty)
        );
    }
}

#[test]
fn unroutable_workers_are_dropped() {
    let mut mem = Placements::default();
    mem.report_keys("no-address", "", &["a"]);
    mem.report_keys("expired", "10.0.0.2:9000", &["a"]);
    mem.report_keys("live", "10.0.0.3:9000", &["a"]);
    mem.worker("expired").live = None;
    let response = mem.query_keys(&["a"]);
    assert_eq!(response.matches.len(), 1);
    assert_eq!(response.matches[0].worker_id, "live");
}

#[test]
fn restarted_worker_is_matched_for_new_placements_only() {
    let mut mem = Placements::default();
    mem.worker("w").touch_meta(1, 30, "10.0.0.1:9000", "first").unwrap();
    mem.report_keys("w", "", &["a", "b"]);
    assert_eq!(mem.query_keys(&["a", "b"]).best_prefix_blocks, 2);
    assert_eq!(mem.worker("w").touch_meta(2, 30, "", "second").unwrap().status, 1);
    assert_eq!(mem.query_keys(&["a", "b"]).best_prefix_blocks, 0);
    assert_eq!(mem.worker("w").reset_finish(1), 1);
    assert_eq!(mem.query_keys(&["a", "b"]).best_prefix_blocks, 0);
    mem.report_keys("w", "", &["a"]);
    assert_eq!(mem.query_keys(&["a", "b"]).best_prefix_blocks, 1);
}
