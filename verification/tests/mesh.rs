//! Nodes that keep their rows in memory, synced with each other.

use std::collections::BTreeMap;

use interstellar_db::merge::ingest;
use interstellar_db::round::{LeafFetch, Step};
use interstellar_db::wire::{
    hash_bytes, hash_from_bytes, ChildHash, EpochRoot, SyncChildrenRequest, SyncChildrenResponse,
    SyncError, SyncFetchRequest, SyncRootsResponse, MERKLE_LEAF_DEPTH_BITS,
};
use interstellar_db::{
    diff_forests, item_digest, leaf_key_range, MerkleForest, SyncRound, SyncService, SyncStats,
};

/// The three axes, scaled to 21 bits each and interleaved, left-aligned.
fn morton(x: f64, y: f64, z: f64) -> u64 {
    let axis = |v: f64| ((v.clamp(-1000.0, 1000.0) + 1000.0) / 2000.0 * 2_097_151.0) as u64;
    let (x, y, z) = (axis(x), axis(y), axis(z));
    let mut code = 0u64;
    for bit in 0..21 {
        code |= ((x >> bit) & 1) << (3 * bit + 2);
        code |= ((y >> bit) & 1) << (3 * bit + 1);
        code |= ((z >> bit) & 1) << (3 * bit);
    }
    code << 1
}

fn key(x: f64, y: f64, z: f64, secs: u64) -> [u8; 20] {
    let mut key = [0u8; 20];
    key[0..4].copy_from_slice(&((secs / 3600) as u32).to_be_bytes());
    key[4..12].copy_from_slice(&morton(x, y, z).to_be_bytes());
    key[12..20].copy_from_slice(&((secs % 3600) * 1_000_000_000).to_be_bytes());
    key
}

struct Node {
    rows: BTreeMap<[u8; 20], Vec<u8>>,
    forest: MerkleForest,
}

impl Node {
    fn new() -> Self {
        Self { rows: BTreeMap::new(), forest: MerkleForest::new(MERKLE_LEAF_DEPTH_BITS) }
    }

    fn ingest(&mut self, key: [u8; 20], payload: &[u8]) -> bool {
        let applied = ingest(&mut self.forest, &key, self.rows.get(&key), payload);
        if applied {
            self.rows.insert(key, payload.to_vec());
        }
        applied
    }

    fn scan(&self, start: &[u8; 20], end: &[u8; 20]) -> Vec<([u8; 20], Vec<u8>)> {
        self.rows.range(*start..=*end).map(|(k, p)| (*k, p.clone())).collect()
    }

    /// One pull round against a peer.
    fn pull(&mut self, peer: &Node) -> SyncStats {
        let service = SyncService::new(&peer.forest);
        let mut round = SyncRound::start(&self.forest, &service.roots()).unwrap();
        loop {
            match round.next() {
                Step::Done(stats) => return stats,
                Step::Children(descent) => {
                    let reply = service.children(descent.request()).unwrap();
                    round = descent.reply(&self.forest, &reply).unwrap();
                }
                Step::Fetch(mut fetch) => {
                    let (start, end) = SyncService::fetch(&fetch.request()).unwrap();
                    for (key, payload) in peer.scan(&start, &end) {
                        let key = LeafFetch::row_key(&key).unwrap();
                        let applied = self.ingest(key, &payload);
                        fetch.row_merged(applied);
                    }
                    round = fetch.finish();
                }
            }
        }
    }
}

/// One exchange, both ways, over the divergent key ranges.
fn exchange(a: &mut Node, b: &mut Node) {
    for leaf in diff_forests(&a.forest, &b.forest) {
        for (key, payload) in a.scan(&leaf.start_key, &leaf.end_key) {
            b.ingest(key, &payload);
        }
        for (key, payload) in b.scan(&leaf.start_key, &leaf.end_key) {
            a.ingest(key, &payload);
        }
    }
}

#[test]
fn divergent_nodes_converge_after_one_exchange() {
    let (mut a, mut b) = (Node::new(), Node::new());
    for i in 0..40u64 {
        let k = key(i as f64 * 23.0 - 500.0, i as f64 * -11.0 + 200.0, 5.0, 100 + i);
        let payload = format!("shared-{i}");
        a.ingest(k, payload.as_bytes());
        b.ingest(k, payload.as_bytes());
    }
    for i in 0..15u64 {
        a.ingest(key(300.0 + i as f64, -40.0, 12.0, 200 + i), format!("a-only-{i}").as_bytes());
        b.ingest(key(-700.0, 90.0 + i as f64, -3.0, 4000 + i), format!("b-only-{i}").as_bytes());
    }
    assert!(!diff_forests(&a.forest, &b.forest).is_empty());
    exchange(&mut a, &mut b);
    assert_eq!(a.forest.epoch_roots(), b.forest.epoch_roots());
    assert!(diff_forests(&a.forest, &b.forest).is_empty());
    assert!(diff_forests(&b.forest, &a.forest).is_empty());
    assert_eq!(a.rows, b.rows);
    assert_eq!(a.rows.len(), 70);
}

#[test]
fn conflicting_payloads_settle_on_the_larger_digest() {
    let (mut a, mut b) = (Node::new(), Node::new());
    let k = key(1.0, 2.0, 3.0, 500);
    a.ingest(k, b"version-from-a");
    b.ingest(k, b"version-from-b");
    exchange(&mut a, &mut b);
    assert_eq!(a.forest.epoch_roots(), b.forest.epoch_roots());
    let winner: &[u8] =
        if item_digest(&k, b"version-from-a") > item_digest(&k, b"version-from-b") {
            b"version-from-a"
        } else {
            b"version-from-b"
        };
    assert_eq!(a.rows[&k], winner);
    assert_eq!(b.rows[&k], winner);
    assert_eq!(a.forest.node_hash(0, 0, 0), item_digest(&k, winner));
    assert_eq!(a.forest.len(), 1);
}

#[test]
fn a_row_that_comes_again_changes_nothing() {
    let mut b = Node::new();
    let k = key(10.0, 20.0, 30.0, 750);
    assert!(b.ingest(k, b"row"));
    let roots = b.forest.epoch_roots();
    assert!(!b.ingest(k, b"row"));
    assert_eq!(b.forest.epoch_roots(), roots);
    assert_eq!(b.forest.len(), 1);
}

#[test]
fn rows_can_come_in_any_order() {
    let rows: Vec<([u8; 20], &[u8])> = vec![
        (key(1.0, 1.0, 1.0, 10), b"p"),
        (key(1.0, 1.0, 1.0, 10), b"q"),
        (key(2.0, -1.0, 1.0, 20), b"r"),
        (key(1.0, 1.0, 1.0, 10), b"s"),
    ];
    let (mut a, mut b) = (Node::new(), Node::new());
    for (k, p) in &rows {
        a.ingest(*k, p);
    }
    for (k, p) in rows.iter().rev() {
        b.ingest(*k, p);
    }
    assert_eq!(a.rows, b.rows);
    assert_eq!(a.forest.epoch_roots(), b.forest.epoch_roots());
}

#[test]
fn two_nodes_converge_by_pulling_from_each_other() {
    let (mut a, mut b) = (Node::new(), Node::new());
    for i in 0..30u64 {
        let k = key(i as f64 * 17.0 - 250.0, i as f64 * -9.0 + 100.0, 40.0, 100 + i);
        a.ingest(k, b"shared");
        b.ingest(k, b"shared");
    }
    for i in 0..12u64 {
        a.ingest(key(400.0 + i as f64, 10.0, -20.0, 300 + i), format!("a{i}").as_bytes());
        b.ingest(key(-450.0, 60.0 + i as f64, 33.0, 4200 + i), format!("b{i}").as_bytes());
    }
    a.ingest(key(7.0, 8.0, 9.0, 777), b"conflict-a");
    b.ingest(key(7.0, 8.0, 9.0, 777), b"conflict-b");

    let a_stats = a.pull(&b);
    assert!(a_stats.rows_applied > 0);
    assert!(a_stats.rows_received >= a_stats.rows_applied);
    assert!(a_stats.leaves_fetched > 0);
    let b_stats = b.pull(&a);
    assert!(b_stats.rows_applied > 0);
    assert_eq!(a.rows, b.rows);
    assert_eq!(a.rows.len(), 55);
    assert_eq!(a.forest.epoch_roots(), b.forest.epoch_roots());

    // In sync, a round asks for the roots and nothing else.
    assert_eq!(a.pull(&b), SyncStats::default());
    assert_eq!(b.pull(&a), SyncStats::default());
}

#[test]
fn a_pull_from_an_empty_peer_asks_for_nothing() {
    let mut a = Node::new();
    a.ingest(key(1.0, 2.0, 3.0, 100), b"x");
    let stats = a.pull(&Node::new());
    assert_eq!(stats, SyncStats { leaves_fetched: 0, rows_received: 0, rows_applied: 0 });
}

#[test]
fn a_pull_goes_one_way() {
    let (mut a, mut b) = (Node::new(), Node::new());
    a.ingest(key(5.0, 5.0, 5.0, 100), b"mine");
    b.ingest(key(-5.0, -5.0, -5.0, 100), b"theirs");
    let stats = a.pull(&b);
    assert_eq!(stats, SyncStats { leaves_fetched: 1, rows_received: 1, rows_applied: 1 });
    assert_eq!(a.rows.len(), 2);
    assert_eq!(b.rows.len(), 1);
}

#[test]
fn a_second_pull_applies_no_row() {
    let (mut a, mut b) = (Node::new(), Node::new());
    let shared = key(7.0, 8.0, 9.0, 777);
    a.ingest(shared, b"ours");
    b.ingest(shared, b"theirs");
    for i in 0..6u64 {
        a.ingest(key(7.0, 8.0, 9.0, 800 + i), b"only here");
        b.ingest(key(-7.0, 8.0, 9.0, 900 + i), b"only there");
    }
    let first = a.pull(&b);
    assert_eq!(first.rows_received, 7);
    assert!(first.rows_applied >= 6);
    let rows = a.rows.clone();
    // The two still differ, so rows come again; none of them changes anything.
    let second = a.pull(&b);
    assert!(second.rows_received > 0);
    assert_eq!(second.rows_applied, 0);
    assert_eq!(a.rows, rows);
}

#[test]
fn what_reaches_one_node_reaches_the_end_of_the_chain() {
    let mut nodes: Vec<Node> = (0..4).map(|_| Node::new()).collect();
    let shared = key(1.0, 1.0, 1.0, 50);
    for (i, node) in nodes.iter_mut().enumerate() {
        node.ingest(key(i as f64 * 100.0, 2.0, 3.0, 10), format!("from-{i}").as_bytes());
        node.ingest(shared, format!("version-{i}").as_bytes());
    }
    let best = (0..4)
        .map(|i| format!("version-{i}").into_bytes())
        .max_by_key(|payload| item_digest(&shared, payload))
        .unwrap();
    for i in 1..4 {
        let (before, after) = nodes.split_at_mut(i);
        after[0].pull(&before[i - 1]);
    }
    assert_eq!(nodes[3].rows.len(), 5);
    assert_eq!(nodes[3].rows[&shared], best);
    for i in 0..4u64 {
        let k = key(i as f64 * 100.0, 2.0, 3.0, 10);
        assert_eq!(nodes[3].rows[&k], format!("from-{i}").into_bytes());
    }
}

#[test]
fn nodes_that_apply_no_more_rows_agree() {
    let (mut a, mut b) = (Node::new(), Node::new());
    for i in 0..9u64 {
        a.ingest(key(i as f64 * 50.0, 1.0, 1.0, 10 + i), b"a");
        b.ingest(key(1.0, i as f64 * 50.0, 1.0, 3000 + i * 200), b"b");
    }
    loop {
        let applied = a.pull(&b).rows_applied + b.pull(&a).rows_applied;
        if applied == 0 {
            break;
        }
    }
    assert_eq!(a.forest.epoch_roots(), b.forest.epoch_roots());
    assert!(diff_forests(&a.forest, &b.forest).is_empty());
}

/// The children of a node, as a peer with a forest of any depth sends them.
fn children_of(forest: &MerkleForest, request: SyncChildrenRequest) -> SyncChildrenResponse {
    let children = forest
        .child_hashes(request.epoch, request.depth_bits as usize, request.prefix)
        .into_iter()
        .map(|(prefix, hash)| ChildHash { prefix, hash: hash_bytes(hash) })
        .collect();
    SyncChildrenResponse { children }
}

#[test]
fn a_round_descends_to_the_shallower_depth() {
    let local = MerkleForest::new(MERKLE_LEAF_DEPTH_BITS);
    let mut remote = MerkleForest::new(6);
    let k = key(123.0, -456.0, 789.0, 600);
    remote.insert(&k, b"row");
    let reply = SyncRootsResponse {
        roots: vec![EpochRoot { epoch: 0, hash: hash_bytes(remote.node_hash(0, 0, 0)) }],
        leaf_depth_bits: 6,
    };
    let mut round = SyncRound::start(&local, &reply).unwrap();
    let code = u64::from_be_bytes(k[4..12].try_into().unwrap());
    for (depth, prefix) in [(0u32, 0u64), (3, (code >> 61) << 61)] {
        match round.next() {
            Step::Children(descent) => {
                let request = descent.request();
                assert_eq!(request, SyncChildrenRequest { epoch: 0, depth_bits: depth, prefix });
                round = descent.reply(&local, &children_of(&remote, request)).unwrap();
            }
            _ => panic!("a descent was due"),
        }
    }
    match round.next() {
        Step::Fetch(fetch) => {
            let (start, end) = leaf_key_range(0, (code >> 58) << 58, 6);
            let request = fetch.request();
            assert_eq!(request.start_key, start.to_vec());
            assert_eq!(request.end_key, end.to_vec());
            assert!(start <= k && k <= end);
            assert_eq!(fetch.stats().leaves_fetched, 1);
            round = fetch.finish();
        }
        _ => panic!("a fetch was due"),
    }
    assert_eq!(
        round.stats(),
        SyncStats { leaves_fetched: 1, rows_received: 0, rows_applied: 0 }
    );
    match round.next() {
        Step::Done(stats) => assert_eq!(stats.leaves_fetched, 1),
        _ => panic!("the round was over"),
    }
}

#[test]
fn a_round_looks_into_wider_nodes_first() {
    let local = MerkleForest::new(MERKLE_LEAF_DEPTH_BITS);
    let mut remote = MerkleForest::new(MERKLE_LEAF_DEPTH_BITS);
    for i in 0..20u64 {
        remote.insert(&key(i as f64 * 90.0 - 900.0, 3.0, i as f64, 100 + i * 1000), b"row");
    }
    let service = SyncService::new(&remote);
    let mut round = SyncRound::start(&local, &service.roots()).unwrap();
    let mut depths = Vec::new();
    loop {
        match round.next() {
            Step::Children(descent) => {
                depths.push(descent.request().depth_bits);
                let reply = service.children(descent.request()).unwrap();
                round = descent.reply(&local, &reply).unwrap();
            }
            Step::Fetch(fetch) => {
                depths.push(15);
                round = fetch.finish();
            }
            Step::Done(_) => break,
        }
    }
    let mut sorted = depths.clone();
    sorted.sort();
    assert_eq!(depths, sorted);
    let leaves = diff_forests(&local, &remote).len();
    assert_eq!(depths.iter().filter(|d| **d == 15).count(), leaves);
}

#[test]
fn a_round_refuses_what_it_cannot_read() {
    let local = MerkleForest::new(MERKLE_LEAF_DEPTH_BITS);
    for leaf_depth_bits in [0u32, 2, 4, 16] {
        let reply = SyncRootsResponse { roots: vec![], leaf_depth_bits };
        let error = SyncRound::start(&local, &reply).unwrap_err();
        assert_eq!(error, SyncError::LeafDepth { leaf_depth_bits });
        assert_eq!(error.message(), format!("peer reported invalid leaf depth {leaf_depth_bits}"));
    }
    let short = SyncRootsResponse {
        roots: vec![EpochRoot { epoch: 1, hash: vec![0; 15] }],
        leaf_depth_bits: 15,
    };
    let error = SyncRound::start(&local, &short).unwrap_err();
    assert_eq!(error, SyncError::HashLength);
    assert_eq!(error.message(), "hash must be 16 bytes");

    let reply = SyncRootsResponse {
        roots: vec![EpochRoot { epoch: 1, hash: hash_bytes(7) }],
        leaf_depth_bits: 18,
    };
    let round = SyncRound::start(&local, &reply).unwrap();
    match round.next() {
        Step::Children(descent) => {
            let children = vec![ChildHash { prefix: 0, hash: vec![0; 17] }];
            let reply = SyncChildrenResponse { children };
            assert_eq!(descent.reply(&local, &reply).unwrap_err(), SyncError::HashLength);
        }
        _ => panic!("a descent was due"),
    }

    assert_eq!(LeafFetch::row_key(&[3; 20]), Ok([3; 20]));
    let error = LeafFetch::row_key(&[3; 19]).unwrap_err();
    assert_eq!(error, SyncError::RowKey);
    assert_eq!(error.message(), "peer sent a row with a malformed key");
}

#[test]
fn hashes_travel_most_significant_byte_first() {
    let bytes = hash_bytes(0x0102_0304_0506_0708_090a_0b0c_0d0e_0f10);
    assert_eq!(bytes, vec![1, 2, 3, 4, 5, 6, 7, 8, 9, 10, 11, 12, 13, 14, 15, 16]);
    assert_eq!(hash_from_bytes(&bytes), Ok(0x0102_0304_0506_0708_090a_0b0c_0d0e_0f10));
    assert_eq!(hash_from_bytes(&bytes[1..]), Err(SyncError::HashLength));
}

#[test]
fn the_service_lists_roots_and_children() {
    let mut forest = MerkleForest::new(MERKLE_LEAF_DEPTH_BITS);
    let k = key(1.0, 2.0, 3.0, 3600);
    forest.insert(&k, b"x");
    let digest = item_digest(&k, b"x");
    let service = SyncService::new(&forest);
    let reply = service.roots();
    assert_eq!(reply.leaf_depth_bits, 15);
    assert_eq!(reply.roots.len(), 1);
    assert_eq!(reply.roots[0].epoch, 1);
    assert_eq!(reply.roots[0].hash, digest.to_be_bytes().to_vec());

    let code = u64::from_be_bytes(k[4..12].try_into().unwrap());
    let request = SyncChildrenRequest { epoch: 1, depth_bits: 12, prefix: (code >> 52) << 52 };
    let children = service.children(request).unwrap().children;
    assert_eq!(children.len(), 1);
    assert_eq!(children[0].prefix, (code >> 49) << 49);
    assert_eq!(children[0].hash, digest.to_be_bytes().to_vec());
    let elsewhere = SyncChildrenRequest { epoch: 2, depth_bits: 0, prefix: 0 };
    assert!(service.children(elsewhere).unwrap().children.is_empty());
}

#[test]
fn the_service_refuses_bad_requests() {
    let forest = MerkleForest::new(MERKLE_LEAF_DEPTH_BITS);
    let service = SyncService::new(&forest);
    for depth_bits in [1u32, 14, 15, 18, u32::MAX] {
        let request = SyncChildrenRequest { epoch: 0, depth_bits, prefix: 0 };
        let error = service.children(request).unwrap_err();
        assert_eq!(error, SyncError::ChildDepth);
        assert_eq!(
            error.message(),
            "depth_bits must be a multiple of 3 with depth_bits + 3 ≤ 15"
        );
    }
    let ask = |start: usize, end: usize, first: u8, last: u8| {
        SyncService::fetch(&SyncFetchRequest {
            start_key: vec![first; start],
            end_key: vec![last; end],
        })
    };
    assert_eq!(ask(20, 20, 1, 2), Ok(([1; 20], [2; 20])));
    assert_eq!(ask(20, 20, 2, 2), Ok(([2; 20], [2; 20])));
    assert_eq!(ask(19, 20, 1, 2).unwrap_err().message(), "start_key must be 20 bytes");
    assert_eq!(ask(20, 21, 1, 2).unwrap_err().message(), "end_key must be 20 bytes");
    assert_eq!(ask(20, 20, 3, 2).unwrap_err().message(), "start_key must be ≤ end_key");
}
