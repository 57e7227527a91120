//! The forest: hashing, diffing, sealing.

use interstellar_db::{diff_forests, item_digest, leaf_key_range, MerkleForest};

const MAX_RANGE: f64 = 1000.0;
const EPOCH_SECS: u64 = 3600;

/// One coordinate, clamped to the range and scaled to 21 bits.
fn axis(v: f64) -> u64 {
    let clamped = v.clamp(-MAX_RANGE, MAX_RANGE);
    let scaled = (clamped + MAX_RANGE) / (2.0 * MAX_RANGE) * 2_097_151.0;
    scaled as u64
}

/// The three axes interleaved bit by bit, left-aligned in 64 bits.
fn morton(x: f64, y: f64, z: f64) -> u64 {
    let (x, y, z) = (axis(x), axis(y), axis(z));
    let mut code = 0u64;
    for bit in 0..21 {
        code |= ((x >> bit) & 1) << (3 * bit + 2);
        code |= ((y >> bit) & 1) << (3 * bit + 1);
        code |= ((z >> bit) & 1) << (3 * bit);
    }
    code << 1
}

fn generate_key(x: f64, y: f64, z: f64, secs: u64, nanos: u64) -> [u8; 20] {
    let epoch = (secs / EPOCH_SECS) as u32;
    let offset = (secs % EPOCH_SECS) * 1_000_000_000 + nanos;
    let mut key = [0u8; 20];
    key[0..4].copy_from_slice(&epoch.to_be_bytes());
    key[4..12].copy_from_slice(&morton(x, y, z).to_be_bytes());
    key[12..20].copy_from_slice(&offset.to_be_bytes());
    key
}

fn key(x: f64, y: f64, z: f64, secs: u64) -> [u8; 20] {
    generate_key(x, y, z, secs, 0)
}

#[test]
fn empty_forest_has_no_roots() {
    let f = MerkleForest::new(15);
    assert!(f.epoch_roots().is_empty());
    assert!(f.is_empty());
    assert_eq!(f.node_hash(0, 0, 0), 0);
}

#[test]
fn insert_order_does_not_matter() {
    let items: Vec<([u8; 20], &[u8])> = vec![
        (key(1.0, 2.0, 3.0, 100), b"a".as_slice()),
        (key(-500.0, 10.0, 900.0, 200), b"b"),
        (key(0.0, 0.0, 0.0, 300), b"c"),
        (key(999.0, -999.0, 0.5, 3700), b"d"), // second epoch
    ];
    let mut f1 = MerkleForest::new(15);
    let mut f2 = MerkleForest::new(15);
    for (k, p) in &items {
        f1.insert(k, p);
    }
    for (k, p) in items.iter().rev() {
        f2.insert(k, p);
    }
    assert_eq!(f1.epoch_roots(), f2.epoch_roots());
    assert!(diff_forests(&f1, &f2).is_empty());
}

#[test]
fn remove_is_self_inverse() {
    let mut f = MerkleForest::new(15);
    let empty_roots = f.epoch_roots();
    let k = key(5.0, 5.0, 5.0, 42);
    f.insert(&k, b"payload");
    assert_ne!(f.epoch_roots(), empty_roots);
    f.remove(&k, b"payload");
    assert_eq!(f.epoch_roots(), empty_roots);
    assert!(f.is_empty());
}

#[test]
fn parent_hash_is_xor_of_children() {
    let mut f = MerkleForest::new(15);
    for i in 0..50 {
        let k = key(
            (i as f64) * 37.0 - 900.0,
            (i as f64) * 13.0 - 300.0,
            (i as f64) * 7.0,
            100 + i,
        );
        f.insert(&k, format!("p{i}").as_bytes());
    }
    for depth in (0..15).step_by(3) {
        // Every non-empty node at `depth` must equal XOR of its children.
        // Check the root and one full level down from each occupied node.
        let parents: Vec<u64> = if depth == 0 {
            vec![0]
        } else {
            (0..8u64 * 8 * 8)
                .map(|i| i << (64 - depth.max(3)))
                .filter(|&p| f.node_hash(0, depth, p) != 0)
                .take(16)
                .collect()
        };
        for p in parents {
            let parent = f.node_hash(0, depth, p);
            let folded = f
                .child_hashes(0, depth, p)
                .iter()
                .fold(0u128, |acc, (_, h)| acc ^ h);
            assert_eq!(parent, folded, "depth {depth} prefix {p:#x}");
        }
    }
}

#[test]
fn diff_localizes_single_extra_item() {
    let mut a = MerkleForest::new(15);
    let mut b = MerkleForest::new(15);
    for i in 0..100 {
        let k = key((i as f64) * 19.0 - 950.0, (i as f64) * -11.0 + 550.0, 3.0, 500);
        a.insert(&k, b"shared");
        b.insert(&k, b"shared");
    }
    let extra = key(123.0, -456.0, 789.0, 600);
    a.insert(&extra, b"only-in-a");

    let diffs = diff_forests(&a, &b);
    assert_eq!(diffs.len(), 1, "one extra item must yield one divergent leaf");
    let d = &diffs[0];
    assert!(
        extra >= d.start_key && extra <= d.end_key,
        "divergent range must cover the extra item's key"
    );
    // Symmetric.
    assert_eq!(diff_forests(&b, &a), diffs);
}

#[test]
fn diff_flags_epoch_missing_entirely() {
    let mut a = MerkleForest::new(15);
    let b = MerkleForest::new(15);
    let k = key(1.0, 1.0, 1.0, 10 * 3600); // epoch 10
    a.insert(&k, b"x");
    let diffs = diff_forests(&a, &b);
    assert_eq!(diffs.len(), 1);
    assert_eq!(diffs[0].epoch, 10);
    assert!(k >= diffs[0].start_key && k <= diffs[0].end_key);
}

#[test]
fn same_key_different_payload_diverges() {
    let mut a = MerkleForest::new(15);
    let mut b = MerkleForest::new(15);
    let k = key(0.0, 0.0, 0.0, 100);
    a.insert(&k, b"payload-1");
    b.insert(&k, b"payload-2");
    let diffs = diff_forests(&a, &b);
    assert_eq!(diffs.len(), 1);
    assert!(k >= diffs[0].start_key && k <= diffs[0].end_key);
}

#[test]
fn mixed_leaf_depths_compare_at_shallower_depth() {
    let mut a = MerkleForest::new(9);
    let mut b = MerkleForest::new(21);
    let shared = key(10.0, 20.0, 30.0, 100);
    a.insert(&shared, b"s");
    b.insert(&shared, b"s");
    assert!(diff_forests(&a, &b).is_empty());

    let extra = key(-800.0, 700.0, -600.0, 100);
    b.insert(&extra, b"e");
    let diffs = diff_forests(&a, &b);
    assert_eq!(diffs.len(), 1);
    assert_eq!(diffs[0].depth_bits, 9, "descends to the shallower leaf depth");
    assert!(extra >= diffs[0].start_key && extra <= diffs[0].end_key);
}

#[test]
fn seal_roundtrip_reproduces_every_node_hash() {
    let mut f = MerkleForest::new(15);
    for i in 0..80u64 {
        let k = key(
            (i as f64) * 29.0 - 950.0,
            (i as f64) * -17.0 + 700.0,
            (i as f64) * 3.0 - 100.0,
            100 + i,
        );
        f.insert(&k, format!("p{i}").as_bytes());
    }
    let bytes = f.serialize_epoch(0).expect("epoch 0 must serialize");

    let mut g = MerkleForest::new(15);
    g.load_sealed_epoch(0, &bytes).unwrap();

    assert_eq!(f.epoch_roots(), g.epoch_roots());
    assert_eq!(f.len(), g.len());
    assert!(diff_forests(&f, &g).is_empty());
    // Sealed trees must remain fully descendable.
    for (p, h) in f.child_hashes(0, 0, 0) {
        assert_eq!(g.node_hash(0, 3, p), h);
    }
}

#[test]
fn sealed_epoch_accepts_later_inserts() {
    let mut f = MerkleForest::new(15);
    let k1 = key(10.0, 10.0, 10.0, 100);
    f.insert(&k1, b"one");
    let bytes = f.serialize_epoch(0).unwrap();

    let mut g = MerkleForest::new(15);
    g.load_sealed_epoch(0, &bytes).unwrap();
    let k2 = key(-300.0, 400.0, 50.0, 200);
    f.insert(&k2, b"two");
    g.insert(&k2, b"two");
    assert_eq!(f.epoch_roots(), g.epoch_roots(), "late insert folds into a loaded tree");
}

#[test]
fn seal_load_rejects_bad_records() {
    let mut f = MerkleForest::new(15);
    f.insert(&key(1.0, 1.0, 1.0, 100), b"x");
    let bytes = f.serialize_epoch(0).unwrap();

    // Depth mismatch.
    let mut g = MerkleForest::new(9);
    assert!(g.load_sealed_epoch(0, &bytes).is_err());
    // Already-populated epoch.
    let mut h = MerkleForest::new(15);
    h.insert(&key(2.0, 2.0, 2.0, 100), b"y");
    assert!(h.load_sealed_epoch(0, &bytes).is_err());
    // Truncated record.
    let mut i = MerkleForest::new(15);
    assert!(i.load_sealed_epoch(0, &bytes[..bytes.len() - 1]).is_err());
    // Empty epoch serializes to None.
    assert!(f.serialize_epoch(99).is_none());
}

#[test]
fn leaf_key_range_matches_indexer_ranges() {
    // The merkle leaf range for the cell containing a point must cover the
    // generated key for that point, using the same prefix math as the
    // range planner.
    let k = generate_key(250.0, -125.0, 60.0, 7200, 123);
    let morton = u64::from_be_bytes(k[4..12].try_into().unwrap());
    let epoch = u32::from_be_bytes(k[0..4].try_into().unwrap());
    for depth in [3usize, 9, 15, 21] {
        let prefix = (morton >> (64 - depth)) << (64 - depth);
        let (s, e) = leaf_key_range(epoch, prefix, depth);
        assert!(k >= s && k <= e, "depth {depth}");
    }
}

/// A key of an epoch, a Morton code and an offset.
fn raw_key(epoch: u32, morton: u64, offset: u64) -> [u8; 20] {
    let mut key = [0u8; 20];
    key[0..4].copy_from_slice(&epoch.to_be_bytes());
    key[4..12].copy_from_slice(&morton.to_be_bytes());
    key[12..20].copy_from_slice(&offset.to_be_bytes());
    key
}

#[test]
fn item_digest_is_the_front_of_the_sha256_of_key_and_payload() {
    // The key holds the ASCII letters a to t; the payload goes on with u to z.
    let mut k = [0u8; 20];
    for (i, byte) in k.iter_mut().enumerate() {
        *byte = b'a' + i as u8;
    }
    // SHA-256("abcdefghijklmnopqrstuvwxyz")
    //   = 71c480df93d6ae2f1efad1447c66c9525e316218cf51fc8d9ed832f2daf18b73
    assert_eq!(item_digest(&k, b"uvwxyz"), 0x71c480df93d6ae2f1efad1447c66c952);
}

#[test]
fn node_hashes_are_the_digests_of_the_items_below() {
    let mut f = MerkleForest::new(6);
    let x = raw_key(7, 0b101_011 << 58, 1);
    let y = raw_key(7, 0b101_110 << 58, 2);
    f.insert(&x, b"x");
    f.insert(&y, b"y");
    let (dx, dy) = (item_digest(&x, b"x"), item_digest(&y, b"y"));
    assert_eq!(f.node_hash(7, 0, 0), dx ^ dy);
    assert_eq!(f.node_hash(7, 3, 0b101 << 61), dx ^ dy);
    assert_eq!(f.node_hash(7, 6, 0b101_011 << 58), dx);
    assert_eq!(f.node_hash(7, 6, 0b101_110 << 58), dy);
    assert_eq!(f.node_hash(7, 6, 0b101_111 << 58), 0);
    assert_eq!(f.node_hash(8, 0, 0), 0);
    assert_eq!(
        f.child_hashes(7, 3, 0b101 << 61),
        vec![(0b101_011 << 58, dx), (0b101_110 << 58, dy)]
    );
    assert_eq!(f.epoch_roots(), vec![(7, dx ^ dy)]);
    assert_eq!(f.len(), 2);
    assert_eq!(f.leaf_depth_bits(), 6);
}

#[test]
fn epochs_stay_listed_after_they_emptied() {
    let mut f = MerkleForest::new(3);
    for epoch in [9u32, 2, 5] {
        f.insert(&raw_key(epoch, 1, 1), b"p");
    }
    f.remove(&raw_key(5, 1, 1), b"p");
    f.remove(&raw_key(6, 1, 1), b"p");
    assert_eq!(f.epochs(), vec![2, 5, 9]);
    let roots: Vec<u32> = f.epoch_roots().into_iter().map(|(e, _)| e).collect();
    assert_eq!(roots, vec![2, 9]);
    assert_eq!(f.len(), 2);
    assert!(!f.is_empty());
    assert_eq!([2u32, 5, 9, 6].map(|e| f.epoch_len(e)), [1, 0, 1, 0]);
    // A count never goes below zero.
    f.remove(&raw_key(5, 1, 1), b"p");
    assert_eq!(f.len(), 2);
}

#[test]
fn a_clone_is_independent() {
    let mut f = MerkleForest::new(9);
    f.insert(&raw_key(1, 77 << 50, 0), b"p");
    let g = f.clone();
    assert_eq!(f.epoch_roots(), g.epoch_roots());
    f.insert(&raw_key(1, 78 << 50, 0), b"q");
    assert_ne!(f.epoch_roots(), g.epoch_roots());
    assert_eq!(g.len(), 1);
    let diffs = diff_forests(&f, &g);
    assert_eq!(diffs.clone(), diffs);
}

#[test]
fn leaf_key_range_spans_the_cell() {
    let (start, end) = leaf_key_range(0x0102_0304, 0b101 << 61, 3);
    assert_eq!(start, [1, 2, 3, 4, 0xa0, 0, 0, 0, 0, 0, 0, 0, 0, 0, 0, 0, 0, 0, 0, 0]);
    assert_eq!(
        end,
        [
            1, 2, 3, 4, 0xbf, 0xff, 0xff, 0xff, 0xff, 0xff, 0xff, 0xff, 0xff, 0xff, 0xff, 0xff,
            0xff, 0xff, 0xff, 0xff
        ]
    );
}

#[test]
fn seal_record_layout() {
    let mut f = MerkleForest::new(3);
    let high = raw_key(4, 0b110 << 61, 0);
    let low = raw_key(4, 0b001 << 61, 0);
    f.insert(&high, b"h");
    f.insert(&low, b"l");
    let mut expected = vec![1u8, 3];
    expected.extend_from_slice(&2u64.to_be_bytes());
    expected.extend_from_slice(&2u32.to_be_bytes());
    for k in [low, high] {
        let payload: &[u8] = if k == low { b"l" } else { b"h" };
        expected.extend_from_slice(&k[4..12]);
        expected.extend_from_slice(&item_digest(&k, payload).to_be_bytes());
    }
    assert_eq!(f.serialize_epoch(4), Some(expected));
}

#[test]
fn seal_errors_say_what_is_wrong() {
    let mut f = MerkleForest::new(15);
    f.insert(&raw_key(0, 5, 0), b"x");
    let bytes = f.serialize_epoch(0).unwrap();

    assert_eq!(f.load_sealed_epoch(0, &bytes), Err("epoch 0 already populated".to_string()));
    assert_eq!(f.load_sealed_epoch(1, &bytes[..13]), Err("seal record too short".to_string()));
    let mut version = bytes.clone();
    version[0] = 2;
    assert_eq!(
        f.load_sealed_epoch(1, &version),
        Err("unsupported seal record version 2".to_string())
    );
    let mut depth = bytes.clone();
    depth[1] = 21;
    assert_eq!(
        f.load_sealed_epoch(1, &depth),
        Err("seal record leaf depth 21 does not match forest leaf depth 15".to_string())
    );
    assert_eq!(
        f.load_sealed_epoch(1, &bytes[..bytes.len() - 1]),
        Err("seal record length 37 does not match 1 entries".to_string())
    );
    // A refused record leaves the forest as it was.
    assert_eq!(f.epochs(), vec![0]);
    assert_eq!(f.load_sealed_epoch(1, &bytes), Ok(()));
    assert_eq!(f.epochs(), vec![0, 1]);
    assert_eq!(f.len(), 2);
}

#[test]
fn a_node_lists_at_most_eight_children_in_order() {
    let mut f = MerkleForest::new(6);
    for c in [5u64, 0, 7, 3, 1, 2, 6, 4] {
        f.insert(&raw_key(0, c << 61, 0), b"p");
    }
    let prefixes: Vec<u64> = f.child_hashes(0, 0, 0).into_iter().map(|(p, _)| p).collect();
    assert_eq!(prefixes, (0..8u64).map(|c| c << 61).collect::<Vec<u64>>());
}

#[test]
fn forests_agree_just_when_nothing_diverges() {
    let mut a = MerkleForest::new(9);
    let mut b = MerkleForest::new(12);
    let keys = [raw_key(1, 3 << 60, 1), raw_key(1, 9 << 55, 2), raw_key(2, 1, 3)];
    for k in &keys {
        a.insert(k, b"p");
        assert_ne!(a.epoch_roots(), b.epoch_roots());
        assert_eq!(diff_forests(&a, &b).len(), 1);
        assert_eq!(diff_forests(&a, &b), diff_forests(&b, &a));
        b.insert(k, b"p");
        assert_eq!(a.epoch_roots(), b.epoch_roots());
        assert!(diff_forests(&a, &b).is_empty());
    }
}

#[test]
fn divergent_leaves_come_in_the_order_of_epochs_and_prefixes() {
    let mut a = MerkleForest::new(6);
    let b = MerkleForest::new(6);
    for (epoch, code) in [(3u32, 9u64), (1, 60), (3, 2), (1, 5)] {
        a.insert(&raw_key(epoch, code << 58, 0), b"p");
    }
    let found: Vec<(u32, u64)> =
        diff_forests(&a, &b).iter().map(|d| (d.epoch, d.prefix >> 58)).collect();
    assert_eq!(found, vec![(1, 5), (1, 60), (3, 2), (3, 9)]);
}
