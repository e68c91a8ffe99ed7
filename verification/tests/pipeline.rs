// Whole-file pipeline tests: create, write cursor, commit, dump, convert
// between word sizes, capacity limits, and word-size detection.

use lmdb_tool::db::Factory;
use lmdb_tool::model::{Error, Node, WordSize};

fn node(key: &[u8], data: &[u8]) -> Node {
    Node { flags: 0, key: key.to_vec(), data: data.to_vec() }
}

fn dump_pairs(db: &lmdb_tool::db::Database) -> Vec<(Vec<u8>, Vec<u8>)> {
    db.dump().unwrap().into_iter().map(|n| (n.key, n.data)).collect()
}

#[test]
fn end_to_end_two_nodes() {
    // create a 64-bit file whose main tree holds two nodes in one leaf
    let db = Factory::create(WordSize::Word64);
    let mut cur = db.write_cursor();
    cur.push_node(node(&[1], &[2])).unwrap();
    cur.push_node(node(&[2], &[4])).unwrap();
    let db = cur.commit().unwrap();

    let meta = db.pick_meta().unwrap();
    assert_eq!(meta.main.root, 2);
    assert_eq!(meta.main.entries, 2);
    assert_eq!(meta.txnid, 1);

    let pairs = dump_pairs(&db);
    assert_eq!(pairs, vec![(vec![1u8], vec![2u8]), (vec![2u8], vec![4u8])]);

    // converting to 32-bit words preserves both nodes byte for byte
    let db32 = db.convert(WordSize::Word32).unwrap();
    let pairs32 = dump_pairs(&db32);
    assert_eq!(pairs32, pairs);
}

#[test]
fn identity_conversion_preserves_dump() {
    let db = Factory::create(WordSize::Word64);
    let mut cur = db.write_cursor();
    for i in 0..10u8 {
        cur.push_node(node(&[i, i + 1], &[i; 5])).unwrap();
    }
    let db = cur.commit().unwrap();
    let before = dump_pairs(&db);

    let same = db.convert(WordSize::Word64).unwrap();
    assert_eq!(dump_pairs(&same), before);

    // and a second identity conversion still agrees
    let again = same.convert(WordSize::Word64).unwrap();
    assert_eq!(dump_pairs(&again), before);
}

#[test]
fn conversion_round_trip_32_and_back() {
    let db = Factory::create(WordSize::Word32);
    let mut cur = db.write_cursor();
    for i in 0..4u8 {
        cur.push_node(node(&[i], &[i * 3, i * 3 + 1])).unwrap();
    }
    let db = cur.commit().unwrap();
    let before = dump_pairs(&db);

    let db64 = db.convert(WordSize::Word64).unwrap();
    let back = db64.convert(WordSize::Word32).unwrap();
    assert_eq!(dump_pairs(&back), before);
}

#[test]
fn empty_tree_dumps_empty_and_converts() {
    let db = Factory::create(WordSize::Word64);
    assert_eq!(dump_pairs(&db).len(), 0);
    let db32 = db.convert(WordSize::Word32).unwrap();
    assert_eq!(dump_pairs(&db32).len(), 0);
}

#[test]
fn capacity_fails_deterministically() {
    // each node's record is 8 + 100 + 100 = 208 bytes plus a 2-byte
    // pointer; the 64-bit page budget after the header is 4080 bytes, so
    // the twentieth node must be the first to fail: 19*210 = 3990 fits,
    // 20*210 = 4200 does not.
    let db = Factory::create(WordSize::Word64);
    let mut cur = db.write_cursor();
    let big = node(&[7u8; 100], &[9u8; 100]);
    let mut pushed = 0usize;
    let failure = loop {
        match cur.push_node(Node {
            flags: big.flags,
            key: big.key.clone(),
            data: big.data.clone(),
        }) {
            Ok(()) => pushed += 1,
            Err(e) => break e,
        }
    };
    assert_eq!(failure, Error::Capacity);
    assert_eq!(pushed, 19);
    // the cursor is still usable and commits what fit
    let db = cur.commit().unwrap();
    assert_eq!(dump_pairs(&db).len(), 19);
}

#[test]
fn oversized_single_node_is_rejected() {
    let db = Factory::create(WordSize::Word64);
    let mut cur = db.write_cursor();
    assert_eq!(cur.push_node(node(&[1], &[0u8; 5000])), Err(Error::Capacity));
    // nothing was buffered
    let db = cur.commit().unwrap();
    assert_eq!(dump_pairs(&db).len(), 0);
}

#[test]
fn detect_word_size() {
    let db64 = Factory::create(WordSize::Word64);
    assert_eq!(Factory::detect(&db64.data), Some(WordSize::Word64));
    let db32 = Factory::create(WordSize::Word32);
    assert_eq!(Factory::detect(&db32.data), Some(WordSize::Word32));
    assert_eq!(Factory::detect(&Vec::new()), None);
}

#[test]
fn read_cursor_streams_in_order() {
    let db = Factory::create(WordSize::Word64);
    let mut cur = db.write_cursor();
    cur.push_node(node(b"alpha", b"1")).unwrap();
    cur.push_node(node(b"beta", b"2")).unwrap();
    cur.push_node(node(b"gamma", b"3")).unwrap();
    let db = cur.commit().unwrap();

    let mut rc = db.read_cursor().unwrap();
    let mut seen = Vec::new();
    while let Some(n) = rc.next() {
        seen.push(n.key);
    }
    assert_eq!(seen, vec![b"alpha".to_vec(), b"beta".to_vec(), b"gamma".to_vec()]);
    assert!(rc.next().is_none());
}

#[test]
fn cli_reports_target_word_size() {
    let cli = lmdb_tool::cli::Cli {
        input: "in.db".to_string(),
        verbose: 0,
        trace: "error".to_string(),
        command: lmdb_tool::cli::Command::Convert {
            format: WordSize::Word32,
            output: "out.db".to_string(),
        },
    };
    assert_eq!(cli.target_word_size(), Some(WordSize::Word32));
    let dump = lmdb_tool::cli::Cli {
        input: "in.db".to_string(),
        verbose: 1,
        trace: "error".to_string(),
        command: lmdb_tool::cli::Command::Dump,
    };
    assert_eq!(dump.target_word_size(), None);
}
