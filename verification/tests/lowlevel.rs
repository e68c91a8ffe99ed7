// Low-level page codec tests: metadata and leaf round trips on in-memory
// file images, under both word sizes, and the meta selection rules.

use lmdb_tool::db::Factory;
use lmdb_tool::meta::init_meta;
use lmdb_tool::model::{Database, Error, Leaf, Metadata, Node, WordSize, FLAG_LEAF, MAGIC, VERSION};

fn stats(entries: u64, root: u64) -> Database {
    Database {
        pad: 4096,
        flags: 0,
        depth: if root == 0 { 0 } else { 1 },
        branch_pages: 0,
        leaf_pages: if root == 0 { 0 } else { 1 },
        overflow_pages: 0,
        entries,
        root,
    }
}

fn sample_meta(txnid: u64) -> Metadata {
    Metadata {
        magic: MAGIC,
        version: VERSION,
        address: 0,
        mapsize: 1048576,
        free: stats(0, 0),
        main: stats(2, 2),
        last_pgno: 2,
        txnid,
    }
}

#[test]
fn test_write_meta_64() {
    let mut db = Factory::open(Vec::new(), WordSize::Word64);
    let (meta1, meta2) = init_meta();
    db.write_meta(&meta1, 0).unwrap();
    db.write_meta(&meta2, 1).unwrap();

    // Try to read back
    let meta = db.pick_meta().unwrap();
    println!("Metadata: {:?}", meta);
    assert_eq!(meta, meta1);
}

#[test]
fn test_write_leaf_64() {
    let mut db = Factory::open(Vec::new(), WordSize::Word64);
    let (meta1, meta2) = init_meta();
    db.write_meta(&meta1, 0).unwrap();
    db.write_meta(&meta2, 1).unwrap();

    let mut nodes = Vec::<Node>::new();
    for i in 1..3u8 {
        nodes.push(Node { flags: 0, key: vec![i; 1], data: vec![2 * i; 1] });
    }
    db.write_leaf(&Leaf { pageno: 2, flags: FLAG_LEAF, nodes }).unwrap();

    // Try to read back
    let leaf = db.read_leaf(2).unwrap();
    println!("{:#?}", leaf);
    assert_eq!(leaf.pageno, 2);
    assert_eq!(leaf.flags, FLAG_LEAF);
    assert_eq!(leaf.nodes.len(), 2);
    assert_eq!(leaf.nodes[0].key, vec![1u8]);
    assert_eq!(leaf.nodes[0].data, vec![2u8]);
    assert_eq!(leaf.nodes[1].key, vec![2u8]);
    assert_eq!(leaf.nodes[1].data, vec![4u8]);
}

#[test]
fn test_write_meta_32() {
    let mut db = Factory::open(Vec::new(), WordSize::Word32);
    let (meta1, meta2) = init_meta();
    db.write_meta(&meta1, 0).unwrap();
    db.write_meta(&meta2, 1).unwrap();

    // Try to read back
    let meta = db.pick_meta().unwrap();
    println!("Metadata: {:?}", meta);
    assert_eq!(meta, meta1);
}

#[test]
fn meta_round_trip_every_field() {
    for ws in [WordSize::Word32, WordSize::Word64] {
        let m = Metadata {
            magic: MAGIC,
            version: VERSION,
            address: 0x1000,
            mapsize: 0x0040_0000,
            free: Database {
                pad: 4096,
                flags: 0x08,
                depth: 0,
                branch_pages: 0,
                leaf_pages: 3,
                overflow_pages: 1,
                entries: 7,
                root: 5,
            },
            main: Database {
                pad: 4096,
                flags: 0,
                depth: 2,
                branch_pages: 1,
                leaf_pages: 4,
                overflow_pages: 0,
                entries: 100,
                root: 9,
            },
            last_pgno: 12,
            txnid: 42,
        };
        let mut db = Factory::open(Vec::new(), ws);
        db.write_meta(&m, 0).unwrap();
        db.write_meta(&m, 1).unwrap();
        let back = db.pick_meta().unwrap();
        assert_eq!(back, m);
    }
}

#[test]
fn meta_page_exact_bytes_64() {
    let mut db = Factory::open(Vec::new(), WordSize::Word64);
    let (m, _) = init_meta();
    db.write_meta(&m, 0).unwrap();
    let page = db.read_page(0).unwrap();
    assert_eq!(page.len(), 4096);
    // header: pageno 0 (8 bytes), pad 0, flags META = 0x08
    assert_eq!(&page[0..8], &[0, 0, 0, 0, 0, 0, 0, 0]);
    assert_eq!(&page[10..12], &[0x08, 0x00]);
    // magic 0xBEEFC0DE little-endian at the end of the 16-byte header
    assert_eq!(&page[16..20], &[0xDE, 0xC0, 0xEF, 0xBE]);
    // version 1
    assert_eq!(&page[20..24], &[1, 0, 0, 0]);
    // mapsize 1048576 = 0x100000 as the second word after the constants
    assert_eq!(&page[32..40], &[0, 0, 0x10, 0, 0, 0, 0, 0]);
}

#[test]
fn leaf_round_trip_varied_sizes() {
    for ws in [WordSize::Word32, WordSize::Word64] {
        let mut nodes = Vec::<Node>::new();
        for i in 0..5u8 {
            let key: Vec<u8> = (0..=i).collect();
            let data: Vec<u8> = (0..(3 * i as usize + 1)).map(|x| x as u8).collect();
            nodes.push(Node { flags: i as u16, key, data });
        }
        let mut db = Factory::open(Vec::new(), ws);
        db.write_leaf(&Leaf { pageno: 3, flags: FLAG_LEAF, nodes: nodes.clone() }).unwrap();
        let leaf = db.read_leaf(3).unwrap();
        assert_eq!(leaf.pageno, 3);
        assert_eq!(leaf.nodes.len(), nodes.len());
        for (a, b) in leaf.nodes.iter().zip(nodes.iter()) {
            assert_eq!(a.flags, b.flags);
            assert_eq!(a.key, b.key);
            assert_eq!(a.data, b.data);
        }
    }
}

#[test]
fn leaf_page_exact_layout_64() {
    // two one-byte nodes: records are 10 bytes each, packed from the end
    let mut db = Factory::open(Vec::new(), WordSize::Word64);
    let nodes = vec![
        Node { flags: 0, key: vec![1], data: vec![2] },
        Node { flags: 0, key: vec![2], data: vec![4] },
    ];
    db.write_leaf(&Leaf { pageno: 0, flags: FLAG_LEAF, nodes }).unwrap();
    let page = db.read_page(0).unwrap();
    // free_lower = 16-byte header + 2 pointers = 20; free_upper = 4076
    assert_eq!(&page[12..14], &[20, 0]);
    assert_eq!(&page[14..16], &[0xEC, 0x0F]);
    // pointer table: 4086, 4076
    assert_eq!(&page[16..18], &[0xF6, 0x0F]);
    assert_eq!(&page[18..20], &[0xEC, 0x0F]);
    // node 0's record at 4086: data_len 1, flags 0, key_len 1, key, data
    assert_eq!(&page[4086..4096], &[1, 0, 0, 0, 0, 0, 1, 0, 1, 2]);
    // node 1's record at 4076
    assert_eq!(&page[4076..4086], &[1, 0, 0, 0, 0, 0, 1, 0, 2, 4]);
}

#[test]
fn pick_meta_prefers_higher_txnid() {
    for ws in [WordSize::Word32, WordSize::Word64] {
        let mut db = Factory::open(Vec::new(), ws);
        db.write_meta(&sample_meta(3), 0).unwrap();
        db.write_meta(&sample_meta(9), 1).unwrap();
        assert_eq!(db.pick_meta().unwrap().txnid, 9);

        let mut db2 = Factory::open(Vec::new(), ws);
        db2.write_meta(&sample_meta(9), 0).unwrap();
        db2.write_meta(&sample_meta(3), 1).unwrap();
        assert_eq!(db2.pick_meta().unwrap().txnid, 9);
    }
}

#[test]
fn pick_meta_tolerates_one_corrupt_copy() {
    let mut bad = sample_meta(99);
    bad.magic = MAGIC ^ 1;
    // corrupt copy at page 1: page 0 wins regardless of txnid
    let mut db = Factory::open(Vec::new(), WordSize::Word64);
    db.write_meta(&sample_meta(3), 0).unwrap();
    db.write_meta(&bad, 1).unwrap();
    assert_eq!(db.pick_meta().unwrap().txnid, 3);
    // corrupt copy at page 0: page 1 wins regardless of txnid
    let mut db2 = Factory::open(Vec::new(), WordSize::Word64);
    db2.write_meta(&bad, 0).unwrap();
    db2.write_meta(&sample_meta(3), 1).unwrap();
    assert_eq!(db2.pick_meta().unwrap().txnid, 3);
}

#[test]
fn pick_meta_fails_when_both_corrupt() {
    let mut bad = sample_meta(7);
    bad.version = VERSION + 1;
    let mut db = Factory::open(Vec::new(), WordSize::Word64);
    db.write_meta(&bad, 0).unwrap();
    db.write_meta(&bad, 1).unwrap();
    assert_eq!(db.pick_meta(), Err(Error::Corrupt));
    // an empty image has no candidate at all
    let empty = Factory::open(Vec::new(), WordSize::Word64);
    assert_eq!(empty.pick_meta(), Err(Error::Corrupt));
}

#[test]
fn word_overflow_under_32_bit_words() {
    let mut db = Factory::open(Vec::new(), WordSize::Word32);
    let mut m = sample_meta(1);
    m.address = 0x1_0000_0000;
    assert_eq!(db.write_meta(&m, 0), Err(Error::WordOverflow));
    // the same record is fine under 64-bit words
    let mut db64 = Factory::open(Vec::new(), WordSize::Word64);
    assert_eq!(db64.write_meta(&m, 0), Ok(()));
}
