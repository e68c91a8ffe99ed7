//! Codec for page headers, per-database records and metadata pages, and the
//! selector that picks the authoritative copy out of the two redundant
//! metadata pages.

use vstd::prelude::*;
use vstd::bytes::{spec_u16_to_le_bytes, spec_u32_to_le_bytes};

use crate::PAGE_SIZE;
use crate::model::{Database, Error, Header, Metadata, WordSize, DB_INTEGERKEY, DEFAULT_MAPSIZE,
    FLAG_META, MAGIC, VERSION};
use crate::words::{enc_word, get_u16, get_u32, get_word, le_facts, lemma_word_round_trip,
    put_u16, put_u32, put_word, put_zeros, u16_at, u32_at, word_at, zeros};

verus! {

/// Encoded length of a page header: one word plus four u16 fields.
pub open spec fn hdr_len(ws: WordSize) -> int {
    ws.spec_len() + 8
}

/// Encoded length of a per-database record: a u32, two u16, five words.
pub open spec fn db_len(ws: WordSize) -> int {
    8 + 5 * ws.spec_len()
}

/// Encoded length of the meaningful prefix of a metadata page.
pub open spec fn meta_len(ws: WordSize) -> int {
    hdr_len(ws) + 8 + 4 * ws.spec_len() + 2 * db_len(ws)
}

/// Byte encoding of a page header.
pub open spec fn enc_header(h: Header, ws: WordSize) -> Seq<u8> {
    enc_word(ws, h.pageno) + (spec_u16_to_le_bytes(h.pad) + (spec_u16_to_le_bytes(h.flags) + (
    spec_u16_to_le_bytes(h.free_lower) + spec_u16_to_le_bytes(h.free_upper))))
}

/// Byte encoding of a per-database record.
pub open spec fn enc_db(d: Database, ws: WordSize) -> Seq<u8> {
    spec_u32_to_le_bytes(d.pad) + (spec_u16_to_le_bytes(d.flags) + (spec_u16_to_le_bytes(d.depth)
        + (enc_word(ws, d.branch_pages) + (enc_word(ws, d.leaf_pages) + (enc_word(
        ws,
        d.overflow_pages,
    ) + (enc_word(ws, d.entries) + enc_word(ws, d.root)))))))
}

/// The header every metadata page carries: only the META flag bit is
/// meaningful; the other fields are zeroed.
pub open spec fn meta_header() -> Header {
    Header { pageno: 0, pad: 0, flags: FLAG_META, free_lower: 0, free_upper: 0 }
}

/// Byte encoding of the payload of a metadata page, after its header.
pub open spec fn enc_meta_body(m: Metadata, ws: WordSize) -> Seq<u8> {
    spec_u32_to_le_bytes(m.magic) + (spec_u32_to_le_bytes(m.version) + (enc_word(ws, m.address)
        + (enc_word(ws, m.mapsize) + (enc_db(m.free, ws) + (enc_db(m.main, ws) + (enc_word(
        ws,
        m.last_pgno,
    ) + enc_word(ws, m.txnid)))))))
}

/// Byte encoding of a whole metadata page: header with the META flag, the
/// payload (free database before main database), zero fill to the page end.
pub open spec fn enc_meta_page(m: Metadata, ws: WordSize) -> Seq<u8> {
    enc_header(meta_header(), ws) + (enc_meta_body(m, ws) + zeros(PAGE_SIZE - meta_len(ws)))
}

/// The header decoded from the start of page image `s`.
pub open spec fn dec_header(s: Seq<u8>, ws: WordSize) -> Header {
    let w = ws.spec_len();
    Header {
        pageno: word_at(s, ws, 0),
        pad: u16_at(s, w),
        flags: u16_at(s, w + 2),
        free_lower: u16_at(s, w + 4),
        free_upper: u16_at(s, w + 6),
    }
}

/// The per-database record decoded at byte offset `off` of page image `s`.
pub open spec fn dec_db(s: Seq<u8>, ws: WordSize, off: int) -> Database {
    let w = ws.spec_len();
    Database {
        pad: u32_at(s, off),
        flags: u16_at(s, off + 4),
        depth: u16_at(s, off + 6),
        branch_pages: word_at(s, ws, off + 8),
        leaf_pages: word_at(s, ws, off + 8 + w),
        overflow_pages: word_at(s, ws, off + 8 + 2 * w),
        entries: word_at(s, ws, off + 8 + 3 * w),
        root: word_at(s, ws, off + 8 + 4 * w),
    }
}

/// The metadata record decoded from page image `s`.
pub open spec fn dec_meta(s: Seq<u8>, ws: WordSize) -> Metadata {
    let w = ws.spec_len();
    let body = hdr_len(ws);
    Metadata {
        magic: u32_at(s, body),
        version: u32_at(s, body + 4),
        address: word_at(s, ws, body + 8),
        mapsize: word_at(s, ws, body + 8 + w),
        free: dec_db(s, ws, body + 8 + 2 * w),
        main: dec_db(s, ws, body + 8 + 2 * w + db_len(ws)),
        last_pgno: word_at(s, ws, body + 8 + 2 * w + 2 * db_len(ws)),
        txnid: word_at(s, ws, body + 8 + 2 * w + 2 * db_len(ws) + w),
    }
}

/// Length facts of all word encodings under one word size.
pub proof fn lemma_word_lens(ws: WordSize)
    ensures
        forall|x: u64| #[trigger] enc_word(ws, x).len() == ws.spec_len(),
{
    le_facts();
}

/// An encoded page header has length `hdr_len`.
pub proof fn lemma_enc_header_len(h: Header, ws: WordSize)
    ensures
        enc_header(h, ws).len() == hdr_len(ws),
{
    le_facts();
    lemma_word_lens(ws);
}

/// An encoded per-database record has length `db_len`.
pub proof fn lemma_enc_db_len(d: Database, ws: WordSize)
    ensures
        enc_db(d, ws).len() == db_len(ws),
{
    le_facts();
    lemma_word_lens(ws);
}

/// An encoded metadata page fills the page exactly.
pub proof fn lemma_enc_meta_page_len(m: Metadata, ws: WordSize)
    ensures
        enc_meta_body(m, ws).len() == meta_len(ws) - hdr_len(ws),
        enc_meta_page(m, ws).len() == PAGE_SIZE,
{
    le_facts();
    lemma_word_lens(ws);
    lemma_enc_header_len(meta_header(), ws);
    lemma_enc_db_len(m.free, ws);
    lemma_enc_db_len(m.main, ws);
}

/// Decoding a header from a page image that starts with its encoding gives
/// the header back.
pub proof fn lemma_dec_header_at(s: Seq<u8>, h: Header, ws: WordSize)
    requires
        ws.fits(h.pageno),
        s.len() >= hdr_len(ws),
        s.subrange(0, hdr_len(ws)) == enc_header(h, ws),
    ensures
        dec_header(s, ws) == h,
{
    let w = ws.spec_len();
    le_facts();
    lemma_word_lens(ws);
    let b = enc_header(h, ws);
    assert(enc_word(ws, h.pageno).len() == w);
    assert(spec_u16_to_le_bytes(h.pad).len() == 2);
    assert(spec_u16_to_le_bytes(h.flags).len() == 2);
    assert(spec_u16_to_le_bytes(h.free_lower).len() == 2);
    assert(spec_u16_to_le_bytes(h.free_upper).len() == 2);
    assert(s.subrange(0, w) =~= b.subrange(0, w));
    assert(b.subrange(0, w) =~= enc_word(ws, h.pageno));
    lemma_word_round_trip(ws, h.pageno);
    assert(s.subrange(w, w + 2) =~= b.subrange(w, w + 2));
    assert(b.subrange(w, w + 2) =~= spec_u16_to_le_bytes(h.pad));
    assert(s.subrange(w + 2, w + 4) =~= b.subrange(w + 2, w + 4));
    assert(b.subrange(w + 2, w + 4) =~= spec_u16_to_le_bytes(h.flags));
    assert(s.subrange(w + 4, w + 6) =~= b.subrange(w + 4, w + 6));
    assert(b.subrange(w + 4, w + 6) =~= spec_u16_to_le_bytes(h.free_lower));
    assert(s.subrange(w + 6, w + 8) =~= b.subrange(w + 6, w + 8));
    assert(b.subrange(w + 6, w + 8) =~= spec_u16_to_le_bytes(h.free_upper));
}

/// Decoding a per-database record at the offset where its encoding lies
/// gives the record back.
pub proof fn lemma_dec_db_at(s: Seq<u8>, d: Database, ws: WordSize, off: int)
    requires
        d.fits(ws),
        0 <= off,
        off + db_len(ws) <= s.len(),
        s.subrange(off, off + db_len(ws)) == enc_db(d, ws),
    ensures
        dec_db(s, ws, off) == d,
{
    let w = ws.spec_len();
    le_facts();
    lemma_word_lens(ws);
    let b = enc_db(d, ws);
    assert(spec_u32_to_le_bytes(d.pad).len() == 4);
    assert(spec_u16_to_le_bytes(d.flags).len() == 2);
    assert(spec_u16_to_le_bytes(d.depth).len() == 2);
    assert(enc_word(ws, d.branch_pages).len() == w);
    assert(enc_word(ws, d.leaf_pages).len() == w);
    assert(enc_word(ws, d.overflow_pages).len() == w);
    assert(enc_word(ws, d.entries).len() == w);
    assert(enc_word(ws, d.root).len() == w);
    assert(s.subrange(off, off + 4) =~= b.subrange(0, 4));
    assert(b.subrange(0, 4) =~= spec_u32_to_le_bytes(d.pad));
    assert(s.subrange(off + 4, off + 6) =~= b.subrange(4, 6));
    assert(b.subrange(4, 6) =~= spec_u16_to_le_bytes(d.flags));
    assert(s.subrange(off + 6, off + 8) =~= b.subrange(6, 8));
    assert(b.subrange(6, 8) =~= spec_u16_to_le_bytes(d.depth));
    assert(s.subrange(off + 8, off + 8 + w) =~= b.subrange(8, 8 + w));
    assert(b.subrange(8, 8 + w) =~= enc_word(ws, d.branch_pages));
    assert(s.subrange(off + 8 + w, off + 8 + 2 * w) =~= b.subrange(8 + w, 8 + 2 * w));
    assert(b.subrange(8 + w, 8 + 2 * w) =~= enc_word(ws, d.leaf_pages));
    assert(s.subrange(off + 8 + 2 * w, off + 8 + 3 * w) =~= b.subrange(8 + 2 * w, 8 + 3 * w));
    assert(b.subrange(8 + 2 * w, 8 + 3 * w) =~= enc_word(ws, d.overflow_pages));
    assert(s.subrange(off + 8 + 3 * w, off + 8 + 4 * w) =~= b.subrange(8 + 3 * w, 8 + 4 * w));
    assert(b.subrange(8 + 3 * w, 8 + 4 * w) =~= enc_word(ws, d.entries));
    assert(s.subrange(off + 8 + 4 * w, off + 8 + 5 * w) =~= b.subrange(8 + 4 * w, 8 + 5 * w));
    assert(b.subrange(8 + 4 * w, 8 + 5 * w) =~= enc_word(ws, d.root));
    lemma_word_round_trip(ws, d.branch_pages);
    lemma_word_round_trip(ws, d.leaf_pages);
    lemma_word_round_trip(ws, d.overflow_pages);
    lemma_word_round_trip(ws, d.entries);
    lemma_word_round_trip(ws, d.root);
}

/// Round trip of the metadata page codec: decoding the encoding of any
/// metadata record whose fields fit the word size gives the record back,
/// in every field.
pub proof fn lemma_meta_round_trip(m: Metadata, ws: WordSize)
    requires
        m.fits(ws),
    ensures
        dec_meta(enc_meta_page(m, ws), ws) == m,
{
    let w = ws.spec_len();
    let body = hdr_len(ws);
    let dbs = db_len(ws);
    let s = enc_meta_page(m, ws);
    le_facts();
    lemma_word_lens(ws);
    lemma_enc_header_len(meta_header(), ws);
    lemma_enc_db_len(m.free, ws);
    lemma_enc_db_len(m.main, ws);
    lemma_enc_meta_page_len(m, ws);
    let bb = enc_meta_body(m, ws);
    assert(spec_u32_to_le_bytes(m.magic).len() == 4);
    assert(spec_u32_to_le_bytes(m.version).len() == 4);
    assert(enc_word(ws, m.address).len() == w);
    assert(enc_word(ws, m.mapsize).len() == w);
    assert(enc_word(ws, m.last_pgno).len() == w);
    assert(enc_word(ws, m.txnid).len() == w);
    assert(s.subrange(body, body + (meta_len(ws) - hdr_len(ws))) =~= bb);
    assert(s.subrange(body, body + 4) =~= bb.subrange(0, 4));
    assert(bb.subrange(0, 4) =~= spec_u32_to_le_bytes(m.magic));
    assert(s.subrange(body + 4, body + 8) =~= bb.subrange(4, 8));
    assert(bb.subrange(4, 8) =~= spec_u32_to_le_bytes(m.version));
    assert(s.subrange(body + 8, body + 8 + w) =~= bb.subrange(8, 8 + w));
    assert(bb.subrange(8, 8 + w) =~= enc_word(ws, m.address));
    assert(s.subrange(body + 8 + w, body + 8 + 2 * w) =~= bb.subrange(8 + w, 8 + 2 * w));
    assert(bb.subrange(8 + w, 8 + 2 * w) =~= enc_word(ws, m.mapsize));
    assert(s.subrange(body + 8 + 2 * w, body + 8 + 2 * w + dbs) =~= bb.subrange(
        8 + 2 * w,
        8 + 2 * w + dbs,
    ));
    assert(bb.subrange(8 + 2 * w, 8 + 2 * w + dbs) =~= enc_db(m.free, ws));
    assert(s.subrange(body + 8 + 2 * w + dbs, body + 8 + 2 * w + 2 * dbs) =~= bb.subrange(
        8 + 2 * w + dbs,
        8 + 2 * w + 2 * dbs,
    ));
    assert(bb.subrange(8 + 2 * w + dbs, 8 + 2 * w + 2 * dbs) =~= enc_db(m.main, ws));
    assert(s.subrange(body + 8 + 2 * w + 2 * dbs, body + 8 + 2 * w + 2 * dbs + w) =~= bb.subrange(
        8 + 2 * w + 2 * dbs,
        8 + 2 * w + 2 * dbs + w,
    ));
    assert(bb.subrange(8 + 2 * w + 2 * dbs, 8 + 2 * w + 2 * dbs + w) =~= enc_word(ws, m.last_pgno));
    assert(s.subrange(body + 8 + 2 * w + 2 * dbs + w, body + 8 + 2 * w + 2 * dbs + 2 * w)
        =~= bb.subrange(8 + 2 * w + 2 * dbs + w, 8 + 2 * w + 2 * dbs + 2 * w));
    assert(bb.subrange(8 + 2 * w + 2 * dbs + w, 8 + 2 * w + 2 * dbs + 2 * w) =~= enc_word(
        ws,
        m.txnid,
    ));
    lemma_word_round_trip(ws, m.address);
    lemma_word_round_trip(ws, m.mapsize);
    lemma_word_round_trip(ws, m.last_pgno);
    lemma_word_round_trip(ws, m.txnid);
    lemma_dec_db_at(s, m.free, ws, body + 8 + 2 * w);
    lemma_dec_db_at(s, m.main, ws, body + 8 + 2 * w + dbs);
}

/// Round trip of metadata through a whole two-page image: writing any
/// valid metadata record that fits the word size to both metadata pages
/// and then selecting yields the record back, equal in every field.
pub proof fn lemma_meta_pick_round_trip(m: Metadata, ws: WordSize)
    requires
        m.fits(ws),
        m.valid(),
    ensures
        pick_spec(enc_meta_page(m, ws) + enc_meta_page(m, ws), ws) == Some(m),
{
    let d = enc_meta_page(m, ws) + enc_meta_page(m, ws);
    lemma_enc_meta_page_len(m, ws);
    assert(page_at(d, 0) =~= enc_meta_page(m, ws));
    assert(page_at(d, 1) =~= enc_meta_page(m, ws));
    lemma_meta_round_trip(m, ws);
    assert(candidate(d, ws, 0) == Some(m));
    assert(candidate(d, ws, 1) == Some(m));
}

/// The selection rules, spelled out: among two valid candidates the one
/// with the strictly greater transaction id wins; a single valid candidate
/// wins regardless of transaction ids; with no valid candidate, selection
/// yields nothing.
pub proof fn lemma_pick_rules(d: Seq<u8>, ws: WordSize)
    ensures
        (candidate(d, ws, 0) is Some && candidate(d, ws, 1) is Some && candidate(
            d,
            ws,
            0,
        )->Some_0.txnid < candidate(d, ws, 1)->Some_0.txnid) ==> pick_spec(d, ws) == Some(
            candidate(d, ws, 1)->Some_0,
        ),
        (candidate(d, ws, 0) is Some && candidate(d, ws, 1) is Some && candidate(
            d,
            ws,
            1,
        )->Some_0.txnid < candidate(d, ws, 0)->Some_0.txnid) ==> pick_spec(d, ws) == Some(
            candidate(d, ws, 0)->Some_0,
        ),
        (candidate(d, ws, 0) is Some && candidate(d, ws, 1) is None) ==> pick_spec(d, ws) == Some(
            candidate(d, ws, 0)->Some_0,
        ),
        (candidate(d, ws, 0) is None && candidate(d, ws, 1) is Some) ==> pick_spec(d, ws) == Some(
            candidate(d, ws, 1)->Some_0,
        ),
        (candidate(d, ws, 0) is None && candidate(d, ws, 1) is None) ==> pick_spec(d, ws) is None,
{
}

/// Append the encoding of a page header to a page buffer: `pageno` as a
/// word, then `pad`, `flags`, `free_lower`, `free_upper` as u16 fields.
pub fn write_page_header(buf: &mut Vec<u8>, ws: WordSize, h: Header)
    requires
        ws.fits(h.pageno),
    ensures
        final(buf)@ == old(buf)@ + enc_header(h, ws),
{
    put_word(buf, ws, h.pageno);
    put_u16(buf, h.pad);
    put_u16(buf, h.flags);
    put_u16(buf, h.free_lower);
    put_u16(buf, h.free_upper);
    assert(buf@ =~= old(buf)@ + enc_header(h, ws));
}

/// Append the encoding of a per-database record to a page buffer: `pad` as
/// u32, `flags` and `depth` as u16, then the five statistic words.
pub fn write_db(buf: &mut Vec<u8>, ws: WordSize, d: Database) -> (r: Result<(), Error>)
    ensures
        r is Ok <==> d.fits(ws),
        r is Ok ==> final(buf)@ == old(buf)@ + enc_db(d, ws),
        r is Err ==> final(buf)@ == old(buf)@ && r == Err::<(), Error>(Error::WordOverflow),
{
    if !d.check_fits(ws) {
        return Err(Error::WordOverflow);
    }
    put_u32(buf, d.pad);
    put_u16(buf, d.flags);
    put_u16(buf, d.depth);
    put_word(buf, ws, d.branch_pages);
    put_word(buf, ws, d.leaf_pages);
    put_word(buf, ws, d.overflow_pages);
    put_word(buf, ws, d.entries);
    put_word(buf, ws, d.root);
    assert(buf@ =~= old(buf)@ + enc_db(d, ws));
    Ok(())
}

/// Encode the payload of a metadata page, after its header: magic and
/// version, address and map size, the free database before the main
/// database, then the last page number and the transaction id.
#[verifier::rlimit(60)]
#[verifier::spinoff_prover]
fn encode_meta_body(m: &Metadata, ws: WordSize) -> (r: Vec<u8>)
    requires
        m.fits(ws),
    ensures
        r@ == enc_meta_body(*m, ws),
{
    let mut buf: Vec<u8> = Vec::new();
    put_u32(&mut buf, m.magic);
    put_u32(&mut buf, m.version);
    put_word(&mut buf, ws, m.address);
    put_word(&mut buf, ws, m.mapsize);
    let free_ok = write_db(&mut buf, ws, m.free);
    let main_ok = write_db(&mut buf, ws, m.main);
    proof {
        assert(free_ok is Ok && main_ok is Ok);
    }
    put_word(&mut buf, ws, m.last_pgno);
    put_word(&mut buf, ws, m.txnid);
    assert(buf@ =~= enc_meta_body(*m, ws));
    buf
}

/// Encode a whole metadata page: succeeds exactly when every word field of
/// the record fits the word size, and then yields the page image
/// `enc_meta_page(m, ws)`, one full page long.
pub fn encode_meta_page(m: &Metadata, ws: WordSize) -> (r: Result<Vec<u8>, Error>)
    ensures
        r is Ok <==> m.fits(ws),
        r is Ok ==> r->Ok_0@ == enc_meta_page(*m, ws) && r->Ok_0@.len() == PAGE_SIZE,
        r is Err ==> r == Err::<Vec<u8>, Error>(Error::WordOverflow),
{
    if !m.check_fits(ws) {
        return Err(Error::WordOverflow);
    }
    let w = ws.len();
    let mut buf: Vec<u8> = Vec::new();
    write_page_header(&mut buf, ws, Header {
        pageno: 0,
        pad: 0,
        flags: FLAG_META,
        free_lower: 0,
        free_upper: 0,
    });
    assert(buf@ =~= enc_header(meta_header(), ws));
    let mut body = encode_meta_body(m, ws);
    buf.append(&mut body);
    let fill = PAGE_SIZE - (w + 8 + 8 + 4 * w + 2 * (8 + 5 * w));
    proof {
        lemma_enc_meta_page_len(*m, ws);
        lemma_enc_header_len(meta_header(), ws);
        assert(fill == PAGE_SIZE - meta_len(ws));
    }
    put_zeros(&mut buf, fill);
    proof {
        crate::words::lemma_assoc(
            enc_header(meta_header(), ws),
            enc_meta_body(*m, ws),
            zeros(PAGE_SIZE - meta_len(ws)),
        );
    }
    Ok(buf)
}

/// Decode the metadata record of a page image. Every field is read from its
/// fixed offset; validity (magic and version) is judged separately.
pub fn decode_meta_page(page: &Vec<u8>, ws: WordSize) -> (r: Metadata)
    requires
        page@.len() == PAGE_SIZE,
    ensures
        r == dec_meta(page@, ws),
{
    let w = ws.len();
    let body = w + 8;
    let dbs = 8 + 5 * w;
    let free_off = body + 8 + 2 * w;
    let main_off = free_off + dbs;
    Metadata {
        magic: get_u32(page, body),
        version: get_u32(page, body + 4),
        address: get_word(page, ws, body + 8),
        mapsize: get_word(page, ws, body + 8 + w),
        free: decode_db(page, ws, free_off),
        main: decode_db(page, ws, main_off),
        last_pgno: get_word(page, ws, main_off + dbs),
        txnid: get_word(page, ws, main_off + dbs + w),
    }
}

/// Decode a per-database record at byte offset `off` of a page image.
pub fn decode_db(page: &Vec<u8>, ws: WordSize, off: usize) -> (r: Database)
    requires
        off + db_len(ws) <= page@.len(),
    ensures
        r == dec_db(page@, ws, off as int),
{
    let w = ws.len();
    let n = page.len();
    assert(off + db_len(ws) <= n);
    Database {
        pad: get_u32(page, off),
        flags: get_u16(page, off + 4),
        depth: get_u16(page, off + 6),
        branch_pages: get_word(page, ws, off + 8),
        leaf_pages: get_word(page, ws, off + 8 + w),
        overflow_pages: get_word(page, ws, off + 8 + 2 * w),
        entries: get_word(page, ws, off + 8 + 3 * w),
        root: get_word(page, ws, off + 8 + 4 * w),
    }
}

/// The metadata record a fresh file is initialized with: zero statistics,
/// empty main tree, integer-keyed empty free tree, the default map size,
/// and transaction id zero.
pub open spec fn fresh_meta() -> Metadata {
    Metadata {
        magic: MAGIC,
        version: VERSION,
        address: 0,
        mapsize: DEFAULT_MAPSIZE,
        free: Database {
            pad: 4096,
            flags: DB_INTEGERKEY,
            depth: 0,
            branch_pages: 0,
            leaf_pages: 0,
            overflow_pages: 0,
            entries: 0,
            root: 0,
        },
        main: Database {
            pad: 4096,
            flags: 0,
            depth: 0,
            branch_pages: 0,
            leaf_pages: 0,
            overflow_pages: 0,
            entries: 0,
            root: 0,
        },
        last_pgno: 0,
        txnid: 0,
    }
}

/// Build the two initial metadata records of a fresh file. Both copies are
/// identical and valid under every word size.
pub fn init_meta() -> (r: (Metadata, Metadata))
    ensures
        r.0 == fresh_meta(),
        r.1 == fresh_meta(),
        fresh_meta().valid(),
        forall|ws: WordSize| #[trigger] fresh_meta().fits(ws),
{
    let meta = Metadata {
        magic: MAGIC,
        version: VERSION,
        address: 0,
        mapsize: DEFAULT_MAPSIZE,
        free: Database {
            pad: 4096,
            flags: DB_INTEGERKEY,
            depth: 0,
            branch_pages: 0,
            leaf_pages: 0,
            overflow_pages: 0,
            entries: 0,
            root: 0,
        },
        main: Database {
            pad: 4096,
            flags: 0,
            depth: 0,
            branch_pages: 0,
            leaf_pages: 0,
            overflow_pages: 0,
            entries: 0,
            root: 0,
        },
        last_pgno: 0,
        txnid: 0,
    };
    (meta, meta)
}

/// The page image of page `n` within file image `d`.
pub open spec fn page_at(d: Seq<u8>, n: int) -> Seq<u8> {
    d.subrange(PAGE_SIZE * n, PAGE_SIZE * (n + 1))
}

/// The metadata candidate read from page `n` of file image `d`: present
/// exactly when the page exists in full and carries the magic and version
/// constants.
pub open spec fn candidate(d: Seq<u8>, ws: WordSize, n: int) -> Option<Metadata> {
    if d.len() >= PAGE_SIZE * (n + 1) {
        let m = dec_meta(page_at(d, n), ws);
        if m.valid() {
            Some(m)
        } else {
            None
        }
    } else {
        None
    }
}

/// The authoritative metadata of file image `d`: of the two candidates at
/// pages 0 and 1, the single valid one, or among two valid ones the one
/// with the strictly greater transaction id (the copy at page 0 on a tie);
/// nothing when neither candidate is valid.
pub open spec fn pick_spec(d: Seq<u8>, ws: WordSize) -> Option<Metadata> {
    match (candidate(d, ws, 0), candidate(d, ws, 1)) {
        (Some(m0), Some(m1)) => if m1.txnid > m0.txnid {
            Some(m1)
        } else {
            Some(m0)
        },
        (Some(m0), None) => Some(m0),
        (None, Some(m1)) => Some(m1),
        (None, None) => None,
    }
}

/// Read both candidate metadata pages of the file image and pick the
/// authoritative one. Fails with `Corrupt` exactly when neither candidate
/// is valid; otherwise returns exactly `pick_spec`.
pub fn pick_meta(data: &Vec<u8>, ws: WordSize) -> (r: Result<Metadata, Error>)
    ensures
        r is Ok <==> pick_spec(data@, ws) is Some,
        r is Ok ==> r->Ok_0 == pick_spec(data@, ws)->Some_0,
        r is Err ==> r == Err::<Metadata, Error>(Error::Corrupt),
{
    let c0 = read_candidate(data, ws, 0);
    let c1 = read_candidate(data, ws, 1);
    match (c0, c1) {
        (Some(m0), Some(m1)) => if m1.txnid > m0.txnid {
            Ok(m1)
        } else {
            Ok(m0)
        },
        (Some(m0), None) => Ok(m0),
        (None, Some(m1)) => Ok(m1),
        (None, None) => Err(Error::Corrupt),
    }
}

/// Read the metadata candidate at page `n` (0 or 1) of the file image,
/// yielding it only if the page exists in full and is valid.
fn read_candidate(data: &Vec<u8>, ws: WordSize, n: usize) -> (r: Option<Metadata>)
    requires
        n <= 1,
    ensures
        r == candidate(data@, ws, n as int),
{
    if data.len() < PAGE_SIZE * (n + 1) {
        return None;
    }
    let page = crate::words::copy_range(data, PAGE_SIZE * n, PAGE_SIZE);
    assert(page@ =~= page_at(data@, n as int));
    let m = decode_meta_page(&page, ws);
    if m.check_valid() {
        Some(m)
    } else {
        None
    }
}

} // verus!
