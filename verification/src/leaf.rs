//! Codec for leaf pages: a page header, a pointer table growing from the
//! low end, a zero fill, and node records packed from the high end of the
//! page downward. Encoding fails deterministically when the content would
//! exceed the fixed page budget (negative fill).

use vstd::prelude::*;
use vstd::bytes::{spec_u16_from_le_bytes, spec_u16_to_le_bytes, spec_u32_to_le_bytes};

use crate::PAGE_SIZE;
use crate::model::{Error, Header, Leaf, LeafModel, Node, NodeModel, WordSize, FLAG_LEAF};
use crate::meta::{dec_header, enc_header, hdr_len, lemma_dec_header_at, lemma_enc_header_len,
    write_page_header};
use crate::words::{copy_range, get_u16, get_u32, get_word, le_facts, lemma_assoc,
    lemma_word_round_trip, put_u16, put_u32, put_zeros, u16_at, u32_at, word_at, zeros};

verus! {

/// Encoded size of one node record: a u32 data length, a u16 flags field,
/// a u16 key length, then the key and data bytes.
pub open spec fn node_size(n: NodeModel) -> int {
    8 + n.key.len() as int + n.data.len() as int
}

/// Combined encoded size of a list of node records.
pub open spec fn total_size(s: Seq<NodeModel>) -> int
    decreases s.len(),
{
    if s.len() == 0 {
        0
    } else {
        total_size(s.drop_last()) + node_size(s.last())
    }
}

/// Page offset of node `i`'s record: records are packed from the page end
/// backward, so each node starts below every earlier one.
pub open spec fn ptr_ofs(s: Seq<NodeModel>, i: int) -> int {
    PAGE_SIZE - total_size(s.take(i + 1))
}

/// Byte encoding of one node record.
pub open spec fn enc_node(n: NodeModel) -> Seq<u8> {
    spec_u32_to_le_bytes(n.data.len() as u32) + (spec_u16_to_le_bytes(n.flags) + (
    spec_u16_to_le_bytes(n.key.len() as u16) + (n.key + n.data)))
}

/// Byte encoding of the record region: the last node's record sits lowest
/// in the page, so it comes first in file order.
pub open spec fn enc_recs(s: Seq<NodeModel>) -> Seq<u8>
    decreases s.len(),
{
    if s.len() == 0 {
        Seq::empty()
    } else {
        enc_node(s.last()) + enc_recs(s.drop_last())
    }
}

/// Byte encoding of the pointer table from node index `k` on: one u16
/// offset per node, in node order.
pub open spec fn enc_ptrs(s: Seq<NodeModel>, k: int) -> Seq<u8>
    decreases s.len() - k,
{
    if k < 0 || k >= s.len() {
        Seq::empty()
    } else {
        spec_u16_to_le_bytes(ptr_ofs(s, k) as u16) + enc_ptrs(s, k + 1)
    }
}

/// The header of an encoded leaf page: `free_lower` bounds the pointer
/// table, `free_upper` is the offset of the lowest (last) node record.
pub open spec fn leaf_hdr(l: LeafModel, ws: WordSize) -> Header {
    Header {
        pageno: l.pageno,
        pad: 0,
        flags: l.flags,
        free_lower: (hdr_len(ws) + 2 * l.nodes.len()) as u16,
        free_upper: (PAGE_SIZE - total_size(l.nodes)) as u16,
    }
}

/// Width of the zero fill between the pointer table and the first record.
pub open spec fn leaf_fill(l: LeafModel, ws: WordSize) -> int {
    PAGE_SIZE - total_size(l.nodes) - hdr_len(ws) - 2 * l.nodes.len()
}

/// Byte encoding of a whole leaf page: header, pointer table, zero fill,
/// node records.
pub open spec fn enc_leaf_page(l: LeafModel, ws: WordSize) -> Seq<u8> {
    enc_header(leaf_hdr(l, ws), ws) + (enc_ptrs(l.nodes, 0) + (zeros(leaf_fill(l, ws)) + enc_recs(
        l.nodes,
    )))
}

/// A leaf is encodable under a word size when its page number fits, it
/// carries the LEAF flag, and header, pointer table and records together
/// stay within the page budget (the fill is non-negative).
pub open spec fn leaf_ok(l: LeafModel, ws: WordSize) -> bool {
    &&& ws.fits(l.pageno)
    &&& l.flags == FLAG_LEAF
    &&& hdr_len(ws) + 2 * l.nodes.len() + total_size(l.nodes) <= PAGE_SIZE
}

/// The node record decoded at byte offset `p` of page image `s`.
pub open spec fn dec_node(s: Seq<u8>, p: int) -> NodeModel {
    let dlen = u32_at(s, p) as int;
    let klen = u16_at(s, p + 6) as int;
    NodeModel {
        flags: u16_at(s, p + 4),
        key: s.subrange(p + 8, p + 8 + klen),
        data: s.subrange(p + 8 + klen, p + 8 + klen + dlen),
    }
}

/// The node count encoded in a leaf page's `free_lower` field.
pub open spec fn dec_nkeys(s: Seq<u8>, ws: WordSize) -> int {
    (u16_at(s, ws.spec_len() + 4) - hdr_len(ws)) / 2
}

/// The leaf decoded from page image `s`: each node is read at the offset
/// its pointer-table entry names, in pointer-table order.
pub open spec fn dec_leaf(s: Seq<u8>, ws: WordSize) -> LeafModel {
    let n = dec_nkeys(s, ws);
    let count: nat = if n >= 0 {
        n as nat
    } else {
        0
    };
    LeafModel {
        pageno: word_at(s, ws, 0),
        flags: u16_at(s, ws.spec_len() + 2),
        nodes: Seq::new(count, |i: int| dec_node(s, u16_at(s, hdr_len(ws) + 2 * i) as int)),
    }
}

/// An encoded node record is as long as `node_size` says.
pub proof fn lemma_enc_node_len(n: NodeModel)
    ensures
        enc_node(n).len() == node_size(n),
{
    le_facts();
}

/// The record region is never of negative size.
pub proof fn lemma_total_nonneg(s: Seq<NodeModel>)
    ensures
        total_size(s) >= 0,
    decreases s.len(),
{
    if s.len() > 0 {
        lemma_total_nonneg(s.drop_last());
    }
}

/// Growing a prefix by one node grows its size by that node's record size.
pub proof fn lemma_total_take_succ(s: Seq<NodeModel>, i: int)
    requires
        0 <= i < s.len(),
    ensures
        total_size(s.take(i + 1)) == total_size(s.take(i)) + node_size(s[i]),
{
    assert(s.take(i + 1).drop_last() =~= s.take(i));
    assert(s.take(i + 1).last() == s[i]);
}

/// A prefix of the node list takes no more room than the whole list.
pub proof fn lemma_total_prefix(s: Seq<NodeModel>, i: int)
    requires
        0 <= i <= s.len(),
    ensures
        0 <= total_size(s.take(i)) <= total_size(s),
    decreases s.len(),
{
    lemma_total_nonneg(s.take(i));
    if i == s.len() {
        assert(s.take(i) =~= s);
    } else {
        let t = s.drop_last();
        assert(s.take(i) =~= t.take(i));
        lemma_total_prefix(t, i);
        lemma_enc_node_len(s.last());
    }
}

/// The record region's encoded length is the combined record size.
pub proof fn lemma_enc_recs_len(s: Seq<NodeModel>)
    ensures
        enc_recs(s).len() == total_size(s),
    decreases s.len(),
{
    if s.len() > 0 {
        lemma_enc_node_len(s.last());
        lemma_enc_recs_len(s.drop_last());
    }
}

/// The pointer table's encoded length is two bytes per remaining node.
pub proof fn lemma_enc_ptrs_len(s: Seq<NodeModel>, k: int)
    requires
        0 <= k <= s.len(),
    ensures
        enc_ptrs(s, k).len() == 2 * (s.len() - k),
    decreases s.len() - k,
{
    le_facts();
    if k < s.len() {
        lemma_enc_ptrs_len(s, k + 1);
    }
}

/// The record region can also be peeled at its low end: the first node of
/// the list owns the bytes at the very end of the region.
pub proof fn lemma_enc_recs_first(t: Seq<NodeModel>)
    requires
        t.len() > 0,
    ensures
        enc_recs(t) == enc_recs(t.drop_first()) + enc_node(t.first()),
    decreases t.len(),
{
    if t.len() == 1 {
        assert(enc_recs(t.drop_last()) =~= Seq::<u8>::empty());
        assert(enc_recs(t.drop_first()) =~= Seq::<u8>::empty());
        assert(enc_node(t.last()) + Seq::<u8>::empty() =~= enc_node(t.first()));
        assert(Seq::<u8>::empty() + enc_node(t.first()) =~= enc_node(t.first()));
    } else {
        let tdl = t.drop_last();
        let tdf = t.drop_first();
        lemma_enc_recs_first(tdl);
        assert(tdl.first() == t.first());
        assert(tdl.drop_first() =~= tdf.drop_last());
        assert(tdf.last() == t.last());
        lemma_assoc(enc_node(t.last()), enc_recs(tdf.drop_last()), enc_node(t.first()));
    }
}

/// Node `i`'s record lies inside the record region at distance
/// `total_size(s) - total_size(s.take(i + 1))` from the region's start.
pub proof fn lemma_enc_recs_at(s: Seq<NodeModel>, i: int)
    requires
        0 <= i < s.len(),
    ensures
        enc_recs(s).subrange(
            total_size(s) - total_size(s.take(i + 1)),
            total_size(s) - total_size(s.take(i + 1)) + node_size(s[i]),
        ) == enc_node(s[i]),
    decreases s.len(),
{
    le_facts();
    lemma_enc_recs_len(s);
    lemma_enc_node_len(s[i]);
    lemma_total_take_succ(s, i);
    lemma_total_prefix(s, i);
    lemma_total_prefix(s, i + 1);
    let rel = total_size(s) - total_size(s.take(i + 1));
    if i == s.len() - 1 {
        assert(s.take(i + 1) =~= s);
        assert(rel == 0);
        lemma_enc_recs_len(s.drop_last());
        crate::words::lemma_peel_left(
            enc_node(s.last()),
            enc_recs(s.drop_last()),
            0,
            node_size(s[i]),
        );
        crate::words::lemma_subrange_all(enc_node(s[i]));
    } else {
        let t = s.drop_last();
        assert(s.take(i + 1) =~= t.take(i + 1));
        lemma_enc_recs_at(t, i);
        lemma_enc_node_len(s.last());
        lemma_enc_recs_len(t);
        lemma_total_prefix(t, i + 1);
        let rel_t = total_size(t) - total_size(t.take(i + 1));
        assert(rel == rel_t + node_size(s.last()));
        crate::words::lemma_peel_right(
            enc_node(s.last()),
            enc_recs(t),
            rel,
            rel + node_size(s[i]),
        );
    }
}

/// Entry `i` of the pointer table holds node `i`'s record offset.
pub proof fn lemma_enc_ptrs_at(s: Seq<NodeModel>, k: int, i: int)
    requires
        0 <= k <= i < s.len(),
    ensures
        enc_ptrs(s, k).subrange(2 * (i - k), 2 * (i - k) + 2) == spec_u16_to_le_bytes(
            ptr_ofs(s, i) as u16,
        ),
    decreases i - k,
{
    le_facts();
    lemma_enc_ptrs_len(s, k);
    if i == k {
        lemma_enc_ptrs_len(s, k + 1);
        crate::words::lemma_peel_left(
            spec_u16_to_le_bytes(ptr_ofs(s, k) as u16),
            enc_ptrs(s, k + 1),
            0,
            2,
        );
        crate::words::lemma_subrange_all(spec_u16_to_le_bytes(ptr_ofs(s, k) as u16));
    } else {
        lemma_enc_ptrs_at(s, k + 1, i);
        lemma_enc_ptrs_len(s, k + 1);
        crate::words::lemma_peel_right(
            spec_u16_to_le_bytes(ptr_ofs(s, k) as u16),
            enc_ptrs(s, k + 1),
            2 * (i - k),
            2 * (i - k) + 2,
        );
    }
}

/// Decoding a node record at the offset where its encoding lies gives the
/// node back, provided its lengths fit their length-prefix fields.
pub proof fn lemma_dec_node_at(s: Seq<u8>, n: NodeModel, p: int)
    requires
        0 <= p,
        p + node_size(n) <= s.len(),
        n.key.len() <= 0xFFFF,
        n.data.len() <= 0xFFFF_FFFF,
        s.subrange(p, p + node_size(n)) == enc_node(n),
    ensures
        dec_node(s, p) == n,
        u32_at(s, p) as int == n.data.len(),
        u16_at(s, p + 6) as int == n.key.len(),
        u16_at(s, p + 4) == n.flags,
{
    le_facts();
    let b = enc_node(n);
    let kl = n.key.len() as int;
    let dl = n.data.len() as int;
    assert(spec_u32_to_le_bytes(n.data.len() as u32).len() == 4);
    assert(spec_u16_to_le_bytes(n.flags).len() == 2);
    assert(spec_u16_to_le_bytes(n.key.len() as u16).len() == 2);
    assert(s.subrange(p, p + 4) =~= b.subrange(0, 4));
    assert(b.subrange(0, 4) =~= spec_u32_to_le_bytes(n.data.len() as u32));
    assert(s.subrange(p + 4, p + 6) =~= b.subrange(4, 6));
    assert(b.subrange(4, 6) =~= spec_u16_to_le_bytes(n.flags));
    assert(s.subrange(p + 6, p + 8) =~= b.subrange(6, 8));
    assert(b.subrange(6, 8) =~= spec_u16_to_le_bytes(n.key.len() as u16));
    assert(u32_at(s, p) as int == dl);
    assert(u16_at(s, p + 6) as int == kl);
    assert(s.subrange(p + 8, p + 8 + kl) =~= b.subrange(8, 8 + kl));
    assert(b.subrange(8, 8 + kl) =~= n.key);
    assert(s.subrange(p + 8 + kl, p + 8 + kl + dl) =~= b.subrange(8 + kl, 8 + kl + dl));
    assert(b.subrange(8 + kl, 8 + kl + dl) =~= n.data);
}

/// Shape of an encoded leaf page: its length, its decoded header, the
/// value of every pointer-table entry, the in-page bounds of every record,
/// and the bytes of every record.
pub proof fn lemma_enc_leaf_fields(l: LeafModel, ws: WordSize)
    requires
        leaf_ok(l, ws),
    ensures
        enc_leaf_page(l, ws).len() == PAGE_SIZE,
        dec_header(enc_leaf_page(l, ws), ws) == leaf_hdr(l, ws),
        forall|i: int|
            0 <= i < l.nodes.len() ==> #[trigger] u16_at(
                enc_leaf_page(l, ws),
                hdr_len(ws) + 2 * i,
            ) == ptr_ofs(l.nodes, i) as u16,
        forall|i: int|
            0 <= i < l.nodes.len() ==> hdr_len(ws) + 2 * l.nodes.len() <= #[trigger] ptr_ofs(
                l.nodes,
                i,
            ) && ptr_ofs(l.nodes, i) + node_size(l.nodes[i]) <= PAGE_SIZE,
        forall|i: int|
            0 <= i < l.nodes.len() ==> #[trigger] enc_leaf_page(l, ws).subrange(
                ptr_ofs(l.nodes, i),
                ptr_ofs(l.nodes, i) + node_size(l.nodes[i]),
            ) == enc_node(l.nodes[i]),
{
    le_facts();
    let s = l.nodes;
    let n = s.len() as int;
    let e = enc_leaf_page(l, ws);
    let hd = enc_header(leaf_hdr(l, ws), ws);
    let pt = enc_ptrs(s, 0);
    let fl = zeros(leaf_fill(l, ws));
    let rc = enc_recs(s);
    lemma_enc_header_len(leaf_hdr(l, ws), ws);
    lemma_enc_ptrs_len(s, 0);
    lemma_enc_recs_len(s);
    lemma_total_nonneg(s);
    assert(e.len() == PAGE_SIZE);
    assert(e.subrange(0, hdr_len(ws)) =~= hd);
    lemma_dec_header_at(e, leaf_hdr(l, ws), ws);
    assert forall|i: int| 0 <= i < n implies hdr_len(ws) + 2 * n <= #[trigger] ptr_ofs(s, i)
        && ptr_ofs(s, i) + node_size(s[i]) <= PAGE_SIZE by {
        lemma_total_take_succ(s, i);
        lemma_total_prefix(s, i);
        lemma_total_prefix(s, i + 1);
        lemma_enc_node_len(s[i]);
    }
    assert forall|i: int| 0 <= i < n implies #[trigger] u16_at(e, hdr_len(ws) + 2 * i) == ptr_ofs(
        s,
        i,
    ) as u16 by {
        lemma_enc_ptrs_at(s, 0, i);
        lemma_total_take_succ(s, i);
        lemma_total_prefix(s, i);
        lemma_total_prefix(s, i + 1);
        assert(e.subrange(hdr_len(ws) + 2 * i, hdr_len(ws) + 2 * i + 2) =~= pt.subrange(
            2 * i,
            2 * i + 2,
        ));
        assert(u16_at(e, hdr_len(ws) + 2 * i) == spec_u16_from_le_bytes(
            spec_u16_to_le_bytes(ptr_ofs(s, i) as u16),
        ));
    }
    assert forall|i: int| 0 <= i < n implies #[trigger] e.subrange(
        ptr_ofs(s, i),
        ptr_ofs(s, i) + node_size(s[i]),
    ) == enc_node(s[i]) by {
        lemma_enc_recs_at(s, i);
        lemma_total_take_succ(s, i);
        lemma_total_prefix(s, i);
        lemma_total_prefix(s, i + 1);
        lemma_enc_node_len(s[i]);
        let rel = total_size(s) - total_size(s.take(i + 1));
        assert(ptr_ofs(s, i) == (PAGE_SIZE - total_size(s)) + rel);
        assert(e.subrange(ptr_ofs(s, i), ptr_ofs(s, i) + node_size(s[i])) =~= rc.subrange(
            rel,
            rel + node_size(s[i]),
        ));
    }
}

/// Round trip of the leaf page codec: decoding the encoding of any
/// encodable leaf gives back the same page number, flags, and node list,
/// node for node and byte for byte.
pub proof fn lemma_leaf_round_trip(l: LeafModel, ws: WordSize)
    requires
        leaf_ok(l, ws),
    ensures
        dec_leaf(enc_leaf_page(l, ws), ws) == l,
{
    le_facts();
    let s = l.nodes;
    let n = s.len() as int;
    let e = enc_leaf_page(l, ws);
    lemma_enc_leaf_fields(l, ws);
    lemma_total_nonneg(s);
    assert(u16_at(e, ws.spec_len() + 4) == leaf_hdr(l, ws).free_lower);
    assert(dec_nkeys(e, ws) == n);
    assert(word_at(e, ws, 0) == l.pageno);
    assert(u16_at(e, ws.spec_len() + 2) == l.flags);
    let dec = dec_leaf(e, ws);
    assert forall|i: int| 0 <= i < n implies dec.nodes[i] == s[i] by {
        lemma_total_take_succ(s, i);
        lemma_total_prefix(s, i);
        lemma_total_prefix(s, i + 1);
        lemma_enc_node_len(s[i]);
        assert(u16_at(e, hdr_len(ws) + 2 * i) == ptr_ofs(s, i) as u16);
        assert(u16_at(e, hdr_len(ws) + 2 * i) as int == ptr_ofs(s, i));
        lemma_dec_node_at(e, s[i], ptr_ofs(s, i));
    }
    assert(dec.nodes =~= s);
}

/// Append the encoding of one node record: data length (u32), flags (u16),
/// key length (u16), then the raw key and data bytes.
fn write_node(buf: &mut Vec<u8>, node: &Node)
    requires
        node.key@.len() <= 0xFFFF,
        node.data@.len() <= 0xFFFF_FFFF,
    ensures
        final(buf)@ == old(buf)@ + enc_node(node@),
{
    put_u32(buf, node.data.len() as u32);
    put_u16(buf, node.flags);
    put_u16(buf, node.key.len() as u16);
    let klen = node.key.len();
    let mut kc = copy_range(&node.key, 0, klen);
    proof {
        assert(node.key@.subrange(0, klen as int) =~= node.key@);
    }
    buf.append(&mut kc);
    let dlen = node.data.len();
    let mut dc = copy_range(&node.data, 0, dlen);
    proof {
        assert(node.data@.subrange(0, dlen as int) =~= node.data@);
    }
    buf.append(&mut dc);
    assert(buf@ =~= old(buf)@ + enc_node(node@));
}

/// Encode a whole leaf page. Succeeds exactly when the leaf is encodable
/// under the word size, and then yields the page image
/// `enc_leaf_page(l, ws)`, one full page long. A page number beyond the
/// word size fails with `WordOverflow`; content beyond the page budget
/// (the fill would be negative) fails with `Capacity` before any byte is
/// laid out.
pub fn encode_leaf_page(l: &Leaf, ws: WordSize) -> (r: Result<Vec<u8>, Error>)
    ensures
        r is Ok <==> leaf_ok(l@, ws),
        r is Ok ==> r->Ok_0@ == enc_leaf_page(l@, ws) && r->Ok_0@.len() == PAGE_SIZE,
        !ws.fits(l.pageno) ==> r == Err::<Vec<u8>, Error>(Error::WordOverflow),
        ws.fits(l.pageno) && l.flags != FLAG_LEAF ==> r == Err::<Vec<u8>, Error>(Error::Corrupt),
        ws.fits(l.pageno) && l.flags == FLAG_LEAF && !leaf_ok(l@, ws) ==> r == Err::<
            Vec<u8>,
            Error,
        >(Error::Capacity),
{
    let ghost s = l@.nodes;
    if !ws.check_fits(l.pageno) {
        return Err(Error::WordOverflow);
    }
    if l.flags != FLAG_LEAF {
        return Err(Error::Corrupt);
    }
    let w = ws.len();
    let hdr = w + 8;
    let n = l.nodes.len();
    if n > (PAGE_SIZE - hdr) / 2 {
        proof {
            lemma_total_nonneg(s);
        }
        return Err(Error::Capacity);
    }
    let cap = PAGE_SIZE - hdr - 2 * n;
    let mut ptrs: Vec<u16> = Vec::new();
    let mut used: usize = 0;
    let mut i: usize = 0;
    while i < n
        invariant
            i <= n,
            n == s.len(),
            s == l@.nodes,
            n == l.nodes.len(),
            hdr == hdr_len(ws),
            cap == PAGE_SIZE - hdr - 2 * n,
            ws.fits(l.pageno),
            l.flags == FLAG_LEAF,
            used == total_size(s.take(i as int)),
            used <= cap,
            ptrs@.len() == i,
            forall|j: int| 0 <= j < i ==> ptrs@[j] == ptr_ofs(s, j) as u16,
        decreases n - i,
    {
        let node = &l.nodes[i];
        proof {
            assert(s[i as int] == l.nodes@[i as int]@);
            lemma_total_take_succ(s, i as int);
            lemma_total_prefix(s, i as int + 1);
        }
        let klen = node.key.len();
        let dlen = node.data.len();
        if klen >= PAGE_SIZE || dlen >= PAGE_SIZE {
            return Err(Error::Capacity);
        }
        let size = 8 + klen + dlen;
        if size > cap - used {
            return Err(Error::Capacity);
        }
        used = used + size;
        ptrs.push((PAGE_SIZE - used) as u16);
        proof {
            assert(ptr_ofs(s, i as int) == PAGE_SIZE - used);
            assert(ptrs@[i as int] == ptr_ofs(s, i as int) as u16);
        }
        i = i + 1;
    }
    proof {
        assert(s.take(n as int) =~= s);
        assert(leaf_ok(l@, ws));
    }
    let mut buf: Vec<u8> = Vec::new();
    write_page_header(
        &mut buf,
        ws,
        Header {
            pageno: l.pageno,
            pad: 0,
            flags: l.flags,
            free_lower: (hdr + 2 * n) as u16,
            free_upper: (PAGE_SIZE - used) as u16,
        },
    );
    let ghost hd = enc_header(leaf_hdr(l@, ws), ws);
    let ghost pt = enc_ptrs(s, 0);
    let ghost fz = zeros(leaf_fill(l@, ws));
    let ghost rc = enc_recs(s);
    proof {
        assert(leaf_hdr(l@, ws) == Header {
            pageno: l.pageno,
            pad: 0,
            flags: l.flags,
            free_lower: (hdr + 2 * n) as u16,
            free_upper: (PAGE_SIZE - used) as u16,
        });
        assert(buf@ =~= hd);
    }
    let mut k: usize = 0;
    while k < n
        invariant
            k <= n,
            n == s.len(),
            ptrs@.len() == n,
            forall|j: int| 0 <= j < n ==> ptrs@[j] == ptr_ofs(s, j) as u16,
            buf@ + enc_ptrs(s, k as int) == hd + enc_ptrs(s, 0),
        decreases n - k,
    {
        let ghost before = buf@;
        put_u16(&mut buf, ptrs[k]);
        proof {
            assert(enc_ptrs(s, k as int) == spec_u16_to_le_bytes(ptr_ofs(s, k as int) as u16)
                + enc_ptrs(s, k as int + 1));
            lemma_assoc(
                before,
                spec_u16_to_le_bytes(ptr_ofs(s, k as int) as u16),
                enc_ptrs(s, k as int + 1),
            );
        }
        k = k + 1;
    }
    proof {
        assert(enc_ptrs(s, n as int) =~= Seq::<u8>::empty());
        assert(buf@ + Seq::<u8>::empty() =~= buf@);
        assert(buf@ == hd + pt);
    }
    let fill = cap - used;
    proof {
        assert(fill == leaf_fill(l@, ws));
    }
    put_zeros(&mut buf, fill);
    let ghost base = buf@;
    proof {
        assert(base == (hd + pt) + fz);
    }
    let mut k2: usize = n;
    while k2 > 0
        invariant
            k2 <= n,
            n == s.len(),
            s == l@.nodes,
            n == l.nodes.len(),
            hdr_len(ws) + 2 * n + total_size(s) <= PAGE_SIZE,
            buf@ == base + enc_recs(s.skip(k2 as int)),
        decreases k2,
    {
        k2 = k2 - 1;
        proof {
            assert(s[k2 as int] == l.nodes@[k2 as int]@);
            lemma_total_take_succ(s, k2 as int);
            lemma_total_prefix(s, k2 as int);
            lemma_total_prefix(s, k2 as int + 1);
        }
        let ghost before = buf@;
        write_node(&mut buf, &l.nodes[k2]);
        proof {
            lemma_enc_recs_first(s.skip(k2 as int));
            assert(s.skip(k2 as int).drop_first() =~= s.skip(k2 as int + 1));
            assert(s.skip(k2 as int).first() == s[k2 as int]);
            lemma_assoc(base, enc_recs(s.skip(k2 as int + 1)), enc_node(s[k2 as int]));
        }
    }
    proof {
        assert(s.skip(0) =~= s);
        assert(buf@ == ((hd + pt) + fz) + rc);
        lemma_assoc(hd + pt, fz, rc);
        lemma_assoc(hd, pt, fz + rc);
        assert(buf@ == enc_leaf_page(l@, ws));
        lemma_enc_header_len(leaf_hdr(l@, ws), ws);
        lemma_enc_ptrs_len(s, 0);
        lemma_enc_recs_len(s);
    }
    Ok(buf)
}

/// Decode a leaf page image. Whenever the page is the encoding of an
/// encodable leaf, decoding succeeds and inverts the encoding; a page that
/// fails any structural check is rejected as corrupt.
pub fn decode_leaf_page(page: &Vec<u8>, ws: WordSize) -> (r: Result<Leaf, Error>)
    requires
        page@.len() == PAGE_SIZE,
    ensures
        r is Ok ==> r->Ok_0@ == dec_leaf(page@, ws),
        (exists|lm: LeafModel| leaf_ok(lm, ws) && page@ == enc_leaf_page(lm, ws)) ==> r is Ok,
        r is Err ==> r == Err::<Leaf, Error>(Error::Corrupt),
{
    let ghost valid = exists|lm: LeafModel| leaf_ok(lm, ws) && page@ == enc_leaf_page(lm, ws);
    let ghost lm = choose|lm2: LeafModel| leaf_ok(lm2, ws) && page@ == enc_leaf_page(lm2, ws);
    proof {
        if valid {
            lemma_enc_leaf_fields(lm, ws);
            lemma_leaf_round_trip(lm, ws);
            lemma_total_nonneg(lm.nodes);
        }
    }
    let w = ws.len();
    let hdr = w + 8;
    let pageno = get_word(page, ws, 0);
    let flags = get_u16(page, w + 2);
    let fl = get_u16(page, w + 4) as usize;
    if flags != FLAG_LEAF {
        return Err(Error::Corrupt);
    }
    if fl < hdr || (fl - hdr) % 2 != 0 || fl > PAGE_SIZE {
        return Err(Error::Corrupt);
    }
    let n = (fl - hdr) / 2;
    proof {
        assert(n == dec_nkeys(page@, ws));
        if valid {
            assert(n == lm.nodes.len());
        }
    }
    let ghost decn = Seq::new(
        n as nat,
        |i: int| dec_node(page@, u16_at(page@, hdr_len(ws) + 2 * i) as int),
    );
    let mut nodes: Vec<Node> = Vec::new();
    let mut i: usize = 0;
    while i < n
        invariant
            i <= n,
            page@.len() == PAGE_SIZE,
            hdr == hdr_len(ws),
            hdr + 2 * n <= PAGE_SIZE,
            decn == Seq::new(
                n as nat,
                |j: int| dec_node(page@, u16_at(page@, hdr_len(ws) + 2 * j) as int),
            ),
            valid == exists|lm2: LeafModel| leaf_ok(lm2, ws) && page@ == enc_leaf_page(lm2, ws),
            valid ==> leaf_ok(lm, ws) && page@ == enc_leaf_page(lm, ws) && n == lm.nodes.len(),
            nodes@.len() == i,
            forall|j: int| 0 <= j < i ==> #[trigger] nodes@[j]@ == decn[j],
        decreases n - i,
    {
        proof {
            if valid {
                lemma_enc_leaf_fields(lm, ws);
                lemma_total_take_succ(lm.nodes, i as int);
                lemma_total_prefix(lm.nodes, i as int);
                lemma_total_prefix(lm.nodes, i as int + 1);
                lemma_enc_node_len(lm.nodes[i as int]);
            }
        }
        let p = get_u16(page, hdr + 2 * i) as usize;
        proof {
            if valid {
                assert(u16_at(page@, hdr + 2 * i) == ptr_ofs(lm.nodes, i as int) as u16);
                assert(p == ptr_ofs(lm.nodes, i as int));
                let nm = lm.nodes[i as int];
                assert(enc_leaf_page(lm, ws).subrange(
                    ptr_ofs(lm.nodes, i as int),
                    ptr_ofs(lm.nodes, i as int) + node_size(nm),
                ) == enc_node(nm));
                assert(page@.subrange(p as int, p + node_size(nm)) == enc_node(nm));
                lemma_dec_node_at(page@, nm, p as int);
            }
        }
        if p + 8 > PAGE_SIZE {
            return Err(Error::Corrupt);
        }
        let dlen32 = get_u32(page, p);
        let nflags = get_u16(page, p + 4);
        let klen = get_u16(page, p + 6) as usize;
        if dlen32 > PAGE_SIZE as u32 {
            return Err(Error::Corrupt);
        }
        let dlen = dlen32 as usize;
        if p + 8 + klen > PAGE_SIZE {
            return Err(Error::Corrupt);
        }
        if p + 8 + klen + dlen > PAGE_SIZE {
            return Err(Error::Corrupt);
        }
        let key = copy_range(page, p + 8, klen);
        let data = copy_range(page, p + 8 + klen, dlen);
        let node = Node { flags: nflags, key, data };
        proof {
            assert(node@ == dec_node(page@, p as int));
        }
        nodes.push(node);
        proof {
            assert(nodes@[i as int]@ == decn[i as int]);
        }
        i = i + 1;
    }
    let leaf = Leaf { pageno, flags, nodes };
    proof {
        assert(leaf@.nodes =~= decn);
        assert(leaf@ == dec_leaf(page@, ws));
    }
    Ok(leaf)
}

} // verus!
