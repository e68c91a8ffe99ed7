//! Cursors: the read cursor linearizes a tree's content into an ordered
//! node stream; the write cursor accepts nodes, lays them out as a fresh
//! leaf, and commits a new pair of metadata pages. On top of both stand
//! `dump` and `convert`, the whole-file operations.

use vstd::prelude::*;

use crate::PAGE_SIZE;
use crate::db::{splice, Database, Factory};
use crate::leaf::{dec_leaf, enc_leaf_page, leaf_ok, lemma_enc_leaf_fields, lemma_leaf_round_trip,
    lemma_total_nonneg, lemma_total_prefix, lemma_total_take_succ, node_size, total_size};
use crate::meta::{candidate, enc_meta_page, fresh_meta, hdr_len, lemma_meta_round_trip, page_at,
    pick_spec};
use crate::model::{Error, Leaf, Metadata, Node, NodeModel, WordSize, FLAG_LEAF};
use crate::words::copy_range;

verus! {

/// The models of a sequence of owned nodes.
pub open spec fn node_views(s: Seq<Node>) -> Seq<NodeModel> {
    s.map_values(|n: Node| n@)
}

/// The file image `d` holds exactly the node sequence `ns`: metadata
/// selection succeeds, and either the main tree is empty and `ns` is
/// empty, or the root page decodes as a leaf holding `ns`.
pub open spec fn file_has_nodes(d: Seq<u8>, ws: WordSize, ns: Seq<NodeModel>) -> bool {
    &&& pick_spec(d, ws) is Some
    &&& {
        let m = pick_spec(d, ws)->Some_0;
        if m.main.root == 0 {
            ns.len() == 0
        } else {
            &&& PAGE_SIZE * (m.main.root + 1) <= d.len()
            &&& dec_leaf(page_at(d, m.main.root as int), ws).nodes == ns
        }
    }
}

/// The file image can be dumped in full: metadata selection succeeds, and
/// the main tree is empty or its root page is the encoding of an encodable
/// leaf.
pub open spec fn dump_ready(d: Seq<u8>, ws: WordSize) -> bool {
    &&& pick_spec(d, ws) is Some
    &&& {
        let m = pick_spec(d, ws)->Some_0;
        ||| m.main.root == 0
        ||| (PAGE_SIZE * (m.main.root + 1) <= d.len() && (exists|lm: crate::model::LeafModel|
            leaf_ok(lm, ws) && page_at(d, m.main.root as int) == enc_leaf_page(lm, ws)))
    }
}

/// A file holds at most one node sequence.
pub proof fn lemma_file_nodes_unique(d: Seq<u8>, ws: WordSize, a: Seq<NodeModel>, b: Seq<NodeModel>)
    requires
        file_has_nodes(d, ws, a),
        file_has_nodes(d, ws, b),
    ensures
        a == b,
{
    let m = pick_spec(d, ws)->Some_0;
    if m.main.root == 0 {
        assert(a =~= b);
    }
}

/// A file that is ready to dump always fits its own word size again: the
/// nodes it holds stay within one leaf page's budget under that word
/// size. With `convert`'s contract this makes the identity conversion
/// total: converting a dumpable file to its own word size succeeds and
/// preserves the node sequence.
pub proof fn lemma_identity_conversion_ready(d: Seq<u8>, ws: WordSize, ns: Seq<NodeModel>)
    requires
        dump_ready(d, ws),
        file_has_nodes(d, ws, ns),
    ensures
        hdr_len(ws) + 2 * ns.len() + total_size(ns) <= PAGE_SIZE,
{
    let m = pick_spec(d, ws)->Some_0;
    if m.main.root == 0 {
        assert(ns.len() == 0);
        assert(total_size(ns) == 0);
    } else {
        let lm = choose|lm: crate::model::LeafModel|
            leaf_ok(lm, ws) && page_at(d, m.main.root as int) == enc_leaf_page(lm, ws);
        lemma_leaf_round_trip(lm, ws);
        assert(ns == lm.nodes);
    }
}

/// The metadata record a commit of `n` nodes writes, derived from the
/// record that was authoritative before: the main tree becomes a single
/// leaf at page 2 (or empty again for `n == 0`), and the transaction id
/// advances by one.
pub open spec fn committed_meta(base: Metadata, n: u64) -> Metadata {
    Metadata {
        magic: base.magic,
        version: base.version,
        address: base.address,
        mapsize: base.mapsize,
        free: base.free,
        main: crate::model::Database {
            pad: base.main.pad,
            flags: base.main.flags,
            depth: if n > 0 {
                1
            } else {
                0
            },
            branch_pages: 0,
            leaf_pages: if n > 0 {
                1
            } else {
                0
            },
            overflow_pages: 0,
            entries: n,
            root: if n > 0 {
                2
            } else {
                0
            },
        },
        last_pgno: if n > 0 {
            2
        } else {
            1
        },
        txnid: (base.txnid + 1) as u64,
    }
}

/// Copy a node, byte for byte.
pub fn clone_node(n: &Node) -> (r: Node)
    ensures
        r@ == n@,
{
    let klen = n.key.len();
    let dlen = n.data.len();
    let key = copy_range(&n.key, 0, klen);
    let data = copy_range(&n.data, 0, dlen);
    proof {
        assert(n.key@.subrange(0, klen as int) =~= n.key@);
        assert(n.data@.subrange(0, dlen as int) =~= n.data@);
    }
    Node { flags: n.flags, key, data }
}

/// A forward-only stream of the nodes of a tree, in key order.
pub struct ReadCursor {
    pub nodes: Vec<Node>,
}

impl ReadCursor {
    /// The next node of the stream, or nothing at its end.
    pub fn next(&mut self) -> (r: Option<Node>)
        ensures
            r is Some <==> old(self).nodes@.len() > 0,
            old(self).nodes@.len() > 0 ==> r == Some(old(self).nodes@[0]) && final(self).nodes@
                == old(self).nodes@.drop_first(),
            old(self).nodes@.len() == 0 ==> final(self).nodes@ == old(self).nodes@,
    {
        if self.nodes.len() == 0 {
            None
        } else {
            let n = self.nodes.remove(0);
            proof {
                assert(self.nodes@ =~= old(self).nodes@.drop_first());
            }
            Some(n)
        }
    }
}

/// Accepts nodes in caller-supplied order and lays them out as one fresh
/// leaf page on commit. The caller is responsible for supplying nodes in
/// ascending key order; the cursor neither sorts nor validates ordering.
pub struct WriteCursor {
    pub db: Database,
    pub nodes: Vec<Node>,
    pub used: usize,
}

impl WriteCursor {
    /// The cursor's bookkeeping is consistent and its buffered nodes still
    /// fit one leaf page.
    pub open spec fn wf(self) -> bool {
        &&& self.used == total_size(node_views(self.nodes@))
        &&& hdr_len(self.db.ws) + 2 * self.nodes@.len() + self.used <= PAGE_SIZE
    }

    /// Buffer one more node. Fails with `Capacity`, leaving the cursor
    /// unchanged, exactly when the node would push the leaf past the page
    /// budget (the fill would turn negative).
    pub fn push_node(&mut self, node: Node) -> (r: Result<(), Error>)
        requires
            old(self).wf(),
        ensures
            final(self).wf(),
            final(self).db == old(self).db,
            r is Ok <==> hdr_len(old(self).db.ws) + 2 * (old(self).nodes@.len() + 1) + old(
                self,
            ).used + node_size(node@) <= PAGE_SIZE,
            r is Ok ==> final(self).nodes@ == old(self).nodes@.push(node),
            r is Err ==> final(self).nodes@ == old(self).nodes@ && final(self).used == old(
                self,
            ).used && r == Err::<(), Error>(Error::Capacity),
    {
        let w = self.db.ws.len();
        let hdr = w + 8;
        let n = self.nodes.len();
        proof {
            lemma_total_nonneg(node_views(self.nodes@));
        }
        let budget = PAGE_SIZE - hdr - 2 * n - self.used;
        let klen = node.key.len();
        let dlen = node.data.len();
        if klen >= PAGE_SIZE || dlen >= PAGE_SIZE {
            return Err(Error::Capacity);
        }
        let size = 8 + klen + dlen;
        if budget < 2 || size > budget - 2 {
            return Err(Error::Capacity);
        }
        self.used = self.used + size;
        self.nodes.push(node);
        proof {
            let vs = node_views(old(self).nodes@);
            assert(node_views(self.nodes@) =~= vs.push(node@));
            assert(vs.push(node@).drop_last() =~= vs);
            assert(total_size(vs.push(node@)) == total_size(vs) + node_size(node@));
        }
        Ok(())
    }

    /// Finalize: write the buffered nodes as a single leaf at page 2 (no
    /// leaf at all when none were pushed), update the main tree's
    /// statistics, and write the new metadata record, with the transaction
    /// id advanced by one, to both metadata pages.
    pub fn commit(self) -> (r: Result<Database, Error>)
        requires
            self.wf(),
        ensures
            r is Ok ==> r->Ok_0.ws == self.db.ws && file_has_nodes(
                r->Ok_0.data@,
                self.db.ws,
                node_views(self.nodes@),
            ) && dump_ready(r->Ok_0.data@, self.db.ws) && pick_spec(r->Ok_0.data@, self.db.ws)
                == Some(
                committed_meta(
                    pick_spec(self.db.data@, self.db.ws)->Some_0,
                    self.nodes@.len() as u64,
                ),
            ),
            (pick_spec(self.db.data@, self.db.ws) matches Some(m) && m.txnid < u64::MAX
                && committed_meta(m, self.nodes@.len() as u64).fits(self.db.ws)) ==> r is Ok,
    {
        let ghost ws = self.db.ws;
        let ghost ns = node_views(self.nodes@);
        let mut db = self.db;
        let m_old = match db.pick_meta() {
            Ok(m) => m,
            Err(e) => {
                return Err(e);
            },
        };
        if m_old.txnid == u64::MAX {
            return Err(Error::WordOverflow);
        }
        let count = self.nodes.len();
        let mut m = m_old;
        m.main.branch_pages = 0;
        m.main.overflow_pages = 0;
        m.main.entries = count as u64;
        m.txnid = m_old.txnid + 1;
        let ghost d0 = db.data@;
        if count > 0 {
            let leaf = Leaf { pageno: 2, flags: FLAG_LEAF, nodes: self.nodes };
            proof {
                assert(leaf@.nodes =~= ns);
                assert(leaf_ok(leaf@, ws));
            }
            let wrote = db.write_leaf(&leaf);
            proof {
                assert(wrote is Ok);
            }
            m.main.root = 2;
            m.main.depth = 1;
            m.main.leaf_pages = 1;
            m.last_pgno = 2;
        } else {
            m.main.root = 0;
            m.main.depth = 0;
            m.main.leaf_pages = 0;
            m.last_pgno = 1;
        }
        proof {
            assert(m == committed_meta(m_old, count as u64));
        }
        if db.write_meta(&m, 0).is_err() {
            return Err(Error::WordOverflow);
        }
        if db.write_meta(&m, 1).is_err() {
            return Err(Error::WordOverflow);
        }
        proof {
            let em = enc_meta_page(m, ws);
            crate::meta::lemma_enc_meta_page_len(m, ws);
            let ghost lm = (crate::model::LeafModel {
                pageno: 2,
                flags: FLAG_LEAF,
                nodes: ns,
            });
            if count > 0 {
                let el = enc_leaf_page(lm, ws);
                lemma_enc_leaf_fields(lm, ws);
                assert(db.data@ == splice(
                    splice(splice(d0, 2 * PAGE_SIZE, el), 0, em),
                    PAGE_SIZE as int,
                    em,
                ));
                assert(page_at(db.data@, 0) =~= em);
                assert(page_at(db.data@, 1) =~= em);
                assert(page_at(db.data@, 2) =~= el);
                lemma_leaf_round_trip(lm, ws);
            } else {
                assert(db.data@ == splice(splice(d0, 0, em), PAGE_SIZE as int, em));
                assert(page_at(db.data@, 0) =~= em);
                assert(page_at(db.data@, 1) =~= em);
                assert(ns =~= Seq::<NodeModel>::empty());
            }
            lemma_meta_round_trip(m, ws);
            assert(candidate(db.data@, ws, 0) == Some(m));
            assert(candidate(db.data@, ws, 1) == Some(m));
            assert(pick_spec(db.data@, ws) == Some(m));
        }
        Ok(db)
    }
}

impl Database {
    /// All nodes of the main tree, in key order. Succeeds on every file
    /// whose metadata selection succeeds and whose main tree is empty or
    /// rooted in a well-formed leaf page, and then yields exactly the
    /// nodes that root page holds.
    pub fn dump(&self) -> (r: Result<Vec<Node>, Error>)
        ensures
            r is Ok ==> file_has_nodes(self.data@, self.ws, node_views(r->Ok_0@)),
            dump_ready(self.data@, self.ws) ==> r is Ok,
            r is Err ==> !dump_ready(self.data@, self.ws),
    {
        let m = match self.pick_meta() {
            Ok(m) => m,
            Err(e) => {
                return Err(e);
            },
        };
        if m.main.root == 0 {
            let empty: Vec<Node> = Vec::new();
            proof {
                assert(node_views(empty@) =~= Seq::<NodeModel>::empty());
            }
            return Ok(empty);
        }
        let avail = self.data.len() / PAGE_SIZE;
        if m.main.root >= avail as u64 {
            return Err(Error::Corrupt);
        }
        let rootpn = m.main.root as usize;
        let leaf = match self.read_leaf(rootpn) {
            Ok(l) => l,
            Err(e) => {
                return Err(e);
            },
        };
        proof {
            assert(node_views(leaf.nodes@) =~= leaf@.nodes);
        }
        Ok(leaf.nodes)
    }

    /// A read cursor over the main tree's nodes, in key order.
    pub fn read_cursor(&self) -> (r: Result<ReadCursor, Error>)
        ensures
            r is Ok ==> file_has_nodes(self.data@, self.ws, node_views(r->Ok_0.nodes@)),
            dump_ready(self.data@, self.ws) ==> r is Ok,
    {
        let nodes = match self.dump() {
            Ok(v) => v,
            Err(e) => {
                return Err(e);
            },
        };
        Ok(ReadCursor { nodes })
    }

    /// A write cursor over this file, initially empty.
    pub fn write_cursor(self) -> (r: WriteCursor)
        ensures
            r.db == self,
            r.nodes@.len() == 0,
            r.wf(),
    {
        let cur = WriteCursor { db: self, nodes: Vec::new(), used: 0 };
        proof {
            assert(node_views(cur.nodes@) =~= Seq::<NodeModel>::empty());
        }
        cur
    }

    /// Convert this file to the given word size: a fresh file holding the
    /// same node sequence. Succeeds whenever this file can be dumped and
    /// its nodes fit one leaf page under the target word size — under the
    /// same word size, always — and the result then holds exactly the
    /// nodes of this file.
    pub fn convert(&self, ws_out: WordSize) -> (r: Result<Database, Error>)
        ensures
            r is Ok ==> r->Ok_0.ws == ws_out && (forall|ns: Seq<NodeModel>|
                file_has_nodes(self.data@, self.ws, ns) ==> file_has_nodes(
                    r->Ok_0.data@,
                    ws_out,
                    ns,
                )) && dump_ready(r->Ok_0.data@, ws_out),
            forall|ns: Seq<NodeModel>|
                (dump_ready(self.data@, self.ws) && file_has_nodes(self.data@, self.ws, ns)
                    && hdr_len(ws_out) + 2 * ns.len() + total_size(ns) <= PAGE_SIZE) ==> r is Ok,
    {
        let nodes = match self.dump() {
            Ok(v) => v,
            Err(e) => {
                proof {
                    assert(!dump_ready(self.data@, self.ws));
                }
                return Err(e);
            },
        };
        let ghost ns0 = node_views(nodes@);
        let out = Factory::create(ws_out);
        let mut cur = out.write_cursor();
        let count = nodes.len();
        let mut i: usize = 0;
        while i < count
            invariant
                i <= count,
                count == nodes@.len(),
                cur.wf(),
                cur.db.ws == ws_out,
                cur.db.data@ == enc_meta_page(fresh_meta(), ws_out) + enc_meta_page(
                    fresh_meta(),
                    ws_out,
                ),
                pick_spec(cur.db.data@, ws_out) == Some(fresh_meta()),
                ns0 == node_views(nodes@),
                file_has_nodes(self.data@, self.ws, ns0),
                node_views(cur.nodes@) == ns0.take(i as int),
            decreases count - i,
        {
            let node = clone_node(&nodes[i]);
            proof {
                lemma_total_take_succ(ns0, i as int);
                lemma_total_prefix(ns0, i as int);
                lemma_total_prefix(ns0, i as int + 1);
                assert(total_size(node_views(cur.nodes@)) == total_size(ns0.take(i as int)));
            }
            let pushed = cur.push_node(node);
            match pushed {
                Ok(_) => {
                    proof {
                        assert(node_views(cur.nodes@) =~= ns0.take(i as int + 1));
                    }
                },
                Err(_) => {
                    proof {
                        assert(hdr_len(ws_out) + 2 * ns0.len() + total_size(ns0) > PAGE_SIZE) by {
                            lemma_total_take_succ(ns0, i as int);
                            lemma_total_prefix(ns0, i as int + 1);
                        }
                        assert forall|ns: Seq<NodeModel>|
                            !(dump_ready(self.data@, self.ws) && file_has_nodes(
                                self.data@,
                                self.ws,
                                ns,
                            ) && hdr_len(ws_out) + 2 * ns.len() + total_size(ns)
                                <= PAGE_SIZE) by {
                            if file_has_nodes(self.data@, self.ws, ns) {
                                lemma_file_nodes_unique(self.data@, self.ws, ns, ns0);
                            }
                        }
                    }
                    return Err(Error::Capacity);
                },
            }
            i = i + 1;
        }
        proof {
            assert(ns0.take(count as int) =~= ns0);
            assert(committed_meta(fresh_meta(), count as u64).fits(ws_out));
        }
        let committed = cur.commit();
        match committed {
            Ok(db2) => {
                proof {
                    assert forall|ns: Seq<NodeModel>|
                        file_has_nodes(self.data@, self.ws, ns) implies file_has_nodes(
                        db2.data@,
                        ws_out,
                        ns,
                    ) by {
                        lemma_file_nodes_unique(self.data@, self.ws, ns, ns0);
                    }
                }
                Ok(db2)
            },
            Err(e) => Err(e),
        }
    }
}

} // verus!
