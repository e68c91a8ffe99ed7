//! The database handle: a word size and an in-memory file image addressed
//! in fixed-size pages. Page-level reads and writes, the metadata and leaf
//! operations on whole pages, and the factory that opens or creates files.

use vstd::prelude::*;

use crate::PAGE_SIZE;
use crate::model::{Error, Leaf, LeafModel, Metadata, WordSize};
use crate::meta::{dec_meta, enc_meta_page, fresh_meta, init_meta, page_at, pick_spec,
    encode_meta_page, pick_meta as pick_meta_of, lemma_meta_round_trip};
use crate::leaf::{dec_leaf, enc_leaf_page, leaf_ok, decode_leaf_page, encode_leaf_page};
use crate::words::copy_range;

verus! {

/// The file image `d` with the page image `p` written at byte offset
/// `off`: existing bytes are overwritten, a gap up to `off` is zero
/// filled, and the image grows as needed.
pub open spec fn splice(d: Seq<u8>, off: int, p: Seq<u8>) -> Seq<u8> {
    let end = if d.len() >= off + p.len() {
        d.len() as int
    } else {
        off + p.len()
    };
    Seq::new(
        end as nat,
        |i: int|
            if off <= i < off + p.len() {
                p[i - off]
            } else if i < d.len() {
                d[i]
            } else {
                0u8
            },
    )
}

/// A handle to one database file: its fixed word size and its byte image.
pub struct Database {
    pub ws: WordSize,
    pub data: Vec<u8>,
}

impl Database {
    /// Write one full page at page number `pageno`, zero-filling any gap
    /// below it and growing the image as needed.
    pub fn write_page(&mut self, pageno: usize, page: &Vec<u8>)
        requires
            page@.len() == PAGE_SIZE,
            (pageno as int + 1) * (PAGE_SIZE as int) <= usize::MAX as int,
        ensures
            final(self).ws == old(self).ws,
            final(self).data@ == splice(old(self).data@, pageno as int * PAGE_SIZE, page@),
    {
        let start = pageno * PAGE_SIZE;
        let ghost d0 = self.data@;
        while self.data.len() < start
            invariant
                self.ws == old(self).ws,
                d0.len() <= self.data@.len() ==> (self.data@.len() <= start || self.data@.len()
                    == d0.len()),
                self.data@.len() >= d0.len(),
                forall|i: int|
                    0 <= i < self.data@.len() ==> self.data@[i] == (if i < d0.len() {
                        d0[i]
                    } else {
                        0u8
                    }),
            decreases start - self.data@.len(),
        {
            self.data.push(0u8);
        }
        let mut j: usize = 0;
        while j < PAGE_SIZE
            invariant
                self.ws == old(self).ws,
                j <= PAGE_SIZE,
                page@.len() == PAGE_SIZE,
                start == pageno as int * PAGE_SIZE,
                (pageno as int + 1) * (PAGE_SIZE as int) <= usize::MAX as int,
                self.data@.len() >= start + j,
                self.data@.len() >= d0.len(),
                self.data@.len() == (if d0.len() >= start + j {
                    d0.len() as int
                } else {
                    start + j
                }),
                forall|i: int|
                    0 <= i < self.data@.len() ==> self.data@[i] == (if start <= i < start + j {
                        page@[i - start]
                    } else if i < d0.len() {
                        d0[i]
                    } else {
                        0u8
                    }),
            decreases PAGE_SIZE - j,
        {
            let idx = start + j;
            let b = page[j];
            if idx < self.data.len() {
                self.data[idx] = b;
            } else {
                self.data.push(b);
            }
            j = j + 1;
        }
        proof {
            assert(self.data@ =~= splice(d0, pageno as int * PAGE_SIZE, page@));
        }
    }

    /// Read one full page. Succeeds exactly when the page lies within the
    /// image, and then yields exactly the page's bytes.
    pub fn read_page(&self, pageno: usize) -> (r: Result<Vec<u8>, Error>)
        ensures
            r is Ok <==> PAGE_SIZE * (pageno as int + 1) <= self.data@.len(),
            r is Ok ==> r->Ok_0@ == page_at(self.data@, pageno as int),
            r is Err ==> r == Err::<Vec<u8>, Error>(Error::Corrupt),
    {
        let avail = self.data.len() / PAGE_SIZE;
        if pageno >= avail {
            return Err(Error::Corrupt);
        }
        let page = copy_range(&self.data, pageno * PAGE_SIZE, PAGE_SIZE);
        proof {
            assert(page@ =~= page_at(self.data@, pageno as int));
        }
        Ok(page)
    }

    /// Write the metadata record as a full page at page number `pageno`
    /// (0 or 1 for the two redundant copies). Fails with `WordOverflow`,
    /// leaving the image untouched, exactly when a word field of the
    /// record does not fit the file's word size.
    pub fn write_meta(&mut self, m: &Metadata, pageno: usize) -> (r: Result<(), Error>)
        requires
            (pageno as int + 1) * (PAGE_SIZE as int) <= usize::MAX as int,
        ensures
            r is Ok <==> m.fits(old(self).ws),
            final(self).ws == old(self).ws,
            r is Ok ==> final(self).data@ == splice(
                old(self).data@,
                pageno as int * PAGE_SIZE,
                enc_meta_page(*m, old(self).ws),
            ),
            r is Err ==> final(self).data@ == old(self).data@ && r == Err::<(), Error>(
                Error::WordOverflow,
            ),
    {
        let page = match encode_meta_page(m, self.ws) {
            Ok(p) => p,
            Err(e) => {
                return Err(e);
            },
        };
        self.write_page(pageno, &page);
        Ok(())
    }

    /// Write a leaf as a full page at its own page number. Fails, leaving
    /// the image untouched, exactly when the leaf is not encodable under
    /// the file's word size, with the error kind `encode_leaf_page` gives.
    pub fn write_leaf(&mut self, l: &Leaf) -> (r: Result<(), Error>)
        requires
            (l.pageno as int + 1) * (PAGE_SIZE as int) <= usize::MAX as int,
        ensures
            final(self).ws == old(self).ws,
            r is Ok <==> leaf_ok(l@, old(self).ws),
            r is Ok ==> final(self).data@ == splice(
                old(self).data@,
                l.pageno as int * PAGE_SIZE,
                enc_leaf_page(l@, old(self).ws),
            ),
            r is Err ==> final(self).data@ == old(self).data@,
    {
        let page = match encode_leaf_page(l, self.ws) {
            Ok(p) => p,
            Err(e) => {
                return Err(e);
            },
        };
        let pageno = l.pageno as usize;
        self.write_page(pageno, &page);
        Ok(())
    }

    /// Read both candidate metadata pages and pick the authoritative one:
    /// exactly `pick_spec` of the image, `Corrupt` when neither candidate
    /// is valid.
    pub fn pick_meta(&self) -> (r: Result<Metadata, Error>)
        ensures
            r is Ok <==> pick_spec(self.data@, self.ws) is Some,
            r is Ok ==> r->Ok_0 == pick_spec(self.data@, self.ws)->Some_0,
            r is Err ==> r == Err::<Metadata, Error>(Error::Corrupt),
    {
        pick_meta_of(&self.data, self.ws)
    }

    /// Read and decode the leaf page at page number `pageno`. Whenever the
    /// page lies in the image and holds the encoding of an encodable leaf,
    /// this succeeds and inverts the encoding.
    pub fn read_leaf(&self, pageno: usize) -> (r: Result<Leaf, Error>)
        ensures
            r is Ok ==> PAGE_SIZE * (pageno as int + 1) <= self.data@.len() && r->Ok_0@ == dec_leaf(
                page_at(self.data@, pageno as int),
                self.ws,
            ),
            (PAGE_SIZE * (pageno as int + 1) <= self.data@.len() && (exists|lm: LeafModel|
                leaf_ok(lm, self.ws) && page_at(self.data@, pageno as int) == enc_leaf_page(
                    lm,
                    self.ws,
                ))) ==> r is Ok,
            r is Err ==> r == Err::<Leaf, Error>(Error::Corrupt),
    {
        let page = match self.read_page(pageno) {
            Ok(p) => p,
            Err(e) => {
                return Err(e);
            },
        };
        decode_leaf_page(&page, self.ws)
    }
}

/// Opens existing file images and creates fresh ones.
pub struct Factory {}

impl Factory {
    /// Bind a file image to a declared word size.
    pub fn open(data: Vec<u8>, ws: WordSize) -> (r: Database)
        ensures
            r.ws == ws,
            r.data@ == data@,
    {
        Database { ws, data }
    }

    /// Infer the word size of a file image: the word size under which the
    /// metadata selection succeeds, trying the 64-bit layout first.
    pub fn detect(data: &Vec<u8>) -> (r: Option<WordSize>)
        ensures
            r == Some(WordSize::Word64) <==> pick_spec(data@, WordSize::Word64) is Some,
            r == Some(WordSize::Word32) <==> (pick_spec(data@, WordSize::Word64) is None
                && pick_spec(data@, WordSize::Word32) is Some),
            r is None <==> (pick_spec(data@, WordSize::Word64) is None && pick_spec(
                data@,
                WordSize::Word32,
            ) is None),
    {
        if pick_meta_of(data, WordSize::Word64).is_ok() {
            Some(WordSize::Word64)
        } else if pick_meta_of(data, WordSize::Word32).is_ok() {
            Some(WordSize::Word32)
        } else {
            None
        }
    }

    /// Create a fresh file: the initial metadata record written twice, at
    /// pages 0 and 1, and nothing else.
    pub fn create(ws: WordSize) -> (r: Database)
        ensures
            r.ws == ws,
            r.data@ == enc_meta_page(fresh_meta(), ws) + enc_meta_page(fresh_meta(), ws),
            page_at(r.data@, 0) == enc_meta_page(fresh_meta(), ws),
            page_at(r.data@, 1) == enc_meta_page(fresh_meta(), ws),
            pick_spec(r.data@, ws) == Some(fresh_meta()),
    {
        let (m0, m1) = init_meta();
        let mut db = Database { ws, data: Vec::new() };
        let r0 = db.write_meta(&m0, 0);
        let r1 = db.write_meta(&m1, 1);
        proof {
            assert(r0 is Ok && r1 is Ok);
            let e = enc_meta_page(fresh_meta(), ws);
            crate::meta::lemma_enc_meta_page_len(fresh_meta(), ws);
            assert(db.data@ =~= e + e);
            assert(page_at(db.data@, 0) =~= e);
            assert(page_at(db.data@, 1) =~= e);
            lemma_meta_round_trip(fresh_meta(), ws);
            assert(crate::meta::candidate(db.data@, ws, 0) == Some(fresh_meta()));
            assert(crate::meta::candidate(db.data@, ws, 1) == Some(fresh_meta()));
        }
        db
    }
}

} // verus!
