//! Data model of the file format: word sizes, page headers, per-database
//! statistics, metadata pages, leaf nodes, and the error kinds that the
//! codec can report.

use vstd::prelude::*;

verus! {

/// Page flag bit marking a metadata page.
pub const FLAG_META: u16 = 0x08;
/// Page flag bit marking a leaf page.
pub const FLAG_LEAF: u16 = 0x02;
/// Page flag bit marking a branch (interior) page.
pub const FLAG_BRANCH: u16 = 0x01;
/// Page flag bit marking an overflow page.
pub const FLAG_OVERFLOW: u16 = 0x04;

/// Database flag bit marking an integer-keyed tree.
pub const DB_INTEGERKEY: u16 = 0x08;

/// Magic constant carried by every valid metadata page.
pub const MAGIC: u32 = 0xBEEFC0DE;
/// Format version constant carried by every valid metadata page.
pub const VERSION: u32 = 1;

/// Default byte capacity of the mapping recorded in a fresh file.
pub const DEFAULT_MAPSIZE: u64 = 1048576;

/// Width of the variable "word" fields: 4 bytes in a 32-bit build of the
/// format, 8 bytes in a 64-bit build. Fixed per file.
#[derive(Clone, Copy, Debug, PartialEq, Eq, Structural)]
pub enum WordSize {
    Word32,
    Word64,
}

impl WordSize {
    /// Byte width of a word field under this word size.
    pub open spec fn spec_len(self) -> int {
        match self {
            WordSize::Word32 => 4,
            WordSize::Word64 => 8,
        }
    }

    /// Byte width of a word field under this word size.
    pub fn len(self) -> (r: usize)
        ensures
            r == self.spec_len(),
    {
        match self {
            WordSize::Word32 => 4,
            WordSize::Word64 => 8,
        }
    }

    /// Whether `v` is representable as a word of this size.
    pub open spec fn fits(self, v: u64) -> bool {
        match self {
            WordSize::Word32 => v <= 0xFFFF_FFFF,
            WordSize::Word64 => true,
        }
    }

    /// Runtime check that `v` is representable as a word of this size.
    pub fn check_fits(self, v: u64) -> (r: bool)
        ensures
            r == self.fits(v),
    {
        match self {
            WordSize::Word32 => v <= 0xFFFF_FFFF,
            WordSize::Word64 => true,
        }
    }
}

/// The error kinds the codec reports. Every error aborts the operation that
/// raised it; nothing is retried or partially applied.
#[derive(Clone, Copy, Debug, PartialEq, Eq, Structural)]
pub enum Error {
    /// A page or the pair of metadata pages failed validation.
    Corrupt,
    /// A leaf page's content exceeds the fixed page budget (negative fill).
    Capacity,
    /// A value does not fit the file's declared word size.
    WordOverflow,
}

/// Per-page envelope written at the start of every page.
#[derive(Clone, Copy, Debug, PartialEq, Eq, Structural)]
pub struct Header {
    pub pageno: u64,
    pub pad: u16,
    pub flags: u16,
    pub free_lower: u16,
    pub free_upper: u16,
}

/// Per-logical-database statistics and tree root, as stored inside a
/// metadata page.
#[derive(Clone, Copy, Debug, PartialEq, Eq, Structural)]
pub struct Database {
    pub pad: u32,
    pub flags: u16,
    pub depth: u16,
    pub branch_pages: u64,
    pub leaf_pages: u64,
    pub overflow_pages: u64,
    pub entries: u64,
    pub root: u64,
}

/// Payload of a metadata page. Two redundant copies live at pages 0 and 1;
/// the valid copy with the higher `txnid` is authoritative.
#[derive(Clone, Copy, Debug, PartialEq, Eq, Structural)]
pub struct Metadata {
    pub magic: u32,
    pub version: u32,
    pub address: u64,
    pub mapsize: u64,
    pub free: Database,
    pub main: Database,
    pub last_pgno: u64,
    pub txnid: u64,
}

impl Database {
    /// All word-width fields fit the given word size.
    pub open spec fn fits(self, ws: WordSize) -> bool {
        &&& ws.fits(self.branch_pages)
        &&& ws.fits(self.leaf_pages)
        &&& ws.fits(self.overflow_pages)
        &&& ws.fits(self.entries)
        &&& ws.fits(self.root)
    }

    /// Runtime check of `fits`.
    pub fn check_fits(&self, ws: WordSize) -> (r: bool)
        ensures
            r == self.fits(ws),
    {
        ws.check_fits(self.branch_pages) && ws.check_fits(self.leaf_pages)
            && ws.check_fits(self.overflow_pages) && ws.check_fits(self.entries)
            && ws.check_fits(self.root)
    }
}

impl Metadata {
    /// All word-width fields fit the given word size.
    pub open spec fn fits(self, ws: WordSize) -> bool {
        &&& ws.fits(self.address)
        &&& ws.fits(self.mapsize)
        &&& self.free.fits(ws)
        &&& self.main.fits(ws)
        &&& ws.fits(self.last_pgno)
        &&& ws.fits(self.txnid)
    }

    /// Runtime check of `fits`.
    pub fn check_fits(&self, ws: WordSize) -> (r: bool)
        ensures
            r == self.fits(ws),
    {
        ws.check_fits(self.address) && ws.check_fits(self.mapsize) && self.free.check_fits(ws)
            && self.main.check_fits(ws) && ws.check_fits(self.last_pgno)
            && ws.check_fits(self.txnid)
    }

    /// A metadata record is valid when it carries the expected magic and
    /// version constants.
    pub open spec fn valid(self) -> bool {
        self.magic == MAGIC && self.version == VERSION
    }

    /// Runtime check of `valid`.
    pub fn check_valid(&self) -> (r: bool)
        ensures
            r == self.valid(),
    {
        self.magic == MAGIC && self.version == VERSION
    }
}

/// Mathematical model of one key/value node.
pub ghost struct NodeModel {
    pub flags: u16,
    pub key: Seq<u8>,
    pub data: Seq<u8>,
}

/// One key/value record of a leaf page. The node owns its key and data
/// bytes; the codec copies them into or out of the page image.
#[derive(Clone, Debug)]
pub struct Node {
    pub flags: u16,
    pub key: Vec<u8>,
    pub data: Vec<u8>,
}

impl View for Node {
    type V = NodeModel;

    open spec fn view(&self) -> NodeModel {
        NodeModel { flags: self.flags, key: self.key@, data: self.data@ }
    }
}

/// Mathematical model of a leaf page's content.
pub ghost struct LeafModel {
    pub pageno: u64,
    pub flags: u16,
    pub nodes: Seq<NodeModel>,
}

/// A leaf page: an ordered list of nodes addressed through a pointer table.
#[derive(Clone, Debug)]
pub struct Leaf {
    pub pageno: u64,
    pub flags: u16,
    pub nodes: Vec<Node>,
}

impl View for Leaf {
    type V = LeafModel;

    open spec fn view(&self) -> LeafModel {
        LeafModel {
            pageno: self.pageno,
            flags: self.flags,
            nodes: self.nodes@.map_values(|n: Node| n@),
        }
    }
}

} // verus!
