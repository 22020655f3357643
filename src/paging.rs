//! Fixed-size pages and the packed header at the front of each.
use vstd::prelude::*;

use crate::byte_encoder::{
    lemma_le_bytes_len,
    lemma_le_bytes_of_value,
    lemma_le_round_trip,
    lemma_le_value_bound,
    lemma_pow256_values,
    le_bytes,
    le_value,
    pow256,
    ByteDecoder,
    ByteEncoder,
    CodecError,
};

verus! {

/// The size of a page, in bytes.
pub const PAGE_SIZE: usize = 4096;

/// The size of a serialized page header, in bytes.
pub const HEADER_SIZE: usize = 11;

/// The four kinds of b-tree page.
#[derive(Debug, Clone, Copy, PartialEq, Eq, Structural)]
pub enum BTreePageType {
    InteriorTable,
    LeafTable,
    InteriorIndex,
    LeafIndex,
}

/// Why a page header could not be read.
#[derive(Debug, Clone, Copy, PartialEq, Eq, Structural)]
pub enum PageError {
    /// The bytes ended before the header did.
    UnexpectedEof,
    /// The type byte is none of the four page types; the page cannot be used.
    UnknownPageType(u8),
}

/// The byte that stands for each page type on disk.
pub open spec fn page_type_code(t: BTreePageType) -> u8 {
    match t {
        BTreePageType::InteriorIndex => 0x02,
        BTreePageType::InteriorTable => 0x05,
        BTreePageType::LeafIndex => 0x0a,
        BTreePageType::LeafTable => 0x0d,
    }
}

/// The page type that a byte stands for, if any.
pub open spec fn page_type_of(b: u8) -> Option<BTreePageType> {
    if b == 0x02 {
        Some(BTreePageType::InteriorIndex)
    } else if b == 0x05 {
        Some(BTreePageType::InteriorTable)
    } else if b == 0x0a {
        Some(BTreePageType::LeafIndex)
    } else if b == 0x0d {
        Some(BTreePageType::LeafTable)
    } else {
        None
    }
}

impl BTreePageType {
    /// The page type that a type byte stands for. Any other byte is a
    /// corrupt or unsupported page, on which no type may be guessed: such a
    /// byte is outside this function's domain, and bytes read from disk go
    /// through `from_byte`, which reports it.
    pub fn from(value: u8) -> (r: BTreePageType)
        requires
            page_type_of(value) is Some,
        ensures
            page_type_of(value) == Some(r),
            page_type_code(r) == value,
    {
        match value {
            0x02 => BTreePageType::InteriorIndex,
            0x05 => BTreePageType::InteriorTable,
            0x0a => BTreePageType::LeafIndex,
            _ => BTreePageType::LeafTable,
        }
    }

    /// The page type that a type byte stands for, or the byte itself as an
    /// unknown page type.
    pub fn from_byte(b: u8) -> (r: Result<BTreePageType, PageError>)
        ensures
            r == match page_type_of(b) {
                Some(t) => Ok(t),
                None => Err(PageError::UnknownPageType(b)),
            },
    {
        match b {
            0x02 => Ok(BTreePageType::InteriorIndex),
            0x05 => Ok(BTreePageType::InteriorTable),
            0x0a => Ok(BTreePageType::LeafIndex),
            0x0d => Ok(BTreePageType::LeafTable),
            _ => Err(PageError::UnknownPageType(b)),
        }
    }

    pub fn to_byte(&self) -> (r: u8)
        ensures
            r == page_type_code(*self),
    {
        match self {
            BTreePageType::InteriorIndex => 0x02,
            BTreePageType::InteriorTable => 0x05,
            BTreePageType::LeafIndex => 0x0a,
            BTreePageType::LeafTable => 0x0d,
        }
    }
}

/// Page metadata: its type, free-space offsets, cell count and right pointer.
#[derive(Debug, Clone, Copy, PartialEq, Eq, Structural)]
pub struct PageHeader {
    pub page_type: BTreePageType,
    pub offset: u16,
    pub n_cells: u16,
    pub cell_offset: u16,
    pub right_pointer: u32,
}

/// The on-disk form of a header: the type byte, then the three 16-bit fields
/// and the 32-bit right pointer, each little-endian.
pub open spec fn header_bytes(h: PageHeader) -> Seq<u8> {
    seq![page_type_code(h.page_type)] + le_bytes(h.offset as nat, 2) + le_bytes(h.n_cells as nat, 2)
        + le_bytes(h.cell_offset as nat, 2) + le_bytes(h.right_pointer as nat, 4)
}

/// What reading a header from the front of `s` gives: the type byte is
/// checked as soon as it is read, and the header needs all of its bytes.
pub open spec fn parse_header(s: Seq<u8>) -> Result<PageHeader, PageError> {
    if s.len() < 1 {
        Err(PageError::UnexpectedEof)
    } else if page_type_of(s[0]) is None {
        Err(PageError::UnknownPageType(s[0]))
    } else if s.len() < HEADER_SIZE {
        Err(PageError::UnexpectedEof)
    } else {
        Ok(
            PageHeader {
                page_type: page_type_of(s[0])->Some_0,
                offset: le_value(s.subrange(1, 3)) as u16,
                n_cells: le_value(s.subrange(3, 5)) as u16,
                cell_offset: le_value(s.subrange(5, 7)) as u16,
                right_pointer: le_value(s.subrange(7, 11)) as u32,
            },
        )
    }
}

fn codec_error(e: CodecError) -> (r: PageError)
    ensures
        r == PageError::UnexpectedEof,
{
    match e {
        CodecError::UnexpectedEof => PageError::UnexpectedEof,
    }
}

impl PageHeader {
    /// Reads a header from the front of `bytes`.
    pub fn from_bytes(bytes: &[u8]) -> (r: Result<PageHeader, PageError>)
        ensures
            r == parse_header(bytes@),
    {
        let mut buf: Vec<u8> = Vec::new();
        let mut i: usize = 0;
        while i < bytes.len()
            invariant
                i <= bytes@.len(),
                buf@ == bytes@.take(i as int),
            decreases bytes.len() - i,
        {
            buf.push(bytes[i]);
            assert(buf@ =~= bytes@.take(i + 1));
            i = i + 1;
        }
        assert(buf@ =~= bytes@);
        let ghost s = bytes@;
        let mut reader = ByteDecoder::new(buf);
        let b = match reader.read_u8() {
            Ok(b) => b,
            Err(e) => return Err(codec_error(e)),
        };
        proof {
            assert(s.take(1) =~= seq![s[0]]);
            assert(s.take(1).drop_first() =~= Seq::<u8>::empty());
        }
        let page_type = match BTreePageType::from_byte(b) {
            Ok(t) => t,
            Err(e) => return Err(e),
        };
        let offset = match reader.read_u16() {
            Ok(v) => v,
            Err(e) => return Err(codec_error(e)),
        };
        let n_cells = match reader.read_u16() {
            Ok(v) => v,
            Err(e) => return Err(codec_error(e)),
        };
        let cell_offset = match reader.read_u16() {
            Ok(v) => v,
            Err(e) => return Err(codec_error(e)),
        };
        let right_pointer = match reader.read_u32() {
            Ok(v) => v,
            Err(e) => return Err(codec_error(e)),
        };
        proof {
            assert(s.skip(1).take(2) =~= s.subrange(1, 3));
            assert(s.skip(1).skip(2).take(2) =~= s.subrange(3, 5));
            assert(s.skip(1).skip(2).skip(2).take(2) =~= s.subrange(5, 7));
            assert(s.skip(1).skip(2).skip(2).skip(2).take(4) =~= s.subrange(7, 11));
        }
        Ok(PageHeader { page_type, offset, n_cells, cell_offset, right_pointer })
    }

    /// The header's on-disk bytes.
    pub fn to_bytes(&self) -> (r: Vec<u8>)
        ensures
            r@ == header_bytes(*self),
    {
        let mut writer = ByteEncoder::new(Vec::new());
        writer.write_u8(self.page_type.to_byte());
        writer.write_u16(self.offset);
        writer.write_u16(self.n_cells);
        writer.write_u16(self.cell_offset);
        writer.write_u32(self.right_pointer);
        proof {
            reveal_with_fuel(le_bytes, 2);
            assert(le_bytes(page_type_code(self.page_type) as nat, 1) =~= seq![
                page_type_code(self.page_type),
            ]);
            assert(writer.inner@ =~= header_bytes(*self));
        }
        writer.inner
    }
}

/// Reading back the bytes of a header gives the header.
pub proof fn lemma_header_round_trip(h: PageHeader)
    ensures
        parse_header(header_bytes(h)) == Ok::<PageHeader, PageError>(h),
{
    let s = header_bytes(h);
    let a = le_bytes(h.offset as nat, 2);
    let b = le_bytes(h.n_cells as nat, 2);
    let c = le_bytes(h.cell_offset as nat, 2);
    let d = le_bytes(h.right_pointer as nat, 4);
    lemma_le_bytes_len(h.offset as nat, 2);
    lemma_le_bytes_len(h.n_cells as nat, 2);
    lemma_le_bytes_len(h.cell_offset as nat, 2);
    lemma_le_bytes_len(h.right_pointer as nat, 4);
    lemma_pow256_values();
    lemma_le_round_trip(h.offset as nat, 2);
    lemma_le_round_trip(h.n_cells as nat, 2);
    lemma_le_round_trip(h.cell_offset as nat, 2);
    lemma_le_round_trip(h.right_pointer as nat, 4);
    assert(s.subrange(1, 3) =~= a);
    assert(s.subrange(3, 5) =~= b);
    assert(s.subrange(5, 7) =~= c);
    assert(s.subrange(7, 11) =~= d);
    assert(page_type_of(page_type_code(h.page_type)) == Some(h.page_type));
}

/// A header read from bytes writes back as exactly the bytes it was read from.
pub proof fn lemma_header_bytes_round_trip(s: Seq<u8>)
    requires
        parse_header(s) is Ok,
    ensures
        header_bytes(parse_header(s)->Ok_0) == s.take(HEADER_SIZE as int),
{
    let h = parse_header(s)->Ok_0;
    lemma_pow256_values();
    lemma_le_value_bound(s.subrange(1, 3));
    lemma_le_value_bound(s.subrange(3, 5));
    lemma_le_value_bound(s.subrange(5, 7));
    lemma_le_value_bound(s.subrange(7, 11));
    lemma_le_bytes_of_value(s.subrange(1, 3));
    lemma_le_bytes_of_value(s.subrange(3, 5));
    lemma_le_bytes_of_value(s.subrange(5, 7));
    lemma_le_bytes_of_value(s.subrange(7, 11));
    assert(page_type_code(h.page_type) == s[0]);
    assert(header_bytes(h) =~= s.take(HEADER_SIZE as int));
}

/// One fixed-size unit of the backing store: `PAGE_SIZE` bytes whose front
/// holds the page's header, with the b-tree keys routed through the page and
/// its checksum kept beside them in memory. Its view is its bytes.
pub struct Page {
    data: Vec<u8>,
    btree_keys: Vec<u32>,
    checksum: Vec<u8>,
    header: PageHeader,
}

impl View for Page {
    type V = Seq<u8>;

    closed spec fn view(&self) -> Seq<u8> {
        self.data@
    }
}

impl Page {
    #[verifier::type_invariant]
    spec fn inv(&self) -> bool {
        &&& self.data@.len() == PAGE_SIZE
        &&& self.data@.take(HEADER_SIZE as int) == header_bytes(self.header)
    }

    /// The header of the page.
    pub closed spec fn header_spec(&self) -> PageHeader {
        self.header
    }

    /// An empty page with the given header: the header's bytes, then zeros.
    pub fn new(header: PageHeader) -> (r: Page)
        ensures
            r.header_spec() == header,
            r@ == header_bytes(header) + Seq::new((PAGE_SIZE - HEADER_SIZE) as nat, |i: int| 0u8),
    {
        let mut data = header.to_bytes();
        proof {
            lemma_le_bytes_len(header.offset as nat, 2);
            lemma_le_bytes_len(header.n_cells as nat, 2);
            lemma_le_bytes_len(header.cell_offset as nat, 2);
            lemma_le_bytes_len(header.right_pointer as nat, 4);
        }
        let ghost front = data@;
        while data.len() < PAGE_SIZE
            invariant
                HEADER_SIZE <= data@.len() <= PAGE_SIZE,
                data@ == front + Seq::new((data@.len() - HEADER_SIZE) as nat, |i: int| 0u8),
                front.len() == HEADER_SIZE,
            decreases PAGE_SIZE - data.len(),
        {
            data.push(0u8);
            assert(data@ =~= front + Seq::new((data@.len() - HEADER_SIZE) as nat, |i: int| 0u8));
        }
        assert(data@.take(HEADER_SIZE as int) =~= header_bytes(header));
        Page { data, btree_keys: Vec::new(), checksum: Vec::new(), header }
    }

    /// The page's header.
    pub fn header(&self) -> (r: PageHeader)
        ensures
            r == self.header_spec(),
    {
        self.header
    }

    /// The page's bytes, `PAGE_SIZE` of them, its header's first.
    pub fn as_bytes(&self) -> (r: &Vec<u8>)
        ensures
            r@ == self@,
            r@.len() == PAGE_SIZE,
            r@.take(HEADER_SIZE as int) == header_bytes(self.header_spec()),
    {
        proof {
            use_type_invariant(self);
        }
        &self.data
    }

    /// Where the page with the given index starts in the backing file, or
    /// `None` where that position does not fit in 64 bits.
    pub fn file_offset(index: u64) -> (r: Option<u64>)
        ensures
            index * PAGE_SIZE <= u64::MAX ==> r == Some((index * PAGE_SIZE) as u64),
            index * PAGE_SIZE > u64::MAX ==> r is None,
    {
        index.checked_mul(PAGE_SIZE as u64)
    }
}

} // verus!
