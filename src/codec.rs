//! Fixed-width little-endian layout of the four on-disk record types.
use vstd::bytes::*;
use vstd::prelude::*;

verus! {

/// Size in bytes of the master file header.
pub const BYTES_HEADER: usize = 11;

/// Size in bytes of a block record header.
pub const BYTES_BLOCK: usize = 16;

/// Size in bytes of an index file header.
pub const BYTES_DICTIONARY_HEADER: usize = 8;

/// Size in bytes of an index entry.
pub const BYTES_DICTIONARY_BLOCK: usize = 16;

/// Current format version written into new master files.
pub const QSDB_REVERSION: u16 = 1;

/// Fanout exponent used when none is given.
pub const DEFAULT_EXP: u8 = 4;

/// Master file header.
#[derive(Clone, Copy, Debug, PartialEq, Eq, Structural)]
pub struct Header {
    pub reversion: u16,
    pub divisor_exp: u8,
    pub len: u64,
}

/// Header of one record of the master file; the payload follows it.
#[derive(Clone, Copy, Debug, PartialEq, Eq, Structural)]
pub struct Block {
    pub nth: u64,
    pub len: u64,
}

/// Index file header: the number of entries appended to the file.
#[derive(Clone, Copy, Debug, PartialEq, Eq, Structural)]
pub struct DictionaryHeader {
    pub len: u64,
}

/// Index entry. Read at a leaf, `nth` is a sequence number and `offset` the
/// position of its record in the master file; read on the way down, `nth`
/// names the index file where the walk continues.
#[derive(Clone, Copy, Debug, PartialEq, Eq, Structural)]
pub struct DictionaryBlock {
    pub nth: u64,
    pub offset: u64,
}

/// Why an operation on the store failed.
#[derive(Clone, Copy, Debug, PartialEq, Eq, Structural)]
pub enum StoreError {
    CorruptRecord,
    NotFound,
    AlreadyExists,
    IoFailure,
    CompressionFailure,
    CapacityExceeded,
}

/// How an index or master file is opened for writing.
#[derive(Clone, Copy, Debug, PartialEq, Eq, Structural)]
pub enum Mode {
    Create,
    Modification,
}

pub open spec fn u16_bytes(x: u16) -> Seq<u8> {
    spec_u16_to_le_bytes(x)
}

pub open spec fn u64_bytes(x: u64) -> Seq<u8> {
    spec_u64_to_le_bytes(x)
}

pub open spec fn header_bytes(h: Header) -> Seq<u8> {
    u16_bytes(h.reversion) + seq![h.divisor_exp] + u64_bytes(h.len)
}

pub open spec fn block_bytes(b: Block) -> Seq<u8> {
    u64_bytes(b.nth) + u64_bytes(b.len)
}

pub open spec fn dict_header_bytes(h: DictionaryHeader) -> Seq<u8> {
    u64_bytes(h.len)
}

pub open spec fn dict_block_bytes(b: DictionaryBlock) -> Seq<u8> {
    u64_bytes(b.nth) + u64_bytes(b.offset)
}

/// The header stored in the first bytes of `s`.
pub open spec fn header_at(s: Seq<u8>) -> Header {
    Header {
        reversion: spec_u16_from_le_bytes(s.subrange(0, 2)),
        divisor_exp: s[2],
        len: spec_u64_from_le_bytes(s.subrange(3, 11)),
    }
}

/// The `u64` stored in the eight bytes of `s` starting at `at`.
pub open spec fn u64_at(s: Seq<u8>, at: int) -> u64 {
    spec_u64_from_le_bytes(s.subrange(at, at + 8))
}

pub open spec fn block_at(s: Seq<u8>, at: int) -> Block {
    Block { nth: u64_at(s, at), len: u64_at(s, at + 8) }
}

pub open spec fn dict_block_at(s: Seq<u8>, at: int) -> DictionaryBlock {
    DictionaryBlock { nth: u64_at(s, at), offset: u64_at(s, at + 8) }
}

pub proof fn lemma_u64_bytes(x: u64)
    ensures
        u64_bytes(x).len() == 8,
        spec_u64_from_le_bytes(u64_bytes(x)) == x,
{
    lemma_auto_spec_u64_to_from_le_bytes();
}

pub proof fn lemma_u16_bytes(x: u16)
    ensures
        u16_bytes(x).len() == 2,
        spec_u16_from_le_bytes(u16_bytes(x)) == x,
{
    lemma_auto_spec_u16_to_from_le_bytes();
    assert(spec_u16_to_le_bytes(x).len() == 2);
}

/// Decoding the encoding of a header gives it back.
pub proof fn lemma_header_round_trip(h: Header)
    ensures
        header_bytes(h).len() == BYTES_HEADER,
        header_at(header_bytes(h)) == h,
{
    lemma_u16_bytes(h.reversion);
    lemma_u64_bytes(h.len);
    let s = header_bytes(h);
    assert(s.subrange(0, 2) =~= u16_bytes(h.reversion));
    assert(s.subrange(3, 11) =~= u64_bytes(h.len));
}

/// Decoding the encoding of a block header gives it back.
pub proof fn lemma_block_round_trip(b: Block)
    ensures
        block_bytes(b).len() == BYTES_BLOCK,
        block_at(block_bytes(b), 0) == b,
{
    lemma_u64_bytes(b.nth);
    lemma_u64_bytes(b.len);
    let s = block_bytes(b);
    assert(s.subrange(0, 8) =~= u64_bytes(b.nth));
    assert(s.subrange(8, 16) =~= u64_bytes(b.len));
}

/// Decoding the encoding of an index entry gives it back.
pub proof fn lemma_dict_block_round_trip(b: DictionaryBlock)
    ensures
        dict_block_bytes(b).len() == BYTES_DICTIONARY_BLOCK,
        dict_block_at(dict_block_bytes(b), 0) == b,
{
    lemma_u64_bytes(b.nth);
    lemma_u64_bytes(b.offset);
    let s = dict_block_bytes(b);
    assert(s.subrange(0, 8) =~= u64_bytes(b.nth));
    assert(s.subrange(8, 16) =~= u64_bytes(b.offset));
}

/// A `u64` read from bytes that agree on its eight positions is the same.
pub proof fn lemma_u64_at_same(s: Seq<u8>, t: Seq<u8>, at: int)
    requires
        0 <= at,
        at + 8 <= s.len(),
        at + 8 <= t.len(),
        forall|i: int| at <= i < at + 8 ==> s[i] == t[i],
    ensures
        u64_at(t, at) == u64_at(s, at),
{
    assert(t.subrange(at, at + 8) =~= s.subrange(at, at + 8));
}

/// The `u64` read at `at` of bytes that hold `u64_bytes(x)` there is `x`.
pub proof fn lemma_u64_at_bytes(t: Seq<u8>, at: int, x: u64)
    requires
        0 <= at,
        at + 8 <= t.len(),
        forall|i: int| 0 <= i < 8 ==> t[at + i] == #[trigger] u64_bytes(x)[i],
    ensures
        u64_at(t, at) == x,
{
    lemma_u64_bytes(x);
    assert(t.subrange(at, at + 8) =~= u64_bytes(x));
}

/// The header read from bytes that start with an encoded header.
pub proof fn lemma_header_prefix(h: Header, rest: Seq<u8>)
    ensures
        header_at(header_bytes(h) + rest) == h,
{
    lemma_header_round_trip(h);
    let a = header_bytes(h);
    let t = a + rest;
    assert(t.subrange(0, 2) =~= a.subrange(0, 2));
    assert(t.subrange(3, 11) =~= a.subrange(3, 11));
}

/// Appends `b` to `v`.
pub fn append_bytes(v: &mut Vec<u8>, b: &[u8])
    ensures
        final(v)@ == old(v)@ + b@,
{
    v.extend_from_slice(b);
    assert(final(v)@ =~= old(v)@ + b@);
}

/// Replaces the first bytes of `v` with `b`.
pub fn overwrite_prefix(v: &mut Vec<u8>, b: &[u8])
    requires
        b@.len() <= old(v)@.len(),
    ensures
        final(v)@ == b@ + old(v)@.subrange(b@.len() as int, old(v)@.len() as int),
{
    let mut i: usize = 0;
    while i < b.len()
        invariant
            b@.len() <= old(v)@.len(),
            i <= b@.len(),
            v@.len() == old(v)@.len(),
            forall|k: int| 0 <= k < i ==> v@[k] == b@[k],
            forall|k: int| i <= k < v@.len() ==> v@[k] == old(v)@[k],
        decreases b@.len() - i,
    {
        v.set(i, b[i]);
        i = i + 1;
    }
    assert(v@ =~= b@ + old(v)@.subrange(b@.len() as int, old(v)@.len() as int));
}

/// Reads the `u64` at `at`.
pub fn read_u64(s: &[u8], at: usize) -> (r: u64)
    requires
        at + 8 <= s@.len(),
    ensures
        r == u64_at(s@, at as int),
{
    let n = s.len();
    assert(at + 8 <= n);
    let part = vstd::slice::slice_subrange(s, at, at + 8);
    u64_from_le_bytes(part)
}

impl Header {
    /// The header of a new store, with the default exponent where none is given.
    pub open spec fn default_spec(exp: Option<u8>) -> Header {
        Header {
            reversion: QSDB_REVERSION,
            divisor_exp: match exp {
                Some(e) => e,
                None => DEFAULT_EXP,
            },
            len: 0,
        }
    }

    /// The header of a new store with the given fanout exponent.
    pub fn with_exp(divisor_exp: u8) -> (r: Header)
        ensures
            r == (Header { reversion: QSDB_REVERSION, divisor_exp, len: 0 }),
    {
        Header { reversion: QSDB_REVERSION, divisor_exp, len: 0 }
    }

    /// The header of a new store with the default exponent.
    pub fn default_header() -> (r: Header)
        ensures
            r == (Header { reversion: QSDB_REVERSION, divisor_exp: DEFAULT_EXP, len: 0 }),
    {
        Header::with_exp(DEFAULT_EXP)
    }

    pub fn encode(&self) -> (r: Vec<u8>)
        ensures
            r@ == header_bytes(*self),
    {
        let mut r = u16_to_le_bytes(self.reversion);
        r.push(self.divisor_exp);
        let tail = u64_to_le_bytes(self.len);
        append_bytes(&mut r, tail.as_slice());
        proof {
            lemma_u16_bytes(self.reversion);
        }
        assert(r@ =~= header_bytes(*self));
        r
    }

    /// Decodes the header at the start of `s`; fails when `s` is too short.
    pub fn decode(s: &[u8]) -> (r: Result<Header, StoreError>)
        ensures
            s@.len() < BYTES_HEADER ==> r == Err::<Header, StoreError>(StoreError::CorruptRecord),
            s@.len() >= BYTES_HEADER ==> r == Ok::<Header, StoreError>(header_at(s@)),
    {
        if s.len() < BYTES_HEADER {
            return Err(StoreError::CorruptRecord);
        }
        let reversion = u16_from_le_bytes(vstd::slice::slice_subrange(s, 0, 2));
        let len = read_u64(s, 3);
        Ok(Header { reversion, divisor_exp: s[2], len })
    }
}

impl Block {
    pub fn encode(&self) -> (r: Vec<u8>)
        ensures
            r@ == block_bytes(*self),
    {
        let mut r = u64_to_le_bytes(self.nth);
        let tail = u64_to_le_bytes(self.len);
        append_bytes(&mut r, tail.as_slice());
        r
    }

    /// Decodes the block header at `at`; fails when fewer than its size remain.
    pub fn decode(s: &[u8], at: usize) -> (r: Result<Block, StoreError>)
        ensures
            at + BYTES_BLOCK > s@.len() ==> r == Err::<Block, StoreError>(StoreError::CorruptRecord),
            at + BYTES_BLOCK <= s@.len() ==> r == Ok::<Block, StoreError>(block_at(s@, at as int)),
    {
        if at > s.len() || s.len() - at < BYTES_BLOCK {
            return Err(StoreError::CorruptRecord);
        }
        Ok(Block { nth: read_u64(s, at), len: read_u64(s, at + 8) })
    }
}

impl DictionaryHeader {
    pub fn encode(&self) -> (r: Vec<u8>)
        ensures
            r@ == dict_header_bytes(*self),
    {
        u64_to_le_bytes(self.len)
    }

    /// Decodes the index file header at the start of `s`.
    pub fn decode(s: &[u8]) -> (r: Result<DictionaryHeader, StoreError>)
        ensures
            s@.len() < BYTES_DICTIONARY_HEADER ==> r == Err::<DictionaryHeader, StoreError>(
                StoreError::CorruptRecord,
            ),
            s@.len() >= BYTES_DICTIONARY_HEADER ==> r == Ok::<DictionaryHeader, StoreError>(
                DictionaryHeader { len: u64_at(s@, 0) },
            ),
    {
        if s.len() < BYTES_DICTIONARY_HEADER {
            return Err(StoreError::CorruptRecord);
        }
        Ok(DictionaryHeader { len: read_u64(s, 0) })
    }
}

impl DictionaryBlock {
    pub fn encode(&self) -> (r: Vec<u8>)
        ensures
            r@ == dict_block_bytes(*self),
    {
        let mut r = u64_to_le_bytes(self.nth);
        let tail = u64_to_le_bytes(self.offset);
        append_bytes(&mut r, tail.as_slice());
        r
    }

    /// Decodes the index entry at `at`; fails when fewer than its size remain.
    pub fn decode(s: &[u8], at: usize) -> (r: Result<DictionaryBlock, StoreError>)
        ensures
            at + BYTES_DICTIONARY_BLOCK > s@.len() ==> r == Err::<DictionaryBlock, StoreError>(
                StoreError::CorruptRecord,
            ),
            at + BYTES_DICTIONARY_BLOCK <= s@.len() ==> r == Ok::<DictionaryBlock, StoreError>(
                dict_block_at(s@, at as int),
            ),
    {
        if at > s.len() || s.len() - at < BYTES_DICTIONARY_BLOCK {
            return Err(StoreError::CorruptRecord);
        }
        Ok(DictionaryBlock { nth: read_u64(s, at), offset: read_u64(s, at + 8) })
    }
}

} // verus!
