//! The store: the master file and the index forest, held as byte images.
use crate::codec::{
    append_bytes, block_at, block_bytes, dict_block_bytes, dict_header_bytes, header_at,
    header_bytes, lemma_header_round_trip, lemma_u64_bytes, overwrite_prefix, read_u64, u64_at,
    u64_bytes, Block, DictionaryBlock, DictionaryHeader, Header, StoreError, BYTES_BLOCK,
    BYTES_DICTIONARY_BLOCK, BYTES_DICTIONARY_HEADER, BYTES_HEADER, DEFAULT_EXP,
};
use crate::forest::{entry_count, files_view, locate, route, slot_pos};
use crate::laws::lemma_first_key_unique;
use crate::pack::{encode_payload, stored_payload};
use vstd::prelude::*;

verus! {

/// The key of the entry at `j`.
pub open spec fn key_of(d: Seq<u8>, j: int) -> u64 {
    u64_at(d, slot_pos(j))
}

/// The value of the entry at `j`.
pub open spec fn value_of(d: Seq<u8>, j: int) -> u64 {
    u64_at(d, slot_pos(j) + 8)
}

/// An index file of a store holding `n` records: a header that counts the
/// entries, whole entries, at most one per record, and keys that are
/// assigned sequence numbers.
pub open spec fn dict_ok(d: Seq<u8>, n: u64) -> bool {
    &&& d.len() >= BYTES_DICTIONARY_HEADER
    &&& (d.len() - BYTES_DICTIONARY_HEADER) % (BYTES_DICTIONARY_BLOCK as int) == 0
    &&& entry_count(d) <= n
    &&& u64_at(d, 0) == entry_count(d)
    &&& forall|j: int| 0 <= j < entry_count(d) ==> 1 <= #[trigger] key_of(d, j) <= n
}

/// `j` is the first slot of `d` whose key is `s`.
pub open spec fn is_first_key(d: Seq<u8>, s: u64, j: int) -> bool {
    &&& 0 <= j < entry_count(d)
    &&& key_of(d, j) == s
    &&& forall|i: int| 0 <= i < j ==> key_of(d, i) != s
}

/// The value of the first entry of `d` whose key is `s`.
pub open spec fn leaf_offset(d: Seq<u8>, s: u64) -> Option<u64> {
    if exists|j: int| is_first_key(d, s, j) {
        Some(value_of(d, choose|j: int| is_first_key(d, s, j)))
    } else {
        None
    }
}

/// The payload of the record of sequence number `s` that starts at `off`.
pub open spec fn record_at(m: Seq<u8>, off: u64, s: u64) -> Result<Seq<u8>, StoreError> {
    if off < BYTES_HEADER || off + BYTES_BLOCK > m.len() {
        Err(StoreError::CorruptRecord)
    } else {
        let b = block_at(m, off as int);
        if b.nth != s || off + BYTES_BLOCK + b.len > m.len() {
            Err(StoreError::CorruptRecord)
        } else {
            Ok(m.subrange(off + BYTES_BLOCK, off + BYTES_BLOCK + b.len))
        }
    }
}

/// The bytes of index file `d` after the entry `(key, value)` is appended.
pub open spec fn appended(d: Seq<u8>, key: u64, value: u64) -> Seq<u8> {
    u64_bytes((entry_count(d) + 1) as u64) + d.subrange(BYTES_DICTIONARY_HEADER as int, d.len() as int)
        + dict_block_bytes(DictionaryBlock { nth: key, offset: value })
}

/// An open store: its location, its header, the bytes of its master file,
/// and the bytes of each index file by id.
pub struct DBFile {
    pub source_db_root: String,
    pub header: Header,
    pub master: Vec<u8>,
    pub dicts: Vec<Vec<u8>>,
}

impl DBFile {
    pub open spec fn files(&self) -> Seq<Seq<u8>> {
        files_view(self.dicts@)
    }

    /// The master file starts with the header; there is one index file for
    /// the root and one per record; every index file is well formed.
    pub open spec fn wf(&self) -> bool {
        &&& self.master@.len() >= BYTES_HEADER
        &&& header_at(self.master@) == self.header
        &&& self.header.divisor_exp < 64
        &&& self.dicts@.len() == self.header.len + 1
        &&& forall|f: int| 0 <= f < self.dicts@.len() ==> dict_ok(#[trigger] self.files()[f], self.header.len)
    }

    /// What `get` gives for sequence number `s`.
    pub open spec fn lookup(&self, s: u64) -> Result<Seq<u8>, StoreError> {
        if s == 0 || s > self.header.len {
            Err(StoreError::NotFound)
        } else {
            match route(self.files(), self.header.divisor_exp as nat, s) {
                None => Err(StoreError::CorruptRecord),
                Some(r) => if r.0 >= self.files().len() {
                    Err(StoreError::CorruptRecord)
                } else {
                    match leaf_offset(self.files()[r.0 as int], s) {
                        None => Err(StoreError::NotFound),
                        Some(off) => record_at(self.master@, off, s),
                    }
                },
            }
        }
    }

    /// The header after one more record.
    pub open spec fn next_header(&self) -> Header {
        Header { len: (self.header.len + 1) as u64, ..self.header }
    }

    /// `new` is `old` after pushing `source`, compressed first when
    /// `compress` is set.
    pub open spec fn pushed(old: DBFile, new: DBFile, source: Seq<u8>, compress: bool) -> bool {
        DBFile::pushed_bytes(old, new, stored_payload(source, compress))
    }

    /// `new` is `old` after storing `payload`: the header counts one more
    /// record; the master file has the new header in place and the record
    /// appended; the leaf file of the walk for the new sequence number has the
    /// entry appended; an empty index file named after it is added.
    pub open spec fn pushed_bytes(old: DBFile, new: DBFile, payload: Seq<u8>) -> bool {
        let seq = (old.header.len + 1) as u64;
        let off = old.master@.len() as u64;
        let r = route(old.files(), old.header.divisor_exp as nat, seq);
        &&& old.header.len < u64::MAX
        &&& old.master@.len() + BYTES_BLOCK + payload.len() <= usize::MAX
        &&& r is Some
        &&& r.unwrap().0 < old.files().len()
        &&& new.header == old.next_header()
        &&& new.master@ == header_bytes(old.next_header()) + old.master@.subrange(
            BYTES_HEADER as int,
            old.master@.len() as int,
        ) + block_bytes(Block { nth: seq, len: payload.len() as u64 }) + payload
        &&& new.files() == old.files().update(
            r.unwrap().0 as int,
            appended(old.files()[r.unwrap().0 as int], seq, off),
        ).push(dict_header_bytes(DictionaryHeader { len: 0 }))
        &&& new.source_db_root == old.source_db_root
    }
}

impl DBFile {
    /// A fresh store at `source_db_root`: a master file holding only the
    /// header, and an empty root index file.
    pub fn new(source_db_root: String, exp_wrapped: Option<u8>) -> (r: DBFile)
        requires
            exp_wrapped matches Some(e) ==> e < 64,
        ensures
            r.wf(),
            r.header == Header::default_spec(exp_wrapped),
            r.master@ == header_bytes(r.header),
            r.files() == seq![dict_header_bytes(DictionaryHeader { len: 0 })],
            r.source_db_root == source_db_root,
    {
        let exp = match exp_wrapped {
            Some(e) => e,
            None => DEFAULT_EXP,
        };
        let header = Header::with_exp(exp);
        let master = header.encode();
        let root = DictionaryHeader { len: 0 }.encode();
        let mut dicts: Vec<Vec<u8>> = Vec::new();
        dicts.push(root);
        proof {
            lemma_header_round_trip(header);
            lemma_u64_bytes(0);
            assert(files_view(dicts@) =~= seq![dict_header_bytes(DictionaryHeader { len: 0 })]);
            assert(root@.subrange(0, 8) =~= u64_bytes(0));
        }
        DBFile { source_db_root, header, master, dicts }
    }

    /// Creates a store at a location; `location_empty` tells whether the
    /// location holds no master file yet.
    pub fn create(source_db_root: String, exp_wrapped: Option<u8>, location_empty: bool) -> (r: Result<
        DBFile,
        StoreError,
    >)
        requires
            exp_wrapped matches Some(e) ==> e < 64,
        ensures
            !location_empty ==> r == Err::<DBFile, StoreError>(StoreError::AlreadyExists),
            location_empty ==> (r matches Ok(db) && db.wf() && db.header == Header::default_spec(
                exp_wrapped,
            ) && db.master@ == header_bytes(db.header) && db.files() == seq![
                dict_header_bytes(DictionaryHeader { len: 0 }),
            ] && db.source_db_root == source_db_root),
    {
        if !location_empty {
            return Err(StoreError::AlreadyExists);
        }
        Ok(DBFile::new(source_db_root, exp_wrapped))
    }

    /// Checks one index file of a store of `n` records.
    pub fn check_dict(d: &[u8], n: u64) -> (r: bool)
        ensures
            r == dict_ok(d@, n),
    {
        if d.len() < BYTES_DICTIONARY_HEADER || (d.len() - BYTES_DICTIONARY_HEADER)
            % BYTES_DICTIONARY_BLOCK != 0 {
            return false;
        }
        let count = (d.len() - BYTES_DICTIONARY_HEADER) / BYTES_DICTIONARY_BLOCK;
        if count as u64 > n || read_u64(d, 0) != count as u64 {
            return false;
        }
        let mut j: usize = 0;
        while j < count
            invariant
                entry_count(d@) <= n,
                u64_at(d@, 0) == entry_count(d@),
                d@.len() >= BYTES_DICTIONARY_HEADER,
                (d@.len() - BYTES_DICTIONARY_HEADER) % (BYTES_DICTIONARY_BLOCK as int) == 0,
                count == entry_count(d@),
                j <= count,
                forall|i: int| 0 <= i < j ==> 1 <= #[trigger] key_of(d@, i) <= n,
            decreases count - j,
        {
            assert(BYTES_DICTIONARY_HEADER + BYTES_DICTIONARY_BLOCK * j + BYTES_DICTIONARY_BLOCK
                <= d.len()) by (nonlinear_arith)
                requires
                    j < count,
                    count == (d.len() - 8) / 16,
                    d.len() >= 8,
            ;
            let k = read_u64(d, BYTES_DICTIONARY_HEADER + BYTES_DICTIONARY_BLOCK * j);
            if k == 0 || k > n {
                assert(!(1 <= key_of(d@, j as int) <= n));
                return false;
            }
            j = j + 1;
        }
        true
    }

    /// The images of a store that `open` accepts: the master file starts
    /// with a header of exponent below 64, there is one index file for the
    /// root and one per record, and each is well formed.
    pub open spec fn images_ok(master: Seq<u8>, dicts: Seq<Seq<u8>>) -> bool {
        &&& master.len() >= BYTES_HEADER
        &&& header_at(master).divisor_exp < 64
        &&& dicts.len() == header_at(master).len + 1
        &&& forall|f: int| 0 <= f < dicts.len() ==> dict_ok(#[trigger] dicts[f], header_at(master).len)
    }

    /// Opens the store whose master file and index files hold the given
    /// bytes; fails with `CorruptRecord` when they are not a store's.
    pub fn open(source_db_root: String, master: Vec<u8>, dicts: Vec<Vec<u8>>) -> (r: Result<
        DBFile,
        StoreError,
    >)
        ensures
            match r {
                Ok(db) => {
                    &&& DBFile::images_ok(master@, files_view(dicts@))
                    &&& db.wf()
                    &&& db.header == header_at(master@)
                    &&& db.master == master
                    &&& db.dicts == dicts
                    &&& db.source_db_root == source_db_root
                },
                Err(e) => {
                    &&& !DBFile::images_ok(master@, files_view(dicts@))
                    &&& e == StoreError::CorruptRecord
                },
            },
    {
        let header = match Header::decode(master.as_slice()) {
            Ok(h) => h,
            Err(e) => {
                return Err(e);
            },
        };
        if header.divisor_exp >= 64 || header.len >= dicts.len() as u64 || dicts.len() as u64
            != header.len + 1 {
            return Err(StoreError::CorruptRecord);
        }
        let ghost dv = files_view(dicts@);
        let mut f: usize = 0;
        while f < dicts.len()
            invariant
                dv == files_view(dicts@),
                f <= dicts@.len(),
                header == header_at(master@),
                forall|g: int| 0 <= g < f ==> dict_ok(#[trigger] dv[g], header.len),
            decreases dicts@.len() - f,
        {
            if !DBFile::check_dict(dicts[f].as_slice(), header.len) {
                assert(!dict_ok(dv[f as int], header.len));
                return Err(StoreError::CorruptRecord);
            }
            f = f + 1;
        }
        Ok(DBFile { source_db_root, header, master, dicts })
    }

    /// The header of the store whose master file holds `master`.
    pub fn inner_read_header(master: &[u8]) -> (r: Result<Header, StoreError>)
        ensures
            master@.len() < BYTES_HEADER ==> r == Err::<Header, StoreError>(StoreError::CorruptRecord),
            master@.len() >= BYTES_HEADER ==> r == Ok::<Header, StoreError>(header_at(master@)),
    {
        Header::decode(master)
    }

    /// The header of index file `idx`.
    pub fn inner_read_dict_header(&self, idx: u64) -> (r: Result<DictionaryHeader, StoreError>)
        requires
            self.wf(),
        ensures
            idx >= self.dicts@.len() ==> r == Err::<DictionaryHeader, StoreError>(StoreError::NotFound),
            idx < self.dicts@.len() ==> r == Ok::<DictionaryHeader, StoreError>(
                DictionaryHeader { len: entry_count(self.files()[idx as int]) as u64 },
            ),
    {
        if idx >= self.dicts.len() as u64 {
            return Err(StoreError::NotFound);
        }
        assert(dict_ok(self.files()[idx as int], self.header.len));
        DictionaryHeader::decode(self.dicts[idx as usize].as_slice())
    }

    /// Entry `i` of index file `idx`.
    pub fn dict_get(&self, idx: u64, i: u64) -> (r: Result<DictionaryBlock, StoreError>)
        requires
            self.wf(),
        ensures
            idx < self.dicts@.len() && i < entry_count(self.files()[idx as int]) ==> r == Ok::<
                DictionaryBlock,
                StoreError,
            >(
                DictionaryBlock {
                    nth: key_of(self.files()[idx as int], i as int),
                    offset: value_of(self.files()[idx as int], i as int),
                },
            ),
            !(idx < self.dicts@.len() && i < entry_count(self.files()[idx as int])) ==> r == Err::<
                DictionaryBlock,
                StoreError,
            >(StoreError::NotFound),
    {
        if idx >= self.dicts.len() as u64 {
            return Err(StoreError::NotFound);
        }
        let d = self.dicts[idx as usize].as_slice();
        assert(dict_ok(self.files()[idx as int], self.header.len));
        let count = (d.len() - BYTES_DICTIONARY_HEADER) / BYTES_DICTIONARY_BLOCK;
        if i >= count as u64 {
            return Err(StoreError::NotFound);
        }
        let j = i as usize;
        assert(BYTES_DICTIONARY_HEADER + BYTES_DICTIONARY_BLOCK * j + BYTES_DICTIONARY_BLOCK
            <= d.len()) by (nonlinear_arith)
            requires
                j < count,
                count == (d.len() - 8) / 16,
                d.len() >= 8,
        ;
        let pos = BYTES_DICTIONARY_HEADER + BYTES_DICTIONARY_BLOCK * j;
        Ok(DictionaryBlock { nth: read_u64(d, pos), offset: read_u64(d, pos + 8) })
    }

    /// The header of the store.
    pub fn header(&self) -> (r: Header)
        ensures
            r == self.header,
    {
        self.header
    }

    /// Where the store lives.
    pub fn path(&self) -> (r: String)
        ensures
            r@ == self.source_db_root@,
    {
        self.source_db_root.clone()
    }

    /// Where storing `payload` would fail, and why: the images could not
    /// grow, or the walk for the new sequence number met a missing entry.
    pub open spec fn push_error(&self, payload: Seq<u8>) -> Option<StoreError> {
        let seq = (self.header.len + 1) as u64;
        let r = route(self.files(), self.header.divisor_exp as nat, seq);
        if self.dicts@.len() + 1 > usize::MAX || self.master@.len() + BYTES_BLOCK + payload.len()
            > usize::MAX {
            Some(StoreError::CapacityExceeded)
        } else if r is None || r.unwrap().0 >= self.files().len() {
            Some(StoreError::CorruptRecord)
        } else {
            None
        }
    }

    /// Appends `source` (compressed first when `compress` is set) as the record
    /// of the next sequence number, and returns that number.
    pub fn push(&mut self, source: &[u8], compress: bool) -> (r: Result<u64, StoreError>)
        requires
            old(self).wf(),
        ensures
            final(self).wf(),
            match r {
                Ok(seq) => {
                    &&& old(self).push_error(stored_payload(source@, compress)) is None
                    &&& seq == old(self).header.len + 1
                    &&& DBFile::pushed(*old(self), *final(self), source@, compress)
                },
                Err(e) => {
                    &&& old(self).push_error(stored_payload(source@, compress)) == Some(e)
                    &&& *final(self) == *old(self)
                },
            },
    {
        let payload = encode_payload(source, compress);
        self.push_payload(payload.as_slice())
    }

    /// Appends `payload`, as it is to be stored, as the record of the next
    /// sequence number, and returns that number.
    pub fn push_payload(&mut self, payload: &[u8]) -> (r: Result<u64, StoreError>)
        requires
            old(self).wf(),
        ensures
            final(self).wf(),
            match r {
                Ok(seq) => {
                    &&& old(self).push_error(payload@) is None
                    &&& seq == old(self).header.len + 1
                    &&& DBFile::pushed_bytes(*old(self), *final(self), payload@)
                },
                Err(e) => {
                    &&& old(self).push_error(payload@) == Some(e)
                    &&& *final(self) == *old(self)
                },
            },
    {
        let dcount = self.dicts.len();
        let mlen = self.master.len();
        if dcount == usize::MAX || payload.len() > usize::MAX - BYTES_BLOCK || mlen > usize::MAX
            - BYTES_BLOCK - payload.len() {
            return Err(StoreError::CapacityExceeded);
        }
        let seq = self.header.len + 1;
        let rt = match locate(&self.dicts, self.header.divisor_exp, seq) {
            None => {
                return Err(StoreError::CorruptRecord);
            },
            Some(rt) => rt,
        };
        if rt.file >= dcount as u64 {
            return Err(StoreError::CorruptRecord);
        }
        let file = rt.file as usize;
        let off = mlen as u64;
        let ghost od = self.files()[file as int];
        let old_d = self.dicts[file].as_slice();
        assert(old_d@ == od);
        assert(dict_ok(od, self.header.len));
        let count = (old_d.len() - BYTES_DICTIONARY_HEADER) / BYTES_DICTIONARY_BLOCK;
        let mut nd = DictionaryHeader { len: (count + 1) as u64 }.encode();
        append_bytes(&mut nd, vstd::slice::slice_subrange(old_d, BYTES_DICTIONARY_HEADER, old_d.len()));
        let entry = DictionaryBlock { nth: seq, offset: off }.encode();
        append_bytes(&mut nd, entry.as_slice());
        assert(nd@ =~= appended(od, seq, off));
        let nh = Header { reversion: self.header.reversion, divisor_exp: self.header.divisor_exp, len: seq };
        let hb = nh.encode();
        let block = Block { nth: seq, len: payload.len() as u64 }.encode();
        let ghost old_self = *self;
        proof {
            lemma_header_round_trip(nh);
        }
        self.header = nh;
        overwrite_prefix(&mut self.master, hb.as_slice());
        append_bytes(&mut self.master, block.as_slice());
        append_bytes(&mut self.master, payload);
        self.dicts.set(file, nd);
        self.dicts.push(DictionaryHeader { len: 0 }.encode());
        proof {
            assert(self.files() =~= old_self.files().update(file as int, appended(od, seq, off)).push(
                dict_header_bytes(DictionaryHeader { len: 0 }),
            ));
            DBFile::lemma_pushed_wf(old_self, *self, payload@);
        }
        Ok(seq)
    }

    /// Reads the payload of the record of sequence number `nth` at `off`.
    pub fn read_record(&self, off: u64, nth: u64) -> (r: Result<Vec<u8>, StoreError>)
        ensures
            match r {
                Ok(v) => record_at(self.master@, off, nth) == Ok::<Seq<u8>, StoreError>(v@),
                Err(e) => record_at(self.master@, off, nth) == Err::<Seq<u8>, StoreError>(e),
            },
    {
        let m = self.master.as_slice();
        let n = m.len();
        if off < BYTES_HEADER as u64 || off > n as u64 || (n as u64) - off < BYTES_BLOCK as u64 {
            return Err(StoreError::CorruptRecord);
        }
        let start = off as usize;
        let block = Block { nth: read_u64(m, start), len: read_u64(m, start + 8) };
        let body = start + BYTES_BLOCK;
        if block.nth != nth || block.len > (n - body) as u64 {
            return Err(StoreError::CorruptRecord);
        }
        let end = body + block.len as usize;
        let mut v: Vec<u8> = Vec::new();
        append_bytes(&mut v, vstd::slice::slice_subrange(m, body, end));
        assert(v@ =~= self.master@.subrange(off + BYTES_BLOCK, off + BYTES_BLOCK + block.len));
        Ok(v)
    }

    /// The stored payload of sequence number `nth`.
    pub fn get(&self, nth: u64) -> (r: Result<Vec<u8>, StoreError>)
        requires
            self.wf(),
        ensures
            (nth == 0 || nth > self.header.len) ==> r == Err::<Vec<u8>, StoreError>(StoreError::NotFound),
            match r {
                Ok(v) => self.lookup(nth) == Ok::<Seq<u8>, StoreError>(v@),
                Err(e) => self.lookup(nth) == Err::<Seq<u8>, StoreError>(e),
            },
    {
        if nth == 0 || nth > self.header.len {
            return Err(StoreError::NotFound);
        }
        let rt = match locate(&self.dicts, self.header.divisor_exp, nth) {
            None => {
                return Err(StoreError::CorruptRecord);
            },
            Some(rt) => rt,
        };
        if rt.file >= self.dicts.len() as u64 {
            return Err(StoreError::CorruptRecord);
        }
        let d = self.dicts[rt.file as usize].as_slice();
        let ghost dv = self.files()[rt.file as int];
        assert(d@ == dv);
        let count = (d.len() - BYTES_DICTIONARY_HEADER) / BYTES_DICTIONARY_BLOCK;
        let mut j: usize = 0;
        while j < count
            invariant
                d@ == dv,
                1 <= nth <= self.header.len,
                rt.file < self.files().len(),
                dv == self.files()[rt.file as int],
                route(self.files(), self.header.divisor_exp as nat, nth) == Some(
                    (rt.file, rt.reads as nat),
                ),
                count == entry_count(dv),
                dv.len() >= BYTES_DICTIONARY_HEADER,
                j <= count,
                forall|i: int| 0 <= i < j ==> key_of(dv, i) != nth,
            decreases count - j,
        {
            assert(BYTES_DICTIONARY_HEADER + BYTES_DICTIONARY_BLOCK * j + BYTES_DICTIONARY_BLOCK
                <= d.len()) by (nonlinear_arith)
                requires
                    j < count,
                    count == (d.len() - 8) / 16,
                    d.len() >= 8,
            ;
            let pos = BYTES_DICTIONARY_HEADER + BYTES_DICTIONARY_BLOCK * j;
            if read_u64(d, pos) == nth {
                let off = read_u64(d, pos + 8);
                proof {
                    assert(is_first_key(dv, nth, j as int));
                    lemma_first_key_unique(dv, nth, j as int);
                    assert(self.lookup(nth) == record_at(self.master@, off, nth));
                }
                return self.read_record(off, nth);
            }
            j = j + 1;
        }
        Err(StoreError::NotFound)
    }
}

} // verus!
