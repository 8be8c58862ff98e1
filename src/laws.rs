//! What holds across pushes: the store stays well formed, a push is read
//! back, and nothing a get could read before a push changes after it.
use crate::codec::{
    block_at, block_bytes, dict_header_bytes, header_bytes, lemma_block_round_trip, lemma_header_prefix,
    lemma_header_round_trip, lemma_u64_at_bytes, lemma_u64_at_same, lemma_u64_bytes, u64_at,
    u64_bytes, Block, DictionaryHeader, StoreError, BYTES_BLOCK, BYTES_DICTIONARY_BLOCK,
    BYTES_DICTIONARY_HEADER, BYTES_HEADER,
};
use crate::forest::{entry_count, key_at, route, route_from, slot_pos};
use crate::pack::stored_payload;
use crate::store::{
    appended, dict_ok, is_first_key, key_of, leaf_offset, value_of, DBFile,
};
use vstd::arithmetic::power2::{lemma_pow2_pos, pow2};
use vstd::prelude::*;

verus! {

/// Appending an entry keeps the earlier entries and adds one at the end.
pub proof fn lemma_appended(d: Seq<u8>, key: u64, value: u64)
    requires
        d.len() >= BYTES_DICTIONARY_HEADER,
        (d.len() - BYTES_DICTIONARY_HEADER) % (BYTES_DICTIONARY_BLOCK as int) == 0,
        entry_count(d) < u64::MAX,
    ensures
        appended(d, key, value).len() == d.len() + BYTES_DICTIONARY_BLOCK,
        u64_at(appended(d, key, value), 0) == entry_count(d) + 1,
        (appended(d, key, value).len() - BYTES_DICTIONARY_HEADER) % (BYTES_DICTIONARY_BLOCK as int) == 0,
        entry_count(appended(d, key, value)) == entry_count(d) + 1,
        forall|j: int| 0 <= j < entry_count(d) ==> #[trigger] key_of(appended(d, key, value), j) == key_of(d, j)
            && value_of(appended(d, key, value), j) == value_of(d, j),
        key_of(appended(d, key, value), entry_count(d)) == key,
        value_of(appended(d, key, value), entry_count(d)) == value,
{
    let n = appended(d, key, value);
    let c = entry_count(d);
    let k = (c + 1) as u64;
    lemma_u64_bytes(k);
    lemma_u64_bytes(key);
    lemma_u64_bytes(value);
    assert(n.len() == d.len() + 16);
    assert(entry_count(n) == c + 1) by (nonlinear_arith)
        requires
            entry_count(n) == (n.len() - 8) / 16,
            c == (d.len() - 8) / 16,
            n.len() == d.len() + 16,
            d.len() >= 8,
    ;
    assert(d.len() == 8 + 16 * c) by (nonlinear_arith)
        requires
            c == (d.len() - 8) / 16,
            (d.len() - 8) % 16 == 0,
            d.len() >= 8,
    ;
    assert forall|i: int| 8 <= i < d.len() implies n[i] == d[i] by {}
    assert forall|i: int| 0 <= i < 8 implies n[0 + i] == #[trigger] u64_bytes(k)[i] by {}
    lemma_u64_at_bytes(n, 0, k);
    assert forall|j: int| 0 <= j < c implies #[trigger] key_of(n, j) == key_of(d, j) && value_of(n, j)
        == value_of(d, j) by {
        assert(slot_pos(j) + 16 <= d.len()) by (nonlinear_arith)
            requires
                0 <= j < c,
                d.len() == 8 + 16 * c,
                slot_pos(j) == 8 + 16 * j,
        ;
        lemma_u64_at_same(d, n, slot_pos(j));
        lemma_u64_at_same(d, n, slot_pos(j) + 8);
    }
    assert(slot_pos(c) == d.len());
    assert forall|i: int| 0 <= i < 8 implies n[slot_pos(c) + i] == #[trigger] u64_bytes(key)[i] by {}
    lemma_u64_at_bytes(n, slot_pos(c), key);
    assert forall|i: int| 0 <= i < 8 implies n[slot_pos(c) + 8 + i] == #[trigger] u64_bytes(value)[i] by {}
    lemma_u64_at_bytes(n, slot_pos(c) + 8, value);
}

/// `new` holds every file of `old`, each with at least its entries and the
/// same keys and values in them.
pub open spec fn files_extend(old: Seq<Seq<u8>>, new: Seq<Seq<u8>>) -> bool {
    &&& old.len() <= new.len()
    &&& forall|f: int|
        0 <= f < old.len() ==> {
            &&& old[f].len() >= BYTES_DICTIONARY_HEADER
            &&& new[f].len() >= BYTES_DICTIONARY_HEADER
            &&& entry_count(old[f]) <= entry_count(new[f])
            &&& forall|j: int|
                0 <= j < entry_count(old[f]) ==> #[trigger] key_of(new[f], j) == key_of(old[f], j)
                    && value_of(new[f], j) == value_of(old[f], j)
        }
}

/// A walk that succeeds on `old` takes the same way on a forest that extends it.
pub proof fn lemma_route_from_stable(old: Seq<Seq<u8>>, new: Seq<Seq<u8>>, f: u64, cur: nat, level: nat)
    requires
        files_extend(old, new),
        route_from(old, f, cur, level) is Some,
    ensures
        route_from(new, f, cur, level) == route_from(old, f, cur, level),
    decreases level,
{
    let p = pow2(level);
    lemma_pow2_pos(level);
    if !(cur % p == 0 || level == 0) {
        let q = cur / p;
        if q == 0 {
            assert(route_from(old, f, cur, level) == route_from(old, f, cur % p, (level - 1) as nat));
            lemma_route_from_stable(old, new, f, cur % p, (level - 1) as nat);
        } else {
            let slot = level + q - 1;
            let next = key_at(old, f, slot).unwrap();
            assert(key_of(new[f as int], slot) == key_of(old[f as int], slot));
            assert(key_at(new, f, slot) == key_at(old, f, slot));
            assert(route_from(old, next, cur % p, (level - 1) as nat) is Some);
            lemma_route_from_stable(old, new, next, cur % p, (level - 1) as nat);
        }
    }
}

/// The first entry with a given key stays the first one when entries are added.
pub proof fn lemma_leaf_offset_stable(old: Seq<u8>, new: Seq<u8>, s: u64)
    requires
        leaf_offset(old, s) is Some,
        entry_count(old) <= entry_count(new),
        forall|j: int| 0 <= j < entry_count(old) ==> #[trigger] key_of(new, j) == key_of(old, j)
            && value_of(new, j) == value_of(old, j),
    ensures
        leaf_offset(new, s) == leaf_offset(old, s),
{
    let j = choose|j: int| is_first_key(old, s, j);
    assert(key_of(new, j) == key_of(old, j));
    assert forall|i: int| 0 <= i < j implies key_of(new, i) != s by {
        assert(key_of(new, i) == key_of(old, i));
    }
    assert(is_first_key(new, s, j));
    lemma_first_key_unique(new, s, j);
}

/// At most one slot is the first with a given key.
pub proof fn lemma_first_key_unique(d: Seq<u8>, s: u64, j: int)
    requires
        is_first_key(d, s, j),
    ensures
        leaf_offset(d, s) == Some(value_of(d, j)),
{
    let c = choose|c: int| is_first_key(d, s, c);
    assert(c == j) by {
        if c < j {
            assert(key_of(d, c) != s);
        }
        if j < c {
            assert(key_of(d, j) != s);
        }
    }
}

impl DBFile {
    /// A push followed by a get of the sequence number it returned never
    /// fails: the get gives back the stored bytes of the pushed payload.
    pub proof fn lemma_push_then_get(old: DBFile, new: DBFile, source: Seq<u8>, compress: bool)
        requires
            old.wf(),
            DBFile::pushed(old, new, source, compress),
        ensures
            new.lookup((old.header.len + 1) as u64) == Ok::<Seq<u8>, StoreError>(
                stored_payload(source, compress),
            ),
    {
        DBFile::lemma_pushed_wf(old, new, stored_payload(source, compress));
        let n = old.header.len;
        let seq = (n + 1) as u64;
        let e = old.header.divisor_exp as nat;
        let file = route(old.files(), e, seq).unwrap().0;
        let off = old.master@.len() as u64;
        let od = old.files()[file as int];
        let nd = new.files()[file as int];
        let payload = stored_payload(source, compress);
        lemma_route_from_stable(old.files(), new.files(), 0, seq as nat, e);
        assert(dict_ok(od, n));
        lemma_appended(od, seq, off);
        let c = entry_count(od);
        assert forall|i: int| 0 <= i < c implies key_of(nd, i) != seq by {
            assert(key_of(nd, i) == key_of(od, i));
        }
        assert(is_first_key(nd, seq, c));
        lemma_first_key_unique(nd, seq, c);
        let m = new.master@;
        let b = Block { nth: seq, len: payload.len() as u64 };
        lemma_block_round_trip(b);
        lemma_header_round_trip(old.next_header());
        let front = header_bytes(old.next_header()) + old.master@.subrange(
            BYTES_HEADER as int,
            old.master@.len() as int,
        );
        assert(front.len() == off);
        assert(m == front + block_bytes(b) + payload);
        lemma_u64_bytes(seq);
        lemma_u64_bytes(b.len);
        assert forall|i: int| 0 <= i < 8 implies m[off + i] == #[trigger] u64_bytes(seq)[i] by {
            assert(m[off + i] == block_bytes(b)[i]);
            assert(block_bytes(b)[i] == u64_bytes(seq)[i]);
        }
        lemma_u64_at_bytes(m, off as int, seq);
        assert forall|i: int| 0 <= i < 8 implies m[off + 8 + i] == #[trigger] u64_bytes(b.len)[i] by {
            assert(m[off + 8 + i] == block_bytes(b)[8 + i]);
            assert(block_bytes(b)[8 + i] == u64_bytes(b.len)[i]);
        }
        lemma_u64_at_bytes(m, off + 8, b.len);
        assert(m.subrange(off + BYTES_BLOCK, off + BYTES_BLOCK + b.len) =~= payload);
    }

    /// A push changes nothing that a get could read before it.
    pub proof fn lemma_push_keeps(old: DBFile, new: DBFile, source: Seq<u8>, compress: bool, s: u64)
        requires
            old.wf(),
            DBFile::pushed(old, new, source, compress),
            old.lookup(s) is Ok,
        ensures
            new.lookup(s) == old.lookup(s),
    {
        DBFile::lemma_pushed_wf(old, new, stored_payload(source, compress));
        let e = old.header.divisor_exp as nat;
        lemma_route_from_stable(old.files(), new.files(), 0, s as nat, e);
        let file = route(old.files(), e, s).unwrap().0 as int;
        lemma_leaf_offset_stable(old.files()[file], new.files()[file], s);
        let off = leaf_offset(old.files()[file], s).unwrap();
        let om = old.master@;
        let nm = new.master@;
        lemma_u64_at_same(om, nm, off as int);
        lemma_u64_at_same(om, nm, off + 8);
        let b = block_at(om, off as int);
        assert(nm.subrange(off + BYTES_BLOCK, off + BYTES_BLOCK + b.len) =~= om.subrange(
            off + BYTES_BLOCK,
            off + BYTES_BLOCK + b.len,
        ));
    }

    /// Round trip over any run of pushes: after pushes of `sources[0]`,
    /// `sources[1]`, ... onto a store holding `k` records, the store holds
    /// `k + n` records and a get of `k + i + 1` gives the stored bytes of
    /// `sources[i]`, for every `i < n`.
    pub proof fn lemma_pushes_round_trip(stores: Seq<DBFile>, sources: Seq<Seq<u8>>, flags: Seq<bool>)
        requires
            stores.len() == sources.len() + 1,
            flags.len() == sources.len(),
            stores[0].wf(),
            forall|k: int|
                0 <= k < sources.len() ==> DBFile::pushed(
                    #[trigger] stores[k],
                    stores[k + 1],
                    sources[k],
                    flags[k],
                ),
        ensures
            stores.last().wf(),
            stores.last().header.len == stores[0].header.len + sources.len(),
            forall|i: int|
                0 <= i < sources.len() ==> stores.last().lookup(
                    (stores[0].header.len + i + 1) as u64,
                ) == Ok::<Seq<u8>, StoreError>(stored_payload(#[trigger] sources[i], flags[i])),
        decreases sources.len(),
    {
        let n = sources.len() as int;
        if n > 0 {
            let ps = stores.drop_last();
            let pf = flags.drop_last();
            let pz = sources.drop_last();
            assert forall|k: int| 0 <= k < pz.len() implies DBFile::pushed(
                #[trigger] ps[k],
                ps[k + 1],
                pz[k],
                pf[k],
            ) by {
                assert(DBFile::pushed(stores[k], stores[k + 1], sources[k], flags[k]));
            }
            DBFile::lemma_pushes_round_trip(ps, pz, pf);
            let prev = ps.last();
            assert(prev == stores[n - 1]);
            assert(DBFile::pushed(stores[n - 1], stores[n], sources[n - 1], flags[n - 1]));
            DBFile::lemma_pushed_wf(prev, stores.last(), stored_payload(sources[n - 1], flags[n - 1]));
            DBFile::lemma_push_then_get(prev, stores.last(), sources[n - 1], flags[n - 1]);
            assert forall|i: int| 0 <= i < n implies stores.last().lookup(
                (stores[0].header.len + i + 1) as u64,
            ) == Ok::<Seq<u8>, StoreError>(stored_payload(#[trigger] sources[i], flags[i])) by {
                if i < n - 1 {
                    assert(pz[i] == sources[i]);
                    assert(pf[i] == flags[i]);
                    DBFile::lemma_push_keeps(
                        prev,
                        stores.last(),
                        sources[n - 1],
                        flags[n - 1],
                        (stores[0].header.len + i + 1) as u64,
                    );
                }
            }
        }
    }

    /// Pushing keeps the store well formed.
    pub proof fn lemma_pushed_wf(old: DBFile, new: DBFile, payload: Seq<u8>)
        requires
            old.wf(),
            DBFile::pushed_bytes(old, new, payload),
        ensures
            new.wf(),
            files_extend(old.files(), new.files()),
            new.master@.len() >= old.master@.len(),
            forall|i: int| BYTES_HEADER <= i < old.master@.len() ==> new.master@[i] == old.master@[i],
    {
        let n = old.header.len;
        let seq = (n + 1) as u64;
        let file = route(old.files(), old.header.divisor_exp as nat, seq).unwrap().0 as int;
        let off = old.master@.len() as u64;
        let od = old.files()[file];
        let nd = appended(od, seq, off);
        assert(dict_ok(od, n));
        lemma_appended(od, seq, off);
        lemma_header_prefix(old.next_header(), new.master@.subrange(BYTES_HEADER as int, new.master@.len() as int));
        lemma_header_round_trip(old.next_header());
        assert(new.master@ =~= header_bytes(old.next_header()) + new.master@.subrange(
            BYTES_HEADER as int,
            new.master@.len() as int,
        ));
        lemma_u64_bytes(0);
        assert(new.dicts@.len() == new.files().len());
        assert forall|f: int| 0 <= f < new.dicts@.len() implies dict_ok(#[trigger] new.files()[f], new.header.len) by {
            if f == file {
                assert(new.files()[f] == nd);
                assert forall|j: int| 0 <= j < entry_count(nd) implies 1 <= #[trigger] key_of(nd, j) <= n + 1 by {
                    if j < entry_count(od) {
                        assert(key_of(nd, j) == key_of(od, j));
                    }
                }
            } else if f < old.dicts@.len() {
                assert(new.files()[f] == old.files()[f]);
                assert(dict_ok(old.files()[f], n));
            } else {
                assert(new.files()[f] == dict_header_bytes(DictionaryHeader { len: 0 }));
                assert(entry_count(new.files()[f]) == 0);
                assert(new.files()[f].subrange(0, 8) =~= u64_bytes(0));
            }
        }
        assert forall|f: int| 0 <= f < old.files().len() implies {
            &&& old.files()[f].len() >= BYTES_DICTIONARY_HEADER
            &&& new.files()[f].len() >= BYTES_DICTIONARY_HEADER
            &&& entry_count(old.files()[f]) <= entry_count(new.files()[f])
            &&& forall|j: int|
                0 <= j < entry_count(old.files()[f]) ==> #[trigger] key_of(new.files()[f], j) == key_of(old.files()[f], j)
                    && value_of(new.files()[f], j) == value_of(old.files()[f], j)
        } by {
            assert(dict_ok(old.files()[f], n));
            assert(dict_ok(new.files()[f], (n + 1) as u64));
        }
    }
}

} // verus!
