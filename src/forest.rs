//! Routing through the index forest.
//!
//! Index file `0` is the root; every other index file is named after the
//! sequence number whose push created it. A walk for sequence number `s`
//! starts at the root with `current = s` and pivot `2^e`, and at each level:
//! - when `current` is a multiple of the pivot, the walk ends: this file holds
//!   (or receives) the leaf entry of `s`;
//! - otherwise, with `q = current / pivot`, a quotient of zero keeps the walk in
//!   the same file, and a positive one continues in the file named by the key of
//!   the entry at slot `level + q - 1`;
//! - then `current` becomes `current % pivot` and the pivot halves.
//!
//! Within a file, the leaf entry for pivot `2^k` is appended at slot `k`
//! (the root further appends the multiples of `2^e` from slot `e` on), which is
//! what the slot formula reads back. At pivot `1` every walk ends, so a walk
//! reads at most `e` entries.
use crate::codec::{read_u64, u64_at, BYTES_DICTIONARY_BLOCK, BYTES_DICTIONARY_HEADER};
use vstd::arithmetic::div_mod::lemma_div_is_ordered_by_denominator;
use vstd::arithmetic::power2::*;
use vstd::prelude::*;

verus! {

/// The byte contents of each index file, by file id.
pub open spec fn files_view(d: Seq<Vec<u8>>) -> Seq<Seq<u8>> {
    d.map_values(|v: Vec<u8>| v@)
}

/// The number of entries that the bytes of an index file hold.
pub open spec fn entry_count(d: Seq<u8>) -> int {
    (d.len() - BYTES_DICTIONARY_HEADER) / (BYTES_DICTIONARY_BLOCK as int)
}

/// Byte position of the entry at `slot`.
pub open spec fn slot_pos(slot: int) -> int {
    BYTES_DICTIONARY_HEADER + BYTES_DICTIONARY_BLOCK * slot
}

/// The key of the entry at `slot` of file `f`, if the file and the entry exist.
pub open spec fn key_at(d: Seq<Seq<u8>>, f: u64, slot: int) -> Option<u64> {
    if f < d.len() && d[f as int].len() >= BYTES_DICTIONARY_HEADER && 0 <= slot < entry_count(
        d[f as int],
    ) {
        Some(u64_at(d[f as int], slot_pos(slot)))
    } else {
        None
    }
}

/// Where a walk ends: the file that holds the leaf entry, and how many
/// entries were read on the way.
pub struct Route {
    pub file: u64,
    pub reads: u64,
}

/// The walk from file `f` with remainder `cur` at level `level` (pivot
/// `2^level`): the file where it ends and the number of entries read, or
/// `None` when an entry on the way is missing.
pub open spec fn route_from(d: Seq<Seq<u8>>, f: u64, cur: nat, level: nat) -> Option<(u64, nat)>
    decreases level,
{
    let p = pow2(level);
    if cur % p == 0 || level == 0 {
        Some((f, 0))
    } else {
        let q = cur / p;
        if q == 0 {
            route_from(d, f, cur % p, (level - 1) as nat)
        } else {
            match key_at(d, f, level + q - 1) {
                None => None,
                Some(next) => match route_from(d, next, cur % p, (level - 1) as nat) {
                    None => None,
                    Some(r) => Some((r.0, r.1 + 1)),
                },
            }
        }
    }
}

/// The walk for sequence number `s` in a forest with fanout exponent `e`.
pub open spec fn route(d: Seq<Seq<u8>>, e: nat, s: u64) -> Option<(u64, nat)> {
    route_from(d, 0, s as nat, e)
}

/// A walk reads at most as many entries as levels remain.
pub proof fn lemma_route_from_reads(d: Seq<Seq<u8>>, f: u64, cur: nat, level: nat)
    ensures
        route_from(d, f, cur, level) matches Some(r) ==> r.1 <= level,
    decreases level,
{
    if level > 0 {
        let p = pow2(level);
        lemma_pow2_pos(level);
        lemma_route_from_reads(d, f, cur % p, (level - 1) as nat);
        if cur % p != 0 && cur / p != 0 {
            let q = cur / p;
            if let Some(next) = key_at(d, f, level + q - 1) {
                lemma_route_from_reads(d, next, cur % p, (level - 1) as nat);
            }
        }
    }
}

/// Lookup depth: for any sequence number and any state of the forest, a walk
/// reads at most as many index entries as the fanout exponent.
pub proof fn lemma_lookup_depth_bounded(d: Seq<Seq<u8>>, e: nat, s: u64)
    ensures
        route(d, e, s) matches Some(r) ==> r.1 <= e,
{
    lemma_route_from_reads(d, 0, s as nat, e);
}

/// Reads the key of the entry at `slot` of file `f`.
pub fn read_key(d: &Vec<Vec<u8>>, f: u64, slot: u64) -> (r: Option<u64>)
    ensures
        r == key_at(files_view(d@), f, slot as int),
{
    let ghost dv = files_view(d@);
    if f >= d.len() as u64 {
        return None;
    }
    let file = &d[f as usize];
    assert(dv[f as int] == file@);
    if file.len() < BYTES_DICTIONARY_HEADER {
        return None;
    }
    let count = (file.len() - BYTES_DICTIONARY_HEADER) / BYTES_DICTIONARY_BLOCK;
    if slot >= count as u64 {
        return None;
    }
    let pos = BYTES_DICTIONARY_HEADER + BYTES_DICTIONARY_BLOCK * (slot as usize);
    Some(read_u64(file.as_slice(), pos))
}

/// Walks the forest for `s`, with fanout exponent `e`.
pub fn locate(d: &Vec<Vec<u8>>, e: u8, s: u64) -> (r: Option<Route>)
    requires
        e < 64,
    ensures
        r matches Some(rt) ==> route(files_view(d@), e as nat, s) == Some(
            (rt.file, rt.reads as nat),
        ),
        r is None ==> route(files_view(d@), e as nat, s) is None,
        r matches Some(rt) ==> rt.reads <= e,
{
    let ghost dv = files_view(d@);
    let mut pivot: u64 = 1;
    let mut i: u8 = 0;
    proof {
        lemma2_to64();
    }
    while i < e
        invariant
            i <= e < 64,
            pivot == pow2(i as nat),
        decreases e - i,
    {
        proof {
            lemma2_to64();
            lemma2_to64_rest();
            lemma_pow2_unfold((i + 1) as nat);
            if i + 1 < 63 {
                lemma_pow2_strictly_increases((i + 1) as nat, 63);
            }
        }
        pivot = pivot * 2;
        i = i + 1;
    }
    let mut level: u64 = e as u64;
    let mut file: u64 = 0;
    let mut cur: u64 = s;
    let mut reads: u64 = 0;
    loop
        invariant
            dv == files_view(d@),
            level <= e,
            pivot == pow2(level as nat),
            reads + level <= e,
            route(dv, e as nat, s) == match route_from(dv, file, cur as nat, level as nat) {
                None => None,
                Some(r) => Some((r.0, (r.1 + reads) as nat)),
            },
        decreases level,
    {
        proof {
            lemma_pow2_pos(level as nat);
        }
        if cur % pivot == 0 || level == 0 {
            assert(route_from(dv, file, cur as nat, level as nat) == Some((file, 0nat)));
            return Some(Route { file, reads });
        }
        let q = cur / pivot;
        proof {
            lemma_pow2_unfold(level as nat);
            lemma_div_is_ordered_by_denominator(cur as int, 2, pivot as int);
        }
        if q != 0 {
            match read_key(d, file, level + q - 1) {
                None => {
                    return None;
                },
                Some(next) => {
                    file = next;
                    reads = reads + 1;
                },
            }
        }
        cur = cur % pivot;
        pivot = pivot / 2;
        level = level - 1;
    }
}

} // verus!
