//! The physical key space.
//!
//! Every user key is stored behind a one-byte data prefix; the byte one
//! past the prefix bounds the whole data key space from above, so a region
//! with an empty (unbounded) end key scans up to that sentinel.

use vstd::prelude::*;
use crate::lex::{lex_le, lex_lt};
use crate::msgs::{Region, RegionV};

verus! {

/// The single byte put in front of every stored user key.
pub const DATA_PREFIX: u8 = 0x7a;

/// The byte one past `DATA_PREFIX`: as a one-byte key it bounds all data
/// keys from above.
pub const DATA_MAX_BYTE: u8 = 0x7b;

/// A user key in its stored, prefixed form.
pub open spec fn data_key_spec(key: Seq<u8>) -> Seq<u8> {
    seq![DATA_PREFIX] + key
}

/// The prefixed form of a region's start key.
pub open spec fn enc_start_spec(r: RegionV) -> Seq<u8> {
    data_key_spec(r.start_key)
}

/// The prefixed form of a region's end bound: the data-space sentinel when
/// the region is unbounded to the right.
pub open spec fn enc_end_spec(r: RegionV) -> Seq<u8> {
    if r.end_key.len() == 0 {
        seq![DATA_MAX_BYTE]
    } else {
        data_key_spec(r.end_key)
    }
}

/// Prefixes a user key with the data byte.
pub fn data_key(key: &Vec<u8>) -> (r: Vec<u8>)
    ensures
        r@ == data_key_spec(key@),
{
    let mut r: Vec<u8> = Vec::new();
    r.push(DATA_PREFIX);
    let mut i: usize = 0;
    while i < key.len()
        invariant
            i <= key.len(),
            r@ == seq![DATA_PREFIX] + key@.take(i as int),
        decreases key.len() - i,
    {
        r.push(key[i]);
        proof {
            assert(seq![DATA_PREFIX] + key@.take(i + 1) =~= (seq![DATA_PREFIX] + key@.take(
                i as int,
            )).push(key@[i as int]));
        }
        i = i + 1;
    }
    proof {
        assert(key@.take(key@.len() as int) =~= key@);
    }
    r
}

/// An owned copy of a byte string.
pub fn copy_bytes(key: &Vec<u8>) -> (r: Vec<u8>)
    ensures
        r@ == key@,
{
    let mut r: Vec<u8> = Vec::new();
    let mut i: usize = 0;
    while i < key.len()
        invariant
            i <= key.len(),
            r@ == key@.take(i as int),
        decreases key.len() - i,
    {
        r.push(key[i]);
        proof {
            assert(key@.take(i + 1) =~= key@.take(i as int).push(key@[i as int]));
        }
        i = i + 1;
    }
    proof {
        assert(key@.take(key@.len() as int) =~= key@);
    }
    r
}

/// Strips the data prefix, recovering the user key.
pub fn origin_key(key: &Vec<u8>) -> (r: Vec<u8>)
    requires
        key@.len() >= 1,
        key@[0] == DATA_PREFIX,
    ensures
        r@ == key@.skip(1),
{
    let mut r: Vec<u8> = Vec::new();
    let mut i: usize = 1;
    while i < key.len()
        invariant
            1 <= i <= key.len(),
            r@ == key@.subrange(1, i as int),
        decreases key.len() - i,
    {
        r.push(key[i]);
        proof {
            assert(key@.subrange(1, i + 1) =~= key@.subrange(1, i as int).push(key@[i as int]));
        }
        i = i + 1;
    }
    proof {
        assert(key@.subrange(1, key@.len() as int) =~= key@.skip(1));
    }
    r
}

/// The prefixed start bound of a region.
pub fn enc_start_key(region: &Region) -> (r: Vec<u8>)
    ensures
        r@ == enc_start_spec(region@),
{
    data_key(&region.start_key)
}

/// The prefixed end bound of a region.
pub fn enc_end_key(region: &Region) -> (r: Vec<u8>)
    ensures
        r@ == enc_end_spec(region@),
{
    if region.end_key.len() == 0 {
        let mut r: Vec<u8> = Vec::new();
        r.push(DATA_MAX_BYTE);
        proof {
            assert(r@ =~= seq![DATA_MAX_BYTE]);
        }
        r
    } else {
        data_key(&region.end_key)
    }
}

/// Any key inside a region's prefixed bounds carries the data prefix, so
/// the prefix can be stripped from a split key found by a scan.
pub proof fn lemma_range_key_prefixed(key: Seq<u8>, r: RegionV)
    requires
        lex_le(enc_start_spec(r), key),
        lex_lt(key, enc_end_spec(r)),
    ensures
        key.len() >= 1,
        key[0] == DATA_PREFIX,
{
    let start = enc_start_spec(r);
    let end = enc_end_spec(r);
    if key.len() == 0 {
        assert(lex_lt(key, start));
    }
    if key[0] < DATA_PREFIX {
        assert(lex_lt(key, start));
    }
    if r.end_key.len() == 0 {
        if key[0] >= DATA_MAX_BYTE {
            if key[0] == DATA_MAX_BYTE {
                assert(!lex_lt(key.drop_first(), end.drop_first()));
            }
            assert(!lex_lt(key, end));
        }
    } else {
        if key[0] > DATA_PREFIX {
            assert(!lex_lt(key, end));
        }
    }
}

} // verus!
