//! The memcomparable byte encoding of user keys, and the table prefix that
//! rides inside it.
//!
//! A raw key is cut into groups of eight bytes; every full group is
//! followed by a full marker, and the final short group is padded with
//! zeros and followed by a marker carrying its true length. The encoding
//! preserves lexicographic order and always ends in a short group, so a raw
//! key that is a multiple of eight bytes long gains an all-pad group.
//!
//! A table-organised keyspace starts each raw key with a one-byte table
//! marker and an eight-byte big-endian table id; those nine bytes are a
//! key's table prefix.

use vstd::prelude::*;

verus! {

/// First byte of every raw key that belongs to a table.
pub const TABLE_PREFIX: u8 = 0x74;

/// Marker after a full eight-byte group.
pub const ENC_MARKER_FULL: u8 = 0xff;

/// Base of the marker after the final short group: the marker is this base
/// plus the number of meaningful bytes in the group.
pub const ENC_MARKER_BASE: u8 = 0xf7;

/// A run of zero pad bytes.
pub open spec fn zeros(n: nat) -> Seq<u8> {
    Seq::new(n, |i: int| 0u8)
}

/// The memcomparable encoding of a raw byte string.
pub open spec fn enc_bytes_spec(raw: Seq<u8>) -> Seq<u8>
    decreases raw.len(),
{
    if raw.len() >= 8 {
        raw.take(8) + seq![ENC_MARKER_FULL] + enc_bytes_spec(raw.skip(8))
    } else {
        raw + zeros((8 - raw.len()) as nat) + seq![(ENC_MARKER_BASE + raw.len()) as u8]
    }
}

/// The raw byte string an encoding stands for, when it is well formed.
pub open spec fn dec_bytes_spec(enc: Seq<u8>) -> Option<Seq<u8>>
    decreases enc.len(),
{
    if enc.len() < 9 {
        None
    } else {
        let marker = enc[8];
        if marker == ENC_MARKER_FULL {
            match dec_bytes_spec(enc.skip(9)) {
                Some(rest) => Some(enc.take(8) + rest),
                None => None,
            }
        } else if marker >= ENC_MARKER_BASE {
            let n = marker - ENC_MARKER_BASE;
            if enc.len() == 9 && (forall|t: int| n <= t < 8 ==> enc[t] == 0) {
                Some(enc.take(n as int))
            } else {
                None
            }
        } else {
            None
        }
    }
}

/// Decoding inverts encoding.
pub proof fn lemma_codec_round_trip(raw: Seq<u8>)
    ensures
        dec_bytes_spec(enc_bytes_spec(raw)) == Some(raw),
    decreases raw.len(),
{
    let enc = enc_bytes_spec(raw);
    if raw.len() >= 8 {
        lemma_codec_round_trip(raw.skip(8));
        assert(enc.len() >= 9);
        assert(enc[8] == ENC_MARKER_FULL);
        assert(enc.skip(9) =~= enc_bytes_spec(raw.skip(8)));
        assert(enc.take(8) =~= raw.take(8));
        assert(raw.take(8) + raw.skip(8) =~= raw);
    } else {
        assert(enc.len() == 9);
        assert(enc[8] == (ENC_MARKER_BASE + raw.len()) as u8);
        assert(enc[8] != ENC_MARKER_FULL);
        assert(enc[8] >= ENC_MARKER_BASE);
        assert(forall|t: int| raw.len() <= t < 8 ==> enc[t] == 0);
        assert(enc.take(raw.len() as int) =~= raw);
    }
}

/// Encodes a raw key.
pub fn encode_bytes(raw: &Vec<u8>) -> (r: Vec<u8>)
    ensures
        r@ == enc_bytes_spec(raw@),
{
    let mut out: Vec<u8> = Vec::new();
    let mut i: usize = 0;
    proof {
        assert(raw@.skip(0) =~= raw@);
        assert(enc_bytes_spec(raw@) =~= out@ + enc_bytes_spec(raw@.skip(0)));
    }
    while raw.len() - i >= 8
        invariant
            i <= raw@.len(),
            enc_bytes_spec(raw@) == out@ + enc_bytes_spec(raw@.skip(i as int)),
        decreases raw@.len() - i,
    {
        let ghost before = out@;
        let mut t: usize = 0;
        while t < 8
            invariant
                t <= 8,
                i + 8 <= raw@.len(),
                raw@.len() <= usize::MAX,
                out@ == before + raw@.subrange(i as int, i + t),
            decreases 8 - t,
        {
            out.push(raw[i + t]);
            proof {
                assert(raw@.subrange(i as int, i + t + 1) =~= raw@.subrange(i as int, i + t).push(
                    raw@[i + t],
                ));
            }
            t = t + 1;
        }
        out.push(ENC_MARKER_FULL);
        proof {
            assert(raw@.skip(i as int).take(8) =~= raw@.subrange(i as int, i + 8));
            assert(raw@.skip(i as int).skip(8) =~= raw@.skip(i + 8));
            assert(out@ =~= before + (raw@.skip(i as int).take(8) + seq![ENC_MARKER_FULL]));
            assert(enc_bytes_spec(raw@) =~= out@ + enc_bytes_spec(raw@.skip(i + 8)));
        }
        i = i + 8;
    }
    let n = raw.len() - i;
    let ghost before = out@;
    let mut t: usize = 0;
    while t < n
        invariant
            t <= n,
            n == raw@.len() - i,
            i + n == raw@.len(),
            raw@.len() <= usize::MAX,
            out@ == before + raw@.subrange(i as int, i + t),
        decreases n - t,
    {
        out.push(raw[i + t]);
        proof {
            assert(raw@.subrange(i as int, i + t + 1) =~= raw@.subrange(i as int, i + t).push(
                raw@[i + t],
            ));
        }
        t = t + 1;
    }
    let mut p: usize = n;
    while p < 8
        invariant
            n <= p <= 8,
            n == raw@.len() - i,
            out@ == before + raw@.subrange(i as int, i + n) + zeros((p - n) as nat),
        decreases 8 - p,
    {
        out.push(0u8);
        proof {
            assert(zeros((p + 1 - n) as nat) =~= zeros((p - n) as nat).push(0u8));
            assert(out@ =~= before + raw@.subrange(i as int, i + n) + zeros((p + 1 - n) as nat));
        }
        p = p + 1;
    }
    out.push(ENC_MARKER_BASE + n as u8);
    proof {
        assert(raw@.skip(i as int) =~= raw@.subrange(i as int, i + n));
        assert(enc_bytes_spec(raw@.skip(i as int)) =~= raw@.subrange(i as int, i + n) + zeros(
            (8 - n) as nat,
        ) + seq![(ENC_MARKER_BASE + n) as u8]);
        assert(out@ =~= before + enc_bytes_spec(raw@.skip(i as int)));
    }
    out
}

/// Decodes an encoded key; `None` when the bytes are not a well-formed
/// encoding.
pub fn decode_bytes(enc: &Vec<u8>) -> (r: Option<Vec<u8>>)
    ensures
        match r {
            Some(raw) => dec_bytes_spec(enc@) == Some(raw@),
            None => dec_bytes_spec(enc@) is None,
        },
{
    let mut out: Vec<u8> = Vec::new();
    let mut i: usize = 0;
    proof {
        assert(enc@.skip(0) =~= enc@);
    }
    loop
        invariant
            i <= enc@.len(),
            ({
                let whole = dec_bytes_spec(enc@);
                let tail = dec_bytes_spec(enc@.skip(i as int));
                match tail {
                    Some(rest) => whole == Some(out@ + rest),
                    None => whole is None,
                }
            }),
        decreases enc@.len() - i,
    {
        if enc.len() - i < 9 {
            return None;
        }
        let marker = enc[i + 8];
        proof {
            assert(enc@.skip(i as int)[8] == enc@[i + 8]);
        }
        if marker == ENC_MARKER_FULL {
            let ghost before = out@;
            let mut t: usize = 0;
            while t < 8
                invariant
                    t <= 8,
                    i + 9 <= enc@.len(),
                    enc@.len() <= usize::MAX,
                    out@ == before + enc@.subrange(i as int, i + t),
                decreases 8 - t,
            {
                out.push(enc[i + t]);
                proof {
                    assert(enc@.subrange(i as int, i + t + 1) =~= enc@.subrange(
                        i as int,
                        i + t,
                    ).push(enc@[i + t]));
                }
                t = t + 1;
            }
            proof {
                assert(enc@.skip(i as int).take(8) =~= enc@.subrange(i as int, i + 8));
                assert(enc@.skip(i as int).skip(9) =~= enc@.skip(i + 9));
                assert(out@ =~= before + enc@.skip(i as int).take(8));
            }
            i = i + 9;
        } else if marker >= ENC_MARKER_BASE {
            let n = (marker - ENC_MARKER_BASE) as usize;
            if i + 9 != enc.len() {
                return None;
            }
            let mut t: usize = n;
            while t < 8
                invariant
                    n <= t <= 8,
                    i + 9 == enc@.len(),
                    enc@.len() <= usize::MAX,
                    n < 8,
                    marker == enc@[i + 8],
                    marker >= ENC_MARKER_BASE,
                    marker != ENC_MARKER_FULL,
                    n == marker - ENC_MARKER_BASE,
                    i <= enc@.len(),
                    ({
                        let whole = dec_bytes_spec(enc@);
                        let tail = dec_bytes_spec(enc@.skip(i as int));
                        match tail {
                            Some(rest) => whole == Some(out@ + rest),
                            None => whole is None,
                        }
                    }),
                    forall|u: int| n <= u < t ==> #[trigger] enc@[i + u] == 0,
                decreases 8 - t,
            {
                if enc[i + t] != 0 {
                    proof {
                        assert(enc@.skip(i as int)[t as int] == enc@[i + t]);
                        assert(dec_bytes_spec(enc@.skip(i as int)) is None);
                    }
                    return None;
                }
                t = t + 1;
            }
            let ghost before = out@;
            let mut u: usize = 0;
            while u < n
                invariant
                    u <= n,
                    i + 9 == enc@.len(),
                    enc@.len() <= usize::MAX,
                    n < 8,
                    out@ == before + enc@.subrange(i as int, i + u),
                decreases n - u,
            {
                out.push(enc[i + u]);
                proof {
                    assert(enc@.subrange(i as int, i + u + 1) =~= enc@.subrange(
                        i as int,
                        i + u,
                    ).push(enc@[i + u]));
                }
                u = u + 1;
            }
            proof {
                let tail = enc@.skip(i as int);
                assert(tail.len() == 9);
                assert(forall|w: int| n <= w < 8 ==> tail[w] == enc@[i + w]);
                assert(dec_bytes_spec(tail) == Some(tail.take(n as int)));
                assert(tail.take(n as int) =~= enc@.subrange(i as int, i + n));
                assert(out@ =~= before + tail.take(n as int));
                assert(dec_bytes_spec(enc@) == Some(out@));
            }
            return Some(out);
        } else {
            proof {
                assert(dec_bytes_spec(enc@.skip(i as int)) is None);
            }
            return None;
        }
    }
}

/// The raw table prefix carrying `table_id`: the table marker followed by
/// the id in big-endian byte order.
pub open spec fn table_prefix_spec(table_id: u64) -> Seq<u8> {
    seq![
        TABLE_PREFIX,
        (table_id >> 56) as u8,
        (table_id >> 48) as u8,
        (table_id >> 40) as u8,
        (table_id >> 32) as u8,
        (table_id >> 24) as u8,
        (table_id >> 16) as u8,
        (table_id >> 8) as u8,
        table_id as u8,
    ]
}

/// Builds the raw table prefix of `table_id`.
pub fn gen_table_prefix(table_id: u64) -> (r: Vec<u8>)
    ensures
        r@ == table_prefix_spec(table_id),
{
    let mut v: Vec<u8> = Vec::new();
    v.push(TABLE_PREFIX);
    v.push((table_id >> 56) as u8);
    v.push((table_id >> 48) as u8);
    v.push((table_id >> 40) as u8);
    v.push((table_id >> 32) as u8);
    v.push((table_id >> 24) as u8);
    v.push((table_id >> 16) as u8);
    v.push((table_id >> 8) as u8);
    v.push(table_id as u8);
    proof {
        assert(v@ =~= table_prefix_spec(table_id));
    }
    v
}

/// The value of a big-endian byte string.
pub open spec fn be_val(s: Seq<u8>) -> nat
    decreases s.len(),
{
    if s.len() == 0 {
        0
    } else {
        (be_val(s.drop_last()) * 256 + s.last()) as nat
    }
}

/// 256 to the `n`th power.
pub open spec fn pow256(n: nat) -> nat
    decreases n,
{
    if n == 0 {
        1
    } else {
        256 * pow256((n - 1) as nat)
    }
}

/// Higher powers dominate.
pub proof fn lemma_pow256_mono(a: nat, b: nat)
    requires
        a <= b,
    ensures
        pow256(a) <= pow256(b),
    decreases b,
{
    if a < b {
        lemma_pow256_mono(a, (b - 1) as nat);
        assert(pow256(b) == 256 * pow256((b - 1) as nat));
        assert(pow256((b - 1) as nat) >= 1) by {
            lemma_pow256_pos((b - 1) as nat);
        }
    }
}

/// Powers of 256 are positive.
pub proof fn lemma_pow256_pos(n: nat)
    ensures
        pow256(n) >= 1,
    decreases n,
{
    if n > 0 {
        lemma_pow256_pos((n - 1) as nat);
    }
}

/// Reads the table id out of a raw key: the eight big-endian bytes behind
/// the table marker. `None` when the key belongs to no table.
pub fn decode_table_id(raw: &Vec<u8>) -> (r: Option<u64>)
    ensures
        match r {
            Some(id) => raw@.len() >= 9 && raw@[0] == TABLE_PREFIX && id == be_val(
                raw@.subrange(1, 9),
            ),
            None => raw@.len() < 9 || raw@[0] != TABLE_PREFIX,
        },
{
    if raw.len() < 9 {
        return None;
    }
    if raw[0] != TABLE_PREFIX {
        return None;
    }
    let ghost s = raw@.subrange(1, 9);
    let mut acc: u64 = 0;
    let mut t: usize = 0;
    proof {
        assert(s.take(0) =~= Seq::<u8>::empty());
    }
    while t < 8
        invariant
            t <= 8,
            raw@.len() >= 9,
            s == raw@.subrange(1, 9),
            acc == be_val(s.take(t as int)),
            acc < pow256(t as nat),
        decreases 8 - t,
    {
        proof {
            assert(pow256((t + 1) as nat) == 256 * pow256(t as nat));
            lemma_pow256_mono((t + 1) as nat, 8);
            assert(pow256(8) == 256 * pow256(7));
            assert(pow256(7) == 256 * pow256(6));
            assert(pow256(6) == 256 * pow256(5));
            assert(pow256(5) == 256 * pow256(4));
            assert(pow256(4) == 256 * pow256(3));
            assert(pow256(3) == 256 * pow256(2));
            assert(pow256(2) == 256 * pow256(1));
            assert(pow256(1) == 256 * pow256(0));
            assert(pow256(0) == 1);
            assert(s.take(t + 1).drop_last() =~= s.take(t as int));
            assert(s.take(t + 1).last() == s[t as int]);
            assert(s[t as int] == raw@[t + 1]);
        }
        acc = acc * 256 + (raw[t + 1] as u64);
        t = t + 1;
    }
    proof {
        assert(s.take(8) =~= s);
    }
    Some(acc)
}

} // verus!
