//! The table-boundary split policy: the optional priority checker.
//!
//! In a table-organised keyspace every stored key is the data prefix
//! followed by the memcomparable encoding of a raw key that opens with a
//! nine-byte table prefix. A region that straddles a table boundary should
//! split at that boundary rather than at a byte-weight midpoint, so this
//! checker skips the scan when the probe's two bounds sit inside one table,
//! and otherwise fires at the first scanned key whose table differs from
//! the first scanned key's table, recommending that table's encoded prefix
//! as the split key.

use vstd::prelude::*;
use crate::codec::{enc_bytes_spec, encode_bytes, ENC_MARKER_FULL, TABLE_PREFIX};
use crate::keys::{data_key, DATA_PREFIX};
use crate::lex::bytes_eq;
use crate::msgs::Region;

verus! {

/// The nine raw bytes that place a stored key in a table: the table marker
/// and the big-endian table id, read back out of the key's encoded form.
/// `None` when the key does not open a table. The first encoded group holds
/// the first eight raw bytes; the ninth raw byte opens the second group.
pub open spec fn table_tag(key: Seq<u8>) -> Option<Seq<u8>> {
    if key.len() >= 11 && key[0] == DATA_PREFIX && key[1] == TABLE_PREFIX && key[9]
        == ENC_MARKER_FULL {
        Some(key.subrange(1, 9) + seq![key[10]])
    } else {
        None
    }
}

/// Mathematical image of the checker's state: whether a key was fed yet,
/// and the first fed key's tag.
pub ghost struct TableStateV {
    pub seen: bool,
    pub first: Option<Seq<u8>>,
}

/// One feed: the first key fixes the reference table; a later key of a
/// different table fires, recommending that table's boundary.
pub open spec fn table_feed_spec(st: TableStateV, key: Seq<u8>) -> (TableStateV, Option<Seq<u8>>) {
    if !st.seen {
        (TableStateV { seen: true, first: table_tag(key) }, None)
    } else {
        match table_tag(key) {
            Some(t) => if st.first != Some(t) {
                (st, Some(seq![DATA_PREFIX] + enc_bytes_spec(t)))
            } else {
                (st, None)
            },
            None => (st, None),
        }
    }
}

/// Skip the scan when no table boundary can lie between the probe's
/// bounds: no bounds at all, or both bounds in the same table.
pub open spec fn table_prev_spec(bounds: Option<(Seq<u8>, Seq<u8>)>) -> bool {
    match bounds {
        None => true,
        Some((mn, mx)) => table_tag(mn) == table_tag(mx),
    }
}

/// The table-boundary checker.
pub struct TableChecker {
    pub seen: bool,
    pub first: Option<Vec<u8>>,
}

impl TableChecker {
    /// The state this checker holds.
    pub open spec fn st(self) -> TableStateV {
        TableStateV {
            seen: self.seen,
            first: match self.first {
                Some(k) => Some(k@),
                None => None,
            },
        }
    }

    /// Nothing fed yet.
    pub open spec fn fresh(self) -> bool {
        !self.seen && self.first is None
    }

    pub fn new() -> (r: TableChecker)
        ensures
            r.fresh(),
    {
        TableChecker { seen: false, first: None }
    }

    /// The checker's name, for diagnostics only.
    pub fn name(&self) -> (r: &'static str)
        ensures
            r@ == "TableChecker"@,
    {
        "TableChecker"
    }

    /// The quick pre-check over the probe's bounds.
    pub fn prev_check(&self, _region: &Region, bounds: &Option<(Vec<u8>, Vec<u8>)>) -> (skip:
        bool)
        ensures
            skip == table_prev_spec(
                match bounds {
                    Some(b) => Some((b.0@, b.1@)),
                    None => None,
                },
            ),
    {
        match bounds {
            None => true,
            Some(b) => {
                let tmn = extract_tag(&b.0);
                let tmx = extract_tag(&b.1);
                match (tmn, tmx) {
                    (Some(a), Some(c)) => bytes_eq(&a, &c),
                    (None, None) => true,
                    _ => false,
                }
            },
        }
    }

    /// One feed of the scan.
    pub fn find_split_key(&mut self, key: &Vec<u8>, _value_size: u64) -> (r: Option<Vec<u8>>)
        ensures
            ({
                let (st2, out) = table_feed_spec(old(self).st(), key@);
                &&& final(self).st() == st2
                &&& (match r {
                    Some(k) => out == Some(k@),
                    None => out is None,
                })
            }),
    {
        let tag = extract_tag(key);
        if !self.seen {
            self.seen = true;
            self.first = tag;
            return None;
        }
        match tag {
            Some(t) => {
                let same = match &self.first {
                    Some(f) => bytes_eq(f, &t),
                    None => false,
                };
                if same {
                    None
                } else {
                    let enc = encode_bytes(&t);
                    Some(data_key(&enc))
                }
            },
            None => None,
        }
    }

    /// Clears the state so the checker can serve the next task.
    pub fn finish(&mut self)
        ensures
            final(self).fresh(),
    {
        self.seen = false;
        self.first = None;
    }
}

/// Reads a stored key's table tag, when it has one.
fn extract_tag(key: &Vec<u8>) -> (r: Option<Vec<u8>>)
    ensures
        match r {
            Some(t) => table_tag(key@) == Some(t@),
            None => table_tag(key@) is None,
        },
{
    if key.len() >= 11 && key[0] == DATA_PREFIX && key[1] == TABLE_PREFIX && key[9]
        == ENC_MARKER_FULL {
        let mut t: Vec<u8> = Vec::new();
        let mut j: usize = 1;
        while j < 9
            invariant
                1 <= j <= 9,
                key@.len() >= 11,
                t@ == key@.subrange(1, j as int),
            decreases 9 - j,
        {
            t.push(key[j]);
            proof {
                assert(key@.subrange(1, j + 1) =~= key@.subrange(1, j as int).push(key@[j as int]));
            }
            j = j + 1;
        }
        t.push(key[10]);
        proof {
            assert(t@ =~= key@.subrange(1, 9) + seq![key@[10]]);
        }
        Some(t)
    } else {
        None
    }
}

} // verus!
