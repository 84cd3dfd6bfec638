//! The cheap span probe: the smallest and largest key present in a range
//! across all column families, found without a merged scan.
//!
//! Per column family the probe reads the first key in `[start, end)` and
//! the last key below `end` (the engine's backward seek under an upper
//! bound ignores the lower one), then folds minima and maxima across the
//! families. Exactly one side present is an engine invariant violation and
//! surfaces as an error.

use vstd::prelude::*;
use crate::engine::{
    in_range, lemma_range_of_concat, lemma_range_of_in_range, lemma_range_of_membership,
    lemma_range_of_sorted_weight, range_of, sorted_strict, CfEntry, CfName, Engine, EntryV,
};
use crate::keys::copy_bytes;
use crate::lex::{
    bytes_le, bytes_lt, lemma_lex_irrefl, lemma_lex_le_trans, lemma_lex_lt_implies_le, lex_le,
    lex_lt,
};

verus! {

/// The probe's only failure: exactly one of the two bounds was found.
#[derive(Clone, Copy, PartialEq, Eq, Structural, Debug)]
pub enum CheckError {
    InvalidBounds,
}

/// The first key of `s` inside `[start, end)`.
pub open spec fn cf_first_in_range(s: Seq<EntryV>, start: Seq<u8>, end: Seq<u8>) -> Option<
    Seq<u8>,
> {
    let r = range_of(s, start, end);
    if r.len() == 0 {
        None
    } else {
        Some(r[0].key)
    }
}

/// The last key of `s` below `end`, with no lower bound.
pub open spec fn cf_last_below(s: Seq<EntryV>, end: Seq<u8>) -> Option<Seq<u8>> {
    let r = range_of(s, Seq::empty(), end);
    if r.len() == 0 {
        None
    } else {
        Some(r[r.len() - 1].key)
    }
}

/// Folds a candidate minimum into the accumulator: a strictly smaller key
/// replaces it.
pub open spec fn combine_min(acc: Option<Seq<u8>>, k: Option<Seq<u8>>) -> Option<Seq<u8>> {
    match acc {
        None => k,
        Some(a) => match k {
            None => Some(a),
            Some(b) => if lex_lt(b, a) {
                Some(b)
            } else {
                Some(a)
            },
        },
    }
}

/// Folds a candidate maximum into the accumulator: a strictly larger key
/// replaces it.
pub open spec fn combine_max(acc: Option<Seq<u8>>, k: Option<Seq<u8>>) -> Option<Seq<u8>> {
    match acc {
        None => k,
        Some(a) => match k {
            None => Some(a),
            Some(b) => if lex_lt(a, b) {
                Some(b)
            } else {
                Some(a)
            },
        },
    }
}

/// The smallest in-range key across the families of `cfs`, folded in their
/// order.
pub open spec fn fold_min(
    engine: Engine,
    cfs: Seq<CfName>,
    start: Seq<u8>,
    end: Seq<u8>,
    acc: Option<Seq<u8>>,
) -> Option<Seq<u8>>
    decreases cfs.len(),
{
    if cfs.len() == 0 {
        acc
    } else {
        fold_min(
            engine,
            cfs.drop_first(),
            start,
            end,
            combine_min(acc, cf_first_in_range(engine.cf_view(cfs[0]), start, end)),
        )
    }
}

/// The largest below-end key across the families of `cfs`.
pub open spec fn fold_max(
    engine: Engine,
    cfs: Seq<CfName>,
    end: Seq<u8>,
    acc: Option<Seq<u8>>,
) -> Option<Seq<u8>>
    decreases cfs.len(),
{
    if cfs.len() == 0 {
        acc
    } else {
        fold_max(
            engine,
            cfs.drop_first(),
            end,
            combine_max(acc, cf_last_below(engine.cf_view(cfs[0]), end)),
        )
    }
}

/// What the probe returns: both bounds, neither, or the invariant
/// violation of exactly one.
pub open spec fn bounds_spec(engine: Engine, cfs: Seq<CfName>, start: Seq<u8>, end: Seq<u8>) -> Result<
    Option<(Seq<u8>, Seq<u8>)>,
    CheckError,
> {
    let mn = fold_min(engine, cfs, start, end, None);
    let mx = fold_max(engine, cfs, end, None);
    match (mn, mx) {
        (Some(a), Some(b)) => Ok(Some((a, b))),
        (None, None) => Ok(None),
        _ => Err(CheckError::InvalidBounds),
    }
}

/// A record inside the range is found by the range restriction.
proof fn lemma_range_of_contains(s: Seq<EntryV>, start: Seq<u8>, end: Seq<u8>, j: int)
    requires
        0 <= j < s.len(),
        in_range(s[j].key, start, end),
    ensures
        exists|i: int|
            0 <= i < range_of(s, start, end).len() && #[trigger] range_of(s, start, end)[i]
                == s[j],
    decreases s.len(),
{
    let r = range_of(s, start, end);
    let head: Seq<EntryV> = if in_range(s[0].key, start, end) {
        seq![s[0]]
    } else {
        Seq::empty()
    };
    if j == 0 {
        assert(r[0] == s[0]);
    } else {
        lemma_range_of_contains(s.drop_first(), start, end, j - 1);
        let rr = range_of(s.drop_first(), start, end);
        let i0 = choose|i0: int| 0 <= i0 < rr.len() && #[trigger] rr[i0] == s.drop_first()[j - 1];
        assert(r[i0 + head.len()] == rr[i0]);
    }
}

/// Whatever the minimum fold returns bounds every family's first in-range
/// key from below and is itself one of them (or the accumulator).
#[verifier::rlimit(60)]
proof fn lemma_fold_min_le(
    engine: Engine,
    cfs: Seq<CfName>,
    start: Seq<u8>,
    end: Seq<u8>,
    acc: Option<Seq<u8>>,
)
    ensures
        ({
            let r = fold_min(engine, cfs, start, end, acc);
            match r {
                Some(mn) => {
                    &&& (match acc {
                        Some(a) => lex_le(mn, a),
                        None => true,
                    })
                    &&& (forall|t: int|
                        0 <= t < cfs.len() && cf_first_in_range(
                            #[trigger] engine.cf_view(cfs[t]),
                            start,
                            end,
                        ) is Some ==> lex_le(
                            mn,
                            cf_first_in_range(engine.cf_view(cfs[t]), start, end).unwrap(),
                        ))
                    &&& ((exists|t: int|
                        0 <= t < cfs.len() && cf_first_in_range(
                            #[trigger] engine.cf_view(cfs[t]),
                            start,
                            end,
                        ) == Some(mn)) || acc == Some(mn))
                },
                None => acc is None,
            }
        }),
    decreases cfs.len(),
{
    if cfs.len() == 0 {
        match acc {
            Some(a) => lemma_lex_irrefl(a),
            None => {},
        }
    } else {
        let f0 = cf_first_in_range(engine.cf_view(cfs[0]), start, end);
        let acc2 = combine_min(acc, f0);
        lemma_fold_min_le(engine, cfs.drop_first(), start, end, acc2);
        assert(fold_min(engine, cfs, start, end, acc) == fold_min(
            engine,
            cfs.drop_first(),
            start,
            end,
            acc2,
        ));
        match fold_min(engine, cfs, start, end, acc) {
            Some(mn) => {
                match acc2 {
                    Some(a2) => {
                        assert(lex_le(mn, a2));
                        match acc {
                            Some(a) => {
                                if f0 is Some && lex_lt(f0.unwrap(), a) {
                                    lemma_lex_lt_implies_le(f0.unwrap(), a);
                                    lemma_lex_le_trans(mn, a2, a);
                                } else {
                                    assert(a2 == a);
                                }
                            },
                            None => {},
                        }
                        if f0 is Some {
                            if acc is Some && !lex_lt(f0.unwrap(), acc.unwrap()) {
                                assert(a2 == acc.unwrap());
                                assert(lex_le(acc.unwrap(), f0.unwrap()));
                                lemma_lex_le_trans(mn, a2, f0.unwrap());
                            } else {
                                assert(a2 == f0.unwrap());
                            }
                            assert(lex_le(mn, f0.unwrap()));
                        }
                    },
                    None => {
                        assert(f0 is None);
                        assert(acc is None);
                    },
                }
                assert forall|t: int|
                    0 <= t < cfs.len() && cf_first_in_range(
                        #[trigger] engine.cf_view(cfs[t]),
                        start,
                        end,
                    ) is Some implies lex_le(
                    mn,
                    cf_first_in_range(engine.cf_view(cfs[t]), start, end).unwrap(),
                ) by {
                    if t > 0 {
                        assert(engine.cf_view(cfs[t]) == engine.cf_view(cfs.drop_first()[t - 1]));
                    }
                }
                if exists|t: int|
                    0 <= t < cfs.drop_first().len() && cf_first_in_range(
                        #[trigger] engine.cf_view(cfs.drop_first()[t]),
                        start,
                        end,
                    ) == Some(mn) {
                    let t0 = choose|t0: int|
                        0 <= t0 < cfs.drop_first().len() && cf_first_in_range(
                            #[trigger] engine.cf_view(cfs.drop_first()[t0]),
                            start,
                            end,
                        ) == Some(mn);
                    assert(cf_first_in_range(engine.cf_view(cfs[t0 + 1]), start, end) == Some(
                        mn,
                    ));
                } else {
                    assert(acc2 == Some(mn));
                    if acc != Some(mn) {
                        assert(f0 == Some(mn));
                        assert(cf_first_in_range(engine.cf_view(cfs[0]), start, end) == Some(mn));
                    }
                }
            },
            None => {
                assert(fold_min(engine, cfs.drop_first(), start, end, acc2) is None);
                assert(acc2 is None);
                assert(acc is None);
            },
        }
    }
}

/// Whatever the maximum fold returns bounds every family's last below-end
/// key from above.
#[verifier::rlimit(60)]
proof fn lemma_fold_max_ge(engine: Engine, cfs: Seq<CfName>, end: Seq<u8>, acc: Option<Seq<u8>>)
    ensures
        ({
            let r = fold_max(engine, cfs, end, acc);
            match r {
                Some(mx) => forall|t: int|
                    0 <= t < cfs.len() && cf_last_below(#[trigger] engine.cf_view(cfs[t]), end)
                        is Some ==> lex_le(
                        cf_last_below(engine.cf_view(cfs[t]), end).unwrap(),
                        mx,
                    ),
                None => acc is None,
            }
        }),
    decreases cfs.len(),
{
    if cfs.len() > 0 {
        let l0 = cf_last_below(engine.cf_view(cfs[0]), end);
        let acc2 = combine_max(acc, l0);
        lemma_fold_max_ge(engine, cfs.drop_first(), end, acc2);
        match fold_max(engine, cfs, end, acc) {
            Some(mx) => {
                assert forall|t: int|
                    0 <= t < cfs.len() && cf_last_below(#[trigger] engine.cf_view(cfs[t]), end)
                        is Some implies lex_le(
                    cf_last_below(engine.cf_view(cfs[t]), end).unwrap(),
                    mx,
                ) by {
                    if t > 0 {
                        assert(engine.cf_view(cfs[t]) == engine.cf_view(cfs.drop_first()[t - 1]));
                    } else {
                        // the fold's result is no smaller than what it folded in
                        lemma_fold_max_upper(engine, cfs.drop_first(), end, acc2);
                        match acc2 {
                            Some(a2) => {
                                if acc is Some && lex_lt(acc.unwrap(), l0.unwrap()) {
                                    lemma_lex_irrefl(l0.unwrap());
                                } else if acc is Some && !lex_lt(acc.unwrap(), l0.unwrap()) {
                                    assert(lex_le(l0.unwrap(), acc.unwrap()));
                                    lemma_lex_le_trans(l0.unwrap(), a2, mx);
                                } else {
                                    lemma_lex_irrefl(l0.unwrap());
                                }
                            },
                            None => {},
                        }
                    }
                }
            },
            None => {},
        }
    }
}

/// The maximum fold never shrinks its accumulator.
proof fn lemma_fold_max_upper(engine: Engine, cfs: Seq<CfName>, end: Seq<u8>, acc: Option<Seq<u8>>)
    ensures
        ({
            let r = fold_max(engine, cfs, end, acc);
            match acc {
                Some(a) => r is Some && lex_le(a, r.unwrap()),
                None => true,
            }
        }),
    decreases cfs.len(),
{
    match acc {
        Some(a) => {
            lemma_lex_irrefl(a);
            if cfs.len() > 0 {
                let l0 = cf_last_below(engine.cf_view(cfs[0]), end);
                let acc2 = combine_max(acc, l0);
                lemma_fold_max_upper(engine, cfs.drop_first(), end, acc2);
                if l0 is Some && lex_lt(a, l0.unwrap()) {
                    lemma_lex_lt_implies_le(a, l0.unwrap());
                    lemma_lex_le_trans(
                        a,
                        l0.unwrap(),
                        fold_max(engine, cfs, end, acc).unwrap(),
                    );
                }
            }
        },
        None => {},
    }
}

/// When the probe finds both bounds, the smallest key found is no later
/// than the largest.
#[verifier::rlimit(60)]
pub proof fn lemma_bounds_ordered(engine: Engine, cfs: Seq<CfName>, start: Seq<u8>, end: Seq<u8>)
    requires
        engine.wf(),
    ensures
        match bounds_spec(engine, cfs, start, end) {
            Ok(b) => match b {
                Some((mn, mx)) => lex_le(mn, mx),
                None => true,
            },
            Err(_) => true,
        },
{
    let mnr = fold_min(engine, cfs, start, end, None);
    let mxr = fold_max(engine, cfs, end, None);
    if mnr is Some && mxr is Some {
        let mn = mnr.unwrap();
        let mx = mxr.unwrap();
        lemma_fold_min_le(engine, cfs, start, end, None);
        lemma_fold_max_ge(engine, cfs, end, None);
        let t0 = choose|t0: int|
            0 <= t0 < cfs.len() && cf_first_in_range(
                #[trigger] engine.cf_view(cfs[t0]),
                start,
                end,
            ) == Some(mn);
        let s = engine.cf_view(cfs[t0]);
        assert(sorted_strict(s)) by {
            match cfs[t0] {
                CfName::Default => {},
                CfName::Lock => {},
                CfName::Write => {},
            }
        }
        let r = range_of(s, start, end);
        lemma_range_of_in_range(s, start, end);
        lemma_range_of_membership(s, start, end);
        let j = choose|j: int| 0 <= j < s.len() && s[j] == r[0];
        assert(in_range(s[j].key, start, end));
        assert(!lex_lt(s[j].key, Seq::empty()));
        assert(in_range(s[j].key, Seq::empty(), end));
        lemma_range_of_contains(s, Seq::empty(), end, j);
        let b = range_of(s, Seq::empty(), end);
        let i = choose|i: int| 0 <= i < b.len() && #[trigger] b[i] == s[j];
        lemma_range_of_sorted_weight(s, Seq::empty(), end);
        let last = b[b.len() - 1];
        if i < b.len() - 1 {
            lemma_lex_lt_implies_le(b[i].key, last.key);
        } else {
            lemma_lex_irrefl(last.key);
        }
        assert(cf_last_below(s, end) == Some(last.key));
        assert(lex_le(last.key, mx));
        lemma_lex_le_trans(mn, last.key, mx);
    }
}

/// First-in-range and last-below-end keys of one sorted run, in one pass.
fn cf_bounds(v: &Vec<CfEntry>, start: &Vec<u8>, end: &Vec<u8>) -> (r: (
    Option<Vec<u8>>,
    Option<Vec<u8>>,
))
    ensures
        ({
            let s = v@.map_values(|e: CfEntry| e@);
            &&& (match r.0 {
                Some(k) => cf_first_in_range(s, start@, end@) == Some(k@),
                None => cf_first_in_range(s, start@, end@) is None,
            })
            &&& (match r.1 {
                Some(k) => cf_last_below(s, end@) == Some(k@),
                None => cf_last_below(s, end@) is None,
            })
        }),
{
    let ghost s = v@.map_values(|e: CfEntry| e@);
    let mut first: Option<Vec<u8>> = None;
    let mut last: Option<Vec<u8>> = None;
    let mut j: usize = 0;
    proof {
        assert(s.take(0) =~= Seq::<EntryV>::empty());
    }
    while j < v.len()
        invariant
            j <= v@.len(),
            v@.map_values(|e: CfEntry| e@) == s,
            match first {
                Some(k) => cf_first_in_range(s.take(j as int), start@, end@) == Some(k@),
                None => cf_first_in_range(s.take(j as int), start@, end@) is None,
            },
            match last {
                Some(k) => cf_last_below(s.take(j as int), end@) == Some(k@),
                None => cf_last_below(s.take(j as int), end@) is None,
            },
        decreases v@.len() - j,
    {
        proof {
            assert(s[j as int] == v@[j as int]@);
            assert(s.take(j + 1) =~= s.take(j as int) + seq![s[j as int]]);
            lemma_range_of_concat(s.take(j as int), seq![s[j as int]], start@, end@);
            lemma_range_of_concat(s.take(j as int), seq![s[j as int]], Seq::empty(), end@);
            assert(seq![s[j as int]].drop_first() =~= Seq::<EntryV>::empty());
            assert(range_of(Seq::<EntryV>::empty(), start@, end@) =~= Seq::<EntryV>::empty());
            assert(range_of(Seq::<EntryV>::empty(), Seq::empty(), end@) =~= Seq::<EntryV>::empty());
            assert(!lex_lt(s[j as int].key, Seq::empty()));
        }
        let below = bytes_lt(&v[j].key, end);
        if below {
            proof {
                assert(in_range(s[j as int].key, Seq::empty(), end@));
                assert(range_of(seq![s[j as int]], Seq::empty(), end@) =~= seq![s[j as int]]);
            }
            last = Some(copy_bytes(&v[j].key));
        } else {
            proof {
                assert(range_of(seq![s[j as int]], Seq::empty(), end@) =~= Seq::<EntryV>::empty());
            }
        }
        let keep = below && bytes_le(start, &v[j].key);
        if keep {
            proof {
                assert(range_of(seq![s[j as int]], start@, end@) =~= seq![s[j as int]]);
            }
            if first.is_none() {
                first = Some(copy_bytes(&v[j].key));
            }
        } else {
            proof {
                assert(range_of(seq![s[j as int]], start@, end@) =~= Seq::<EntryV>::empty());
            }
        }
        j = j + 1;
    }
    proof {
        assert(s.take(s.len() as int) =~= s);
    }
    (first, last)
}

/// The span probe: the global smallest and largest key observed across the
/// families of `cfs` in the range, `None` when the range is empty
/// everywhere, and an error when exactly one side was found.
pub fn bound_keys(
    engine: &Engine,
    cfs: &Vec<CfName>,
    start_key: &Vec<u8>,
    end_key: &Vec<u8>,
) -> (r: Result<Option<(Vec<u8>, Vec<u8>)>, CheckError>)
    requires
        engine.wf(),
    ensures
        ({
            let sp = bounds_spec(*engine, cfs@, start_key@, end_key@);
            match r {
                Ok(Some((a, b))) => sp == Ok::<Option<(Seq<u8>, Seq<u8>)>, CheckError>(
                    Some((a@, b@)),
                ),
                Ok(None) => sp == Ok::<Option<(Seq<u8>, Seq<u8>)>, CheckError>(None),
                Err(e) => sp == Err::<Option<(Seq<u8>, Seq<u8>)>, CheckError>(e),
            }
        }),
{
    let mut first: Option<Vec<u8>> = None;
    let mut last: Option<Vec<u8>> = None;
    let mut k: usize = 0;
    while k < cfs.len()
        invariant
            k <= cfs@.len(),
            engine.wf(),
            match first {
                Some(a) => fold_min(*engine, cfs@.take(k as int), start_key@, end_key@, None)
                    == Some(a@),
                None => fold_min(*engine, cfs@.take(k as int), start_key@, end_key@, None) is None,
            },
            match last {
                Some(a) => fold_max(*engine, cfs@.take(k as int), end_key@, None) == Some(a@),
                None => fold_max(*engine, cfs@.take(k as int), end_key@, None) is None,
            },
        decreases cfs@.len() - k,
    {
        let cf = cfs[k];
        let v = engine.cf(cf);
        let (f, l) = cf_bounds(v, start_key, end_key);
        proof {
            lemma_fold_min_snoc(*engine, cfs@.take(k + 1), start_key@, end_key@);
            lemma_fold_max_snoc(*engine, cfs@.take(k + 1), end_key@);
            assert(cfs@.take(k + 1).drop_last() =~= cfs@.take(k as int));
            assert(cfs@.take(k + 1).last() == cfs@[k as int]);
        }
        match f {
            Some(fk) => {
                match &first {
                    None => {
                        first = Some(fk);
                    },
                    Some(cur) => {
                        if bytes_lt(&fk, cur) {
                            first = Some(fk);
                        }
                    },
                }
            },
            None => {},
        }
        match l {
            Some(lk) => {
                match &last {
                    None => {
                        last = Some(lk);
                    },
                    Some(cur) => {
                        if bytes_lt(cur, &lk) {
                            last = Some(lk);
                        }
                    },
                }
            },
            None => {},
        }
        k = k + 1;
    }
    proof {
        assert(cfs@.take(cfs@.len() as int) =~= cfs@);
    }
    match (first, last) {
        (Some(a), Some(b)) => Ok(Some((a, b))),
        (None, None) => Ok(None),
        _ => Err(CheckError::InvalidBounds),
    }
}

/// Unrolls the minimum fold at its last family.
proof fn lemma_fold_min_snoc(engine: Engine, cfs: Seq<CfName>, start: Seq<u8>, end: Seq<u8>)
    requires
        cfs.len() > 0,
    ensures
        fold_min(engine, cfs, start, end, None) == combine_min(
            fold_min(engine, cfs.drop_last(), start, end, None),
            cf_first_in_range(engine.cf_view(cfs.last()), start, end),
        ),
{
    lemma_fold_min_snoc_acc(engine, cfs, start, end, None);
}

#[verifier::rlimit(60)]
proof fn lemma_fold_min_snoc_acc(
    engine: Engine,
    cfs: Seq<CfName>,
    start: Seq<u8>,
    end: Seq<u8>,
    acc: Option<Seq<u8>>,
)
    requires
        cfs.len() > 0,
    ensures
        fold_min(engine, cfs, start, end, acc) == combine_min(
            fold_min(engine, cfs.drop_last(), start, end, acc),
            cf_first_in_range(engine.cf_view(cfs.last()), start, end),
        ),
    decreases cfs.len(),
{
    if cfs.len() == 1 {
        assert(cfs.drop_last() =~= Seq::<CfName>::empty());
        assert(cfs.drop_first() =~= Seq::<CfName>::empty());
        lemma_combine_min_assoc_one(
            acc,
            cf_first_in_range(engine.cf_view(cfs[0]), start, end),
        );
    } else {
        let acc2 = combine_min(acc, cf_first_in_range(engine.cf_view(cfs[0]), start, end));
        lemma_fold_min_snoc_acc(engine, cfs.drop_first(), start, end, acc2);
        assert(cfs.drop_first().drop_last() =~= cfs.drop_last().drop_first());
        assert(cfs.drop_first().last() == cfs.last());
        assert(cfs.drop_last()[0] == cfs[0]);
        assert(fold_min(engine, cfs, start, end, acc) == fold_min(
            engine,
            cfs.drop_first(),
            start,
            end,
            acc2,
        ));
        assert(fold_min(engine, cfs.drop_last(), start, end, acc) == fold_min(
            engine,
            cfs.drop_last().drop_first(),
            start,
            end,
            acc2,
        ));
    }
}

proof fn lemma_combine_min_assoc_one(acc: Option<Seq<u8>>, k: Option<Seq<u8>>)
    ensures
        combine_min(acc, k) == combine_min(combine_min(acc, None), k),
{
}

/// Unrolls the maximum fold at its last family.
proof fn lemma_fold_max_snoc(engine: Engine, cfs: Seq<CfName>, end: Seq<u8>)
    requires
        cfs.len() > 0,
    ensures
        fold_max(engine, cfs, end, None) == combine_max(
            fold_max(engine, cfs.drop_last(), end, None),
            cf_last_below(engine.cf_view(cfs.last()), end),
        ),
{
    lemma_fold_max_snoc_acc(engine, cfs, end, None);
}

#[verifier::rlimit(60)]
proof fn lemma_fold_max_snoc_acc(engine: Engine, cfs: Seq<CfName>, end: Seq<u8>, acc: Option<Seq<u8>>)
    requires
        cfs.len() > 0,
    ensures
        fold_max(engine, cfs, end, acc) == combine_max(
            fold_max(engine, cfs.drop_last(), end, acc),
            cf_last_below(engine.cf_view(cfs.last()), end),
        ),
    decreases cfs.len(),
{
    if cfs.len() == 1 {
        assert(cfs.drop_last() =~= Seq::<CfName>::empty());
        assert(cfs.drop_first() =~= Seq::<CfName>::empty());
    } else {
        let acc2 = combine_max(acc, cf_last_below(engine.cf_view(cfs[0]), end));
        lemma_fold_max_snoc_acc(engine, cfs.drop_first(), end, acc2);
        assert(cfs.drop_first().drop_last() =~= cfs.drop_last().drop_first());
        assert(cfs.drop_first().last() == cfs.last());
        assert(cfs.drop_last()[0] == cfs[0]);
        assert(fold_max(engine, cfs, end, acc) == fold_max(engine, cfs.drop_first(), end, acc2));
        assert(fold_max(engine, cfs.drop_last(), end, acc) == fold_max(
            engine,
            cfs.drop_last().drop_first(),
            end,
            acc2,
        ));
    }
}

} // verus!
