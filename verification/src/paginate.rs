//! Pagination of ordered range scans.
//!
//! `collect` is a generic combinator: it clamps a caller-supplied page
//! size, consumes at most that many entries from an ordered listing, maps
//! each through a caller-supplied function, and short-circuits on the first
//! mapping error, returning no partial result. The `paginate_*` helpers
//! apply it to a namespace scan of the store and to a secondary index.

use vstd::prelude::*;

use crate::bytes::{is_prefix, lex_lt};
use crate::errors::StdError;
use crate::index::{unique_ref_bytes, OptionalUniqueIndex, Record};
use crate::store::{above_min, in_bounds, KeyBound, Order, Store};
use crate::typed_key::TypedKey;

verus! {

/// The page size used when the caller requests none.
pub const DEFAULT_LIMIT: u32 = 10;

/// The largest page size ever served.
pub const MAX_LIMIT: u32 = 30;

/// The page size actually served: the requested limit, defaulted and
/// capped.
pub open spec fn clamped_limit(limit: Option<u32>) -> int {
    let l = match limit {
        Some(l) => l,
        None => DEFAULT_LIMIT,
    };
    if l > MAX_LIMIT {
        MAX_LIMIT as int
    } else {
        l as int
    }
}

/// The number of entries a page over `n` available entries holds.
pub open spec fn page_len(limit: Option<u32>, n: int) -> int {
    if clamped_limit(limit) < n {
        clamped_limit(limit)
    } else {
        n
    }
}

/// Collect at most a clamped page of `entries` through `parse_fn`,
/// preserving order; the first mapping error is returned and no partial
/// result survives.
#[verifier::rlimit(100)]
pub fn collect<D, V, R, E, F: Fn(D, V) -> Result<R, E>>(
    entries: Vec<(D, V)>,
    limit: Option<u32>,
    parse_fn: F,
) -> (r: Result<Vec<R>, E>)
    requires
        forall|i: int|
            0 <= i < page_len(limit, entries@.len() as int) ==> call_requires(
                parse_fn,
                ((#[trigger] entries@[i]).0, entries@[i].1),
            ),
    ensures
        match r {
            Ok(v) => {
                &&& v@.len() == page_len(limit, entries@.len() as int)
                &&& forall|i: int|
                    0 <= i < v@.len() ==> call_ensures(
                        parse_fn,
                        ((#[trigger] entries@[i]).0, entries@[i].1),
                        Ok(v@[i]),
                    )
            },
            Err(e) => exists|i: int|
                {
                    &&& 0 <= i < page_len(limit, entries@.len() as int)
                    &&& call_ensures(parse_fn, ((#[trigger] entries@[i]).0, entries@[i].1), Err(e))
                },
        },
{
    let l0: u32 = match limit {
        Some(l) => l,
        None => DEFAULT_LIMIT,
    };
    let lim: usize = if l0 > MAX_LIMIT {
        MAX_LIMIT as usize
    } else {
        l0 as usize
    };
    let ghost all = entries@;
    let mut rest = entries;
    let mut out: Vec<R> = Vec::new();
    let ghost mut i: int = 0;
    let mut failure: Option<E> = None;
    while failure.is_none() && out.len() < lim && rest.len() > 0
        invariant
            0 <= i <= all.len(),
            i == all.len() - rest@.len(),
            rest@ =~= all.skip(i),
            failure is None ==> out@.len() == i,
            failure is None ==> i <= page_len(limit, all.len() as int),
            lim == clamped_limit(limit),
            failure is None ==> forall|j: int|
                0 <= j < i ==> call_ensures(parse_fn, ((#[trigger] all[j]).0, all[j].1), Ok(out@[j])),
            forall|j: int|
                0 <= j < page_len(limit, all.len() as int) ==> call_requires(
                    parse_fn,
                    ((#[trigger] all[j]).0, all[j].1),
                ),
            failure matches Some(e) ==> exists|k: int|
                {
                    &&& 0 <= k < page_len(limit, all.len() as int)
                    &&& call_ensures(parse_fn, ((#[trigger] all[k]).0, all[k].1), Err(e))
                },
        decreases rest@.len() + (if failure is Some { 0int } else { 1 }),
    {
        let pair = rest.remove(0);
        proof {
            assert(pair == all[i]);
            assert(i < page_len(limit, all.len() as int));
        }
        let ghost pairg = pair;
        match parse_fn(pair.0, pair.1) {
            Ok(x) => {
                out.push(x);
                proof {
                    assert(rest@ =~= all.skip(i + 1));
                    i = i + 1;
                }
            },
            Err(e) => {
                proof {
                    assert(call_ensures(parse_fn, (pairg.0, pairg.1), Err(e)));
                    assert(call_ensures(parse_fn, ((all[i]).0, (all[i]).1), Err(e)));
                    assert(exists|k: int|
                        {
                            &&& 0 <= k < page_len(limit, all.len() as int)
                            &&& call_ensures(
                                parse_fn,
                                ((#[trigger] all[k]).0, all[k].1),
                                Err(e),
                            )
                        });
                }
                failure = Some(e);
                proof {
                    assert(rest@ =~= all.skip(i + 1));
                    i = i + 1;
                }
            },
        }
    }
    match failure {
        Some(e) => Err(e),
        None => {
            proof {
                if out@.len() < lim {
                    assert(rest@.len() == 0);
                    assert(out@.len() == all.len());
                    assert(out@.len() == page_len(limit, all.len() as int));
                } else {
                    assert(out@.len() == lim);
                    assert(out@.len() <= page_len(limit, all.len() as int));
                    assert(out@.len() == page_len(limit, all.len() as int));
                }
            }
            Ok(out)
        },
    }
}

/// The ascending listing of the entries of scope `prefix` whose key
/// remainder is at or past `start`, as (remainder, value) pairs.
pub open spec fn page_entries(
    m: Map<Seq<u8>, Seq<u8>>,
    prefix: Seq<u8>,
    start: KeyBound,
    es: Seq<(Vec<u8>, Vec<u8>)>,
) -> bool {
    &&& forall|t: int| #![auto]
        0 <= t < es.len() ==> above_min(es[t].0@, start) && m.contains_key(prefix + es[t].0@)
            && m[prefix + es[t].0@] == es[t].1@
    &&& forall|k: Seq<u8>| #![auto]
        m.contains_key(k) && is_prefix(prefix, k) && above_min(k.skip(prefix.len() as int), start)
            ==> exists|t: int| 0 <= t < es.len() && prefix + es[t].0@ == k
    &&& forall|t1: int, t2: int| 0 <= t1 < t2 < es.len() ==> lex_lt(es[t1].0@, es[t2].0@)
}

/// Paginate the entries stored under `prefix`: scan ascending from
/// `start`, clamp the page size, and map each (remainder, value) pair
/// through `parse_fn`.
pub fn paginate_map<R, E, F: Fn(Vec<u8>, Vec<u8>) -> Result<R, E>>(
    store: &Store,
    prefix: &Vec<u8>,
    start: &KeyBound,
    limit: Option<u32>,
    parse_fn: F,
) -> (r: Result<Vec<R>, E>)
    requires
        forall|d: Vec<u8>, v: Vec<u8>|
            store@.contains_key(prefix@ + d@) && v@ == store@[prefix@ + d@] ==> call_requires(
                parse_fn,
                (d, v),
            ),
    ensures
        match r {
            Ok(v) => exists|es: Seq<(Vec<u8>, Vec<u8>)>|
                {
                    &&& #[trigger] page_entries(store@, prefix@, *start, es)
                    &&& v@.len() == page_len(limit, es.len() as int)
                    &&& forall|i: int|
                        0 <= i < v@.len() ==> call_ensures(
                            parse_fn,
                            ((#[trigger] es[i]).0, es[i].1),
                            Ok(v@[i]),
                        )
                },
            Err(e) => exists|es: Seq<(Vec<u8>, Vec<u8>)>|
                {
                    &&& #[trigger] page_entries(store@, prefix@, *start, es)
                    &&& exists|i: int| #![auto]
                        0 <= i < page_len(limit, es.len() as int) && call_ensures(
                            parse_fn,
                            (es[i].0, es[i].1),
                            Err(e),
                        )
                },
        },
{
    let entries = store.scan_prefix(prefix, start, &KeyBound::Unbounded, Order::Ascending);
    let ghost es = entries@;
    proof {
        assert(page_entries(store@, prefix@, *start, es)) by {
            assert forall|t: int| #![auto]
                0 <= t < es.len() implies above_min(es[t].0@, *start) && store@.contains_key(
                prefix@ + es[t].0@,
            ) && store@[prefix@ + es[t].0@] == es[t].1@ by {
                assert(in_bounds(es[t].0@, *start, KeyBound::Unbounded));
            }
            assert forall|k: Seq<u8>| #![auto]
                store@.contains_key(k) && is_prefix(prefix@, k) && above_min(
                    k.skip(prefix@.len() as int),
                    *start,
                ) implies exists|t: int| 0 <= t < es.len() && prefix@ + es[t].0@ == k by {
                assert(in_bounds(k.skip(prefix@.len() as int), *start, KeyBound::Unbounded));
            }
        }
        assert forall|i: int|
            0 <= i < page_len(limit, es.len() as int) implies call_requires(
            parse_fn,
            ((#[trigger] es[i]).0, es[i].1),
        ) by {
            assert(store@.contains_key(prefix@ + es[i].0@) && es[i].1@ == store@[prefix@ + es[
                i].0@]);
        }
    }
    collect(entries, limit, parse_fn)
}

/// Paginate the entries stored under `prefix` whose composite key starts
/// with the components of `sub`: scan ascending from `start` within that
/// narrower scope, clamp the page size, and map each (remainder, value)
/// pair through `parse_fn`.
pub fn paginate_map_prefix<P: TypedKey, R, E, F: Fn(Vec<u8>, Vec<u8>) -> Result<R, E>>(
    store: &Store,
    prefix: &Vec<u8>,
    sub: &P,
    start: &KeyBound,
    limit: Option<u32>,
    parse_fn: F,
) -> (r: Result<Vec<R>, E>)
    requires
        forall|i: int|
            0 <= i < sub.parts_spec().len() ==> #[trigger] sub.parts_spec()[i].len() < 65536,
        forall|d: Vec<u8>, v: Vec<u8>|
            store@.contains_key((prefix@ + crate::keys::framed_all(sub.parts_spec())) + d@) && v@
                == store@[(prefix@ + crate::keys::framed_all(sub.parts_spec())) + d@]
                ==> call_requires(parse_fn, (d, v)),
    ensures
        ({
            let scope = prefix@ + crate::keys::framed_all(sub.parts_spec());
            match r {
                Ok(v) => exists|es: Seq<(Vec<u8>, Vec<u8>)>|
                    {
                        &&& #[trigger] page_entries(store@, scope, *start, es)
                        &&& v@.len() == page_len(limit, es.len() as int)
                        &&& forall|i: int|
                            0 <= i < v@.len() ==> call_ensures(
                                parse_fn,
                                ((#[trigger] es[i]).0, es[i].1),
                                Ok(v@[i]),
                            )
                    },
                Err(e) => exists|es: Seq<(Vec<u8>, Vec<u8>)>|
                    {
                        &&& #[trigger] page_entries(store@, scope, *start, es)
                        &&& exists|i: int| #![auto]
                            0 <= i < page_len(limit, es.len() as int) && call_ensures(
                                parse_fn,
                                (es[i].0, es[i].1),
                                Err(e),
                            )
                    },
            }
        }),
{
    let parts = sub.key_parts();
    proof {
        assert forall|i: int| 0 <= i < parts@.len() implies #[trigger] parts@[i]@.len()
            < 65536 by {
            assert(crate::keys::views_of(parts@)[i] == parts@[i]@);
        }
    }
    let framed = crate::keys::build_framed_all(&parts);
    let scope = crate::bytes::concat_bytes(prefix, &framed);
    paginate_map(store, &scope, start, limit, parse_fn)
}

/// Paginate the entries of a secondary index: scan its index keys
/// ascending from `start`, clamp the page size, and map each (primary key,
/// record) pair through `parse_fn`. A store-layer error is converted into
/// `E`.
pub fn paginate_indexed_map<
    IK: TypedKey,
    T: Record,
    R,
    E: From<StdError>,
    F: Fn(Vec<u8>, T) -> Result<R, E>,
>(
    index: &OptionalUniqueIndex<IK, T>,
    store: &Store,
    start: &KeyBound,
    limit: Option<u32>,
    parse_fn: F,
) -> (r: Result<Vec<R>, E>)
    requires
        forall|pk: Vec<u8>, rec: T|
            (exists|k: Seq<u8>| #![auto]
                store@.contains_key(k) && is_prefix(index.scope(), k) && store@[k]
                    == unique_ref_bytes(pk@, rec.enc_spec())) ==> #[trigger] call_requires(
                parse_fn,
                (pk, rec),
            ),
    ensures
        match r {
            Ok(v) => exists|es: Seq<(Vec<u8>, T)>, ks: Seq<Seq<u8>>|
                {
                    &&& #[trigger] index.range_post(
                        store@,
                        *start,
                        KeyBound::Unbounded,
                        Order::Ascending,
                        es,
                        ks,
                    )
                    &&& v@.len() == page_len(limit, es.len() as int)
                    &&& forall|i: int|
                        0 <= i < v@.len() ==> call_ensures(
                            parse_fn,
                            ((#[trigger] es[i]).0, es[i].1),
                            Ok(v@[i]),
                        )
                },
            Err(e) => index.range_fail(store@, *start, KeyBound::Unbounded) || exists|
                es: Seq<(Vec<u8>, T)>,
                ks: Seq<Seq<u8>>,
            |
                {
                    &&& #[trigger] index.range_post(
                        store@,
                        *start,
                        KeyBound::Unbounded,
                        Order::Ascending,
                        es,
                        ks,
                    )
                    &&& exists|i: int| #![auto]
                        0 <= i < page_len(limit, es.len() as int) && call_ensures(
                            parse_fn,
                            (es[i].0, es[i].1),
                            Err(e),
                        )
                },
        },
{
    let entries = match index.range(store, start, &KeyBound::Unbounded, Order::Ascending) {
        Ok(entries) => entries,
        Err(e) => {
            return Err(E::from(e));
        },
    };
    let ghost es = entries@;
    let ghost ks = choose|ks: Seq<Seq<u8>>|
        #[trigger] index.range_post(store@, *start, KeyBound::Unbounded, Order::Ascending, es, ks);
    proof {
        assert forall|i: int|
            0 <= i < page_len(limit, es.len() as int) implies call_requires(
            parse_fn,
            ((#[trigger] es[i]).0, es[i].1),
        ) by {
            assert(store@.contains_key(ks[i]) && is_prefix(index.scope(), ks[i]) && store@[ks[i]]
                == unique_ref_bytes(es[i].0@, es[i].1.enc_spec()));
        }
    }
    collect_entries(entries, limit, parse_fn)
}

/// Collect a clamped page of index entries through `parse_fn`.
fn collect_entries<T: Record, R, E, F: Fn(Vec<u8>, T) -> Result<R, E>>(
    entries: Vec<(Vec<u8>, T)>,
    limit: Option<u32>,
    parse_fn: F,
) -> (r: Result<Vec<R>, E>)
    requires
        forall|i: int|
            0 <= i < page_len(limit, entries@.len() as int) ==> call_requires(
                parse_fn,
                ((#[trigger] entries@[i]).0, entries@[i].1),
            ),
    ensures
        match r {
            Ok(v) => {
                &&& v@.len() == page_len(limit, entries@.len() as int)
                &&& forall|i: int|
                    0 <= i < v@.len() ==> call_ensures(
                        parse_fn,
                        ((#[trigger] entries@[i]).0, entries@[i].1),
                        Ok(v@[i]),
                    )
            },
            Err(e) => exists|i: int|
                {
                    &&& 0 <= i < page_len(limit, entries@.len() as int)
                    &&& call_ensures(parse_fn, ((#[trigger] entries@[i]).0, entries@[i].1), Err(e))
                },
        },
{
    collect(entries, limit, parse_fn)
}

} // verus!
