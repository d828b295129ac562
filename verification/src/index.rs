//! Optional unique secondary index.
//!
//! The index maintains a side mapping from an optional derived index key
//! back to a primary key and a cached copy of the indexed record. At most
//! one entry ever exists per non-null index key: saving a record whose
//! index key is already taken fails with a uniqueness violation and leaves
//! the store unchanged, so the enclosing state transition can abort.
//! Records deriving no index key are simply never indexed.

use vstd::prelude::*;

use crate::bytes::{concat_bytes, is_prefix, lex_lt, tail_from};
use crate::codec::{len2_be, len2_to_be};
use crate::errors::StdError;
use crate::keys::{build_ns_prefix, ns_ok, ns_prefix, parts_tail};
use crate::store::{in_bounds, pairs_in_order, KeyBound, Order, Store};
use crate::typed_key::{string_from_utf8, TypedKey};
use core::marker::PhantomData;

verus! {

broadcast use vstd::utf8::encode_utf8_valid_utf8, vstd::utf8::decode_utf8_encode_utf8,
    vstd::utf8::encode_utf8_decode_utf8;

/// A record that can be cached inside an index entry: a value with a
/// defined byte encoding.
pub trait Record: Sized {
    /// The byte encoding of this record.
    spec fn enc_spec(&self) -> Seq<u8>;

    /// Encode this record.
    fn encode(&self) -> (r: Vec<u8>)
        ensures
            r@ == self.enc_spec(),
    ;

    /// Decode a record; returns `None` exactly when no record of this type
    /// encodes to `bytes`.
    fn decode(bytes: &Vec<u8>) -> (r: Option<Self>)
        ensures
            match r {
                Some(v) => v.enc_spec() == bytes@,
                None => forall|v: Self| (#[trigger] v.enc_spec()) != bytes@,
            },
    ;
}

impl Record for String {
    open spec fn enc_spec(&self) -> Seq<u8> {
        vstd::utf8::encode_utf8(self@)
    }

    fn encode(&self) -> (r: Vec<u8>) {
        self.as_str().as_bytes_vec()
    }

    fn decode(bytes: &Vec<u8>) -> (r: Option<Self>) {
        let r = string_from_utf8(bytes);
        proof {
            match &r {
                Some(s) => {
                    assert(vstd::utf8::encode_utf8(vstd::utf8::decode_utf8(bytes@)) == bytes@);
                },
                None => {
                    assert forall|v: String| (#[trigger] v.enc_spec()) != bytes@ by {
                        assert(vstd::utf8::valid_utf8(vstd::utf8::encode_utf8(v@)));
                    }
                },
            }
        }
        r
    }
}

/// The stored value of an index entry: the primary key framed by its
/// two-byte length, followed by the encoded record.
pub open spec fn unique_ref_bytes(pk: Seq<u8>, rec: Seq<u8>) -> Seq<u8> {
    len2_be(pk.len()) + pk + rec
}

/// Some primary key and record of type `T` decompose `bytes` as an index
/// entry value.
pub open spec fn decodes_as_entry<T: Record>(bytes: Seq<u8>) -> bool {
    exists|pk: Seq<u8>, rec: T|
        pk.len() < 65536 && bytes == #[trigger] unique_ref_bytes(pk, rec.enc_spec())
}

/// An index from an optional derived key to a primary key and a cached
/// record, enforcing at most one entry per non-null index key.
#[verifier::reject_recursive_types(IK)]
#[verifier::reject_recursive_types(T)]
pub struct OptionalUniqueIndex<IK, T> {
    ns: Vec<u8>,
    prefix: Vec<u8>,
    types: PhantomData<(IK, T)>,
}

impl<IK, T> OptionalUniqueIndex<IK, T> {
    #[verifier::type_invariant]
    spec fn inv(self) -> bool {
        &&& ns_ok(self.ns@)
        &&& self.prefix@ == ns_prefix(self.ns@)
    }
}

impl<IK: TypedKey, T: Record> OptionalUniqueIndex<IK, T> {
    /// The byte prefix every entry key of this index starts with.
    pub closed spec fn scope(&self) -> Seq<u8> {
        self.prefix@
    }

    /// The entry key deriving from the components of an index key.
    pub open spec fn key_of(&self, parts: Seq<Seq<u8>>) -> Seq<u8> {
        self.scope() + parts_tail(parts)
    }

    /// A new index storing its entries under the given namespace.
    pub fn new(idx_namespace: &str) -> (s: OptionalUniqueIndex<IK, T>)
        requires
            vstd::utf8::encode_utf8(idx_namespace@).len() < 65535,
        ensures
            s.scope() == ns_prefix(vstd::utf8::encode_utf8(idx_namespace@)),
    {
        let ns = idx_namespace.as_bytes_vec();
        let prefix = build_ns_prefix(&ns);
        OptionalUniqueIndex { ns, prefix, types: PhantomData }
    }

    fn entry_key(&self, key: &IK) -> (r: Vec<u8>)
        ensures
            r@ == self.key_of(key.parts_spec()),
    {
        let parts = key.key_parts();
        let tail = crate::keys::build_tail(&parts);
        concat_bytes(&self.prefix, &tail)
    }

    /// Index `data` under its derived index key `idx`, if any. Fails with a
    /// uniqueness violation, leaving the store unchanged, when an entry
    /// already exists under that index key.
    pub fn save(&self, store: &mut Store, pk: &Vec<u8>, data: &T, idx: Option<&IK>) -> (r: Result<
        (),
        StdError,
    >)
        requires
            pk@.len() < 65536,
        ensures
            match idx {
                None => r is Ok && final(store)@ == old(store)@,
                Some(ik) => {
                    let key = self.key_of(ik.parts_spec());
                    if old(store)@.contains_key(key) {
                        &&& r is Err
                        &&& final(store)@ == old(store)@
                        &&& (r matches Err(e) ==> e is GenericErr)
                    } else {
                        &&& r is Ok
                        &&& final(store)@ == old(store)@.insert(
                            key,
                            unique_ref_bytes(pk@, data.enc_spec()),
                        )
                    }
                },
            },
    {
        let ik = match idx {
            None => {
                return Ok(());
            },
            Some(ik) => ik,
        };
        let key = self.entry_key(ik);
        if store.has(&key) {
            return Err(
                StdError::GenericErr {
                    msg: String::from_str("Violates unique constraint on index"),
                },
            );
        }
        let head = len2_to_be(pk.len());
        let framed_pk = concat_bytes(&head, pk);
        let rec = data.encode();
        let value = concat_bytes(&framed_pk, &rec);
        store.set(&key, &value);
        proof {
            assert(value@ =~= unique_ref_bytes(pk@, data.enc_spec()));
        }
        Ok(())
    }

    /// Drop the index entry of a record being removed, if it derived an
    /// index key. Removing an absent entry is a no-op.
    pub fn remove(&self, store: &mut Store, pk: &Vec<u8>, old_data: &T, idx: Option<&IK>) -> (r:
        Result<(), StdError>)
        ensures
            r is Ok,
            match idx {
                None => final(store)@ == old(store)@,
                Some(ik) => final(store)@ == old(store)@.remove(self.key_of(ik.parts_spec())),
            },
    {
        match idx {
            None => Ok(()),
            Some(ik) => {
                let key = self.entry_key(ik);
                store.remove(&key);
                Ok(())
            },
        }
    }

    /// Decompose a stored entry value into the primary key and the record.
    fn decode_entry(bytes: &Vec<u8>) -> (r: Option<(Vec<u8>, T)>)
        ensures
            match r {
                Some((pk, rec)) => bytes@ == unique_ref_bytes(pk@, rec.enc_spec()),
                None => !decodes_as_entry::<T>(bytes@),
            },
    {
        if bytes.len() < 2 {
            proof {
                assert forall|pk: Seq<u8>, rec: T|
                    !(pk.len() < 65536 && bytes@ == #[trigger] unique_ref_bytes(
                        pk,
                        rec.enc_spec(),
                    )) by {
                    assert(unique_ref_bytes(pk, rec.enc_spec()).len() >= 2);
                }
                assert(!decodes_as_entry::<T>(bytes@));
            }
            return None;
        }
        let hi = bytes[0];
        let lo = bytes[1];
        let plen: usize = (hi as usize) * 256 + (lo as usize);
        if bytes.len() < 2 + plen {
            proof {
                assert forall|pk: Seq<u8>, rec: T|
                    !(pk.len() < 65536 && bytes@ == #[trigger] unique_ref_bytes(
                        pk,
                        rec.enc_spec(),
                    )) by {
                    if pk.len() < 65536 && bytes@ == unique_ref_bytes(pk, rec.enc_spec()) {
                        crate::codec::lemma_len2_recompose(pk.len());
                        assert(bytes@[0] == len2_be(pk.len())[0]);
                        assert(bytes@[1] == len2_be(pk.len())[1]);
                        assert(pk.len() == plen);
                        assert(unique_ref_bytes(pk, rec.enc_spec()).len() >= 2 + plen);
                    }
                }
                assert(!decodes_as_entry::<T>(bytes@));
            }
            return None;
        }
        let mut pk: Vec<u8> = Vec::new();
        let mut i: usize = 0;
        while i < plen
            invariant
                0 <= i <= plen,
                plen <= 65535,
                bytes@.len() >= 2 + plen,
                pk@ =~= bytes@.subrange(2, 2 + i as int),
            decreases plen - i,
        {
            pk.push(bytes[2 + i]);
            proof {
                assert(pk@ =~= bytes@.subrange(2, 2 + i + 1 as int));
            }
            i = i + 1;
        }
        let rest = tail_from(bytes, 2 + plen);
        match T::decode(&rest) {
            Some(rec) => {
                proof {
                    assert(bytes@ =~= unique_ref_bytes(pk@, rec.enc_spec())) by {
                        crate::codec::lemma_len2_recompose(pk@.len());
                        assert(len2_be(pk@.len()) =~= bytes@.subrange(0, 2));
                        assert(bytes@ =~= bytes@.subrange(0, 2) + bytes@.subrange(
                            2,
                            2 + plen as int,
                        ) + bytes@.skip(2 + plen as int));
                    }
                }
                Some((pk, rec))
            },
            None => {
                proof {
                    assert forall|pk2: Seq<u8>, rec: T|
                        !(pk2.len() < 65536 && bytes@ == #[trigger] unique_ref_bytes(
                            pk2,
                            rec.enc_spec(),
                        )) by {
                        if pk2.len() < 65536 && bytes@ == unique_ref_bytes(pk2, rec.enc_spec()) {
                            crate::codec::lemma_len2_recompose(pk2.len());
                            assert(bytes@[0] == len2_be(pk2.len())[0]);
                            assert(bytes@[1] == len2_be(pk2.len())[1]);
                            assert(pk2.len() == plen);
                            assert(rec.enc_spec() =~= bytes@.skip(2 + plen as int));
                            assert(rest@ == rec.enc_spec());
                            assert(false);
                        }
                    }
                    assert(!decodes_as_entry::<T>(bytes@));
                }
                None
            },
        }
    }

    /// Load the entry under index key `key`: the primary key bytes and the
    /// cached record. Fails when the entry is missing or does not decode.
    pub fn load(&self, store: &Store, key: &IK) -> (r: Result<(Vec<u8>, T), StdError>)
        ensures
            ({
                let k = self.key_of(key.parts_spec());
                match r {
                    Ok((pk, rec)) => store@.contains_key(k) && store@[k] == unique_ref_bytes(
                        pk@,
                        rec.enc_spec(),
                    ),
                    Err(e) => {
                        &&& (e is NotFound <==> !store@.contains_key(k))
                        &&& (store@.contains_key(k) ==> e is ParseErr && !decodes_as_entry::<T>(
                            store@[k],
                        ))
                    },
                }
            }),
    {
        let k = self.entry_key(key);
        match store.get(&k) {
            None => Err(StdError::NotFound { kind: String::from_str("index entry") }),
            Some(bytes) => match Self::decode_entry(&bytes) {
                Some((pk, rec)) => Ok((pk, rec)),
                None => Err(
                    StdError::ParseErr {
                        target: String::from_str("index entry"),
                        msg: String::from_str("stored entry does not decode"),
                    },
                ),
            },
        }
    }

    /// Load the entry under index key `key`, or `None` if there is none.
    /// Fails only when a present entry does not decode.
    pub fn may_load(&self, store: &Store, key: &IK) -> (r: Result<
        Option<(Vec<u8>, T)>,
        StdError,
    >)
        ensures
            ({
                let k = self.key_of(key.parts_spec());
                match r {
                    Ok(opt) => match opt {
                        Some((pk, rec)) => store@.contains_key(k) && store@[k]
                            == unique_ref_bytes(pk@, rec.enc_spec()),
                        None => !store@.contains_key(k),
                    },
                    Err(_) => store@.contains_key(k) && !decodes_as_entry::<T>(store@[k]),
                }
            }),
    {
        let k = self.entry_key(key);
        match store.get(&k) {
            None => Ok(None),
            Some(bytes) => match Self::decode_entry(&bytes) {
                Some((pk, rec)) => Ok(Some((pk, rec))),
                None => Err(
                    StdError::ParseErr {
                        target: String::from_str("index entry"),
                        msg: String::from_str("stored entry does not decode"),
                    },
                ),
            },
        }
    }

    /// Everything `range` promises of a successful result: some sequence of
    /// stored entry keys within bounds, ordered by `order`, carries exactly
    /// the returned primary keys and records, and covers every entry of the
    /// index within bounds.
    pub open spec fn range_post(
        &self,
        m: Map<Seq<u8>, Seq<u8>>,
        min: KeyBound,
        max: KeyBound,
        order: Order,
        v: Seq<(Vec<u8>, T)>,
        ks: Seq<Seq<u8>>,
    ) -> bool {
        &&& ks.len() == v.len()
        &&& forall|t: int| #![auto]
            0 <= t < ks.len() ==> m.contains_key(ks[t]) && is_prefix(self.scope(), ks[t])
                && in_bounds(ks[t].skip(self.scope().len() as int), min, max) && m[ks[t]]
                == unique_ref_bytes(v[t].0@, v[t].1.enc_spec())
        &&& forall|k: Seq<u8>| #![auto]
            m.contains_key(k) && is_prefix(self.scope(), k) && in_bounds(
                k.skip(self.scope().len() as int),
                min,
                max,
            ) ==> exists|t: int| 0 <= t < ks.len() && ks[t] == k
        &&& (order == Order::Ascending ==> forall|t1: int, t2: int| #![auto]
            0 <= t1 < t2 < ks.len() ==> lex_lt(
                ks[t1].skip(self.scope().len() as int),
                ks[t2].skip(self.scope().len() as int),
            ))
        &&& (order == Order::Descending ==> forall|t1: int, t2: int| #![auto]
            0 <= t1 < t2 < ks.len() ==> lex_lt(
                ks[t2].skip(self.scope().len() as int),
                ks[t1].skip(self.scope().len() as int),
            ))
    }

    /// What a failure of `range` means: some entry of the index within
    /// bounds has a stored value that does not decode.
    pub open spec fn range_fail(&self, m: Map<Seq<u8>, Seq<u8>>, min: KeyBound, max: KeyBound) -> bool {
        exists|k: Seq<u8>|
            {
                &&& #[trigger] m.contains_key(k)
                &&& is_prefix(self.scope(), k)
                &&& in_bounds(k.skip(self.scope().len() as int), min, max)
                &&& !decodes_as_entry::<T>(m[k])
            }
    }

    /// Ordered scan over the index entries whose index key lies within the
    /// given bounds, returning each entry's primary key and cached record.
    /// Fails when a scanned entry does not decode.
    #[verifier::rlimit(100)]
    #[verifier::spinoff_prover]
    pub fn range(&self, store: &Store, min: &KeyBound, max: &KeyBound, order: Order) -> (r: Result<
        Vec<(Vec<u8>, T)>,
        StdError,
    >)
        ensures
            (r matches Ok(v) ==> exists|ks: Seq<Seq<u8>>|
                #[trigger] self.range_post(store@, *min, *max, order, v@, ks)),
            r is Err ==> self.range_fail(store@, *min, *max),
    {
        let raw = store.scan_prefix(&self.prefix, min, max, order);
        let mut v: Vec<(Vec<u8>, T)> = Vec::new();
        let ghost mut ks: Seq<Seq<u8>> = Seq::empty();
        let mut i: usize = 0;
        while i < raw.len()
            invariant
                0 <= i <= raw@.len(),
                v@.len() == i,
                ks.len() == i,
                forall|t: int| #![auto] 0 <= t < i ==> ks[t] == self.scope() + raw@[t].0@,
                forall|t: int| #![auto]
                    0 <= t < i ==> store@[self.scope() + raw@[t].0@] == unique_ref_bytes(
                        v@[t].0@,
                        v@[t].1.enc_spec(),
                    ),
                forall|t: int| #![auto]
                    0 <= t < raw@.len() ==> in_bounds(raw@[t].0@, *min, *max)
                        && store@.contains_key(self.scope() + raw@[t].0@) && store@[self.scope()
                        + raw@[t].0@] == raw@[t].1@,
                forall|k: Seq<u8>| #![auto]
                    store@.contains_key(k) && is_prefix(self.scope(), k) && in_bounds(
                        k.skip(self.scope().len() as int),
                        *min,
                        *max,
                    ) ==> exists|t: int|
                        0 <= t < raw@.len() && self.scope() + raw@[t].0@ == k,
                pairs_in_order(raw@, order),
            decreases raw@.len() - i,
        {
            match Self::decode_entry(&raw[i].1) {
                Some((pk, rec)) => {
                    v.push((pk, rec));
                    proof {
                        ks = ks.push(self.scope() + raw@[i as int].0@);
                    }
                },
                None => {
                    proof {
                        let k = self.scope() + raw@[i as int].0@;
                        assert(store@.contains_key(k));
                        assert(is_prefix(self.scope(), k)) by {
                            assert(self.scope() =~= k.subrange(0, self.scope().len() as int));
                        }
                        assert(k.skip(self.scope().len() as int) =~= raw@[i as int].0@);
                        assert(store@[k] == raw@[i as int].1@);
                        assert(self.range_fail(store@, *min, *max));
                    }
                    return Err(
                        StdError::ParseErr {
                            target: String::from_str("index entry"),
                            msg: String::from_str("stored entry does not decode"),
                        },
                    );
                },
            }
            i = i + 1;
        }
        proof {
            assert forall|t: int| #![auto]
                0 <= t < ks.len() implies store@.contains_key(ks[t]) && is_prefix(
                self.scope(),
                ks[t],
            ) && in_bounds(ks[t].skip(self.scope().len() as int), *min, *max) && store@[ks[t]]
                == unique_ref_bytes(v@[t].0@, v@[t].1.enc_spec()) by {
                assert(ks[t] == self.scope() + raw@[t].0@);
                assert(is_prefix(self.scope(), ks[t])) by {
                    assert(self.scope() =~= ks[t].subrange(0, self.scope().len() as int));
                }
                assert(ks[t].skip(self.scope().len() as int) =~= raw@[t].0@);
            }
            assert forall|k: Seq<u8>| #![auto]
                store@.contains_key(k) && is_prefix(self.scope(), k) && in_bounds(
                    k.skip(self.scope().len() as int),
                    *min,
                    *max,
                ) implies exists|t: int| 0 <= t < ks.len() && ks[t] == k by {
                let t = choose|t: int| 0 <= t < raw@.len() && self.scope() + raw@[t].0@ == k;
                assert(ks[t] == k);
            }
            assert forall|t1: int, t2: int| #![auto]
                0 <= t1 < t2 < ks.len() && order == Order::Ascending implies lex_lt(
                ks[t1].skip(self.scope().len() as int),
                ks[t2].skip(self.scope().len() as int),
            ) by {
                assert(ks[t1].skip(self.scope().len() as int) =~= raw@[t1].0@);
                assert(ks[t2].skip(self.scope().len() as int) =~= raw@[t2].0@);
                assert(lex_lt(raw@[t1].0@, raw@[t2].0@));
            }
            assert forall|t1: int, t2: int| #![auto]
                0 <= t1 < t2 < ks.len() && order == Order::Descending implies lex_lt(
                ks[t2].skip(self.scope().len() as int),
                ks[t1].skip(self.scope().len() as int),
            ) by {
                assert(ks[t1].skip(self.scope().len() as int) =~= raw@[t1].0@);
                assert(ks[t2].skip(self.scope().len() as int) =~= raw@[t2].0@);
                assert(lex_lt(raw@[t2].0@, raw@[t1].0@));
            }
            assert(self.range_post(store@, *min, *max, order, v@, ks));
        }
        let res: Result<Vec<(Vec<u8>, T)>, StdError> = Ok(v);
        proof {
            match &res {
                Ok(v2) => {
                    assert(exists|ks2: Seq<Seq<u8>>|
                        #[trigger] self.range_post(store@, *min, *max, order, (*v2)@, ks2));
                },
                Err(_) => {},
            }
        }
        res
    }

    /// Once an index key is taken, it stays taken until removed: the
    /// post-state of a successful save contains the entry key, so by
    /// `save`'s contract a second save under the same index key, for any
    /// primary key and record, fails and leaves the store unchanged.
    pub proof fn lemma_save_excludes(
        &self,
        m: Map<Seq<u8>, Seq<u8>>,
        parts: Seq<Seq<u8>>,
        pk: Seq<u8>,
        rec: Seq<u8>,
    )
        ensures
            m.insert(self.key_of(parts), unique_ref_bytes(pk, rec)).contains_key(
                self.key_of(parts),
            ),
    {
    }
}

} // verus!
