//! A uniqueness-enforcing item set.
//!
//! An `ItemSet<T>` keeps typed keys under a namespace of the shared store:
//! an element is present exactly when its derived member key maps to the
//! marker value. With cardinality tracking enabled, a counter lives under a
//! separate singleton key and always equals the number of member keys
//! present; both writes of a mutation land in the same store before the
//! call returns, so the two are never observed apart within a transition.

use vstd::prelude::*;

use crate::bytes::{concat_bytes, is_prefix};
use crate::codec::{lemma_u64_be_injective, u64_be, u64_from_be, u64_to_be};
use crate::errors::StdError;
use crate::keys::{
    build_framed_all, build_ns_prefix, build_singleton_key, build_tail, framed_all,
    lemma_singleton_isolated, ns_ok, ns_prefix, parts_tail, singleton_key, views_of,
};
use crate::store::{in_bounds, KeyBound, Order, Store};
use crate::typed_key::TypedKey;
use core::marker::PhantomData;

verus! {

/// The marker value stored under every member key: the two bytes `{}`.
pub open spec fn marker_bytes() -> Seq<u8> {
    seq![123u8, 125u8]
}

/// Build the marker value.
pub fn build_marker() -> (r: Vec<u8>)
    ensures
        r@ == marker_bytes(),
{
    let mut r: Vec<u8> = Vec::new();
    r.push(123);
    r.push(125);
    proof {
        assert(r@ =~= marker_bytes());
    }
    r
}

/// The counter under key `ck` reads as `c`: its eight stored bytes encode
/// `c`, or it is absent and `c` is zero.
pub open spec fn counter_reads(m: Map<Seq<u8>, Seq<u8>>, ck: Seq<u8>, c: u64) -> bool {
    if m.contains_key(ck) {
        m[ck] == u64_be(c)
    } else {
        c == 0
    }
}

/// The counter under key `ck` is decodable (absent, or eight bytes).
pub open spec fn counter_ok(m: Map<Seq<u8>, Seq<u8>>, ck: Seq<u8>) -> bool {
    m.contains_key(ck) ==> m[ck].len() == 8
}

/// A set of non-duplicate typed keys under one namespace, with an optional
/// cardinality counter.
#[verifier::reject_recursive_types(T)]
pub struct ItemSet<T> {
    ns: Vec<u8>,
    prefix: Vec<u8>,
    counter_key: Option<Vec<u8>>,
    key_type: PhantomData<T>,
}

impl<T> ItemSet<T> {
    #[verifier::type_invariant]
    spec fn inv(self) -> bool {
        &&& ns_ok(self.ns@)
        &&& self.prefix@ == ns_prefix(self.ns@)
        &&& match self.counter_key {
            Some(k) => exists|name: Seq<u8>| k@ == singleton_key(name),
            None => true,
        }
    }
}

impl<T: TypedKey> ItemSet<T> {
    /// The namespace bytes of this set.
    pub closed spec fn namespace_spec(&self) -> Seq<u8> {
        self.ns@
    }

    /// The byte prefix every member key of this set starts with.
    pub closed spec fn scope(&self) -> Seq<u8> {
        self.prefix@
    }

    /// Whether cardinality tracking is enabled.
    pub closed spec fn counting(&self) -> bool {
        self.counter_key is Some
    }

    /// The key of the cardinality counter.
    pub closed spec fn counter_key_spec(&self) -> Seq<u8> {
        match self.counter_key {
            Some(k) => k@,
            None => Seq::empty(),
        }
    }

    /// The member key deriving from components `parts`.
    pub open spec fn key_of(&self, parts: Seq<Seq<u8>>) -> Seq<u8> {
        self.scope() + parts_tail(parts)
    }

    /// A set without cardinality tracking under the given namespace.
    pub fn new(namespace: &str) -> (s: ItemSet<T>)
        requires
            vstd::utf8::encode_utf8(namespace@).len() < 65535,
        ensures
            s.namespace_spec() == vstd::utf8::encode_utf8(namespace@),
            s.scope() == ns_prefix(vstd::utf8::encode_utf8(namespace@)),
            !s.counting(),
    {
        let ns = namespace.as_bytes_vec();
        let prefix = build_ns_prefix(&ns);
        ItemSet { ns, prefix, counter_key: None, key_type: PhantomData }
    }

    /// A set with cardinality tracking, with the counter stored under its
    /// own singleton key.
    pub fn new_counted(namespace: &str, counter_namespace: &str) -> (s: ItemSet<T>)
        requires
            vstd::utf8::encode_utf8(namespace@).len() < 65535,
        ensures
            s.namespace_spec() == vstd::utf8::encode_utf8(namespace@),
            s.scope() == ns_prefix(vstd::utf8::encode_utf8(namespace@)),
            s.counting(),
            s.counter_key_spec() == singleton_key(
                vstd::utf8::encode_utf8(counter_namespace@),
            ),
    {
        let ns = namespace.as_bytes_vec();
        let prefix = build_ns_prefix(&ns);
        let cns = counter_namespace.as_bytes_vec();
        let ck = build_singleton_key(&cns);
        ItemSet { ns, prefix, counter_key: Some(ck), key_type: PhantomData }
    }

    /// Derive the member key of `item`.
    fn member_key_exec(&self, item: &T) -> (r: Vec<u8>)
        ensures
            r@ == self.key_of(item.parts_spec()),
    {
        let parts = item.key_parts();
        let tail = build_tail(&parts);
        concat_bytes(&self.prefix, &tail)
    }

    /// Whether the set contains `item`.
    pub fn contains(&self, store: &Store, item: &T) -> (r: bool)
        ensures
            r == store@.contains_key(self.key_of(item.parts_spec())),
    {
        let key = self.member_key_exec(item);
        store.has(&key)
    }

    /// Return the persisted cardinality, zero if never initialized.
    pub fn count(&self, store: &Store) -> (r: Result<u64, StdError>)
        requires
            self.counting(),
        ensures
            match r {
                Ok(c) => counter_reads(store@, self.counter_key_spec(), c),
                Err(_) => !counter_ok(store@, self.counter_key_spec()),
            },
    {
        let ck = match &self.counter_key {
            Some(ck) => ck,
            None => {
                proof {
                    assert(false);
                }
                return Ok(0);
            },
        };
        match store.get(ck) {
            None => Ok(0),
            Some(bytes) => match u64_from_be(&bytes) {
                Some(n) => Ok(n),
                None => Err(
                    StdError::ParseErr {
                        target: String::from_str("u64"),
                        msg: String::from_str("counter is not eight bytes"),
                    },
                ),
            },
        }
    }

    /// Add `item` to the set; reports whether it was newly added. With
    /// cardinality tracking, the counter is incremented in the same state
    /// transition.
    #[verifier::rlimit(60)]
    pub fn insert(&self, store: &mut Store, item: &T) -> (r: Result<bool, StdError>)
        ensures
            ({
                let mk = self.key_of(item.parts_spec());
                let ck = self.counter_key_spec();
                match r {
                    Ok(added) => {
                        &&& added == !old(store)@.contains_key(mk)
                        &&& (!added ==> final(store)@ == old(store)@)
                        &&& ((added && !self.counting()) ==> final(store)@ == old(store)@.insert(
                            mk,
                            marker_bytes(),
                        ))
                        &&& ((added && self.counting()) ==> exists|c: u64|
                            {
                                &&& #[trigger] counter_reads(old(store)@, ck, c)
                                &&& c < u64::MAX
                                &&& final(store)@ == old(store)@.insert(mk, marker_bytes()).insert(
                                    ck,
                                    u64_be((c + 1) as u64),
                                )
                            })
                    },
                    Err(e) => {
                        &&& self.counting()
                        &&& !old(store)@.contains_key(mk)
                        &&& forall|c: u64|
                            !(#[trigger] counter_reads(old(store)@, ck, c) && c < u64::MAX)
                        &&& final(store)@ == old(store)@.insert(mk, marker_bytes())
                        &&& (!counter_ok(old(store)@, ck) ==> e is ParseErr)
                        &&& (counter_ok(old(store)@, ck) ==> e is GenericErr)
                    },
                }
            }),
    {
        let key = self.member_key_exec(item);
        if store.has(&key) {
            return Ok(false);
        }
        let marker = build_marker();
        store.set(&key, &marker);
        let ck = match &self.counter_key {
            None => {
                return Ok(true);
            },
            Some(ck) => ck,
        };
        proof {
            use_type_invariant(self);
            let name = choose|name: Seq<u8>| ck@ == singleton_key(name);
            lemma_singleton_isolated(name, self.ns@, parts_tail(item.parts_spec()));
        }
        let c: u64 = match store.get(ck) {
            None => 0,
            Some(bytes) => match u64_from_be(&bytes) {
                Some(n) => n,
                None => {
                    proof {
                        assert forall|c: u64|
                            !(#[trigger] counter_reads(old(store)@, ck@, c) && c
                                < u64::MAX) by {
                            assert(u64_be(c).len() == 8);
                        }
                    }
                    return Err(
                        StdError::ParseErr {
                            target: String::from_str("u64"),
                            msg: String::from_str("counter is not eight bytes"),
                        },
                    );
                },
            },
        };
        if c == u64::MAX {
            proof {
                assert forall|c2: u64|
                    !(#[trigger] counter_reads(old(store)@, ck@, c2) && c2 < u64::MAX) by {
                    if counter_reads(old(store)@, ck@, c2) {
                        if old(store)@.contains_key(ck@) {
                            lemma_u64_be_injective(c2, c);
                        }
                    }
                }
            }
            return Err(StdError::GenericErr { msg: String::from_str("count overflow") });
        }
        let cv = u64_to_be(c + 1);
        store.set(ck, &cv);
        proof {
            assert(counter_reads(old(store)@, self.counter_key_spec(), c));
            assert(store@ == old(store)@.insert(self.key_of(item.parts_spec()), marker_bytes())
                .insert(self.counter_key_spec(), u64_be((c + 1) as u64)));
        }
        Ok(true)
    }

    /// Remove `item` from the set; reports whether it was present. With
    /// cardinality tracking, the counter is decremented in the same state
    /// transition; reducing it below zero is an invariant violation, not a
    /// not-found condition.
    #[verifier::rlimit(60)]
    pub fn remove(&self, store: &mut Store, item: &T) -> (r: Result<bool, StdError>)
        ensures
            ({
                let mk = self.key_of(item.parts_spec());
                let ck = self.counter_key_spec();
                match r {
                    Ok(existed) => {
                        &&& existed == old(store)@.contains_key(mk)
                        &&& (!existed ==> final(store)@ == old(store)@)
                        &&& ((existed && !self.counting()) ==> final(store)@ == old(
                            store,
                        )@.remove(mk))
                        &&& ((existed && self.counting()) ==> exists|c: u64|
                            {
                                &&& #[trigger] counter_reads(old(store)@, ck, c)
                                &&& c > 0
                                &&& final(store)@ == old(store)@.remove(mk).insert(
                                    ck,
                                    u64_be((c - 1) as u64),
                                )
                            })
                    },
                    Err(e) => {
                        &&& self.counting()
                        &&& old(store)@.contains_key(mk)
                        &&& forall|c: u64|
                            !(#[trigger] counter_reads(old(store)@, ck, c) && c > 0)
                        &&& final(store)@ == old(store)@.remove(mk)
                        &&& (!counter_ok(old(store)@, ck) ==> e is ParseErr)
                        &&& (counter_ok(old(store)@, ck) ==> e is GenericErr)
                    },
                }
            }),
    {
        let key = self.member_key_exec(item);
        if !store.has(&key) {
            return Ok(false);
        }
        store.remove(&key);
        let ck = match &self.counter_key {
            None => {
                return Ok(true);
            },
            Some(ck) => ck,
        };
        proof {
            use_type_invariant(self);
            let name = choose|name: Seq<u8>| ck@ == singleton_key(name);
            lemma_singleton_isolated(name, self.ns@, parts_tail(item.parts_spec()));
        }
        let c: u64 = match store.get(ck) {
            None => 0,
            Some(bytes) => match u64_from_be(&bytes) {
                Some(n) => n,
                None => {
                    proof {
                        assert forall|c: u64|
                            !(#[trigger] counter_reads(old(store)@, ck@, c) && c > 0) by {
                            assert(u64_be(c).len() == 8);
                        }
                    }
                    return Err(
                        StdError::ParseErr {
                            target: String::from_str("u64"),
                            msg: String::from_str("counter is not eight bytes"),
                        },
                    );
                },
            },
        };
        if c == 0 {
            proof {
                assert forall|c2: u64|
                    !(#[trigger] counter_reads(old(store)@, ck@, c2) && c2 > 0) by {
                    if counter_reads(old(store)@, ck@, c2) {
                        if old(store)@.contains_key(ck@) {
                            lemma_u64_be_injective(c2, c);
                        }
                    }
                }
            }
            return Err(
                StdError::GenericErr {
                    msg: String::from_str("count cannot be reduced below zero"),
                },
            );
        }
        let cv = u64_to_be(c - 1);
        store.set(ck, &cv);
        proof {
            assert(counter_reads(old(store)@, self.counter_key_spec(), c));
            assert(store@ == old(store)@.remove(self.key_of(item.parts_spec())).insert(
                self.counter_key_spec(),
                u64_be((c - 1) as u64),
            ));
        }
        Ok(true)
    }

    /// The set of all member keys of this scope.
    pub open spec fn member_keys(&self) -> Set<Seq<u8>> {
        Set::new(|k: Seq<u8>| is_prefix(self.scope(), k))
    }

    /// Remove the member keys derived from `batch[j..upto]`.
    fn remove_batch(
        &self,
        store: &mut Store,
        batch: &Vec<(Vec<u8>, Vec<u8>)>,
        j: usize,
        upto: usize,
    )
        requires
            j <= upto <= batch@.len(),
        ensures
            final(store)@ == old(store)@.remove_keys(
                Set::new(
                    |k: Seq<u8>|
                        exists|t: int| j <= t < upto && k == self.scope() + batch@[t].0@,
                ),
            ),
        decreases upto - j,
    {
        let ghost removed = Set::new(
            |k: Seq<u8>| exists|t: int| j <= t < upto && k == self.scope() + batch@[t].0@,
        );
        if j < upto {
            let full = concat_bytes(&self.prefix, &batch[j].0);
            store.remove(&full);
            let ghost mid = store@;
            self.remove_batch(store, batch, j + 1, upto);
            proof {
                let rest = Set::new(
                    |k: Seq<u8>|
                        exists|t: int| j + 1 <= t < upto && k == self.scope() + batch@[t].0@,
                );
                assert(store@ == mid.remove_keys(rest));
                assert forall|k: Seq<u8>| #![auto] store@.contains_key(k) implies old(
                    store,
                )@.remove_keys(removed).contains_key(k) && store@[k] == old(store)@.remove_keys(
                    removed,
                )[k] by {
                    assert(k != full@);
                    assert(!rest.contains(k));
                    if removed.contains(k) {
                        let t = choose|t: int|
                            j <= t < upto && k == self.scope() + batch@[t].0@;
                        assert(t == j);
                        assert(false);
                    }
                }
                assert forall|k: Seq<u8>| #![auto] old(store)@.remove_keys(
                    removed,
                ).contains_key(k) implies store@.contains_key(k) by {
                    assert(!removed.contains(k));
                    assert(!rest.contains(k));
                    assert(k != self.scope() + batch@[j as int].0@);
                }
                assert(store@ =~= old(store)@.remove_keys(removed));
            }
        } else {
            proof {
                assert forall|k: Seq<u8>| !(#[trigger] removed.contains(k)) by {
                    if removed.contains(k) {
                        let t = choose|t: int|
                            j <= t < upto && k == self.scope() + batch@[t].0@;
                        assert(false);
                    }
                }
                assert(store@ =~= old(store)@.remove_keys(removed));
            }
        }
    }

    /// One or more bounded deletion passes: scan the namespace, delete at
    /// most ten entries, rescan from the top, until a pass finds no more
    /// than a full batch.
    #[verifier::rlimit(100)]
    fn clear_members(&self, store: &mut Store)
        ensures
            forall|k: Seq<u8>| #![auto]
                !is_prefix(self.scope(), k) ==> final(store)@.contains_key(k) == old(
                    store,
                )@.contains_key(k) && (old(store)@.contains_key(k) ==> final(store)@[k] == old(
                    store,
                )@[k]),
            forall|k: Seq<u8>| #![auto]
                is_prefix(self.scope(), k) ==> !final(store)@.contains_key(k),
        decreases store@.dom().intersect(self.member_keys()).len(),
    {
        proof {
            store.lemma_dom_finite();
            vstd::set_lib::lemma_len_subset(
                store@.dom().intersect(self.member_keys()),
                store@.dom(),
            );
        }
        let ghost pre = store@;
        let batch = store.scan_prefix(
            &self.prefix,
            &KeyBound::Unbounded,
            &KeyBound::Unbounded,
            Order::Ascending,
        );
        proof {
            assert forall|k: Seq<u8>|
                pre.contains_key(k) && is_prefix(self.scope(), k) implies exists|t: int|
                0 <= t < batch@.len() && self.scope() + batch@[t].0@ == k by {
                assert(in_bounds(
                    k.skip(self.scope().len() as int),
                    KeyBound::Unbounded,
                    KeyBound::Unbounded,
                ));
            }
        }
        if batch.len() == 0 {
            proof {
                assert forall|k: Seq<u8>| #![auto]
                    is_prefix(self.scope(), k) implies !store@.contains_key(k) by {}
            }
            return ;
        }
        let upto = if batch.len() < 10 {
            batch.len()
        } else {
            10
        };
        self.remove_batch(store, &batch, 0, upto);
        let ghost removed = Set::new(
            |k: Seq<u8>| exists|t: int| 0 <= t < upto && k == self.scope() + batch@[t].0@,
        );
        proof {
            let k0 = self.scope() + batch@[0].0@;
            assert(removed.contains(k0)) by {
                assert(0 <= 0 < upto && k0 == self.scope() + batch@[0].0@);
            }
            assert(pre.contains_key(k0));
            assert(is_prefix(self.scope(), k0)) by {
                assert(self.scope() =~= k0.subrange(0, self.scope().len() as int));
            }
            assert(pre.dom().intersect(self.member_keys()).contains(k0));
            assert(store@.dom().intersect(self.member_keys()).subset_of(
                pre.dom().intersect(self.member_keys()).remove(k0),
            )) by {
                assert forall|k: Seq<u8>|
                    store@.dom().intersect(self.member_keys()).contains(k) implies pre
                    .dom()
                    .intersect(self.member_keys())
                    .remove(k0)
                    .contains(k) by {
                    assert(!removed.contains(k));
                    if k == k0 {
                        assert(removed.contains(k0));
                        assert(false);
                    }
                }
            }
            vstd::set_lib::lemma_len_subset(
                pre.dom().intersect(self.member_keys()),
                pre.dom(),
            );
            vstd::set_lib::lemma_len_subset(
                store@.dom().intersect(self.member_keys()),
                pre.dom().intersect(self.member_keys()).remove(k0),
            );
            assert(pre.dom().intersect(self.member_keys()).remove(k0).len() == pre.dom().intersect(
                self.member_keys(),
            ).len() - 1);
        }
        if batch.len() <= 10 {
            proof {
                assert forall|k: Seq<u8>| #![auto]
                    is_prefix(self.scope(), k) implies !store@.contains_key(k) by {
                    if store@.contains_key(k) {
                        assert(pre.contains_key(k));
                        let t = choose|t: int|
                            0 <= t < batch@.len() && self.scope() + batch@[t].0@ == k;
                        assert(removed.contains(k)) by {
                            assert(0 <= t < upto && k == self.scope() + batch@[t].0@);
                        }
                        assert(false);
                    }
                }
            }
            return ;
        }
        self.clear_members(store);
    }

    /// Delete every entry of the set, in bounded batches, and reset the
    /// counter to absent if tracking is enabled.
    pub fn clear(&self, store: &mut Store)
        ensures
            final(store)@ == ({
                let cleared = old(store)@.remove_keys(self.member_keys());
                if self.counting() {
                    cleared.remove(self.counter_key_spec())
                } else {
                    cleared
                }
            }),
    {
        self.clear_members(store);
        let ghost mid = store@;
        proof {
            let cleared = old(store)@.remove_keys(self.member_keys());
            assert forall|k: Seq<u8>| #![auto] mid.contains_key(k) == cleared.contains_key(
                k,
            ) by {
                if is_prefix(self.scope(), k) {
                    assert(!mid.contains_key(k));
                    assert(self.member_keys().contains(k));
                } else {
                    assert(!self.member_keys().contains(k));
                    assert(mid.contains_key(k) == old(store)@.contains_key(k));
                }
            }
            assert forall|k: Seq<u8>| #![auto] mid.contains_key(k) implies mid[k]
                == cleared[k] by {
                assert(!is_prefix(self.scope(), k));
                assert(old(store)@.contains_key(k));
                assert(mid[k] == old(store)@[k]);
            }
            assert(mid =~= cleared);
        }
        match &self.counter_key {
            Some(ck) => {
                store.remove(ck);
            },
            None => {},
        }
    }

    /// Narrow the iteration scope to composite keys starting with the
    /// components of `p`.
    pub fn prefix<P: TypedKey>(&self, p: &P) -> (r: SetPrefix)
        requires
            forall|i: int|
                0 <= i < p.parts_spec().len() ==> #[trigger] p.parts_spec()[i].len() < 65536,
        ensures
            r.scope() == self.scope() + framed_all(p.parts_spec()),
    {
        let parts = p.key_parts();
        proof {
            assert forall|i: int|
                0 <= i < parts@.len() implies #[trigger] parts@[i]@.len() < 65536 by {
                assert(views_of(parts@)[i] == parts@[i]@);
            }
        }
        let framed = build_framed_all(&parts);
        let scope_key = concat_bytes(&self.prefix, &framed);
        SetPrefix { scope_key }
    }

    /// Everything `items` promises of a successful result `v`: each element
    /// is a present member within bounds, every member key within bounds is
    /// represented, and elements follow `order` on their encoded tails.
    pub open spec fn items_post(
        &self,
        m: Map<Seq<u8>, Seq<u8>>,
        min: KeyBound,
        max: KeyBound,
        order: Order,
        v: Seq<T>,
    ) -> bool {
        &&& forall|t: int| #![auto]
            0 <= t < v.len() ==> m.contains_key(self.key_of(v[t].parts_spec())) && in_bounds(
                parts_tail(v[t].parts_spec()),
                min,
                max,
            )
        &&& forall|k: Seq<u8>| #![auto]
            m.contains_key(k) && is_prefix(self.scope(), k) && in_bounds(
                k.skip(self.scope().len() as int),
                min,
                max,
            ) ==> exists|t: int| 0 <= t < v.len() && self.key_of(v[t].parts_spec()) == k
        &&& (order == Order::Ascending ==> forall|t1: int, t2: int| #![auto]
            0 <= t1 < t2 < v.len() ==> crate::bytes::lex_lt(
                parts_tail(v[t1].parts_spec()),
                parts_tail(v[t2].parts_spec()),
            ))
        &&& (order == Order::Descending ==> forall|t1: int, t2: int| #![auto]
            0 <= t1 < t2 < v.len() ==> crate::bytes::lex_lt(
                parts_tail(v[t2].parts_spec()),
                parts_tail(v[t1].parts_spec()),
            ))
    }

    /// What a failure of `items` means: some member key within bounds has a
    /// tail no key of this type encodes to.
    pub open spec fn items_fail(&self, m: Map<Seq<u8>, Seq<u8>>, min: KeyBound, max: KeyBound) -> bool {
        exists|k: Seq<u8>|
            {
                &&& #[trigger] m.contains_key(k)
                &&& is_prefix(self.scope(), k)
                &&& in_bounds(k.skip(self.scope().len() as int), min, max)
                &&& forall|key: T|
                    parts_tail(#[trigger] key.parts_spec()) != k.skip(self.scope().len() as int)
            }
    }

    /// Iterate the typed keys of the set within the given bounds on the key
    /// tail, in the given order; fails if a stored key does not decode.
    #[verifier::rlimit(100)]
    #[verifier::spinoff_prover]
    pub fn items(&self, store: &Store, min: &KeyBound, max: &KeyBound, order: Order) -> (r:
        Result<Vec<T>, StdError>)
        ensures
            match r {
                Ok(v) => self.items_post(store@, *min, *max, order, v@),
                Err(_) => self.items_fail(store@, *min, *max),
            },
    {
        let raw = store.scan_prefix(&self.prefix, min, max, order);
        let mut v: Vec<T> = Vec::new();
        let mut i: usize = 0;
        while i < raw.len()
            invariant
                0 <= i <= raw@.len(),
                v@.len() == i,
                forall|t: int| #![auto]
                    0 <= t < i ==> parts_tail(v@[t].parts_spec()) == raw@[t].0@,
                forall|t: int| #![auto]
                    0 <= t < raw@.len() ==> in_bounds(raw@[t].0@, *min, *max)
                        && store@.contains_key(self.scope() + raw@[t].0@),
                forall|k: Seq<u8>| #![auto]
                    store@.contains_key(k) && is_prefix(self.scope(), k) && in_bounds(
                        k.skip(self.scope().len() as int),
                        *min,
                        *max,
                    ) ==> exists|t: int|
                        0 <= t < raw@.len() && self.scope() + raw@[t].0@ == k,
                crate::store::pairs_in_order(raw@, order),
            decreases raw@.len() - i,
        {
            match T::from_tail(&raw[i].0) {
                Some(key) => {
                    v.push(key);
                },
                None => {
                    proof {
                        let k = self.scope() + raw@[i as int].0@;
                        assert(store@.contains_key(k));
                        assert(is_prefix(self.scope(), k)) by {
                            assert(self.scope() =~= k.subrange(0, self.scope().len() as int));
                        }
                        assert(k.skip(self.scope().len() as int) =~= raw@[i as int].0@);
                        assert(self.items_fail(store@, *min, *max));
                    }
                    return Err(
                        StdError::ParseErr {
                            target: String::from_str("typed key"),
                            msg: String::from_str("stored key does not decode"),
                        },
                    );
                },
            }
            i = i + 1;
        }
        proof {
            assert forall|t: int| #![auto] 0 <= t < v@.len() implies store@.contains_key(
                self.key_of(v@[t].parts_spec()),
            ) && in_bounds(parts_tail(v@[t].parts_spec()), *min, *max) by {
                assert(parts_tail(v@[t].parts_spec()) == raw@[t].0@);
            }
            assert forall|t1: int, t2: int| #![auto]
                0 <= t1 < t2 < v@.len() && order == Order::Ascending implies crate::bytes::lex_lt(
                parts_tail(v@[t1].parts_spec()),
                parts_tail(v@[t2].parts_spec()),
            ) by {
                assert(parts_tail(v@[t1].parts_spec()) == raw@[t1].0@);
                assert(parts_tail(v@[t2].parts_spec()) == raw@[t2].0@);
                assert(crate::bytes::lex_lt(raw@[t1].0@, raw@[t2].0@));
            }
            assert forall|t1: int, t2: int| #![auto]
                0 <= t1 < t2 < v@.len() && order == Order::Descending implies crate::bytes::lex_lt(
                parts_tail(v@[t2].parts_spec()),
                parts_tail(v@[t1].parts_spec()),
            ) by {
                assert(parts_tail(v@[t1].parts_spec()) == raw@[t1].0@);
                assert(parts_tail(v@[t2].parts_spec()) == raw@[t2].0@);
                assert(crate::bytes::lex_lt(raw@[t2].0@, raw@[t1].0@));
            }
            assert forall|k: Seq<u8>| #![auto]
                store@.contains_key(k) && is_prefix(self.scope(), k) && in_bounds(
                    k.skip(self.scope().len() as int),
                    *min,
                    *max,
                ) implies exists|t: int|
                0 <= t < v@.len() && self.key_of(v@[t].parts_spec()) == k by {
                let t = choose|t: int| 0 <= t < raw@.len() && self.scope() + raw@[t].0@ == k;
                assert(self.key_of(v@[t].parts_spec()) == k);
                assert(exists|t: int| #![auto]
                    0 <= t < v@.len() && self.key_of(v@[t].parts_spec()) == k);
            }
            assert(self.items_post(store@, *min, *max, order, v@));
        }
        Ok(v)
    }
}

/// The shape every `ItemSet` has by construction: its scope is the framing
/// of a short namespace, and its counter key, when counting, is a
/// singleton key. The constructors' contracts establish it.
pub open spec fn set_shape<T: TypedKey>(s: ItemSet<T>, ns: Seq<u8>, cname: Seq<u8>) -> bool {
    &&& ns_ok(ns)
    &&& s.scope() == ns_prefix(ns)
    &&& (s.counting() ==> s.counter_key_spec() == singleton_key(cname))
}

impl<T: TypedKey> ItemSet<T> {
    /// The counter always equals the number of member keys present: some
    /// value read from the counter key is exactly the cardinality of the
    /// stored member-key set.
    pub open spec fn cardinality_ok(&self, m: Map<Seq<u8>, Seq<u8>>) -> bool {
        exists|c: u64| #![auto]
            counter_reads(m, self.counter_key_spec(), c) && c as int == m.dom().intersect(
                self.member_keys(),
            ).len()
    }

    /// Inserting a key makes its member key present, so by `insert`'s
    /// contract a second insert of the same key returns `false` and leaves
    /// the store and the counter exactly as the first insert left them.
    pub proof fn lemma_insert_idempotent(
        &self,
        m: Map<Seq<u8>, Seq<u8>>,
        parts: Seq<Seq<u8>>,
        ns: Seq<u8>,
        cname: Seq<u8>,
        c: u64,
    )
        requires
            set_shape(*self, ns, cname),
        ensures
            m.insert(self.key_of(parts), marker_bytes()).contains_key(self.key_of(parts)),
            self.counting() ==> m.insert(self.key_of(parts), marker_bytes()).insert(
                self.counter_key_spec(),
                u64_be(c),
            ).contains_key(self.key_of(parts)),
    {
        if self.counting() {
            lemma_singleton_isolated(cname, ns, parts_tail(parts));
        }
    }

    /// Removing a key leaves its member key absent, so by `remove`'s
    /// contract a remove directly followed by a remove of the same key
    /// returns `true` then `false`, and the second call changes nothing.
    pub proof fn lemma_remove_then_absent(
        &self,
        m: Map<Seq<u8>, Seq<u8>>,
        parts: Seq<Seq<u8>>,
        ns: Seq<u8>,
        cname: Seq<u8>,
        c: u64,
    )
        requires
            set_shape(*self, ns, cname),
        ensures
            !m.remove(self.key_of(parts)).contains_key(self.key_of(parts)),
            self.counting() ==> !m.remove(self.key_of(parts)).insert(
                self.counter_key_spec(),
                u64_be(c),
            ).contains_key(self.key_of(parts)),
    {
        if self.counting() {
            lemma_singleton_isolated(cname, ns, parts_tail(parts));
        }
    }

    /// A successful insert of an absent key preserves the cardinality
    /// invariant: the new counter value again equals the number of member
    /// keys present.
    pub proof fn lemma_insert_preserves_cardinality(
        &self,
        m: Map<Seq<u8>, Seq<u8>>,
        parts: Seq<Seq<u8>>,
        ns: Seq<u8>,
        cname: Seq<u8>,
        c: u64,
    )
        requires
            set_shape(*self, ns, cname),
            self.counting(),
            m.dom().finite(),
            !m.contains_key(self.key_of(parts)),
            counter_reads(m, self.counter_key_spec(), c),
            c < u64::MAX,
            c as int == m.dom().intersect(self.member_keys()).len(),
        ensures
            self.cardinality_ok(
                m.insert(self.key_of(parts), marker_bytes()).insert(
                    self.counter_key_spec(),
                    u64_be((c + 1) as u64),
                ),
            ),
    {
        let mk = self.key_of(parts);
        let ck = self.counter_key_spec();
        lemma_singleton_isolated(cname, ns, parts_tail(parts));
        let m2 = m.insert(mk, marker_bytes()).insert(ck, u64_be((c + 1) as u64));
        assert(is_prefix(self.scope(), mk)) by {
            assert(self.scope() =~= mk.subrange(0, self.scope().len() as int));
        }
        assert(!is_prefix(self.scope(), ck)) by {
            lemma_singleton_isolated(cname, ns, ck.skip(self.scope().len() as int));
            if is_prefix(self.scope(), ck) {
                assert(ck =~= self.scope() + ck.skip(self.scope().len() as int));
            }
        }
        assert(m2.dom().intersect(self.member_keys()) =~= m.dom().intersect(
            self.member_keys(),
        ).insert(mk));
        vstd::set_lib::lemma_len_subset(m.dom().intersect(self.member_keys()), m.dom());
        assert(m.dom().intersect(self.member_keys()).insert(mk).len() == m.dom().intersect(
            self.member_keys(),
        ).len() + 1);
        assert(counter_reads(m2, ck, (c + 1) as u64));
    }

    /// A successful remove of a present key preserves the cardinality
    /// invariant: the new counter value again equals the number of member
    /// keys present.
    pub proof fn lemma_remove_preserves_cardinality(
        &self,
        m: Map<Seq<u8>, Seq<u8>>,
        parts: Seq<Seq<u8>>,
        ns: Seq<u8>,
        cname: Seq<u8>,
        c: u64,
    )
        requires
            set_shape(*self, ns, cname),
            self.counting(),
            m.dom().finite(),
            m.contains_key(self.key_of(parts)),
            counter_reads(m, self.counter_key_spec(), c),
            c > 0,
            c as int == m.dom().intersect(self.member_keys()).len(),
        ensures
            self.cardinality_ok(
                m.remove(self.key_of(parts)).insert(self.counter_key_spec(), u64_be((c - 1) as u64)),
            ),
    {
        let mk = self.key_of(parts);
        let ck = self.counter_key_spec();
        lemma_singleton_isolated(cname, ns, parts_tail(parts));
        let m2 = m.remove(mk).insert(ck, u64_be((c - 1) as u64));
        assert(is_prefix(self.scope(), mk)) by {
            assert(self.scope() =~= mk.subrange(0, self.scope().len() as int));
        }
        assert(!is_prefix(self.scope(), ck)) by {
            lemma_singleton_isolated(cname, ns, ck.skip(self.scope().len() as int));
            if is_prefix(self.scope(), ck) {
                assert(ck =~= self.scope() + ck.skip(self.scope().len() as int));
            }
        }
        assert(m2.dom().intersect(self.member_keys()) =~= m.dom().intersect(
            self.member_keys(),
        ).remove(mk));
        vstd::set_lib::lemma_len_subset(m.dom().intersect(self.member_keys()), m.dom());
        assert(m.dom().intersect(self.member_keys()).contains(mk));
        assert(m.dom().intersect(self.member_keys()).remove(mk).len() == m.dom().intersect(
            self.member_keys(),
        ).len() - 1);
        assert(counter_reads(m2, ck, (c - 1) as u64));
    }

    /// Clearing the set restores the cardinality invariant from any state:
    /// afterwards no member key is present and the counter reads zero.
    pub proof fn lemma_clear_restores_cardinality(
        &self,
        m: Map<Seq<u8>, Seq<u8>>,
        ns: Seq<u8>,
        cname: Seq<u8>,
    )
        requires
            set_shape(*self, ns, cname),
            self.counting(),
            m.dom().finite(),
        ensures
            self.cardinality_ok(
                m.remove_keys(self.member_keys()).remove(self.counter_key_spec()),
            ),
    {
        let ck = self.counter_key_spec();
        let m2 = m.remove_keys(self.member_keys()).remove(ck);
        assert(m2.dom().intersect(self.member_keys()) =~= Set::<Seq<u8>>::empty());
        assert(counter_reads(m2, ck, 0));
        assert(0 as int == m2.dom().intersect(self.member_keys()).len()) by {
            assert(Set::<Seq<u8>>::empty().len() == 0);
        }
    }
}

/// A narrowed iteration scope over composite keys sharing fixed leading
/// components.
pub struct SetPrefix {
    scope_key: Vec<u8>,
}

impl SetPrefix {
    /// The full byte prefix of this scope.
    pub closed spec fn scope(&self) -> Seq<u8> {
        self.scope_key@
    }

    /// The raw key remainders stored under this scope, within the given
    /// bounds, in the given order.
    pub fn keys(&self, store: &Store, min: &KeyBound, max: &KeyBound, order: Order) -> (r: Vec<
        Vec<u8>,
    >)
        ensures
            forall|t: int| #![auto]
                0 <= t < r@.len() ==> in_bounds(r@[t]@, *min, *max) && store@.contains_key(
                    self.scope() + r@[t]@,
                ),
            forall|k: Seq<u8>| #![auto]
                store@.contains_key(k) && is_prefix(self.scope(), k) && in_bounds(
                    k.skip(self.scope().len() as int),
                    *min,
                    *max,
                ) ==> exists|t: int| 0 <= t < r@.len() && self.scope() + r@[t]@ == k,
            (order == Order::Ascending ==> forall|t1: int, t2: int| #![auto]
                0 <= t1 < t2 < r@.len() ==> crate::bytes::lex_lt(r@[t1]@, r@[t2]@)),
            (order == Order::Descending ==> forall|t1: int, t2: int| #![auto]
                0 <= t1 < t2 < r@.len() ==> crate::bytes::lex_lt(r@[t2]@, r@[t1]@)),
    {
        let pairs = store.scan_prefix(&self.scope_key, min, max, order);
        let mut r: Vec<Vec<u8>> = Vec::new();
        let mut i: usize = 0;
        while i < pairs.len()
            invariant
                0 <= i <= pairs@.len(),
                r@.len() == i,
                forall|t: int| #![auto] 0 <= t < i ==> r@[t]@ == pairs@[t].0@,
                forall|t: int| #![auto]
                    0 <= t < pairs@.len() ==> in_bounds(pairs@[t].0@, *min, *max)
                        && store@.contains_key(self.scope() + pairs@[t].0@),
                forall|k: Seq<u8>| #![auto]
                    store@.contains_key(k) && is_prefix(self.scope(), k) && in_bounds(
                        k.skip(self.scope().len() as int),
                        *min,
                        *max,
                    ) ==> exists|t: int|
                        0 <= t < pairs@.len() && self.scope() + pairs@[t].0@ == k,
                crate::store::pairs_in_order(pairs@, order),
            decreases pairs@.len() - i,
        {
            r.push(crate::bytes::clone_bytes(&pairs[i].0));
            i = i + 1;
        }
        proof {
            assert forall|k: Seq<u8>| #![auto]
                store@.contains_key(k) && is_prefix(self.scope(), k) && in_bounds(
                    k.skip(self.scope().len() as int),
                    *min,
                    *max,
                ) implies exists|t: int| 0 <= t < r@.len() && self.scope() + r@[t]@ == k by {
                let t = choose|t: int|
                    0 <= t < pairs@.len() && self.scope() + pairs@[t].0@ == k;
                assert(self.scope() + r@[t]@ == k);
            }
        }
        r
    }
}

} // verus!
