//! An ordered byte-oriented key-value store.
//!
//! `Store` is the single shared store handle every component of this crate
//! operates against: a mapping from byte-string keys to byte-string values
//! supporting point reads, point writes and bounded ordered range scans.
//! Its abstract state is a `Map<Seq<u8>, Seq<u8>>`; internally the entries
//! are kept strictly sorted in lexicographic key order, which is what makes
//! ordered scans deterministic.

use vstd::prelude::*;

use crate::bytes::{
    byte_cmp, clone_bytes, has_prefix, is_prefix, lemma_lex_skip, lemma_lex_transitive,
    lemma_lex_trichotomy, lex_lt, tail_from, ByteOrd,
};

verus! {

/// Direction of an ordered range scan.
#[derive(Clone, Copy, PartialEq, Eq, Structural, Debug)]
pub enum Order {
    Ascending,
    Descending,
}

/// One end of a key range.
#[derive(Debug)]
pub enum KeyBound {
    Unbounded,
    Inclusive(Vec<u8>),
    Exclusive(Vec<u8>),
}

/// `k` is at or after the lower bound `min`.
pub open spec fn above_min(k: Seq<u8>, min: KeyBound) -> bool {
    match min {
        KeyBound::Unbounded => true,
        KeyBound::Inclusive(m) => m@ == k || lex_lt(m@, k),
        KeyBound::Exclusive(m) => lex_lt(m@, k),
    }
}

/// `k` is at or before the upper bound `max`.
pub open spec fn below_max(k: Seq<u8>, max: KeyBound) -> bool {
    match max {
        KeyBound::Unbounded => true,
        KeyBound::Inclusive(m) => m@ == k || lex_lt(k, m@),
        KeyBound::Exclusive(m) => lex_lt(k, m@),
    }
}

/// `k` lies within the range `[min, max]`.
pub open spec fn in_bounds(k: Seq<u8>, min: KeyBound, max: KeyBound) -> bool {
    above_min(k, min) && below_max(k, max)
}

/// Whether `k` is at or after `min`.
pub fn above_min_exec(k: &Vec<u8>, min: &KeyBound) -> (r: bool)
    ensures
        r == above_min(k@, *min),
{
    match min {
        KeyBound::Unbounded => true,
        KeyBound::Inclusive(m) => {
            let c = byte_cmp(m, k);
            proof {
                lemma_lex_trichotomy(m@, k@);
            }
            !(c == ByteOrd::Greater)
        },
        KeyBound::Exclusive(m) => byte_cmp(m, k) == ByteOrd::Less,
    }
}

/// Whether `k` is at or before `max`.
pub fn below_max_exec(k: &Vec<u8>, max: &KeyBound) -> (r: bool)
    ensures
        r == below_max(k@, *max),
{
    match max {
        KeyBound::Unbounded => true,
        KeyBound::Inclusive(m) => {
            let c = byte_cmp(k, m);
            proof {
                lemma_lex_trichotomy(k@, m@);
            }
            !(c == ByteOrd::Greater)
        },
        KeyBound::Exclusive(m) => byte_cmp(k, m) == ByteOrd::Less,
    }
}

/// The keys of consecutive result pairs strictly follow `order`.
pub open spec fn pairs_in_order(r: Seq<(Vec<u8>, Vec<u8>)>, order: Order) -> bool {
    if order == Order::Ascending {
        forall|i: int, j: int| 0 <= i < j < r.len() ==> lex_lt(r[i].0@, r[j].0@)
    } else {
        forall|i: int, j: int| 0 <= i < j < r.len() ==> lex_lt(r[j].0@, r[i].0@)
    }
}

/// An ordered in-memory key-value store.
pub struct Store {
    entries: Vec<(Vec<u8>, Vec<u8>)>,
}

impl View for Store {
    type V = Map<Seq<u8>, Seq<u8>>;

    closed spec fn view(&self) -> Map<Seq<u8>, Seq<u8>> {
        Map::new(
            |k: Seq<u8>|
                exists|i: int|
                    0 <= i < self.entries@.len() && self.entries@[i].0@ == k,
            |k: Seq<u8>|
                self.entries@[choose|i: int|
                    0 <= i < self.entries@.len() && self.entries@[i].0@ == k].1@,
        )
    }
}

impl Store {
    #[verifier::type_invariant]
    spec fn wf(self) -> bool {
        forall|i: int, j: int|
            0 <= i < j < self.entries@.len() ==> lex_lt(
                self.entries@[i].0@,
                self.entries@[j].0@,
            )
    }

    proof fn lemma_distinct(self)
        requires
            self.wf(),
        ensures
            forall|i: int, j: int|
                0 <= i < self.entries@.len() && 0 <= j < self.entries@.len() && i != j
                    ==> self.entries@[i].0@ != self.entries@[j].0@,
    {
        assert forall|i: int, j: int|
            0 <= i < self.entries@.len() && 0 <= j < self.entries@.len() && i != j
            implies self.entries@[i].0@ != self.entries@[j].0@ by {
            if i < j {
                lemma_lex_trichotomy(self.entries@[i].0@, self.entries@[j].0@);
            } else {
                lemma_lex_trichotomy(self.entries@[j].0@, self.entries@[i].0@);
            }
        }
    }

    proof fn lemma_view_at(self, i: int)
        requires
            self.wf(),
            0 <= i < self.entries@.len(),
        ensures
            self@.contains_key(self.entries@[i].0@),
            self@[self.entries@[i].0@] == self.entries@[i].1@,
    {
        self.lemma_distinct();
        let k = self.entries@[i].0@;
        assert(0 <= i < self.entries@.len() && self.entries@[i].0@ == k);
        let j = choose|j: int| 0 <= j < self.entries@.len() && self.entries@[j].0@ == k;
        assert(j == i);
    }

    proof fn lemma_view_none(self, k: Seq<u8>)
        requires
            self.wf(),
            forall|i: int| 0 <= i < self.entries@.len() ==> self.entries@[i].0@ != k,
        ensures
            !self@.contains_key(k),
    {
    }

    /// The store holds finitely many keys.
    pub proof fn lemma_dom_finite(&self)
        ensures
            self@.dom().finite(),
    {
        broadcast use vstd::seq_lib::seq_to_set_is_finite;

        let ks = self.entries@.map_values(|p: (Vec<u8>, Vec<u8>)| p.0@);
        assert(self@.dom() =~= ks.to_set()) by {
            assert forall|k: Seq<u8>| self@.dom().contains(k) implies ks.to_set().contains(k) by {
                let i = choose|i: int|
                    0 <= i < self.entries@.len() && self.entries@[i].0@ == k;
                assert(ks[i] == k);
            }
            assert forall|k: Seq<u8>| ks.to_set().contains(k) implies self@.dom().contains(k) by {
                let i = choose|i: int| 0 <= i < ks.len() && ks[i] == k;
                assert(self.entries@[i].0@ == k);
            }
        }
    }

    /// An empty store.
    pub fn new() -> (s: Store)
        ensures
            s@ == Map::<Seq<u8>, Seq<u8>>::empty(),
    {
        let s = Store { entries: Vec::new() };
        proof {
            assert(s@ =~= Map::<Seq<u8>, Seq<u8>>::empty());
        }
        s
    }

    /// First position whose key is not before `key`.
    fn lower_bound(&self, key: &Vec<u8>) -> (pos: usize)
        requires
            self.wf(),
        ensures
            pos <= self.entries@.len(),
            forall|j: int| 0 <= j < pos ==> lex_lt(#[trigger] self.entries@[j].0@, key@),
            pos < self.entries@.len() ==> !lex_lt(self.entries@[pos as int].0@, key@),
    {
        let mut i: usize = 0;
        while i < self.entries.len()
            invariant
                i <= self.entries@.len(),
                forall|j: int| 0 <= j < i ==> lex_lt(#[trigger] self.entries@[j].0@, key@),
            decreases self.entries@.len() - i,
        {
            let c = byte_cmp(&self.entries[i].0, key);
            if c == ByteOrd::Less {
                i = i + 1;
            } else {
                return i;
            }
        }
        i
    }

    /// All keys at or past `pos` differ from `key`; `pos` comes from `lower_bound`
    /// on a store where the key at `pos` (if any) is not equal to `key`.
    proof fn lemma_absent(self, key: Seq<u8>, pos: int)
        requires
            self.wf(),
            0 <= pos <= self.entries@.len(),
            forall|j: int| 0 <= j < pos ==> lex_lt(#[trigger] self.entries@[j].0@, key),
            pos < self.entries@.len() ==> !lex_lt(self.entries@[pos].0@, key),
            pos < self.entries@.len() ==> self.entries@[pos].0@ != key,
        ensures
            !self@.contains_key(key),
            forall|i: int|
                pos <= i < self.entries@.len() ==> lex_lt(key, #[trigger] self.entries@[i].0@),
    {
        if pos < self.entries@.len() {
            lemma_lex_trichotomy(self.entries@[pos].0@, key);
        }
        assert forall|i: int|
            pos <= i < self.entries@.len() implies lex_lt(key, #[trigger] self.entries@[i].0@) by {
            if i > pos {
                lemma_lex_transitive(key, self.entries@[pos as int].0@, self.entries@[i].0@);
            }
        }
        assert forall|i: int|
            0 <= i < self.entries@.len() implies self.entries@[i].0@ != key by {
            if i < pos {
                lemma_lex_trichotomy(self.entries@[i].0@, key);
            } else {
                lemma_lex_trichotomy(key, self.entries@[i].0@);
            }
        }
        self.lemma_view_none(key);
    }

    /// Read the value stored under `key`, if any.
    pub fn get(&self, key: &Vec<u8>) -> (r: Option<Vec<u8>>)
        ensures
            match r {
                Some(v) => self@.contains_key(key@) && v@ == self@[key@],
                None => !self@.contains_key(key@),
            },
    {
        proof {
            use_type_invariant(self);
        }
        let pos = self.lower_bound(key);
        if pos < self.entries.len() {
            if byte_cmp(&self.entries[pos].0, key) == ByteOrd::Equal {
                proof {
                    self.lemma_view_at(pos as int);
                }
                return Some(clone_bytes(&self.entries[pos].1));
            }
        }
        proof {
            self.lemma_absent(key@, pos as int);
        }
        None
    }

    /// Whether any value is stored under `key`.
    pub fn has(&self, key: &Vec<u8>) -> (r: bool)
        ensures
            r == self@.contains_key(key@),
    {
        proof {
            use_type_invariant(self);
        }
        let pos = self.lower_bound(key);
        if pos < self.entries.len() {
            if byte_cmp(&self.entries[pos].0, key) == ByteOrd::Equal {
                proof {
                    self.lemma_view_at(pos as int);
                }
                return true;
            }
        }
        proof {
            self.lemma_absent(key@, pos as int);
        }
        false
    }

    /// Store `value` under `key`, overwriting any previous value.
    pub fn set(&mut self, key: &Vec<u8>, value: &Vec<u8>)
        ensures
            final(self)@ == old(self)@.insert(key@, value@),
    {
        proof {
            use_type_invariant(&*self);
        }
        let ghost pre = *self;
        let pos = self.lower_bound(key);
        let pair = (clone_bytes(key), clone_bytes(value));
        let mut replace = false;
        if pos < self.entries.len() {
            if byte_cmp(&self.entries[pos].0, key) == ByteOrd::Equal {
                replace = true;
            }
        }
        let mut es: Vec<(Vec<u8>, Vec<u8>)> = Vec::new();
        core::mem::swap(&mut self.entries, &mut es);
        if replace {
            es.remove(pos);
            es.insert(pos, pair);
            proof {
                assert(es@ =~= pre.entries@.update(pos as int, (pair.0, pair.1)));
            }
            core::mem::swap(&mut self.entries, &mut es);
            proof {
                assert(self.wf());
                pre.lemma_distinct();
                assert forall|k: Seq<u8>| #[trigger] self@.contains_key(k) == pre@.insert(
                    key@,
                    value@,
                ).contains_key(k) by {
                    assert(self.entries@[pos as int].0@ == key@);
                    assert(pre.entries@[pos as int].0@ == key@);
                    if k != key@ {
                        if self@.contains_key(k) {
                            let i = choose|i: int|
                                0 <= i < self.entries@.len() && self.entries@[i].0@ == k;
                            assert(i != pos);
                            assert(pre.entries@[i].0@ == k);
                        }
                        if pre@.contains_key(k) {
                            let i = choose|i: int|
                                0 <= i < pre.entries@.len() && pre.entries@[i].0@ == k;
                            assert(i != pos);
                            assert(self.entries@[i].0@ == k);
                        }
                    }
                }
                assert forall|k: Seq<u8>| self@.contains_key(k) implies #[trigger] self@[k]
                    == pre@.insert(key@, value@)[k] by {
                    let i = choose|i: int|
                        0 <= i < self.entries@.len() && self.entries@[i].0@ == k;
                    self.lemma_view_at(i);
                    if k == key@ {
                        assert(i == pos) by {
                            self.lemma_distinct();
                        }
                    } else {
                        assert(i != pos);
                        pre.lemma_view_at(i);
                    }
                }
                assert(self@ =~= pre@.insert(key@, value@));
            }
        } else {
            proof {
                pre.lemma_absent(key@, pos as int);
            }
            es.insert(pos, pair);
            proof {
                assert forall|i: int, j: int|
                    0 <= i < j < es@.len() implies lex_lt(es@[i].0@, es@[j].0@) by {
                    if j < pos {
                    } else if i < pos && j == pos {
                        assert(es@[i] == pre.entries@[i]);
                    } else if i < pos && j > pos {
                        assert(es@[j] == pre.entries@[j - 1]);
                    } else if i == pos {
                        assert(es@[j] == pre.entries@[j - 1]);
                    } else {
                        assert(es@[i] == pre.entries@[i - 1]);
                        assert(es@[j] == pre.entries@[j - 1]);
                    }
                }
            }
            core::mem::swap(&mut self.entries, &mut es);
            proof {
                assert(self.wf());
                assert forall|k: Seq<u8>| #[trigger] self@.contains_key(k) == pre@.insert(
                    key@,
                    value@,
                ).contains_key(k) by {
                    if k == key@ {
                        assert(self.entries@[pos as int].0@ == k);
                    } else {
                        if self@.contains_key(k) {
                            let i = choose|i: int|
                                0 <= i < self.entries@.len() && self.entries@[i].0@ == k;
                            if i < pos {
                                assert(pre.entries@[i].0@ == k);
                            } else {
                                assert(pre.entries@[i - 1].0@ == k);
                            }
                        }
                        if pre@.contains_key(k) {
                            let i = choose|i: int|
                                0 <= i < pre.entries@.len() && pre.entries@[i].0@ == k;
                            if i < pos {
                                assert(self.entries@[i].0@ == k);
                            } else {
                                assert(self.entries@[i + 1].0@ == k);
                            }
                        }
                    }
                }
                assert forall|k: Seq<u8>| self@.contains_key(k) implies #[trigger] self@[k]
                    == pre@.insert(key@, value@)[k] by {
                    let i = choose|i: int|
                        0 <= i < self.entries@.len() && self.entries@[i].0@ == k;
                    self.lemma_view_at(i);
                    if k == key@ {
                        self.lemma_distinct();
                        assert(self.entries@[pos as int].0@ == key@);
                        assert(i == pos);
                    } else {
                        assert(i != pos);
                        if i < pos {
                            pre.lemma_view_at(i);
                        } else {
                            pre.lemma_view_at(i - 1);
                        }
                    }
                }
                assert(self@ =~= pre@.insert(key@, value@));
            }
        }
    }

    /// Delete the entry under `key`, if present.
    pub fn remove(&mut self, key: &Vec<u8>)
        ensures
            final(self)@ == old(self)@.remove(key@),
    {
        proof {
            use_type_invariant(&*self);
        }
        let ghost pre = *self;
        let pos = self.lower_bound(key);
        let mut found = false;
        if pos < self.entries.len() {
            if byte_cmp(&self.entries[pos].0, key) == ByteOrd::Equal {
                found = true;
            }
        }
        if found {
            let mut es: Vec<(Vec<u8>, Vec<u8>)> = Vec::new();
            core::mem::swap(&mut self.entries, &mut es);
            es.remove(pos);
            proof {
                pre.lemma_distinct();
                assert forall|i: int, j: int|
                    0 <= i < j < es@.len() implies lex_lt(es@[i].0@, es@[j].0@) by {
                    if j < pos {
                    } else if i < pos {
                        assert(es@[j] == pre.entries@[j + 1]);
                    } else {
                        assert(es@[i] == pre.entries@[i + 1]);
                        assert(es@[j] == pre.entries@[j + 1]);
                    }
                }
            }
            core::mem::swap(&mut self.entries, &mut es);
            proof {
                assert(self.wf());
                assert forall|k: Seq<u8>| #[trigger] self@.contains_key(k) == pre@.remove(
                    key@,
                ).contains_key(k) by {
                    if self@.contains_key(k) {
                        let i = choose|i: int|
                            0 <= i < self.entries@.len() && self.entries@[i].0@ == k;
                        if i < pos {
                            assert(pre.entries@[i].0@ == k);
                        } else {
                            assert(pre.entries@[i + 1].0@ == k);
                        }
                    }
                    if pre@.contains_key(k) && k != key@ {
                        let i = choose|i: int|
                            0 <= i < pre.entries@.len() && pre.entries@[i].0@ == k;
                        assert(i != pos);
                        if i < pos {
                            assert(self.entries@[i].0@ == k);
                        } else {
                            assert(self.entries@[i - 1].0@ == k);
                        }
                    }
                }
                assert forall|k: Seq<u8>| self@.contains_key(k) implies #[trigger] self@[k]
                    == pre@.remove(key@)[k] by {
                    let i = choose|i: int|
                        0 <= i < self.entries@.len() && self.entries@[i].0@ == k;
                    self.lemma_view_at(i);
                    if i < pos {
                        pre.lemma_view_at(i);
                    } else {
                        pre.lemma_view_at(i + 1);
                        assert(k != key@);
                    }
                }
                assert(self@ =~= pre@.remove(key@));
            }
        } else {
            proof {
                self.lemma_absent(key@, pos as int);
                assert(self@ =~= pre@.remove(key@));
            }
        }
    }

    /// Entries whose key extends `prefix` and whose remainder (the key with
    /// `prefix` stripped) lies within `[min, max]`, as (remainder, value)
    /// pairs ordered by `order`.
    #[verifier::rlimit(80)]
    pub fn scan_prefix(
        &self,
        prefix: &Vec<u8>,
        min: &KeyBound,
        max: &KeyBound,
        order: Order,
    ) -> (r: Vec<(Vec<u8>, Vec<u8>)>)
        ensures
            forall|t: int| #![auto]
                0 <= t < r@.len() ==> in_bounds(r@[t].0@, *min, *max) && self@.contains_key(
                    prefix@ + r@[t].0@,
                ) && self@[prefix@ + r@[t].0@] == r@[t].1@,
            forall|k: Seq<u8>| #![auto]
                self@.contains_key(k) && is_prefix(prefix@, k) && in_bounds(
                    k.skip(prefix@.len() as int),
                    *min,
                    *max,
                ) ==> exists|t: int| 0 <= t < r@.len() && prefix@ + r@[t].0@ == k,
            pairs_in_order(r@, order),
    {
        proof {
            use_type_invariant(self);
        }
        let ghost plen = prefix@.len() as int;
        let mut asc: Vec<(Vec<u8>, Vec<u8>)> = Vec::new();
        let ghost mut idxs: Seq<int> = Seq::empty();
        let mut i: usize = 0;
        while i < self.entries.len()
            invariant
                self.wf(),
                i <= self.entries@.len(),
                plen == prefix@.len() as int,
                idxs.len() == asc@.len(),
                forall|t: int| #![trigger idxs[t]]
                    0 <= t < idxs.len() ==> 0 <= idxs[t] < i && is_prefix(
                        prefix@,
                        self.entries@[idxs[t]].0@,
                    ) && asc@[t].0@ == self.entries@[idxs[t]].0@.skip(plen) && asc@[t].1@
                        == self.entries@[idxs[t]].1@ && in_bounds(asc@[t].0@, *min, *max),
                forall|t1: int, t2: int| 0 <= t1 < t2 < idxs.len() ==> idxs[t1] < idxs[t2],
                forall|j: int| #![auto]
                    0 <= j < i && is_prefix(prefix@, self.entries@[j].0@) && in_bounds(
                        self.entries@[j].0@.skip(plen),
                        *min,
                        *max,
                    ) ==> exists|t: int|
                        0 <= t < asc@.len() && asc@[t].0@ == self.entries@[j].0@.skip(plen),
            decreases self.entries@.len() - i,
        {
            let keep = has_prefix(&self.entries[i].0, prefix);
            if keep {
                let suffix = tail_from(&self.entries[i].0, prefix.len());
                let ok = above_min_exec(&suffix, min) && below_max_exec(&suffix, max);
                if ok {
                    let pair = (suffix, clone_bytes(&self.entries[i].1));
                    let ghost pre_asc = asc@;
                    asc.push(pair);
                    proof {
                        idxs = idxs.push(i as int);
                        assert forall|j: int| #![auto]
                            0 <= j < i + 1 && is_prefix(prefix@, self.entries@[j].0@) && in_bounds(
                                self.entries@[j].0@.skip(plen),
                                *min,
                                *max,
                            ) implies exists|t: int|
                            0 <= t < asc@.len() && asc@[t].0@ == self.entries@[j].0@.skip(
                                plen,
                            ) by {
                            if j == i {
                                assert(0 <= asc@.len() - 1 < asc@.len() && asc@[asc@.len() - 1].0@
                                    == self.entries@[j].0@.skip(plen));
                            } else {
                                assert(0 <= j < i && is_prefix(prefix@, self.entries@[j].0@)
                                    && in_bounds(self.entries@[j].0@.skip(plen), *min, *max));
                                let t = choose|t: int|
                                    0 <= t < pre_asc.len() && pre_asc[t].0@ == self.entries@[
                                        j].0@.skip(plen);
                                assert(asc@[t] == pre_asc[t]);
                                assert(0 <= t < asc@.len() && asc@[t].0@ == self.entries@[
                                    j].0@.skip(plen));
                            }
                        }
                    }
                } else {
                    proof {
                        assert(suffix@ == self.entries@[i as int].0@.skip(plen));
                    }
                }
            } else {
                proof {
                    assert(!is_prefix(prefix@, self.entries@[i as int].0@));
                }
            }
            i = i + 1;
        }
        proof {
            assert forall|t1: int, t2: int| 0 <= t1 < t2 < asc@.len() implies lex_lt(
                asc@[t1].0@,
                asc@[t2].0@,
            ) by {
                let j1 = idxs[t1];
                let j2 = idxs[t2];
                assert(lex_lt(self.entries@[j1].0@, self.entries@[j2].0@));
                assert(self.entries@[j1].0@.subrange(0, plen) =~= self.entries@[j2].0@.subrange(
                    0,
                    plen,
                ));
                lemma_lex_skip(self.entries@[j1].0@, self.entries@[j2].0@, plen);
            }
            assert forall|t: int| #![auto]
                0 <= t < asc@.len() implies in_bounds(asc@[t].0@, *min, *max)
                && self@.contains_key(prefix@ + asc@[t].0@) && self@[prefix@ + asc@[t].0@]
                == asc@[t].1@ by {
                let j = idxs[t];
                assert(prefix@ + asc@[t].0@ =~= self.entries@[j].0@);
                self.lemma_view_at(j);
            }
            assert forall|k: Seq<u8>| #![auto]
                self@.contains_key(k) && is_prefix(prefix@, k) && in_bounds(
                    k.skip(plen),
                    *min,
                    *max,
                ) implies exists|t: int| 0 <= t < asc@.len() && prefix@ + asc@[t].0@ == k by {
                let j = choose|j: int|
                    0 <= j < self.entries@.len() && self.entries@[j].0@ == k;
                assert(is_prefix(prefix@, self.entries@[j].0@) && in_bounds(
                    self.entries@[j].0@.skip(plen),
                    *min,
                    *max,
                ));
                let t = choose|t: int|
                    0 <= t < asc@.len() && asc@[t].0@ == self.entries@[j].0@.skip(plen);
                assert(prefix@ + asc@[t].0@ =~= k);
                assert(0 <= t < asc@.len() && prefix@ + asc@[t].0@ == k);
            }
        }
        if order == Order::Ascending {
            asc
        } else {
            let ghost ascg = asc@;
            let r = reverse_pairs(asc);
            proof {
                assert forall|k: Seq<u8>| #![auto]
                    self@.contains_key(k) && is_prefix(prefix@, k) && in_bounds(
                        k.skip(plen),
                        *min,
                        *max,
                    ) implies exists|t: int| 0 <= t < r@.len() && prefix@ + r@[t].0@ == k by {
                    let t0 = choose|t: int| 0 <= t < ascg.len() && prefix@ + ascg[t].0@ == k;
                    assert(r@[ascg.len() - 1 - t0] == ascg[t0]);
                }
            }
            r
        }
    }


    /// Entries whose key lies within `[min, max]`, ordered by `order`.
    pub fn scan(&self, min: &KeyBound, max: &KeyBound, order: Order) -> (r: Vec<
        (Vec<u8>, Vec<u8>),
    >)
        ensures
            forall|t: int| #![auto]
                0 <= t < r@.len() ==> in_bounds(r@[t].0@, *min, *max) && self@.contains_key(
                    r@[t].0@,
                ) && self@[r@[t].0@] == r@[t].1@,
            forall|k: Seq<u8>| #![auto]
                self@.contains_key(k) && in_bounds(k, *min, *max) ==> exists|t: int|
                    0 <= t < r@.len() && r@[t].0@ == k,
            pairs_in_order(r@, order),
    {
        let empty: Vec<u8> = Vec::new();
        let r = self.scan_prefix(&empty, min, max, order);
        proof {
            assert forall|t: int| #![auto]
                0 <= t < r@.len() implies in_bounds(r@[t].0@, *min, *max) && self@.contains_key(
                r@[t].0@,
            ) && self@[r@[t].0@] == r@[t].1@ by {
                assert(empty@ + r@[t].0@ =~= r@[t].0@);
            }
            assert forall|k: Seq<u8>| #![auto]
                self@.contains_key(k) && in_bounds(k, *min, *max) implies exists|t: int|
                0 <= t < r@.len() && r@[t].0@ == k by {
                assert(is_prefix(empty@, k)) by {
                    assert(empty@ =~= k.subrange(0, 0));
                }
                assert(k.skip(0) =~= k);
                let t = choose|t: int| 0 <= t < r@.len() && empty@ + r@[t].0@ == k;
                assert(empty@ + r@[t].0@ =~= r@[t].0@);
            }
        }
        r
    }
}

/// A fresh vector holding the pairs of `v` in reverse order.
fn reverse_pairs(v: Vec<(Vec<u8>, Vec<u8>)>) -> (r: Vec<(Vec<u8>, Vec<u8>)>)
    ensures
        r@.len() == v@.len(),
        forall|t: int| 0 <= t < v@.len() ==> r@[t] == v@[v@.len() - 1 - t],
{
    let ghost orig = v@;
    let mut rest = v;
    let mut r: Vec<(Vec<u8>, Vec<u8>)> = Vec::new();
    proof {
        assert(rest@ =~= orig.subrange(0, rest@.len() as int));
    }
    while rest.len() > 0
        invariant
            r@.len() + rest@.len() == orig.len(),
            rest@ =~= orig.subrange(0, rest@.len() as int),
            forall|t: int| 0 <= t < r@.len() ==> r@[t] == orig[orig.len() - 1 - t],
        decreases rest@.len(),
    {
        let ghost n = rest@.len() as int;
        let p = rest.pop().unwrap();
        proof {
            assert(p == orig.subrange(0, n)[n - 1]);
            assert(rest@ =~= orig.subrange(0, rest@.len() as int));
        }
        r.push(p);
    }
    r
}

} // verus!
