//! An append-only sequence that rejects duplicates.
//!
//! A `UniqueVec<T>` preserves insertion order and never holds two elements
//! that compare equal: a violating `push` is rejected with an error rather
//! than silently deduplicated, and bulk construction and extension apply
//! the identical check. The contracts speak through `eq_spec`, the
//! specification of `T`'s equality, and bind the result whenever that
//! specification is obeyed.

use vstd::prelude::*;

use vstd::std_specs::cmp::PartialEqSpec;

verus! {

/// No two elements of `s` compare equal.
pub open spec fn all_distinct<T: PartialEq>(s: Seq<T>) -> bool {
    forall|i: int, j: int| 0 <= i < j < s.len() ==> !(#[trigger] s[i].eq_spec(&s[j]))
}

/// `x` compares equal to no element of `s`.
pub open spec fn fresh_in<T: PartialEq>(s: Seq<T>, x: T) -> bool {
    forall|i: int| 0 <= i < s.len() ==> !(#[trigger] s[i].eq_spec(&x))
}

/// Error indicating that a duplicate item was handed to a `UniqueVec`,
/// carrying a debug rendering of the offending value.
#[derive(Debug)]
pub struct DuplicationError {
    value: String,
}

/// Relies on the `format!` macro with `core::fmt::Debug`: renders a value's
/// debug representation.
#[verifier::external_body]
fn fmt_debug<V: core::fmt::Debug>(value: &V) -> String {
    format!("{value:?}")
}

impl DuplicationError {
    /// The debug rendering of the rejected value.
    pub closed spec fn value_spec(&self) -> Seq<char> {
        self.value@
    }

    /// An error recording the rejected value.
    pub fn new<V: core::fmt::Debug>(value: V) -> Self {
        DuplicationError { value: fmt_debug(&value) }
    }

    /// A human-readable description of the error.
    pub fn message(&self) -> (r: String)
        ensures
            r@ == "UniqueVec encountered duplicate item: "@ + self.value_spec(),
    {
        String::from_str("UniqueVec encountered duplicate item: ").concat(self.value.as_str())
    }
}

/// A vector guaranteed to contain no two elements that compare equal.
pub struct UniqueVec<T: core::fmt::Debug + PartialEq> {
    items: Vec<T>,
}

impl<T: core::fmt::Debug + PartialEq> View for UniqueVec<T> {
    type V = Seq<T>;

    closed spec fn view(&self) -> Seq<T> {
        self.items@
    }
}

/// Whether some element of `v` compares equal to `x`.
fn contains_eq<T: core::fmt::Debug + PartialEq>(v: &Vec<T>, x: &T) -> (r: bool)
    ensures
        T::obeys_eq_spec() ==> r == exists|i: int|
            0 <= i < v@.len() && (#[trigger] v@[i].eq_spec(x)),
{
    let mut i: usize = 0;
    while i < v.len()
        invariant
            0 <= i <= v@.len(),
            T::obeys_eq_spec() ==> forall|j: int|
                0 <= j < i ==> !(#[trigger] v@[j].eq_spec(x)),
        decreases v@.len() - i,
    {
        if v[i].eq(x) {
            return true;
        }
        i = i + 1;
    }
    false
}

impl<T: core::fmt::Debug + PartialEq> UniqueVec<T> {
    #[verifier::type_invariant]
    spec fn inv(self) -> bool {
        T::obeys_eq_spec() ==> all_distinct(self.items@)
    }

    /// An empty sequence.
    pub fn new() -> (r: UniqueVec<T>)
        ensures
            r@ == Seq::<T>::empty(),
    {
        UniqueVec { items: Vec::new() }
    }

    /// The number of elements.
    pub fn len(&self) -> (r: usize)
        ensures
            r == self@.len(),
    {
        self.items.len()
    }

    /// Whether the sequence is empty.
    pub fn is_empty(&self) -> (r: bool)
        ensures
            r == (self@.len() == 0),
    {
        self.items.is_empty()
    }

    /// The element at position `i`.
    pub fn get(&self, i: usize) -> (r: &T)
        requires
            i < self@.len(),
        ensures
            *r == self@[i as int],
    {
        &self.items[i]
    }

    /// Borrow the elements as a vector.
    pub fn as_vec(&self) -> (r: &Vec<T>)
        ensures
            r@ == self@,
    {
        &self.items
    }

    /// Append `item` unless an equal element is already present; a
    /// violating insert is rejected, not deduplicated.
    pub fn push(&mut self, item: T) -> (r: Result<(), DuplicationError>)
        ensures
            r is Ok ==> final(self)@ == old(self)@.push(item),
            r is Err ==> final(self)@ == old(self)@,
            T::obeys_eq_spec() ==> (r is Ok <==> fresh_in(old(self)@, item)),
    {
        proof {
            use_type_invariant(&*self);
        }
        let mut items: Vec<T> = Vec::new();
        core::mem::swap(&mut self.items, &mut items);
        if contains_eq(&items, &item) {
            let e = DuplicationError::new(&item);
            core::mem::swap(&mut self.items, &mut items);
            return Err(e);
        }
        items.push(item);
        core::mem::swap(&mut self.items, &mut items);
        Ok(())
    }

    /// Build a unique sequence from `items`, applying the same check to
    /// each element in order; fails on the first duplicate encountered.
    pub fn from_vec(items: Vec<T>) -> (r: Result<UniqueVec<T>, DuplicationError>)
        ensures
            r matches Ok(v) ==> v@ == items@,
            T::obeys_eq_spec() ==> (r is Ok <==> all_distinct(items@)),
    {
        let mut out: UniqueVec<T> = UniqueVec::new();
        let mut rest = items;
        let ghost all = rest@;
        let ghost mut i: int = 0;
        let mut failure: Option<DuplicationError> = None;
        while failure.is_none() && rest.len() > 0
            invariant
                0 <= i <= all.len(),
                i == all.len() - rest@.len(),
                rest@ =~= all.skip(i),
                failure is None ==> out@ =~= all.subrange(0, i),
                T::obeys_eq_spec() ==> all_distinct(out@),
                (T::obeys_eq_spec() && failure is Some) ==> !all_distinct(all),
            decreases rest@.len(),
        {
            let item = rest.remove(0);
            let ghost itemg = item;
            let ghost pre_out = out@;
            match out.push(item) {
                Ok(_) => {
                    proof {
                        assert(itemg == all[i]);
                        assert(out@ =~= all.subrange(0, i + 1));
                    }
                },
                Err(e) => {
                    proof {
                        if T::obeys_eq_spec() {
                            assert(!fresh_in(pre_out, itemg));
                            let j = choose|j: int|
                                0 <= j < pre_out.len() && (#[trigger] pre_out[j].eq_spec(
                                    &itemg,
                                ));
                            assert(all[j] == pre_out[j]);
                            assert(all[j].eq_spec(&all[i]));
                            assert(!all_distinct(all));
                        }
                    }
                    failure = Some(e);
                },
            }
            proof {
                assert(rest@ =~= all.skip(i + 1));
                i = i + 1;
            }
        }
        match failure {
            Some(e) => Err(e),
            None => {
                proof {
                    assert(out@ =~= all);
                }
                Ok(out)
            },
        }
    }

    /// Append every element of `items`, applying the same duplicate check
    /// to each in order; fails, leaving the sequence unchanged, if any
    /// element would violate uniqueness.
    pub fn extend(&mut self, items: Vec<T>) -> (r: Result<(), DuplicationError>)
        ensures
            r is Ok ==> final(self)@ == old(self)@ + items@,
            r is Err ==> final(self)@ == old(self)@,
            T::obeys_eq_spec() ==> (r is Ok <==> all_distinct(old(self)@ + items@)),
    {
        proof {
            use_type_invariant(&*self);
        }
        let ghost pre = self.items@;
        let ghost whole = self.items@ + items@;
        let mut cur: Vec<T> = Vec::new();
        core::mem::swap(&mut self.items, &mut cur);
        let pre_len = cur.len();
        let mut rest = items;
        let ghost mut i: int = 0;
        let mut failure: Option<DuplicationError> = None;
        while failure.is_none() && rest.len() > 0
            invariant
                0 <= i <= whole.len() - pre.len(),
                pre_len == pre.len(),
                whole.len() == pre.len() + i + rest@.len(),
                rest@ =~= whole.subrange(pre.len() + i, whole.len() as int),
                cur@ =~= whole.subrange(0, pre.len() + i),
                pre =~= whole.subrange(0, pre.len() as int),
                T::obeys_eq_spec() ==> all_distinct(cur@),
                (T::obeys_eq_spec() && failure is Some) ==> !all_distinct(whole),
            decreases rest@.len() + (if failure is Some { 0int } else { 1 }),
        {
            let dup = contains_eq(&cur, &rest[0]);
            if dup {
                proof {
                    if T::obeys_eq_spec() {
                        assert(rest@[0] == whole[pre.len() + i]);
                        let j = choose|j: int|
                            0 <= j < cur@.len() && (#[trigger] cur@[j].eq_spec(&rest@[0]));
                        assert(whole[j].eq_spec(&whole[pre.len() + i]));
                        assert(!all_distinct(whole));
                    }
                }
                failure = Some(DuplicationError::new(&rest[0]));
            } else {
                let item = rest.remove(0);
                proof {
                    if T::obeys_eq_spec() {
                        assert(fresh_in(cur@, item));
                    }
                }
                cur.push(item);
                proof {
                    assert(cur@ =~= whole.subrange(0, pre.len() + i + 1));
                    assert(rest@ =~= whole.subrange(pre.len() + i + 1, whole.len() as int));
                    i = i + 1;
                }
            }
        }
        match failure {
            Some(e) => {
                proof {
                    if T::obeys_eq_spec() {
                        assert forall|a: int, b: int|
                            0 <= a < b < pre.len() implies !(#[trigger] pre[a].eq_spec(
                            &pre[b],
                        )) by {
                            assert(pre[a] == cur@[a] && pre[b] == cur@[b]);
                        }
                    }
                }
                cur.truncate(pre_len);
                proof {
                    assert(cur@ =~= pre);
                    if T::obeys_eq_spec() {
                        assert(all_distinct(cur@));
                    }
                }
                core::mem::swap(&mut self.items, &mut cur);
                Err(e)
            },
            None => {
                proof {
                    assert(cur@ =~= whole);
                }
                core::mem::swap(&mut self.items, &mut cur);
                Ok(())
            },
        }
    }

    /// After a successful `push` of `x`, an element equal to `x` is
    /// present, so by `push`'s contract a directly following `push` of `x`
    /// fails and leaves the length at what the first push made it.
    pub proof fn lemma_push_then_duplicate(s: Seq<T>, x: T)
        requires
            x.eq_spec(&x),
        ensures
            !fresh_in(s.push(x), x),
    {
        assert(s.push(x)[s.len() as int].eq_spec(&x));
    }
}

} // verus!
