//! Namespaced key codec.
//!
//! Storage keys are derived from a namespace and an ordered sequence of byte
//! components: a two-byte big-endian length prefix frames the namespace,
//! then every component but the last is framed the same way, and the last
//! component follows raw. Singleton records (a counter, an ownership
//! record) live under keys tagged with two `0xff` bytes, which no
//! namespaced key can start with since namespaces are shorter than 65535
//! bytes. The lemmas here establish that the derivation is injective and
//! that no key of one namespace is a prefix of a key of another, which is
//! what makes prefix range scans safe.

use vstd::prelude::*;

use crate::bytes::{clone_bytes, concat_bytes, is_prefix};
use crate::codec::{len2_be, len2_to_be, lemma_len2_be_injective, lemma_len2_recompose};

verus! {

/// A component framed by its two-byte big-endian length.
pub open spec fn framed(b: Seq<u8>) -> Seq<u8> {
    len2_be(b.len()) + b
}

/// Every component framed, in order.
pub open spec fn framed_all(parts: Seq<Seq<u8>>) -> Seq<u8>
    decreases parts.len(),
{
    if parts.len() == 0 {
        Seq::empty()
    } else {
        framed(parts[0]) + framed_all(parts.skip(1))
    }
}

/// The key tail encoding the ordered components: every component but the
/// last framed, the last raw.
pub open spec fn parts_tail(parts: Seq<Seq<u8>>) -> Seq<u8>
    decreases parts.len(),
{
    if parts.len() == 0 {
        Seq::empty()
    } else if parts.len() == 1 {
        parts[0]
    } else {
        framed(parts[0]) + parts_tail(parts.skip(1))
    }
}

/// The storage prefix isolating namespace `ns`.
pub open spec fn ns_prefix(ns: Seq<u8>) -> Seq<u8> {
    len2_be(ns.len()) + ns
}

/// The full member key for components `parts` under namespace `ns`.
pub open spec fn member_key(ns: Seq<u8>, parts: Seq<Seq<u8>>) -> Seq<u8> {
    ns_prefix(ns) + parts_tail(parts)
}

/// The key of a singleton record named `name`.
pub open spec fn singleton_key(name: Seq<u8>) -> Seq<u8> {
    seq![255u8, 255u8] + name
}

/// A namespace short enough for its two-byte framing to stay below the
/// singleton tag.
pub open spec fn ns_ok(ns: Seq<u8>) -> bool {
    ns.len() < 65535
}

/// At least one component, and every framed (non-last) component short
/// enough for two-byte framing.
pub open spec fn parts_ok(parts: Seq<Seq<u8>>) -> bool {
    parts.len() >= 1 && forall|i: int|
        0 <= i < parts.len() - 1 ==> #[trigger] parts[i].len() < 65536
}

/// The views of a vector of byte vectors.
pub open spec fn views_of(parts: Seq<Vec<u8>>) -> Seq<Seq<u8>> {
    parts.map_values(|p: Vec<u8>| p@)
}

/// Two framed components followed by arbitrary continuations agree exactly
/// when the components and the continuations agree.
pub proof fn lemma_framed_split(a: Seq<u8>, b: Seq<u8>, x: Seq<u8>, y: Seq<u8>)
    requires
        a.len() < 65536,
        b.len() < 65536,
        framed(a) + x == framed(b) + y,
    ensures
        a == b,
        x == y,
{
    let s = framed(a) + x;
    let t = framed(b) + y;
    assert(framed(a).len() == 2 + a.len());
    assert(framed(b).len() == 2 + b.len());
    assert(s[0] == len2_be(a.len())[0] && s[1] == len2_be(a.len())[1]);
    assert(t[0] == len2_be(b.len())[0] && t[1] == len2_be(b.len())[1]);
    assert(len2_be(a.len()) =~= len2_be(b.len()));
    lemma_len2_be_injective(a.len(), b.len());
    assert(s.len() == t.len());
    assert(x.len() == y.len());
    assert forall|i: int| 0 <= i < a.len() implies a[i] == b[i] by {
        assert(s[2 + i] == a[i]);
        assert(t[2 + i] == b[i]);
    }
    assert(a =~= b);
    assert forall|i: int| 0 <= i < x.len() implies x[i] == y[i] by {
        assert(s[2 + a.len() + i] == x[i]);
        assert(t[2 + b.len() + i] == y[i]);
    }
    assert(x =~= y);
}

/// For components of equal count, the tail encoding is injective.
pub proof fn lemma_tail_injective(p: Seq<Seq<u8>>, q: Seq<Seq<u8>>)
    requires
        parts_ok(p),
        parts_ok(q),
        p.len() == q.len(),
        parts_tail(p) == parts_tail(q),
    ensures
        p =~~= q,
    decreases p.len(),
{
    if p.len() == 1 {
        assert(p =~~= q);
    } else {
        assert(p[0].len() < 65536 && q[0].len() < 65536);
        lemma_framed_split(p[0], q[0], parts_tail(p.skip(1)), parts_tail(q.skip(1)));
        assert(parts_ok(p.skip(1))) by {
            assert(forall|i: int|
                0 <= i < p.skip(1).len() - 1 ==> #[trigger] p.skip(1)[i].len() == p[i + 1].len());
        }
        assert(parts_ok(q.skip(1))) by {
            assert(forall|i: int|
                0 <= i < q.skip(1).len() - 1 ==> #[trigger] q.skip(1)[i].len() == q[i + 1].len());
        }
        lemma_tail_injective(p.skip(1), q.skip(1));
        assert forall|i: int| 0 <= i < p.len() implies p[i] =~= q[i] by {
            if i > 0 {
                assert(p.skip(1)[i - 1] =~= q.skip(1)[i - 1]);
            }
        }
    }
}

/// Distinct (namespace, components) pairs of equal component count derive
/// distinct keys.
pub proof fn lemma_member_key_injective(
    ns1: Seq<u8>,
    p1: Seq<Seq<u8>>,
    ns2: Seq<u8>,
    p2: Seq<Seq<u8>>,
)
    requires
        ns_ok(ns1),
        ns_ok(ns2),
        parts_ok(p1),
        parts_ok(p2),
        p1.len() == p2.len(),
        member_key(ns1, p1) == member_key(ns2, p2),
    ensures
        ns1 == ns2,
        p1 =~~= p2,
{
    assert(ns_prefix(ns1) + parts_tail(p1) == framed(ns1) + parts_tail(p1));
    assert(ns_prefix(ns2) + parts_tail(p2) == framed(ns2) + parts_tail(p2));
    lemma_framed_split(ns1, ns2, parts_tail(p1), parts_tail(p2));
    lemma_tail_injective(p1, p2);
}

/// No key of one namespace extends the prefix of a different namespace.
pub proof fn lemma_ns_isolated(ns1: Seq<u8>, ns2: Seq<u8>, tail: Seq<u8>)
    requires
        ns_ok(ns1),
        ns_ok(ns2),
        ns1 != ns2,
    ensures
        !is_prefix(ns_prefix(ns1), ns_prefix(ns2) + tail),
{
    if is_prefix(ns_prefix(ns1), ns_prefix(ns2) + tail) {
        let s = ns_prefix(ns2) + tail;
        assert(ns_prefix(ns1)[0] == s.subrange(0, ns_prefix(ns1).len() as int)[0]);
        assert(ns_prefix(ns1)[1] == s.subrange(0, ns_prefix(ns1).len() as int)[1]);
        assert(s[0] == len2_be(ns2.len())[0] && s[1] == len2_be(ns2.len())[1]);
        assert(len2_be(ns1.len()) =~= len2_be(ns2.len()));
        lemma_len2_be_injective(ns1.len(), ns2.len());
        assert forall|i: int| 0 <= i < ns1.len() implies ns1[i] == ns2[i] by {
            assert(ns_prefix(ns1)[2 + i] == s.subrange(0, ns_prefix(ns1).len() as int)[2 + i]);
            assert(s[2 + i] == ns2[i]);
        }
        assert(ns1 =~= ns2);
        assert(false);
    }
}

/// Singleton keys never sit inside a namespace scope, and never equal a
/// namespaced member key.
pub proof fn lemma_singleton_isolated(name: Seq<u8>, ns: Seq<u8>, tail: Seq<u8>)
    requires
        ns_ok(ns),
    ensures
        !is_prefix(ns_prefix(ns), singleton_key(name)),
        singleton_key(name) != ns_prefix(ns) + tail,
{
    lemma_len2_recompose(ns.len());
    if is_prefix(ns_prefix(ns), singleton_key(name)) {
        let s = singleton_key(name);
        assert(ns_prefix(ns)[0] == s.subrange(0, ns_prefix(ns).len() as int)[0]);
        assert(ns_prefix(ns)[1] == s.subrange(0, ns_prefix(ns).len() as int)[1]);
        assert(s[0] == 255 && s[1] == 255);
        assert(ns.len() == 255 * 256 + 255);
        assert(false);
    }
    if singleton_key(name) == ns_prefix(ns) + tail {
        let s = singleton_key(name);
        assert(s[0] == 255 && s[1] == 255);
        assert((ns_prefix(ns) + tail)[0] == len2_be(ns.len())[0]);
        assert((ns_prefix(ns) + tail)[1] == len2_be(ns.len())[1]);
        assert(ns.len() == 255 * 256 + 255);
        assert(false);
    }
}

/// The member key splits into the scope of the first `k` components and the
/// tail of the rest.
pub proof fn lemma_tail_decompose(parts: Seq<Seq<u8>>, k: int)
    requires
        0 <= k < parts.len(),
    ensures
        parts_tail(parts) == framed_all(parts.take(k)) + parts_tail(parts.skip(k)),
    decreases k,
{
    if k == 0 {
        assert(parts.take(0) =~= Seq::<Seq<u8>>::empty());
        assert(parts.skip(0) =~= parts);
        assert(framed_all(parts.take(0)) + parts_tail(parts) =~= parts_tail(parts));
    } else {
        lemma_tail_decompose(parts.skip(1), k - 1);
        assert(parts.skip(1).take(k - 1) =~= parts.take(k).skip(1));
        assert(parts.skip(1).skip(k - 1) =~= parts.skip(k));
        assert(parts.take(k)[0] == parts[0]);
        assert(framed_all(parts.take(k)) == framed(parts[0]) + framed_all(parts.take(k).skip(1)));
        assert(parts.len() >= 2);
        assert(parts_tail(parts) == framed(parts[0]) + parts_tail(parts.skip(1)));
        assert((framed(parts[0]) + framed_all(parts.take(k).skip(1))) + parts_tail(parts.skip(k))
            =~= framed(parts[0]) + (framed_all(parts.take(k).skip(1)) + parts_tail(
            parts.skip(k),
        )));
    }
}

/// Appending one more component to a framed run appends its framing.
pub proof fn lemma_framed_all_snoc(parts: Seq<Seq<u8>>, x: Seq<u8>)
    ensures
        framed_all(parts.push(x)) == framed_all(parts) + framed(x),
    decreases parts.len(),
{
    if parts.len() == 0 {
        let s = parts.push(x);
        assert(s.len() == 1);
        assert(s[0] == x);
        assert(s.skip(1) =~= Seq::<Seq<u8>>::empty());
        assert(framed_all(s) == framed(s[0]) + framed_all(s.skip(1)));
        assert(framed_all(Seq::<Seq<u8>>::empty()) == Seq::<u8>::empty());
        assert(framed_all(s) =~= framed(x));
        assert(framed_all(parts) == Seq::<u8>::empty());
        assert(framed_all(parts) + framed(x) =~= framed(x));
    } else {
        assert(parts.push(x).skip(1) =~= parts.skip(1).push(x));
        lemma_framed_all_snoc(parts.skip(1), x);
        assert(framed(parts.push(x)[0]) + framed_all(parts.skip(1).push(x)) =~= framed(parts[0])
            + (framed_all(parts.skip(1)) + framed(x)));
        assert((framed(parts[0]) + framed_all(parts.skip(1))) + framed(x) =~= framed(parts[0]) + (
        framed_all(parts.skip(1)) + framed(x)));
    }
}

/// Build the storage prefix of namespace `ns`.
pub fn build_ns_prefix(ns: &Vec<u8>) -> (r: Vec<u8>)
    requires
        ns_ok(ns@),
    ensures
        r@ == ns_prefix(ns@),
{
    let head = len2_to_be(ns.len());
    concat_bytes(&head, ns)
}

/// Build the key of a singleton record named `name`.
pub fn build_singleton_key(name: &Vec<u8>) -> (r: Vec<u8>)
    ensures
        r@ == singleton_key(name@),
{
    let mut r: Vec<u8> = Vec::new();
    r.push(255);
    r.push(255);
    let r = concat_bytes(&r, name);
    proof {
        assert(r@ =~= singleton_key(name@));
    }
    r
}

/// Build the key tail of the ordered components `parts`.
pub fn build_tail(parts: &Vec<Vec<u8>>) -> (r: Vec<u8>)
    requires
        parts_ok(views_of(parts@)),
    ensures
        r@ == parts_tail(views_of(parts@)),
{
    let ghost ps = views_of(parts@);
    let mut r: Vec<u8> = Vec::new();
    let mut i: usize = 0;
    let last = parts.len() - 1;
    proof {
        assert(ps.take(0) =~= Seq::<Seq<u8>>::empty());
    }
    while i < last
        invariant
            0 <= i <= last,
            last == parts@.len() - 1,
            ps == views_of(parts@),
            ps.len() == parts@.len(),
            parts_ok(ps),
            r@ == framed_all(ps.take(i as int)),
        decreases last - i,
    {
        proof {
            assert(ps[i as int] == parts@[i as int]@);
            assert(ps[i as int].len() < 65536);
        }
        let head = len2_to_be(parts[i].len());
        let r2 = concat_bytes(&r, &head);
        let r3 = concat_bytes(&r2, &parts[i]);
        proof {
            lemma_framed_all_snoc(ps.take(i as int), ps[i as int]);
            assert(ps.take(i + 1) =~= ps.take(i as int).push(ps[i as int]));
            assert(r3@ =~= framed_all(ps.take(i as int)) + framed(ps[i as int]));
        }
        r = r3;
        i = i + 1;
    }
    let r = concat_bytes(&r, &parts[parts.len() - 1]);
    proof {
        let n = ps.len() as int;
        lemma_tail_decompose(ps, n - 1);
        assert(ps.skip(n - 1).len() == 1);
        assert(parts_tail(ps.skip(n - 1)) == ps.skip(n - 1)[0]);
        assert(ps.skip(n - 1)[0] == ps[n - 1]);
        assert(i as int == n - 1);
    }
    r
}

/// Build the framed run of all of `parts`, used to scope a sub-prefix of a
/// composite key.
pub fn build_framed_all(parts: &Vec<Vec<u8>>) -> (r: Vec<u8>)
    requires
        forall|i: int| 0 <= i < parts@.len() ==> #[trigger] parts@[i]@.len() < 65536,
    ensures
        r@ == framed_all(views_of(parts@)),
{
    let ghost ps = views_of(parts@);
    let mut r: Vec<u8> = Vec::new();
    let mut i: usize = 0;
    proof {
        assert(ps.take(0) =~= Seq::<Seq<u8>>::empty());
    }
    while i < parts.len()
        invariant
            0 <= i <= parts@.len(),
            ps == views_of(parts@),
            ps.len() == parts@.len(),
            forall|j: int| 0 <= j < ps.len() ==> #[trigger] ps[j].len() < 65536,
            r@ == framed_all(ps.take(i as int)),
        decreases parts@.len() - i,
    {
        proof {
            assert(ps[i as int] == parts@[i as int]@);
        }
        let head = len2_to_be(parts[i].len());
        let r2 = concat_bytes(&r, &head);
        let r3 = concat_bytes(&r2, &parts[i]);
        proof {
            lemma_framed_all_snoc(ps.take(i as int), ps[i as int]);
            assert(ps.take(i + 1) =~= ps.take(i as int).push(ps[i as int]));
            assert(r3@ =~= framed_all(ps.take(i as int)) + framed(ps[i as int]));
        }
        r = r3;
        i = i + 1;
    }
    proof {
        assert(ps.take(ps.len() as int) =~= ps);
    }
    r
}

} // verus!
