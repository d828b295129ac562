//! Contract ownership records and their transfer workflow.
//!
//! An `Ownership` record holds the current owner, an optionally proposed
//! pending owner, and an optional deadline for accepting the transfer. The
//! `OwnershipStore` persists one record under a singleton key and drives
//! the two-step transfer workflow: the owner proposes, the pending owner
//! accepts before the deadline, and the owner may renounce. Addresses are
//! held as plain strings; validating them is the caller's concern.

use vstd::prelude::*;

use crate::bytes::tail_from;
use crate::codec::{len2_be, u64_be, u64_from_be, u64_to_be};
use crate::errors::StdError;
use crate::keys::{build_singleton_key, singleton_key};
use crate::store::Store;
use crate::typed_key::string_from_utf8;

verus! {

broadcast use vstd::utf8::encode_utf8_valid_utf8, vstd::utf8::decode_utf8_encode_utf8,
    vstd::utf8::encode_utf8_decode_utf8;

/// Marks a type usable as an address: a plain string, unvalidated.
pub trait AddressLike {

}

impl AddressLike for String {

}

/// A deadline for a pending ownership transfer.
#[derive(Clone, Copy, Debug, PartialEq, Eq, Structural)]
pub enum Expiration {
    /// Expires once the chain reaches this block height.
    AtHeight(u64),
    /// Expires once the block time reaches this point.
    AtTime(u64),
    /// Never expires.
    Never,
}

/// The height and time of the block a transition executes in.
#[derive(Debug)]
pub struct BlockInfo {
    pub height: u64,
    pub time: u64,
    pub chain_id: String,
}

/// Whether the deadline has been reached at `block`.
pub open spec fn is_expired_spec(e: Expiration, block: BlockInfo) -> bool {
    match e {
        Expiration::AtHeight(h) => block.height >= h,
        Expiration::AtTime(t) => block.time >= t,
        Expiration::Never => false,
    }
}

impl Expiration {
    /// Whether the deadline has been reached at `block`.
    pub fn is_expired(&self, block: &BlockInfo) -> (r: bool)
        ensures
            r == is_expired_spec(*self, *block),
    {
        match self {
            Expiration::AtHeight(h) => block.height >= *h,
            Expiration::AtTime(t) => block.time >= *t,
            Expiration::Never => false,
        }
    }
}

/// A contract's ownership info.
#[derive(Debug, PartialEq, Eq)]
pub struct Ownership<T: AddressLike> {
    /// The current owner; `None` once the ownership has been renounced.
    pub owner: Option<T>,
    /// The account proposed to take over; `None` without a pending transfer.
    pub pending_owner: Option<T>,
    /// The deadline for accepting; `None` without one.
    pub pending_expiry: Option<Expiration>,
}

/// Actions that alter a contract's ownership.
#[derive(Debug, PartialEq, Eq)]
pub enum Action {
    /// Propose to transfer the ownership to another account, optionally
    /// with a deadline; only the current owner may do this, and any
    /// pending transfer is overwritten.
    TransferOwnership { new_owner: String, expiry: Option<Expiration> },
    /// Accept the pending transfer; only the pending owner may do this.
    AcceptOwnership,
    /// Give up the ownership for good; only the current owner may do
    /// this, and any pending transfer is canceled.
    RenounceOwnership,
}

/// Errors of the ownership workflow.
#[derive(Debug, PartialEq, Eq)]
pub enum OwnershipError {
    /// A store-layer error, propagated unchanged.
    Std(StdError),
    /// The ownership has been renounced.
    NoOwner,
    /// The caller is not the current owner.
    NotOwner,
    /// The caller is not the pending owner.
    NotPendingOwner,
    /// There is no pending transfer to accept.
    TransferNotFound,
    /// The pending transfer has expired.
    TransferExpired,
}

/// The byte encoding of an optional address.
pub open spec fn enc_opt_str(v: Option<String>) -> Seq<u8> {
    match v {
        None => seq![0u8],
        Some(s) => seq![1u8] + len2_be(vstd::utf8::encode_utf8(s@).len()) + vstd::utf8::encode_utf8(
            s@,
        ),
    }
}

/// The address is short enough for two-byte length framing.
pub open spec fn codable_str(v: Option<String>) -> bool {
    match v {
        None => true,
        Some(s) => vstd::utf8::encode_utf8(s@).len() < 65536,
    }
}

/// The byte encoding of an optional deadline.
pub open spec fn enc_opt_exp(v: Option<Expiration>) -> Seq<u8> {
    match v {
        None => seq![0u8],
        Some(Expiration::AtHeight(h)) => seq![1u8] + u64_be(h),
        Some(Expiration::AtTime(t)) => seq![2u8] + u64_be(t),
        Some(Expiration::Never) => seq![3u8],
    }
}

/// The byte encoding of an ownership record.
pub open spec fn own_enc(o: Ownership<String>) -> Seq<u8> {
    enc_opt_str(o.owner) + enc_opt_str(o.pending_owner) + enc_opt_exp(o.pending_expiry)
}

/// Both addresses of the record are short enough to encode.
pub open spec fn own_codable(o: Ownership<String>) -> bool {
    codable_str(o.owner) && codable_str(o.pending_owner)
}

/// Some encodable record encodes to `bytes`.
pub open spec fn decodes_to_ownership(bytes: Seq<u8>) -> bool {
    exists|o: Ownership<String>| own_codable(o) && bytes == #[trigger] own_enc(o)
}

/// The shape of the encoding of a present address: tag byte, two length
/// bytes, then the UTF-8 bytes.
proof fn lemma_opt_str_some_shape(s: String)
    ensures
        enc_opt_str(Some(s)).len() == 3 + vstd::utf8::encode_utf8(s@).len(),
        enc_opt_str(Some(s))[0] == 1,
        enc_opt_str(Some(s))[1] == len2_be(vstd::utf8::encode_utf8(s@).len())[0],
        enc_opt_str(Some(s))[2] == len2_be(vstd::utf8::encode_utf8(s@).len())[1],
        forall|j: int|
            0 <= j < vstd::utf8::encode_utf8(s@).len() ==> #[trigger] enc_opt_str(Some(s))[3 + j]
                == vstd::utf8::encode_utf8(s@)[j],
{
    let e = vstd::utf8::encode_utf8(s@);
    let head = seq![1u8] + len2_be(e.len());
    assert(enc_opt_str(Some(s)) == head + e);
    assert(head.len() == 3);
    assert(head[0] == 1);
    assert(head[1] == len2_be(e.len())[0]);
    assert(head[2] == len2_be(e.len())[1]);
    assert((head + e)[0] == head[0]);
    assert((head + e)[1] == head[1]);
    assert((head + e)[2] == head[2]);
    assert forall|j: int| 0 <= j < e.len() implies #[trigger] enc_opt_str(Some(s))[3 + j]
        == e[j] by {
        assert((head + e)[3 + j] == e[j]);
    }
}

/// Two encodings of optional addresses starting the same byte string are
/// the same encoding.
proof fn lemma_opt_str_prefix(a: Option<String>, b: Option<String>, x: Seq<u8>, y: Seq<u8>)
    requires
        codable_str(a),
        codable_str(b),
        enc_opt_str(a) + x == enc_opt_str(b) + y,
    ensures
        enc_opt_str(a) == enc_opt_str(b),
        x == y,
{
    let s = enc_opt_str(a) + x;
    let t = enc_opt_str(b) + y;
    assert(s == t);
    match (a, b) {
        (None, None) => {
            assert(enc_opt_str(a) =~= enc_opt_str(b));
            assert(enc_opt_str(a).len() == 1);
            assert(enc_opt_str(b).len() == 1);
            assert(s.len() == 1 + x.len());
            assert(t.len() == 1 + y.len());
            assert(x.len() == y.len());
            assert forall|i: int| 0 <= i < x.len() implies x[i] == y[i] by {
                assert(s[1 + i] == x[i]);
                assert(t[1 + i] == y[i]);
            }
            assert(x =~= y);
        },
        (None, Some(sb)) => {
            lemma_opt_str_some_shape(sb);
            assert(s[0] == 0);
            assert(t[0] == 1);
        },
        (Some(sa), None) => {
            lemma_opt_str_some_shape(sa);
            assert(s[0] == 1);
            assert(t[0] == 0);
        },
        (Some(sa), Some(sb)) => {
            lemma_opt_str_some_shape(sa);
            lemma_opt_str_some_shape(sb);
            let ea = vstd::utf8::encode_utf8(sa@);
            let eb = vstd::utf8::encode_utf8(sb@);
            assert(s[1] == len2_be(ea.len())[0] && s[2] == len2_be(ea.len())[1]);
            assert(t[1] == len2_be(eb.len())[0] && t[2] == len2_be(eb.len())[1]);
            assert(len2_be(ea.len()) =~= len2_be(eb.len()));
            crate::codec::lemma_len2_be_injective(ea.len(), eb.len());
            assert forall|i: int| 0 <= i < ea.len() implies ea[i] == eb[i] by {
                assert(s[3 + i] == ea[i]);
                assert(t[3 + i] == eb[i]);
            }
            assert(ea =~= eb);
            assert(enc_opt_str(a) =~= enc_opt_str(b));
            assert(s.len() == enc_opt_str(a).len() + x.len());
            assert(t.len() == enc_opt_str(b).len() + y.len());
            assert(x.len() == y.len());
            assert forall|i: int| 0 <= i < x.len() implies x[i] == y[i] by {
                assert(s[enc_opt_str(a).len() + i] == x[i]);
                assert(t[enc_opt_str(b).len() + i] == y[i]);
            }
            assert(x =~= y);
        },
    }
}

/// Encode an optional address.
fn build_opt_str(v: &Option<String>) -> (r: Vec<u8>)
    requires
        codable_str(*v),
    ensures
        r@ == enc_opt_str(*v),
{
    match v {
        None => {
            let mut r: Vec<u8> = Vec::new();
            r.push(0);
            proof {
                assert(r@ =~= enc_opt_str(None::<String>));
            }
            r
        },
        Some(s) => {
            let mut r: Vec<u8> = Vec::new();
            r.push(1);
            let bytes = s.as_str().as_bytes_vec();
            let head = crate::codec::len2_to_be(bytes.len());
            let r2 = crate::bytes::concat_bytes(&r, &head);
            let r3 = crate::bytes::concat_bytes(&r2, &bytes);
            proof {
                assert(r3@ =~= enc_opt_str(Some(*s)));
            }
            r3
        },
    }
}

/// Encode an optional deadline.
fn build_opt_exp(v: &Option<Expiration>) -> (r: Vec<u8>)
    ensures
        r@ == enc_opt_exp(*v),
{
    let mut r: Vec<u8> = Vec::new();
    match v {
        None => {
            r.push(0);
            proof {
                assert(r@ =~= enc_opt_exp(None::<Expiration>));
            }
        },
        Some(Expiration::AtHeight(h)) => {
            r.push(1);
            let tail = u64_to_be(*h);
            r = crate::bytes::concat_bytes(&r, &tail);
            proof {
                assert(r@ =~= enc_opt_exp(Some(Expiration::AtHeight(*h))));
            }
        },
        Some(Expiration::AtTime(t)) => {
            r.push(2);
            let tail = u64_to_be(*t);
            r = crate::bytes::concat_bytes(&r, &tail);
            proof {
                assert(r@ =~= enc_opt_exp(Some(Expiration::AtTime(*t))));
            }
        },
        Some(Expiration::Never) => {
            r.push(3);
            proof {
                assert(r@ =~= enc_opt_exp(Some(Expiration::Never)));
            }
        },
    }
    r
}

/// Encode an ownership record.
pub fn encode_ownership(o: &Ownership<String>) -> (r: Vec<u8>)
    requires
        own_codable(*o),
    ensures
        r@ == own_enc(*o),
{
    let a = build_opt_str(&o.owner);
    let b = build_opt_str(&o.pending_owner);
    let c = build_opt_exp(&o.pending_expiry);
    let ab = crate::bytes::concat_bytes(&a, &b);
    let abc = crate::bytes::concat_bytes(&ab, &c);
    proof {
        assert(abc@ =~= own_enc(*o));
    }
    abc
}

/// Decode an optional address starting at `pos`; on success also returns
/// the position after it.
fn parse_opt_str(bytes: &Vec<u8>, pos: usize) -> (r: Option<(Option<String>, usize)>)
    requires
        pos <= bytes@.len(),
    ensures
        match r {
            Some((v, p)) => {
                &&& codable_str(v)
                &&& pos < p <= bytes@.len()
                &&& bytes@.subrange(pos as int, p as int) == enc_opt_str(v)
            },
            None => forall|v: Option<String>|
                codable_str(v) ==> !crate::bytes::is_prefix(
                    #[trigger] enc_opt_str(v),
                    bytes@.skip(pos as int),
                ),
        },
{
    let ghost rem = bytes@.skip(pos as int);
    if pos >= bytes.len() {
        proof {
            assert forall|v: Option<String>|
                codable_str(v) implies !crate::bytes::is_prefix(
                #[trigger] enc_opt_str(v),
                rem,
            ) by {
                assert(enc_opt_str(v).len() >= 1);
            }
        }
        return None;
    }
    let tag = bytes[pos];
    if tag == 0 {
        proof {
            assert(bytes@.subrange(pos as int, pos + 1 as int) =~= enc_opt_str(None::<String>));
        }
        return Some((None, pos + 1));
    }
    if tag != 1 {
        proof {
            assert forall|v: Option<String>|
                codable_str(v) implies !crate::bytes::is_prefix(
                #[trigger] enc_opt_str(v),
                rem,
            ) by {
                if crate::bytes::is_prefix(enc_opt_str(v), rem) {
                    assert(enc_opt_str(v)[0] == rem.subrange(0, enc_opt_str(v).len() as int)[0]);
                    assert(rem[0] == bytes@[pos as int]);
                    match v {
                        None => {
                            assert(enc_opt_str(v)[0] == 0);
                        },
                        Some(s2) => {
                            lemma_opt_str_some_shape(s2);
                        },
                    }
                }
            }
        }
        return None;
    }
    if bytes.len() - pos < 3 {
        proof {
            assert forall|v: Option<String>|
                codable_str(v) implies !crate::bytes::is_prefix(
                #[trigger] enc_opt_str(v),
                rem,
            ) by {
                if crate::bytes::is_prefix(enc_opt_str(v), rem) {
                    assert(enc_opt_str(v)[0] == rem.subrange(0, enc_opt_str(v).len() as int)[0]);
                    assert(rem[0] == bytes@[pos as int]);
                    match v {
                        None => {
                            assert(enc_opt_str(v)[0] == 0);
                        },
                        Some(s2) => {
                            lemma_opt_str_some_shape(s2);
                            assert(enc_opt_str(v).len() >= 3);
                            assert(rem.len() >= 3);
                        },
                    }
                }
            }
        }
        return None;
    }
    let hi = bytes[pos + 1];
    let lo = bytes[pos + 2];
    let plen: usize = (hi as usize) * 256 + (lo as usize);
    if bytes.len() - pos - 3 < plen {
        proof {
            assert forall|v: Option<String>|
                codable_str(v) implies !crate::bytes::is_prefix(
                #[trigger] enc_opt_str(v),
                rem,
            ) by {
                if crate::bytes::is_prefix(enc_opt_str(v), rem) {
                    match v {
                        None => {
                            assert(enc_opt_str(v)[0] == rem.subrange(
                                0,
                                enc_opt_str(v).len() as int,
                            )[0]);
                            assert(enc_opt_str(v)[0] == 0);
                            assert(rem[0] == bytes@[pos as int]);
                        },
                        Some(s2) => {
                            let e = vstd::utf8::encode_utf8(s2@);
                            lemma_opt_str_some_shape(s2);
                            crate::codec::lemma_len2_recompose(e.len());
                            let l = enc_opt_str(v).len() as int;
                            assert(enc_opt_str(v)[1] == rem.subrange(0, l)[1]);
                            assert(enc_opt_str(v)[2] == rem.subrange(0, l)[2]);
                            assert(rem[1] == len2_be(e.len())[0]);
                            assert(rem[2] == len2_be(e.len())[1]);
                            assert(rem[1] == bytes@[pos + 1] && rem[2] == bytes@[pos + 2]);
                            assert(e.len() == plen);
                            assert(rem.len() >= 3 + plen);
                        },
                    }
                }
            }
        }
        return None;
    }
    let base = pos + 3;
    let mut body: Vec<u8> = Vec::new();
    let mut i: usize = 0;
    while i < plen
        invariant
            0 <= i <= plen,
            base == pos + 3,
            base + plen <= bytes@.len(),
            bytes@.len() <= usize::MAX,
            plen <= 65535,
            body@ =~= bytes@.subrange(base as int, base + i as int),
        decreases plen - i,
    {
        body.push(bytes[base + i]);
        proof {
            assert(body@ =~= bytes@.subrange(base as int, base + i + 1 as int));
        }
        i = i + 1;
    }
    match string_from_utf8(&body) {
        Some(s) => {
            proof {
                assert(vstd::utf8::encode_utf8(s@) == body@);
                crate::codec::lemma_len2_recompose(plen as nat);
                lemma_opt_str_some_shape(s);
                assert forall|j: int|
                    0 <= j < 3 + plen implies bytes@.subrange(pos as int, pos + 3 + plen)[j]
                    == enc_opt_str(Some(s))[j] by {
                    if j == 0 {
                        assert(enc_opt_str(Some(s))[0] == 1);
                    } else if j == 1 {
                        assert(enc_opt_str(Some(s))[1] == len2_be(plen as nat)[0]);
                    } else if j == 2 {
                        assert(enc_opt_str(Some(s))[2] == len2_be(plen as nat)[1]);
                    } else {
                        assert(enc_opt_str(Some(s))[3 + (j - 3)] == body@[j - 3]);
                        assert(body@[j - 3] == bytes@[base + (j - 3)]);
                    }
                }
                assert(bytes@.subrange(pos as int, pos + 3 + plen) =~= enc_opt_str(Some(s)));
            }
            Some((Some(s), base + plen))
        },
        None => {
            proof {
                assert forall|v: Option<String>|
                    codable_str(v) implies !crate::bytes::is_prefix(
                    #[trigger] enc_opt_str(v),
                    rem,
                ) by {
                    if crate::bytes::is_prefix(enc_opt_str(v), rem) {
                        match v {
                            None => {
                                assert(enc_opt_str(v)[0] == rem.subrange(
                                    0,
                                    enc_opt_str(v).len() as int,
                                )[0]);
                                assert(enc_opt_str(v)[0] == 0);
                                assert(rem[0] == bytes@[pos as int]);
                            },
                            Some(s2) => {
                                let e = vstd::utf8::encode_utf8(s2@);
                                lemma_opt_str_some_shape(s2);
                                crate::codec::lemma_len2_recompose(e.len());
                                let l = enc_opt_str(v).len() as int;
                                assert(enc_opt_str(v)[1] == rem.subrange(0, l)[1]);
                                assert(enc_opt_str(v)[2] == rem.subrange(0, l)[2]);
                                assert(rem[1] == bytes@[pos + 1] && rem[2] == bytes@[pos + 2]);
                                assert(e.len() == plen);
                                assert(e =~= body@) by {
                                    assert forall|j: int| 0 <= j < plen implies e[j]
                                        == body@[j] by {
                                        assert(enc_opt_str(v)[3 + j] == rem.subrange(0, l)[3
                                            + j]);
                                        assert(rem[3 + j] == bytes@[pos + 3 + j]);
                                    }
                                }
                                assert(vstd::utf8::valid_utf8(e));
                                assert(false);
                            },
                        }
                    }
                }
            }
            None
        },
    }
}

/// Decode an optional deadline filling the rest of `bytes` from `pos` on.
fn parse_opt_exp(bytes: &Vec<u8>, pos: usize) -> (r: Option<Option<Expiration>>)
    requires
        pos <= bytes@.len(),
    ensures
        match r {
            Some(v) => bytes@.skip(pos as int) == enc_opt_exp(v),
            None => forall|v: Option<Expiration>|
                (#[trigger] enc_opt_exp(v)) != bytes@.skip(pos as int),
        },
{
    let ghost rem = bytes@.skip(pos as int);
    let n = bytes.len() - pos;
    if n == 1 {
        let tag = bytes[pos];
        if tag == 0 {
            proof {
                assert(rem =~= enc_opt_exp(None::<Expiration>));
            }
            return Some(None);
        }
        if tag == 3 {
            proof {
                assert(rem =~= enc_opt_exp(Some(Expiration::Never)));
            }
            return Some(Some(Expiration::Never));
        }
        proof {
            assert forall|v: Option<Expiration>|
                (#[trigger] enc_opt_exp(v)) != rem by {
                if enc_opt_exp(v) == rem {
                    assert(enc_opt_exp(v)[0] == rem[0]);
                    assert(enc_opt_exp(v).len() == 1);
                }
            }
        }
        return None;
    }
    if n == 9 {
        let tag = bytes[pos];
        if tag == 1 || tag == 2 {
            let body = tail_from(bytes, pos + 1);
            match u64_from_be(&body) {
                Some(h) => {
                    if tag == 1 {
                        proof {
                            assert(rem =~= enc_opt_exp(Some(Expiration::AtHeight(h))));
                        }
                        return Some(Some(Expiration::AtHeight(h)));
                    }
                    proof {
                        assert(rem =~= enc_opt_exp(Some(Expiration::AtTime(h))));
                    }
                    return Some(Some(Expiration::AtTime(h)));
                },
                None => {
                    proof {
                        assert(body@ =~= bytes@.subrange(pos + 1, bytes@.len() as int));
                        assert(false);
                    }
                    return None;
                },
            }
        }
        proof {
            assert forall|v: Option<Expiration>|
                (#[trigger] enc_opt_exp(v)) != rem by {
                if enc_opt_exp(v) == rem {
                    assert(enc_opt_exp(v)[0] == rem[0]);
                    assert(enc_opt_exp(v).len() == 9);
                }
            }
        }
        return None;
    }
    proof {
        assert forall|v: Option<Expiration>| (#[trigger] enc_opt_exp(v)) != rem by {
            if enc_opt_exp(v) == rem {
                assert(enc_opt_exp(v).len() == rem.len());
                assert(rem.len() == 1 || rem.len() == 9);
            }
        }
    }
    None
}

/// Decode an ownership record; fails exactly when no encodable record
/// encodes to `bytes`.
#[verifier::rlimit(100)]
#[verifier::spinoff_prover]
pub fn decode_ownership(bytes: &Vec<u8>) -> (r: Option<Ownership<String>>)
    ensures
        match r {
            Some(o) => own_codable(o) && bytes@ == own_enc(o),
            None => !decodes_to_ownership(bytes@),
        },
{
    let ghost whole = bytes@;
    proof {
        assert(whole.skip(0) =~= whole);
    }
    let step1 = parse_opt_str(bytes, 0);
    let (owner, p1) = match step1 {
        Some(pair) => pair,
        None => {
            proof {
                assert forall|o: Ownership<String>|
                    !(own_codable(o) && whole == #[trigger] own_enc(o)) by {
                    if own_codable(o) && whole == own_enc(o) {
                        assert(crate::bytes::is_prefix(enc_opt_str(o.owner), whole)) by {
                            assert(enc_opt_str(o.owner) =~= whole.subrange(
                                0,
                                enc_opt_str(o.owner).len() as int,
                            ));
                        }
                    }
                }
            }
            return None;
        },
    };
    let step2 = parse_opt_str(bytes, p1);
    let (pending, p2) = match step2 {
        Some(pair) => pair,
        None => {
            proof {
                assert forall|o: Ownership<String>|
                    !(own_codable(o) && whole == #[trigger] own_enc(o)) by {
                    if own_codable(o) && whole == own_enc(o) {
                        assert(enc_opt_str(o.owner) + (enc_opt_str(o.pending_owner)
                            + enc_opt_exp(o.pending_expiry)) =~= own_enc(o));
                        assert(enc_opt_str(owner) + whole.skip(p1 as int) =~= whole);
                        lemma_opt_str_prefix(
                            o.owner,
                            owner,
                            enc_opt_str(o.pending_owner) + enc_opt_exp(o.pending_expiry),
                            whole.skip(p1 as int),
                        );
                        assert(crate::bytes::is_prefix(
                            enc_opt_str(o.pending_owner),
                            whole.skip(p1 as int),
                        )) by {
                            assert(enc_opt_str(o.pending_owner) =~= whole.skip(
                                p1 as int,
                            ).subrange(0, enc_opt_str(o.pending_owner).len() as int));
                        }
                    }
                }
            }
            return None;
        },
    };
    let step3 = parse_opt_exp(bytes, p2);
    match step3 {
        Some(expiry) => {
            let o = Ownership { owner, pending_owner: pending, pending_expiry: expiry };
            proof {
                assert(whole =~= whole.subrange(0, p1 as int) + whole.subrange(
                    p1 as int,
                    p2 as int,
                ) + whole.skip(p2 as int));
                assert(whole.subrange(p1 as int, p2 as int) =~= whole.skip(p1 as int).subrange(
                    0,
                    p2 - p1,
                ));
                assert(bytes@ =~= own_enc(o));
            }
            Some(o)
        },
        None => {
            proof {
                assert forall|o: Ownership<String>|
                    !(own_codable(o) && whole == #[trigger] own_enc(o)) by {
                    if own_codable(o) && whole == own_enc(o) {
                        assert(enc_opt_str(o.owner) + (enc_opt_str(o.pending_owner)
                            + enc_opt_exp(o.pending_expiry)) =~= own_enc(o));
                        assert(enc_opt_str(owner) + whole.skip(p1 as int) =~= whole);
                        lemma_opt_str_prefix(
                            o.owner,
                            owner,
                            enc_opt_str(o.pending_owner) + enc_opt_exp(o.pending_expiry),
                            whole.skip(p1 as int),
                        );
                        assert(enc_opt_str(pending) + whole.skip(p2 as int) =~= whole.skip(
                            p1 as int,
                        )) by {
                            assert(whole.skip(p1 as int).subrange(0, p2 - p1) =~= whole.subrange(
                                p1 as int,
                                p2 as int,
                            ));
                        }
                        lemma_opt_str_prefix(
                            o.pending_owner,
                            pending,
                            enc_opt_exp(o.pending_expiry),
                            whole.skip(p2 as int),
                        );
                        assert(enc_opt_exp(o.pending_expiry) == whole.skip(p2 as int));
                    }
                }
            }
            None
        },
    }
}


/// The record `o` is what the store holds under key `k`.
pub open spec fn stored_ownership(
    m: Map<Seq<u8>, Seq<u8>>,
    k: Seq<u8>,
    o: Ownership<String>,
) -> bool {
    m.contains_key(k) && m[k] == own_enc(o) && own_codable(o)
}

/// The record's current owner is the sender.
pub open spec fn is_current_owner(o: Ownership<String>, sender: Seq<char>) -> bool {
    match o.owner {
        Some(s) => s@ == sender,
        None => false,
    }
}

/// The error `check_owner` raises, if any: the record must have an owner,
/// and the sender must be that owner.
pub open spec fn check_owner_spec(o: Ownership<String>, sender: Seq<char>) -> Option<
    OwnershipError,
> {
    match o.owner {
        None => Some(OwnershipError::NoOwner),
        Some(s) => if s@ != sender {
            Some(OwnershipError::NotOwner)
        } else {
            None
        },
    }
}

/// The ownership state machine: what `action`, taken by `sender` in
/// `block`, does to the record `o`.
pub open spec fn transition(
    o: Ownership<String>,
    block: BlockInfo,
    sender: Seq<char>,
    action: Action,
) -> Result<Ownership<String>, OwnershipError> {
    match action {
        Action::TransferOwnership { new_owner, expiry } => match check_owner_spec(o, sender) {
            Some(e) => Err(e),
            None => Ok(
                Ownership {
                    owner: o.owner,
                    pending_owner: Some(new_owner),
                    pending_expiry: expiry,
                },
            ),
        },
        Action::AcceptOwnership => match o.pending_owner {
            None => Err(OwnershipError::TransferNotFound),
            Some(p) => if p@ != sender {
                Err(OwnershipError::NotPendingOwner)
            } else {
                match o.pending_expiry {
                    Some(exp) => if is_expired_spec(exp, block) {
                        Err(OwnershipError::TransferExpired)
                    } else {
                        Ok(
                            Ownership {
                                owner: o.pending_owner,
                                pending_owner: None,
                                pending_expiry: None,
                            },
                        )
                    },
                    None => Ok(
                        Ownership {
                            owner: o.pending_owner,
                            pending_owner: None,
                            pending_expiry: None,
                        },
                    ),
                }
            },
        },
        Action::RenounceOwnership => match check_owner_spec(o, sender) {
            Some(e) => Err(e),
            None => Ok(
                Ownership { owner: None, pending_owner: None, pending_expiry: None },
            ),
        },
    }
}

/// Storage for one contract's ownership record, under a singleton key.
pub struct OwnershipStore {
    key: Vec<u8>,
}

impl OwnershipStore {
    /// The storage key of the record.
    pub closed spec fn key_spec(&self) -> Seq<u8> {
        self.key@
    }

    /// Storage under the singleton key named `key`.
    pub fn new(key: &str) -> (s: OwnershipStore)
        ensures
            s.key_spec() == singleton_key(vstd::utf8::encode_utf8(key@)),
    {
        let name = key.as_bytes_vec();
        OwnershipStore { key: build_singleton_key(&name) }
    }

    /// Persist `ownership`.
    fn save(&self, store: &mut Store, ownership: &Ownership<String>)
        requires
            own_codable(*ownership),
        ensures
            final(store)@ == old(store)@.insert(self.key_spec(), own_enc(*ownership)),
    {
        let bytes = encode_ownership(ownership);
        store.set(&self.key, &bytes);
    }

    /// Set the given address as the contract owner; intended only for use
    /// during contract instantiation.
    pub fn initialize_owner(&self, store: &mut Store, owner: Option<&str>) -> (r: Result<
        Ownership<String>,
        StdError,
    >)
        requires
            match owner {
                Some(s) => vstd::utf8::encode_utf8(s@).len() < 65536,
                None => true,
            },
        ensures
            match r {
                Ok(o) => {
                    &&& match owner {
                        Some(s) => o.owner matches Some(os) && os@ == s@,
                        None => o.owner is None,
                    }
                    &&& o.pending_owner is None
                    &&& o.pending_expiry is None
                    &&& final(store)@ == old(store)@.insert(self.key_spec(), own_enc(o))
                },
                Err(_) => false,
            },
    {
        let ownership: Ownership<String> = Ownership {
            owner: match owner {
                Some(s) => Some(s.to_owned()),
                None => None,
            },
            pending_owner: None,
            pending_expiry: None,
        };
        self.save(store, &ownership);
        Ok(ownership)
    }

    /// Get the current ownership record.
    pub fn get_ownership(&self, store: &Store) -> (r: Result<Ownership<String>, StdError>)
        ensures
            match r {
                Ok(o) => stored_ownership(store@, self.key_spec(), o),
                Err(e) => {
                    &&& (e is NotFound <==> !store@.contains_key(self.key_spec()))
                    &&& (store@.contains_key(self.key_spec()) ==> e is ParseErr
                        && !decodes_to_ownership(store@[self.key_spec()]))
                },
            },
    {
        match store.get(&self.key) {
            None => Err(StdError::NotFound { kind: String::from_str("ownership") }),
            Some(bytes) => match decode_ownership(&bytes) {
                Some(o) => Ok(o),
                None => Err(
                    StdError::ParseErr {
                        target: String::from_str("ownership"),
                        msg: String::from_str("stored ownership does not decode"),
                    },
                ),
            },
        }
    }

    /// Whether the contract has an owner and it is the given address.
    pub fn is_owner(&self, store: &Store, addr: &String) -> (r: Result<bool, StdError>)
        ensures
            match r {
                Ok(b) => exists|o: Ownership<String>|
                    #[trigger] stored_ownership(store@, self.key_spec(), o) && b
                        == is_current_owner(o, addr@),
                Err(e) => {
                    &&& (e is NotFound <==> !store@.contains_key(self.key_spec()))
                    &&& (store@.contains_key(self.key_spec()) ==> e is ParseErr
                        && !decodes_to_ownership(store@[self.key_spec()]))
                },
            },
    {
        let ownership = match self.get_ownership(store) {
            Ok(o) => o,
            Err(e) => {
                return Err(e);
            },
        };
        let ghost og = ownership;
        match &ownership.owner {
            Some(owner) => {
                let r = owner.eq(addr);
                proof {
                    assert(stored_ownership(store@, self.key_spec(), og) && r
                        == is_current_owner(og, addr@));
                }
                Ok(r)
            },
            None => {
                proof {
                    assert(stored_ownership(store@, self.key_spec(), og) && false
                        == is_current_owner(og, addr@));
                }
                Ok(false)
            },
        }
    }

    /// Assert that `sender` is the contract's current owner.
    pub fn assert_owner(&self, store: &Store, sender: &String) -> (r: Result<(), OwnershipError>)
        ensures
            match r {
                Ok(_) => exists|o: Ownership<String>|
                    #[trigger] stored_ownership(store@, self.key_spec(), o) && check_owner_spec(
                        o,
                        sender@,
                    ) is None,
                Err(e) => {
                    ||| (!store@.contains_key(self.key_spec()) && (e matches OwnershipError::Std(
                        se,
                    ) && se is NotFound))
                    ||| (store@.contains_key(self.key_spec()) && !decodes_to_ownership(
                        store@[self.key_spec()],
                    ) && (e matches OwnershipError::Std(se) && se is ParseErr))
                    ||| exists|o: Ownership<String>|
                        #[trigger] stored_ownership(store@, self.key_spec(), o)
                            && check_owner_spec(o, sender@) == Some(e)
                },
            },
    {
        let ownership = match self.get_ownership(store) {
            Ok(o) => o,
            Err(e) => {
                return Err(OwnershipError::Std(e));
            },
        };
        let ghost og = ownership;
        match &ownership.owner {
            None => Err(OwnershipError::NoOwner),
            Some(owner) => {
                if owner.eq(sender) {
                    proof {
                        assert(stored_ownership(store@, self.key_spec(), og)
                            && check_owner_spec(og, sender@) is None);
                    }
                    Ok(())
                } else {
                    Err(OwnershipError::NotOwner)
                }
            },
        }
    }

    /// Update the ownership record by `action`, taken by `sender` in
    /// `block`; returns the updated record.
    pub fn update_ownership(
        &self,
        store: &mut Store,
        block: &BlockInfo,
        sender: &String,
        action: Action,
    ) -> (r: Result<Ownership<String>, OwnershipError>)
        requires
            match action {
                Action::TransferOwnership { new_owner, .. } => vstd::utf8::encode_utf8(
                    new_owner@,
                ).len() < 65536,
                _ => true,
            },
        ensures
            match r {
                Ok(new_o) => exists|o: Ownership<String>|
                    {
                        &&& #[trigger] stored_ownership(old(store)@, self.key_spec(), o)
                        &&& transition(o, *block, sender@, action) == Ok::<
                            Ownership<String>,
                            OwnershipError,
                        >(new_o)
                        &&& final(store)@ == old(store)@.insert(self.key_spec(), own_enc(new_o))
                    },
                Err(e) => {
                    &&& final(store)@ == old(store)@
                    &&& {
                        ||| (!old(store)@.contains_key(self.key_spec()) && (e matches
                        OwnershipError::Std(se) && se is NotFound))
                        ||| (old(store)@.contains_key(self.key_spec())
                            && !decodes_to_ownership(old(store)@[self.key_spec()]) && (e matches
                        OwnershipError::Std(se) && se is ParseErr))
                        ||| exists|o: Ownership<String>|
                            #[trigger] stored_ownership(old(store)@, self.key_spec(), o)
                                && transition(o, *block, sender@, action) == Err::<
                                Ownership<String>,
                                OwnershipError,
                            >(e)
                    }
                },
            },
    {
        let ownership = match self.get_ownership(store) {
            Ok(o) => o,
            Err(e) => {
                return Err(OwnershipError::Std(e));
            },
        };
        let ghost og = ownership;
        match action {
            Action::TransferOwnership { new_owner, expiry } => {
                let allowed = match &ownership.owner {
                    None => false,
                    Some(owner) => owner.eq(sender),
                };
                if !allowed {
                    let e = match &ownership.owner {
                        None => OwnershipError::NoOwner,
                        Some(_) => OwnershipError::NotOwner,
                    };
                    proof {
                        assert(transition(
                            og,
                            *block,
                            sender@,
                            Action::TransferOwnership { new_owner, expiry },
                        ) == Err::<Ownership<String>, OwnershipError>(e));
                    }
                    return Err(e);
                }
                let new_o = Ownership {
                    owner: ownership.owner,
                    pending_owner: Some(new_owner),
                    pending_expiry: expiry,
                };
                self.save(store, &new_o);
                Ok(new_o)
            },
            Action::AcceptOwnership => {
                match &ownership.pending_owner {
                    None => Err(OwnershipError::TransferNotFound),
                    Some(pending) => {
                        if !pending.eq(sender) {
                            return Err(OwnershipError::NotPendingOwner);
                        }
                        let expired = match &ownership.pending_expiry {
                            Some(exp) => exp.is_expired(block),
                            None => false,
                        };
                        if expired {
                            return Err(OwnershipError::TransferExpired);
                        }
                        let new_o = Ownership {
                            owner: ownership.pending_owner,
                            pending_owner: None,
                            pending_expiry: None,
                        };
                        self.save(store, &new_o);
                        Ok(new_o)
                    },
                }
            },
            Action::RenounceOwnership => {
                let allowed = match &ownership.owner {
                    None => false,
                    Some(owner) => owner.eq(sender),
                };
                if !allowed {
                    let e = match &ownership.owner {
                        None => OwnershipError::NoOwner,
                        Some(_) => OwnershipError::NotOwner,
                    };
                    return Err(e);
                }
                let new_o = Ownership {
                    owner: None,
                    pending_owner: None,
                    pending_expiry: None,
                };
                self.save(store, &new_o);
                Ok(new_o)
            },
        }
    }
}

/// Set the given address as the owner of the contract's standard ownership
/// record.
pub fn initialize_owner(store: &mut Store, owner: Option<&str>) -> (r: Result<
    Ownership<String>,
    StdError,
>)
    requires
        match owner {
            Some(s) => vstd::utf8::encode_utf8(s@).len() < 65536,
            None => true,
        },
    ensures
        r is Ok,
{
    OwnershipStore::new("ownership").initialize_owner(store, owner)
}

/// Whether the contract's standard ownership record names `addr` as owner.
pub fn is_owner(store: &Store, addr: &String) -> (r: Result<bool, StdError>) {
    OwnershipStore::new("ownership").is_owner(store, addr)
}

/// Assert that `sender` owns the contract's standard ownership record.
pub fn assert_owner(store: &Store, sender: &String) -> (r: Result<(), OwnershipError>) {
    OwnershipStore::new("ownership").assert_owner(store, sender)
}

/// Update the contract's standard ownership record by `action`.
pub fn update_ownership(
    store: &mut Store,
    block: &BlockInfo,
    sender: &String,
    action: Action,
) -> (r: Result<Ownership<String>, OwnershipError>)
    requires
        match action {
            Action::TransferOwnership { new_owner, .. } => vstd::utf8::encode_utf8(
                new_owner@,
            ).len() < 65536,
            _ => true,
        },
{
    OwnershipStore::new("ownership").update_ownership(store, block, sender, action)
}

/// Get the contract's standard ownership record.
pub fn get_ownership(store: &Store) -> (r: Result<Ownership<String>, StdError>) {
    OwnershipStore::new("ownership").get_ownership(store)
}

/// An event attribute: a key and a value.
#[derive(Debug, PartialEq, Eq)]
pub struct Attribute {
    pub key: String,
    pub value: String,
}

impl Attribute {
    /// An attribute with the given key and value.
    pub fn new(key: &str, value: &str) -> (r: Attribute)
        ensures
            r.key@ == key@,
            r.value@ == value@,
    {
        Attribute { key: String::from_str(key), value: String::from_str(value) }
    }
}

/// The given string, or `"none"` when absent.
pub fn none_or(or: Option<&String>) -> (r: String)
    ensures
        match or {
            Some(s) => r@ == s@,
            None => r@ == "none"@,
        },
{
    match or {
        Some(s) => s.clone(),
        None => String::from_str("none"),
    }
}

/// The textual rendering of a deadline.
pub open spec fn expiry_text(e: Expiration) -> Seq<char> {
    match e {
        Expiration::AtHeight(h) => "expiration height: "@ + crate::codec::dec_str(h as nat),
        Expiration::AtTime(t) => "expiration time: "@ + crate::codec::dec_str(t as nat),
        Expiration::Never => "expiration: never"@,
    }
}

/// The textual rendering of an optional deadline, `"none"` when absent.
pub fn none_or_expiry(or: Option<&Expiration>) -> (r: String)
    ensures
        match or {
            Some(e) => r@ == expiry_text(*e),
            None => r@ == "none"@,
        },
{
    match or {
        None => String::from_str("none"),
        Some(Expiration::AtHeight(h)) => String::from_str("expiration height: ").concat(
            crate::codec::u128_to_dec(*h as u128).as_str(),
        ),
        Some(Expiration::AtTime(t)) => String::from_str("expiration time: ").concat(
            crate::codec::u128_to_dec(*t as u128).as_str(),
        ),
        Some(Expiration::Never) => String::from_str("expiration: never"),
    }
}

impl Ownership<String> {
    /// Serialize the record as response attributes, under the keys
    /// `owner`, `pending_owner` and `pending_expiry`; absent fields
    /// serialize as `"none"`.
    pub fn into_attributes(self) -> (r: Vec<Attribute>)
        ensures
            r@.len() == 3,
            r@[0].key@ == "owner"@,
            r@[1].key@ == "pending_owner"@,
            r@[2].key@ == "pending_expiry"@,
            r@[0].value@ == match self.owner {
                Some(s) => s@,
                None => "none"@,
            },
            r@[1].value@ == match self.pending_owner {
                Some(s) => s@,
                None => "none"@,
            },
            r@[2].value@ == match self.pending_expiry {
                Some(e) => expiry_text(e),
                None => "none"@,
            },
    {
        let mut r: Vec<Attribute> = Vec::new();
        let v0 = none_or(self.owner.as_ref());
        let v1 = none_or(self.pending_owner.as_ref());
        let v2 = none_or_expiry(self.pending_expiry.as_ref());
        r.push(Attribute { key: String::from_str("owner"), value: v0 });
        r.push(Attribute { key: String::from_str("pending_owner"), value: v1 });
        r.push(Attribute { key: String::from_str("pending_expiry"), value: v2 });
        r
    }
}

} // verus!
