//! Typed keys.
//!
//! A typed key is any value with a defined ordered byte-component encoding;
//! the item set and the indexes address entries by the encoded components
//! and range scans decode them back. Strings encode as their UTF-8 bytes,
//! unsigned integers as eight big-endian bytes, and pairs by concatenating
//! the component encodings.

use vstd::prelude::*;

use crate::bytes::tail_from;
use crate::codec::{u64_be, u64_from_be, u64_to_be};
use crate::keys::{parts_ok, parts_tail, views_of};

verus! {

broadcast use vstd::utf8::encode_utf8_valid_utf8, vstd::utf8::decode_utf8_encode_utf8,
    vstd::utf8::encode_utf8_decode_utf8;

/// A value with a defined ordered byte-component encoding, usable as a key.
pub trait TypedKey: Sized {
    /// The ordered byte components of this key.
    spec fn parts_spec(&self) -> Seq<Seq<u8>>;

    /// Encode this key into its byte components.
    fn key_parts(&self) -> (r: Vec<Vec<u8>>)
        ensures
            views_of(r@) == self.parts_spec(),
            parts_ok(self.parts_spec()),
    ;

    /// Decode a key back from an encoded tail; returns `None` exactly when
    /// no key of this type encodes to `tail`.
    fn from_tail(tail: &Vec<u8>) -> (r: Option<Self>)
        ensures
            match r {
                Some(k) => parts_tail(k.parts_spec()) == tail@,
                None => forall|k: Self| parts_tail(#[trigger] k.parts_spec()) != tail@,
            },
    ;
}

/// Relies on `String::from_utf8`: it returns the string whose characters
/// decode the given bytes, and fails exactly on invalid UTF-8.
#[verifier::external_body]
pub(crate) fn string_from_utf8(bytes: &Vec<u8>) -> (r: Option<String>)
    ensures
        match r {
            Some(s) => vstd::utf8::valid_utf8(bytes@) && s@ == vstd::utf8::decode_utf8(bytes@),
            None => !vstd::utf8::valid_utf8(bytes@),
        },
{
    String::from_utf8(bytes.clone()).ok()
}

impl TypedKey for String {
    open spec fn parts_spec(&self) -> Seq<Seq<u8>> {
        seq![vstd::utf8::encode_utf8(self@)]
    }

    fn key_parts(&self) -> (r: Vec<Vec<u8>>) {
        let mut r: Vec<Vec<u8>> = Vec::new();
        r.push(self.as_str().as_bytes_vec());
        proof {
            assert(views_of(r@) =~= self.parts_spec());
        }
        r
    }

    fn from_tail(tail: &Vec<u8>) -> (r: Option<Self>) {
        let r = string_from_utf8(tail);
        proof {
            match &r {
                Some(s) => {
                    assert(vstd::utf8::encode_utf8(vstd::utf8::decode_utf8(tail@)) == tail@);
                    assert(parts_tail((*s).parts_spec()) == vstd::utf8::encode_utf8((*s)@));
                },
                None => {
                    assert forall|k: String| parts_tail(#[trigger] k.parts_spec()) != tail@ by {
                        assert(parts_tail(k.parts_spec()) == vstd::utf8::encode_utf8(k@));
                        assert(vstd::utf8::valid_utf8(vstd::utf8::encode_utf8(k@)));
                    }
                },
            }
        }
        r
    }
}

impl TypedKey for u64 {
    open spec fn parts_spec(&self) -> Seq<Seq<u8>> {
        seq![u64_be(*self)]
    }

    fn key_parts(&self) -> (r: Vec<Vec<u8>>) {
        let mut r: Vec<Vec<u8>> = Vec::new();
        r.push(u64_to_be(*self));
        proof {
            assert(views_of(r@) =~= self.parts_spec());
        }
        r
    }

    fn from_tail(tail: &Vec<u8>) -> (r: Option<Self>) {
        let r = u64_from_be(tail);
        proof {
            match r {
                Some(n) => {
                    assert(parts_tail(n.parts_spec()) == u64_be(n));
                },
                None => {
                    assert forall|k: u64| parts_tail(#[trigger] k.parts_spec()) != tail@ by {
                        assert(parts_tail(k.parts_spec()) == u64_be(k));
                        assert(u64_be(k).len() == 8);
                    }
                },
            }
        }
        r
    }
}

impl TypedKey for (u64, String) {
    open spec fn parts_spec(&self) -> Seq<Seq<u8>> {
        seq![u64_be(self.0), vstd::utf8::encode_utf8(self.1@)]
    }

    fn key_parts(&self) -> (r: Vec<Vec<u8>>) {
        let mut r: Vec<Vec<u8>> = Vec::new();
        r.push(u64_to_be(self.0));
        r.push(self.1.as_str().as_bytes_vec());
        proof {
            assert(views_of(r@) =~= self.parts_spec());
            assert(self.parts_spec()[0].len() < 65536);
        }
        r
    }

    fn from_tail(tail: &Vec<u8>) -> (r: Option<Self>) {
        proof {
            assert forall|k: (u64, String)| #[trigger] parts_tail(k.parts_spec()) == seq![
                0u8,
                8u8,
            ] + u64_be(k.0) + vstd::utf8::encode_utf8(k.1@) by {
                assert(k.parts_spec().skip(1) =~= seq![vstd::utf8::encode_utf8(k.1@)]);
                assert(parts_tail(k.parts_spec().skip(1)) == vstd::utf8::encode_utf8(k.1@));
                assert(u64_be(k.0).len() == 8);
                assert(crate::codec::len2_be(8) =~= seq![0u8, 8u8]);
                assert(parts_tail(k.parts_spec()) =~= seq![0u8, 8u8] + u64_be(k.0)
                    + vstd::utf8::encode_utf8(k.1@));
            }
        }
        if tail.len() < 10 {
            proof {
                assert forall|k: (u64, String)| parts_tail(
                    #[trigger] k.parts_spec(),
                ) != tail@ by {
                    assert(parts_tail(k.parts_spec()).len() >= 10);
                }
            }
            return None;
        }
        if tail[0] != 0 || tail[1] != 8 {
            proof {
                assert forall|k: (u64, String)| parts_tail(
                    #[trigger] k.parts_spec(),
                ) != tail@ by {
                    assert(parts_tail(k.parts_spec())[0] == 0 && parts_tail(k.parts_spec())[1]
                        == 8);
                }
            }
            return None;
        }
        let mid = tail_from(tail, 2);
        let mut num_bytes: Vec<u8> = Vec::new();
        let mut i: usize = 0;
        while i < 8
            invariant
                0 <= i <= 8,
                tail@.len() >= 10,
                num_bytes@ =~= tail@.subrange(2, 2 + i as int),
            decreases 8 - i,
        {
            num_bytes.push(tail[2 + i]);
            proof {
                assert(num_bytes@ =~= tail@.subrange(2, 2 + i + 1 as int));
            }
            i = i + 1;
        }
        let n = match u64_from_be(&num_bytes) {
            Some(n) => n,
            None => {
                proof {
                    assert(false);
                }
                return None;
            },
        };
        let rest = tail_from(tail, 10);
        let s = match string_from_utf8(&rest) {
            Some(s) => s,
            None => {
                proof {
                    assert forall|k: (u64, String)| parts_tail(
                        #[trigger] k.parts_spec(),
                    ) != tail@ by {
                        if parts_tail(k.parts_spec()) == tail@ {
                            assert(vstd::utf8::encode_utf8(k.1@) =~= tail@.skip(10));
                            assert(vstd::utf8::valid_utf8(tail@.skip(10)));
                            assert(false);
                        }
                    }
                }
                return None;
            },
        };
        proof {
            assert(vstd::utf8::encode_utf8(vstd::utf8::decode_utf8(rest@)) == rest@);
            let k = (n, s);
            assert(u64_be(k.0) =~= tail@.subrange(2, 10));
            assert(vstd::utf8::encode_utf8(k.1@) == tail@.skip(10));
            assert(parts_tail(k.parts_spec()) =~= tail@);
        }
        Some((n, s))
    }
}

} // verus!
