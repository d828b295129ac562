//! Fixed-width big-endian integer codecs.
//!
//! The cardinality counter is persisted as eight big-endian bytes, and the
//! namespaced key layout frames variable-length components with two-byte
//! big-endian length prefixes.

use vstd::prelude::*;

verus! {

/// The eight big-endian bytes of `n`.
pub open spec fn u64_be(n: u64) -> Seq<u8> {
    seq![
        ((n as int / 0x100000000000000) % 256) as u8,
        ((n as int / 0x1000000000000) % 256) as u8,
        ((n as int / 0x10000000000) % 256) as u8,
        ((n as int / 0x100000000) % 256) as u8,
        ((n as int / 0x1000000) % 256) as u8,
        ((n as int / 0x10000) % 256) as u8,
        ((n as int / 0x100) % 256) as u8,
        (n as int % 256) as u8,
    ]
}

/// A `u64` is the weighted sum of its big-endian bytes.
proof fn lemma_u64_recompose(n: u64)
    ensures
        n == ((n as int / 0x100000000000000) % 256) * 0x100000000000000 + ((n as int
            / 0x1000000000000) % 256) * 0x1000000000000 + ((n as int / 0x10000000000) % 256)
            * 0x10000000000 + ((n as int / 0x100000000) % 256) * 0x100000000 + ((n as int
            / 0x1000000) % 256) * 0x1000000 + ((n as int / 0x10000) % 256) * 0x10000 + ((n as int
            / 0x100) % 256) * 0x100 + (n as int % 256),
{
    assert(n == ((n / 0x100000000000000) % 256) * 0x100000000000000 + ((n / 0x1000000000000)
        % 256) * 0x1000000000000 + ((n / 0x10000000000) % 256) * 0x10000000000 + ((n
        / 0x100000000) % 256) * 0x100000000 + ((n / 0x1000000) % 256) * 0x1000000 + ((n / 0x10000)
        % 256) * 0x10000 + ((n / 0x100) % 256) * 0x100 + (n % 256)) by (bit_vector);
}

/// Distinct values have distinct big-endian encodings.
pub proof fn lemma_u64_be_injective(a: u64, b: u64)
    requires
        u64_be(a) == u64_be(b),
    ensures
        a == b,
{
    lemma_u64_recompose(a);
    lemma_u64_recompose(b);
    assert(u64_be(a)[0] == u64_be(b)[0]);
    assert(u64_be(a)[1] == u64_be(b)[1]);
    assert(u64_be(a)[2] == u64_be(b)[2]);
    assert(u64_be(a)[3] == u64_be(b)[3]);
    assert(u64_be(a)[4] == u64_be(b)[4]);
    assert(u64_be(a)[5] == u64_be(b)[5]);
    assert(u64_be(a)[6] == u64_be(b)[6]);
    assert(u64_be(a)[7] == u64_be(b)[7]);
}

/// Encode `n` as eight big-endian bytes.
pub fn u64_to_be(n: u64) -> (r: Vec<u8>)
    ensures
        r@ == u64_be(n),
{
    let mut r: Vec<u8> = Vec::new();
    r.push(((n / 0x100000000000000) % 256) as u8);
    r.push(((n / 0x1000000000000) % 256) as u8);
    r.push(((n / 0x10000000000) % 256) as u8);
    r.push(((n / 0x100000000) % 256) as u8);
    r.push(((n / 0x1000000) % 256) as u8);
    r.push(((n / 0x10000) % 256) as u8);
    r.push(((n / 0x100) % 256) as u8);
    r.push((n % 256) as u8);
    proof {
        assert(r@ =~= u64_be(n));
    }
    r
}

/// The weighted sum of eight byte digits stays below 2^64.
proof fn lemma_u64_digits(n: u64, b0: u64, b1: u64, b2: u64, b3: u64, b4: u64, b5: u64, b6: u64, b7: u64)
    requires
        b0 < 256,
        b1 < 256,
        b2 < 256,
        b3 < 256,
        b4 < 256,
        b5 < 256,
        b6 < 256,
        b7 < 256,
        n == ((((((b0 * 256 + b1) * 256 + b2) * 256 + b3) * 256 + b4) * 256 + b5) * 256 + b6) * 256
            + b7,
    ensures
        n as int / 0x100000000000000 % 256 == b0,
        n as int / 0x1000000000000 % 256 == b1,
        n as int / 0x10000000000 % 256 == b2,
        n as int / 0x100000000 % 256 == b3,
        n as int / 0x1000000 % 256 == b4,
        n as int / 0x10000 % 256 == b5,
        n as int / 0x100 % 256 == b6,
        n as int % 256 == b7,
{
    assert(n / 0x100000000000000 % 256 == b0 && n / 0x1000000000000 % 256 == b1 && n
        / 0x10000000000 % 256 == b2 && n / 0x100000000 % 256 == b3 && n / 0x1000000 % 256 == b4
        && n / 0x10000 % 256 == b5 && n / 0x100 % 256 == b6 && n % 256 == b7) by (bit_vector)
        requires
            b0 < 256,
            b1 < 256,
            b2 < 256,
            b3 < 256,
            b4 < 256,
            b5 < 256,
            b6 < 256,
            b7 < 256,
            n == ((((((b0 * 256 + b1) * 256 + b2) * 256 + b3) * 256 + b4) * 256 + b5) * 256 + b6)
                * 256 + b7,
    ;
}

/// Decode eight big-endian bytes; fails exactly when the length is not eight.
pub fn u64_from_be(b: &Vec<u8>) -> (r: Option<u64>)
    ensures
        match r {
            Some(n) => b@ == u64_be(n),
            None => b@.len() != 8,
        },
{
    if b.len() != 8 {
        return None;
    }
    let b0: u64 = b[0] as u64;
    let b1: u64 = b[1] as u64;
    let b2: u64 = b[2] as u64;
    let b3: u64 = b[3] as u64;
    let b4: u64 = b[4] as u64;
    let b5: u64 = b[5] as u64;
    let b6: u64 = b[6] as u64;
    let b7: u64 = b[7] as u64;
    let n: u64 = ((((((b0 * 256 + b1) * 256 + b2) * 256 + b3) * 256 + b4) * 256 + b5) * 256 + b6)
        * 256 + b7;
    proof {
        lemma_u64_digits(n, b0, b1, b2, b3, b4, b5, b6, b7);
        assert(b@ =~= u64_be(n));
    }
    Some(n)
}

/// The two big-endian bytes of a length below 65536.
pub open spec fn len2_be(n: nat) -> Seq<u8> {
    seq![((n / 256) % 256) as u8, (n % 256) as u8]
}

/// Below 65536, the two-byte encoding determines the length.
pub proof fn lemma_len2_be_injective(a: nat, b: nat)
    requires
        a < 65536,
        b < 65536,
        len2_be(a) == len2_be(b),
    ensures
        a == b,
{
    lemma_len2_recompose(a);
    lemma_len2_recompose(b);
    assert(len2_be(a)[0] == len2_be(b)[0]);
    assert(len2_be(a)[1] == len2_be(b)[1]);
}

/// A length below 65536 is the weighted sum of its two big-endian bytes.
pub proof fn lemma_len2_recompose(n: nat)
    requires
        n < 65536,
    ensures
        n == ((n / 256) % 256) * 256 + n % 256,
{
    assert(n / 256 < 256) by (nonlinear_arith)
        requires
            n < 65536,
    ;
    assert((n / 256) % 256 == n / 256);
    assert(n == (n / 256) * 256 + n % 256) by (nonlinear_arith);
}

/// Encode the length of a component as two big-endian bytes.
pub fn len2_to_be(n: usize) -> (r: Vec<u8>)
    requires
        n < 65536,
    ensures
        r@ == len2_be(n as nat),
{
    let mut r: Vec<u8> = Vec::new();
    r.push(((n / 256) % 256) as u8);
    r.push((n % 256) as u8);
    proof {
        assert(r@ =~= len2_be(n as nat));
    }
    r
}


/// A decimal digit character.
pub open spec fn is_dec_digit(c: char) -> bool {
    '0' <= c && c <= '9'
}

/// Every character of `s` is a decimal digit.
pub open spec fn all_dec_digits(s: Seq<char>) -> bool {
    forall|i: int| 0 <= i < s.len() ==> is_dec_digit(#[trigger] s[i])
}

/// The digit character of `d`'s lowest decimal digit.
pub open spec fn dec_digit(d: nat) -> char {
    ((48 + d % 10) as u8) as char
}

/// The decimal rendering of `n`, most significant digit first.
pub open spec fn dec_str(n: nat) -> Seq<char>
    decreases n,
{
    if n < 10 {
        seq![dec_digit(n)]
    } else {
        dec_str(n / 10).push(dec_digit(n % 10))
    }
}

/// The numeric value of a digit string.
pub open spec fn dec_val(s: Seq<char>) -> int
    decreases s.len(),
{
    if s.len() == 0 {
        0
    } else {
        dec_val(s.drop_last()) * 10 + (s.last() as int - 48)
    }
}

/// The decimal rendering consists of digits, is nonempty, and evaluates
/// back to the value.
pub proof fn lemma_dec_str_val(n: nat)
    ensures
        dec_str(n).len() >= 1,
        all_dec_digits(dec_str(n)),
        dec_val(dec_str(n)) == n,
    decreases n,
{
    if n < 10 {
        assert(dec_str(n) =~= seq![dec_digit(n)]);
        assert(dec_str(n).drop_last() =~= Seq::<char>::empty());
        assert(dec_val(Seq::<char>::empty()) == 0);
        assert(dec_str(n).last() == dec_digit(n));
        assert(dec_digit(n) as int == 48 + n);
        assert(dec_val(dec_str(n)) == n);
    } else {
        lemma_dec_str_val(n / 10);
        let s = dec_str(n);
        assert(s == dec_str(n / 10).push(dec_digit(n % 10)));
        assert(s.drop_last() =~= dec_str(n / 10));
        assert(s.last() == dec_digit(n % 10));
        assert(dec_digit(n % 10) as int == 48 + n % 10);
        assert(dec_val(s) == dec_val(s.drop_last()) * 10 + (s.last() as int - 48));
        assert(dec_val(s) == (n / 10) * 10 + n % 10);
        assert(dec_val(s) == n);
        assert forall|i: int| 0 <= i < s.len() implies is_dec_digit(#[trigger] s[i]) by {
            if i < s.len() - 1 {
                assert(s[i] == dec_str(n / 10)[i]);
            }
        }
    }
}

/// Build a string from ASCII bytes; each character is the corresponding
/// byte.
pub fn ascii_to_string(bytes: &Vec<u8>) -> (r: String)
    requires
        forall|i: int| 0 <= i < bytes@.len() ==> #[trigger] bytes@[i] < 128,
    ensures
        r@.len() == bytes@.len(),
        forall|i: int| 0 <= i < bytes@.len() ==> #[trigger] r@[i] == bytes@[i] as char,
{
    proof {
        let c = bytes@.map_values(|b: u8| b as char);
        assert(vstd::utf8::is_ascii_chars(c)) by {
            assert forall|i: int| 0 <= i < c.len() implies '\0' <= #[trigger] c[i]
                && c[i] <= '\u{7f}' by {
                assert(bytes@[i] < 128);
            }
        }
        vstd::utf8::is_ascii_chars_encode_utf8(c);
        assert(vstd::utf8::encode_utf8(c) =~= bytes@);
        vstd::utf8::encode_utf8_valid_utf8(c);
        vstd::utf8::encode_utf8_decode_utf8(c);
    }
    match crate::typed_key::string_from_utf8(bytes) {
        Some(s) => {
            proof {
                let c = bytes@.map_values(|b: u8| b as char);
                assert(s@ == c);
            }
            s
        },
        None => {
            proof {
                assert(false);
            }
            String::new()
        },
    }
}

/// Render `n` in decimal.
pub fn u128_to_dec(n: u128) -> (r: String)
    ensures
        r@ == dec_str(n as nat),
{
    let mut rev: Vec<u8> = Vec::new();
    rev.push(48 + (n % 10) as u8);
    let mut m: u128 = n / 10;
    proof {
        assert(rev@ =~= seq![(48 + n as nat % 10) as u8]);
    }
    while m > 0
        invariant
            forall|i: int| 0 <= i < rev@.len() ==> 48 <= #[trigger] rev@[i] < 58,
            rev@.len() >= 1,
            ({
                let cs = Seq::new(rev@.len(), |i: int| rev@[rev@.len() - 1 - i] as char);
                if m > 0 {
                    dec_str(n as nat) == dec_str(m as nat) + cs
                } else {
                    dec_str(n as nat) == cs
                }
            }),
        decreases m,
    {
        let ghost cs_old = Seq::new(rev@.len(), |i: int| rev@[rev@.len() - 1 - i] as char);
        let ghost m_old = m as nat;
        rev.push(48 + (m % 10) as u8);
        proof {
            let cs = Seq::new(rev@.len(), |i: int| rev@[rev@.len() - 1 - i] as char);
            assert(cs =~= seq![dec_digit(m_old)] + cs_old) by {
                assert(cs[0] == rev@[rev@.len() - 1] as char);
                assert(rev@[rev@.len() - 1] == 48 + m_old % 10);
            }
            if m_old >= 10 {
                assert(dec_str(m_old) == dec_str(m_old / 10).push(dec_digit(m_old % 10)));
                assert(dec_str(m_old / 10).push(dec_digit(m_old % 10)) + cs_old =~= dec_str(
                    m_old / 10,
                ) + (seq![dec_digit(m_old % 10)] + cs_old));
            } else {
                assert(dec_str(m_old) =~= seq![dec_digit(m_old)]);
                assert(seq![dec_digit(m_old)] + cs_old =~= dec_str(m_old) + cs_old);
            }
            assert(dec_str(n as nat) == (if m_old / 10 > 0 {
                dec_str((m_old / 10) as nat) + cs
            } else {
                cs
            })) by {
                if m_old < 10 {
                    assert(dec_str(n as nat) == dec_str(m_old) + cs_old);
                    assert(dec_str(m_old) + cs_old =~= cs);
                } else {
                    assert(dec_str(n as nat) == dec_str(m_old) + cs_old);
                    assert(dec_str(m_old) + cs_old =~= dec_str(m_old / 10) + cs);
                }
            }
        }
        m = m / 10;
    }
    let mut out: Vec<u8> = Vec::new();
    let mut i: usize = 0;
    let len = rev.len();
    while i < len
        invariant
            0 <= i <= len,
            len == rev@.len(),
            out@.len() == i,
            forall|j: int| 0 <= j < i ==> #[trigger] out@[j] == rev@[rev@.len() - 1 - j],
            forall|j: int| 0 <= j < rev@.len() ==> 48 <= #[trigger] rev@[j] < 58,
        decreases len - i,
    {
        out.push(rev[len - 1 - i]);
        i = i + 1;
    }
    let r = ascii_to_string(&out);
    proof {
        let cs = Seq::new(rev@.len(), |i: int| rev@[rev@.len() - 1 - i] as char);
        assert(r@ =~= cs);
    }
    r
}


/// The value of a digit string is nonnegative.
pub proof fn lemma_dec_val_nonneg(s: Seq<char>)
    requires
        all_dec_digits(s),
    ensures
        dec_val(s) >= 0,
    decreases s.len(),
{
    if s.len() > 0 {
        assert(all_dec_digits(s.drop_last())) by {
            assert(forall|i: int|
                0 <= i < s.len() - 1 ==> #[trigger] s.drop_last()[i] == s[i]);
        }
        lemma_dec_val_nonneg(s.drop_last());
        assert(is_dec_digit(s.last()));
    }
}

/// A prefix of a digit string is worth no more than the whole.
pub proof fn lemma_dec_val_prefix_le(s: Seq<char>, m: int)
    requires
        all_dec_digits(s),
        0 <= m <= s.len(),
    ensures
        dec_val(s.take(m)) <= dec_val(s),
    decreases s.len() - m,
{
    if m < s.len() {
        lemma_dec_val_prefix_le(s, m + 1);
        let t = s.take(m + 1);
        assert(t.drop_last() =~= s.take(m));
        assert(t.last() == s[m]);
        assert(all_dec_digits(s.take(m))) by {
            assert(forall|i: int| 0 <= i < m ==> #[trigger] s.take(m)[i] == s[i]);
        }
        lemma_dec_val_nonneg(s.take(m));
        assert(is_dec_digit(s[m]));
        assert(dec_val(t) == dec_val(s.take(m)) * 10 + (s[m] as int - 48));
        assert(dec_val(s.take(m)) <= dec_val(t));
    } else {
        assert(s.take(m) =~= s);
    }
}

} // verus!
