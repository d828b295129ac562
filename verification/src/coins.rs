//! A normalized bag of coins.
//!
//! `Coins` is a duplicate-free multiset of (denomination, amount) pairs,
//! kept sorted ascending by the denomination's UTF-8 bytes and never
//! holding a zero amount. Arithmetic merges or removes entries, and the
//! textual list and structured map serializations always emit the
//! canonical sorted form while accepting any input order.

use vstd::prelude::*;

use crate::bytes::{byte_cmp, lemma_lex_trichotomy, lemma_lex_transitive, lex_lt, ByteOrd};
use crate::codec::{all_dec_digits, dec_str, dec_val, is_dec_digit};

verus! {

broadcast use vstd::utf8::encode_utf8_valid_utf8, vstd::utf8::decode_utf8_encode_utf8,
    vstd::utf8::encode_utf8_decode_utf8;

/// A single denomination with a positive amount.
#[derive(Debug, PartialEq, Eq, Clone)]
pub struct Coin {
    pub denom: String,
    pub amount: u128,
}

/// Errors of coin normalization and parsing.
#[derive(Debug, PartialEq, Eq)]
pub enum CoinsError {
    /// Two entries share a denomination.
    DuplicateDenoms,
    /// A named denomination appears twice in a serialized map.
    DuplicateDenom { denom: String },
    /// An entry carries a zero amount.
    ZeroAmount,
    /// The named denomination carries a zero amount in a serialized map.
    ZeroForDenom { denom: String },
    /// An amount token is not a positive decimal number in range.
    InvalidAmount { amount: String },
    /// Adding amounts exceeded the representable range.
    Overflow,
    /// The input does not follow the serialized shape.
    Malformed,
}

impl CoinsError {
    /// A human-readable description of the error.
    pub fn message(&self) -> (r: String)
        ensures
            match self {
                CoinsError::DuplicateDenoms => r@ == "duplicate denoms"@,
                CoinsError::DuplicateDenom { denom } => r@ == "duplicate denom: "@ + denom@,
                CoinsError::ZeroAmount => r@ == "zero amount"@,
                CoinsError::ZeroForDenom { denom } => r@ == "amount for denom "@ + denom@
                    + " is zero"@,
                CoinsError::InvalidAmount { amount } => r@ == "invalid amount: "@ + amount@,
                CoinsError::Overflow => r@ == "amount overflow"@,
                CoinsError::Malformed => r@ == "malformed coin input"@,
            },
    {
        match self {
            CoinsError::DuplicateDenoms => String::from_str("duplicate denoms"),
            CoinsError::DuplicateDenom { denom } => String::from_str("duplicate denom: ").concat(
                denom.as_str(),
            ),
            CoinsError::ZeroAmount => String::from_str("zero amount"),
            CoinsError::ZeroForDenom { denom } => String::from_str("amount for denom ").concat(
                denom.as_str(),
            ).concat(" is zero"),
            CoinsError::InvalidAmount { amount } => String::from_str("invalid amount: ").concat(
                amount.as_str(),
            ),
            CoinsError::Overflow => String::from_str("amount overflow"),
            CoinsError::Malformed => String::from_str("malformed coin input"),
        }
    }
}

/// The UTF-8 bytes of a denomination.
pub open spec fn denom_bytes(d: Seq<char>) -> Seq<u8> {
    vstd::utf8::encode_utf8(d)
}

/// A well-formed denomination: nonempty, not starting with a digit, and
/// free of the comma, quote and backslash characters that the serialized
/// forms use as delimiters.
pub open spec fn denom_ok(d: Seq<char>) -> bool {
    &&& d.len() >= 1
    &&& !is_dec_digit(d[0])
    &&& forall|i: int|
        0 <= i < d.len() ==> #[trigger] d[i] != ',' && d[i] != '"' && d[i] != '\\'
}

/// The bag holds an entry for denomination `d`.
pub open spec fn bag_has(s: Seq<(Seq<char>, u128)>, d: Seq<char>) -> bool {
    exists|i: int| 0 <= i < s.len() && (#[trigger] s[i]).0 == d
}

/// The amount held under denomination `d`, zero when absent.
pub open spec fn bag_amount(s: Seq<(Seq<char>, u128)>, d: Seq<char>) -> int {
    if bag_has(s, d) {
        s[choose|i: int| 0 <= i < s.len() && (#[trigger] s[i]).0 == d].1 as int
    } else {
        0
    }
}

/// A normalized bag: entries sorted strictly ascending by denomination
/// bytes, every denomination well-formed, no zero amounts.
pub open spec fn bag_wf(s: Seq<(Seq<char>, u128)>) -> bool {
    &&& forall|i: int, j: int|
        0 <= i < j < s.len() ==> lex_lt(
            denom_bytes((#[trigger] s[i]).0),
            denom_bytes((#[trigger] s[j]).0),
        )
    &&& forall|i: int| 0 <= i < s.len() ==> denom_ok((#[trigger] s[i]).0)
    &&& forall|i: int| 0 <= i < s.len() ==> (#[trigger] s[i]).1 > 0
}

/// The denomination and amount views of a list of coins.
pub open spec fn coin_views(l: Seq<Coin>) -> Seq<(Seq<char>, u128)> {
    l.map_values(|c: Coin| (c.denom@, c.amount))
}

/// A normalized multiset of (denomination, amount) pairs.
#[derive(Debug, PartialEq, Eq)]
pub struct Coins {
    list: Vec<Coin>,
}

impl View for Coins {
    type V = Seq<(Seq<char>, u128)>;

    closed spec fn view(&self) -> Seq<(Seq<char>, u128)> {
        coin_views(self.list@)
    }
}

/// Distinct denominations have distinct byte encodings.
proof fn lemma_denom_bytes_injective(a: Seq<char>, b: Seq<char>)
    requires
        denom_bytes(a) == denom_bytes(b),
    ensures
        a == b,
{
    assert(vstd::utf8::decode_utf8(denom_bytes(a)) == a);
    assert(vstd::utf8::decode_utf8(denom_bytes(b)) == b);
}

impl Coins {
    #[verifier::type_invariant]
    spec fn inv(self) -> bool {
        bag_wf(self@)
    }

    /// In a well-formed bag the entry of a denomination is unique.
    pub proof fn lemma_entry_unique(s: Seq<(Seq<char>, u128)>, i: int)
        requires
            bag_wf(s),
            0 <= i < s.len(),
        ensures
            bag_has(s, s[i].0),
            bag_amount(s, s[i].0) == s[i].1 as int,
    {
        assert(0 <= i < s.len() && s[i].0 == s[i].0);
        let j = choose|j: int| 0 <= j < s.len() && (#[trigger] s[j]).0 == s[i].0;
        if i != j {
            if i < j {
                lemma_lex_trichotomy(denom_bytes(s[i].0), denom_bytes(s[j].0));
            } else {
                lemma_lex_trichotomy(denom_bytes(s[j].0), denom_bytes(s[i].0));
            }
        }
    }

    /// An empty bag.
    pub fn new() -> (r: Coins)
        ensures
            r@ == Seq::<(Seq<char>, u128)>::empty(),
    {
        let r = Coins { list: Vec::new() };
        proof {
            assert(r@ =~= Seq::<(Seq<char>, u128)>::empty());
        }
        r
    }

    /// The number of denominations held.
    pub fn len(&self) -> (r: usize)
        ensures
            r == self@.len(),
    {
        self.list.len()
    }

    /// Whether the bag holds nothing.
    pub fn is_empty(&self) -> (r: bool)
        ensures
            r == (self@.len() == 0),
    {
        self.list.is_empty()
    }

    /// Find the position of `denom`, or the position where it would be
    /// inserted.
    #[verifier::rlimit(100)]
    fn position_of(&self, denom: &String) -> (r: (usize, bool))
        ensures
            r.0 <= self@.len(),
            r.1 ==> r.0 < self@.len() && self@[r.0 as int].0 == denom@,
            !r.1 ==> !bag_has(self@, denom@),
            forall|j: int|
                0 <= j < r.0 ==> lex_lt(denom_bytes((#[trigger] self@[j]).0), denom_bytes(denom@)),
            r.0 < self@.len() && !r.1 ==> lex_lt(
                denom_bytes(denom@),
                denom_bytes(self@[r.0 as int].0),
            ),
    {
        proof {
            use_type_invariant(self);
        }
        let target = denom.as_str().as_bytes_vec();
        let mut i: usize = 0;
        while i < self.list.len()
            invariant
                bag_wf(self@),
                target@ == denom_bytes(denom@),
                i <= self@.len(),
                self@.len() == self.list@.len(),
                forall|j: int|
                    0 <= j < i ==> lex_lt(
                        denom_bytes((#[trigger] self@[j]).0),
                        denom_bytes(denom@),
                    ),
            decreases self@.len() - i,
        {
            let cur = self.list[i].denom.as_str().as_bytes_vec();
            match byte_cmp(&cur, &target) {
                ByteOrd::Less => {
                    i = i + 1;
                },
                ByteOrd::Equal => {
                    proof {
                        lemma_denom_bytes_injective(self@[i as int].0, denom@);
                    }
                    return (i, true);
                },
                ByteOrd::Greater => {
                    proof {
                        assert forall|j: int|
                            0 <= j < self@.len() implies (#[trigger] self@[j]).0 != denom@ by {
                            if j < i {
                                lemma_lex_trichotomy(denom_bytes(self@[j].0), denom_bytes(denom@));
                            } else if j == i {
                                lemma_lex_trichotomy(denom_bytes(denom@), denom_bytes(self@[j].0));
                            } else {
                                lemma_lex_transitive(
                                    denom_bytes(denom@),
                                    denom_bytes(self@[i as int].0),
                                    denom_bytes(self@[j].0),
                                );
                                lemma_lex_trichotomy(denom_bytes(denom@), denom_bytes(self@[j].0));
                            }
                        }
                    }
                    return (i, false);
                },
            }
        }
        proof {
            assert forall|j: int| 0 <= j < self@.len() implies (#[trigger] self@[j]).0
                != denom@ by {
                lemma_lex_trichotomy(denom_bytes(self@[j].0), denom_bytes(denom@));
            }
        }
        (i, false)
    }

    /// Add `coin` to the bag: merge into an existing entry or insert a new
    /// one at its sorted place; adding zero changes nothing. Fails only
    /// when the merged amount would not be representable.
    #[verifier::rlimit(100)]
    pub fn add(&mut self, coin: &Coin) -> (r: Result<(), CoinsError>)
        requires
            denom_ok(coin.denom@),
        ensures
            match r {
                Ok(_) => {
                    &&& forall|d: Seq<char>|
                        #[trigger] bag_amount(final(self)@, d) == bag_amount(old(self)@, d) + (
                        if d == coin.denom@ {
                            coin.amount as int
                        } else {
                            0
                        })
                    &&& forall|d: Seq<char>|
                        #[trigger] bag_has(final(self)@, d) <==> bag_has(old(self)@, d) || (d
                            == coin.denom@ && coin.amount > 0)
                },
                Err(e) => {
                    &&& e == CoinsError::Overflow
                    &&& final(self)@ == old(self)@
                    &&& bag_amount(old(self)@, coin.denom@) + coin.amount > u128::MAX
                },
            },
    {
        proof {
            use_type_invariant(&*self);
        }
        let ghost pre = self@;
        if coin.amount == 0 {
            proof {
                assert forall|d: Seq<char>|
                    #[trigger] bag_amount(self@, d) == bag_amount(pre, d) + (if d == coin.denom@ {
                    coin.amount as int
                } else {
                    0
                }) by {}
            }
            return Ok(());
        }
        let (pos, found) = self.position_of(&coin.denom);
        let mut list: Vec<Coin> = Vec::new();
        core::mem::swap(&mut self.list, &mut list);
        if found {
            let cur = list[pos].amount;
            match cur.checked_add(coin.amount) {
                Some(total) => {
                    let denom2 = list[pos].denom.clone();
                    proof {
                        assert(denom2@ == pre[pos as int].0);
                    }
                    list.remove(pos);
                    list.insert(pos, Coin { denom: denom2, amount: total });
                    proof {
                        assert(coin_views(list@) =~= pre.update(
                            pos as int,
                            (pre[pos as int].0, (pre[pos as int].1 + coin.amount) as u128),
                        ));
                        assert(bag_wf(coin_views(list@)));
                    }
                    core::mem::swap(&mut self.list, &mut list);
                    proof {
                        assert(self@ =~= pre.update(
                            pos as int,
                            (pre[pos as int].0, (pre[pos as int].1 + coin.amount) as u128),
                        ));
                        assert(bag_wf(self@));
                        Self::lemma_entry_unique(pre, pos as int);
                        assert forall|d: Seq<char>|
                            #[trigger] bag_amount(self@, d) == bag_amount(pre, d) + (if d
                            == coin.denom@ {
                            coin.amount as int
                        } else {
                            0
                        }) by {
                            if d == coin.denom@ {
                                Self::lemma_entry_unique(self@, pos as int);
                            } else {
                                if bag_has(self@, d) {
                                    let i = choose|i: int|
                                        0 <= i < self@.len() && (#[trigger] self@[i]).0 == d;
                                    assert(i != pos);
                                    assert(pre[i] == self@[i]);
                                    Self::lemma_entry_unique(self@, i);
                                    Self::lemma_entry_unique(pre, i);
                                } else {
                                    if bag_has(pre, d) {
                                        let i = choose|i: int|
                                            0 <= i < pre.len() && (#[trigger] pre[i]).0 == d;
                                        assert(i != pos);
                                        assert(self@[i].0 == d);
                                    }
                                }
                            }
                        }
                        assert forall|d: Seq<char>|
                            #[trigger] bag_has(self@, d) <==> bag_has(pre, d) || (d == coin.denom@
                                && coin.amount > 0) by {
                            if bag_has(self@, d) {
                                let i = choose|i: int|
                                    0 <= i < self@.len() && (#[trigger] self@[i]).0 == d;
                                assert(pre[i].0 == d);
                            }
                            if bag_has(pre, d) {
                                let i = choose|i: int|
                                    0 <= i < pre.len() && (#[trigger] pre[i]).0 == d;
                                assert(self@[i].0 == d);
                            }
                            if d == coin.denom@ {
                                assert(pre[pos as int].0 == d);
                            }
                        }
                    }
                    Ok(())
                },
                None => {
                    proof {
                        assert(coin_views(list@) =~= pre);
                    }
                    core::mem::swap(&mut self.list, &mut list);
                    proof {
                        assert(self@ =~= pre);
                        Self::lemma_entry_unique(pre, pos as int);
                    }
                    Err(CoinsError::Overflow)
                },
            }
        } else {
            let dclone = coin.denom.clone();
            proof {
                assert(dclone@ == coin.denom@);
            }
            list.insert(pos, Coin { denom: dclone, amount: coin.amount });
            proof {
                let cur = coin_views(list@);
                assert(cur =~= pre.insert(pos as int, (coin.denom@, coin.amount)));
                assert forall|i: int, j: int|
                    0 <= i < j < cur.len() implies lex_lt(
                    denom_bytes((#[trigger] cur[i]).0),
                    denom_bytes((#[trigger] cur[j]).0),
                ) by {
                    if j < pos {
                    } else if i < pos && j == pos {
                        assert(cur[i] == pre[i]);
                    } else if i < pos && j > pos {
                        assert(cur[j] == pre[j - 1]);
                    } else if i == pos {
                        assert(cur[j] == pre[j - 1]);
                        if j - 1 > pos {
                            lemma_lex_transitive(
                                denom_bytes(coin.denom@),
                                denom_bytes(pre[pos as int].0),
                                denom_bytes(pre[j - 1].0),
                            );
                        }
                    } else {
                        assert(cur[i] == pre[i - 1]);
                        assert(cur[j] == pre[j - 1]);
                    }
                }
                assert(bag_wf(cur));
            }
            core::mem::swap(&mut self.list, &mut list);
            proof {
                assert(self@ =~= pre.insert(pos as int, (coin.denom@, coin.amount)));
                assert(bag_wf(self@));
                assert forall|d: Seq<char>|
                    #[trigger] bag_amount(self@, d) == bag_amount(pre, d) + (if d == coin.denom@ {
                    coin.amount as int
                } else {
                    0
                }) by {
                    if d == coin.denom@ {
                        assert(self@[pos as int].0 == d);
                        Self::lemma_entry_unique(self@, pos as int);
                    } else {
                        if bag_has(self@, d) {
                            let i = choose|i: int|
                                0 <= i < self@.len() && (#[trigger] self@[i]).0 == d;
                            assert(i != pos);
                            if i < pos {
                                assert(pre[i].0 == d);
                                Self::lemma_entry_unique(self@, i);
                                Self::lemma_entry_unique(pre, i);
                            } else {
                                assert(pre[i - 1].0 == d);
                                Self::lemma_entry_unique(self@, i);
                                Self::lemma_entry_unique(pre, i - 1);
                            }
                        } else {
                            if bag_has(pre, d) {
                                let i = choose|i: int|
                                    0 <= i < pre.len() && (#[trigger] pre[i]).0 == d;
                                if i < pos {
                                    assert(self@[i].0 == d);
                                } else {
                                    assert(self@[i + 1].0 == d);
                                }
                            }
                        }
                    }
                }
                assert forall|d: Seq<char>|
                    #[trigger] bag_has(self@, d) <==> bag_has(pre, d) || (d == coin.denom@
                        && coin.amount > 0) by {
                    if d == coin.denom@ {
                        assert(self@[pos as int].0 == d);
                    }
                    if bag_has(self@, d) && d != coin.denom@ {
                        let i = choose|i: int|
                            0 <= i < self@.len() && (#[trigger] self@[i]).0 == d;
                        if i < pos {
                            assert(pre[i].0 == d);
                        } else {
                            assert(i != pos);
                            assert(pre[i - 1].0 == d);
                        }
                    }
                    if bag_has(pre, d) {
                        let i = choose|i: int| 0 <= i < pre.len() && (#[trigger] pre[i]).0 == d;
                        if i < pos {
                            assert(self@[i].0 == d);
                        } else {
                            assert(self@[i + 1].0 == d);
                        }
                    }
                }
            }
            Ok(())
        }
    }

    /// Subtract `coin` from the bag, removing the entry entirely when it
    /// reaches exactly zero; fails, changing nothing, when the bag holds
    /// less than the subtracted amount.
    #[verifier::rlimit(100)]
    pub fn sub(&mut self, coin: &Coin) -> (r: Result<(), CoinsError>)
        ensures
            match r {
                Ok(_) => {
                    &&& coin.amount <= bag_amount(old(self)@, coin.denom@)
                    &&& forall|d: Seq<char>|
                        #[trigger] bag_amount(final(self)@, d) == bag_amount(old(self)@, d) - (
                        if d == coin.denom@ {
                            coin.amount as int
                        } else {
                            0
                        })
                },
                Err(e) => {
                    &&& e == CoinsError::Overflow
                    &&& final(self)@ == old(self)@
                    &&& coin.amount > bag_amount(old(self)@, coin.denom@)
                },
            },
    {
        proof {
            use_type_invariant(&*self);
        }
        let ghost pre = self@;
        if coin.amount == 0 {
            proof {
                assert forall|d: Seq<char>|
                    #[trigger] bag_amount(self@, d) == bag_amount(pre, d) - (if d == coin.denom@ {
                    coin.amount as int
                } else {
                    0
                }) by {}
            }
            return Ok(());
        }
        let (pos, found) = self.position_of(&coin.denom);
        if !found {
            return Err(CoinsError::Overflow);
        }
        let cur = self.list[pos].amount;
        proof {
            Self::lemma_entry_unique(pre, pos as int);
        }
        if cur < coin.amount {
            return Err(CoinsError::Overflow);
        }
        let remaining = cur - coin.amount;
        let mut list: Vec<Coin> = Vec::new();
        core::mem::swap(&mut self.list, &mut list);
        if remaining == 0 {
            list.remove(pos);
            proof {
                let cur = coin_views(list@);
                assert(cur =~= pre.remove(pos as int));
                assert forall|i: int, j: int|
                    0 <= i < j < cur.len() implies lex_lt(
                    denom_bytes((#[trigger] cur[i]).0),
                    denom_bytes((#[trigger] cur[j]).0),
                ) by {
                    if j < pos {
                    } else if i < pos {
                        assert(cur[j] == pre[j + 1]);
                    } else {
                        assert(cur[i] == pre[i + 1]);
                        assert(cur[j] == pre[j + 1]);
                    }
                }
                assert(bag_wf(cur));
            }
            core::mem::swap(&mut self.list, &mut list);
            proof {
                assert(self@ =~= pre.remove(pos as int));
                assert(bag_wf(self@));
                assert forall|d: Seq<char>|
                    #[trigger] bag_amount(self@, d) == bag_amount(pre, d) - (if d == coin.denom@ {
                    coin.amount as int
                } else {
                    0
                }) by {
                    if d == coin.denom@ {
                        if bag_has(self@, d) {
                            let i = choose|i: int|
                                0 <= i < self@.len() && (#[trigger] self@[i]).0 == d;
                            assert(pre[pos as int].0 == d);
                            if i < pos {
                                assert(pre[i].0 == d);
                                lemma_lex_trichotomy(
                                    denom_bytes(pre[i].0),
                                    denom_bytes(pre[pos as int].0),
                                );
                            } else {
                                assert(pre[i + 1].0 == d);
                                lemma_lex_trichotomy(
                                    denom_bytes(pre[pos as int].0),
                                    denom_bytes(pre[i + 1].0),
                                );
                            }
                            assert(false);
                        }
                    } else {
                        if bag_has(self@, d) {
                            let i = choose|i: int|
                                0 <= i < self@.len() && (#[trigger] self@[i]).0 == d;
                            Self::lemma_entry_unique(self@, i);
                            if i < pos {
                                Self::lemma_entry_unique(pre, i);
                            } else {
                                Self::lemma_entry_unique(pre, i + 1);
                            }
                        } else {
                            if bag_has(pre, d) {
                                let i = choose|i: int|
                                    0 <= i < pre.len() && (#[trigger] pre[i]).0 == d;
                                assert(i != pos);
                                if i < pos {
                                    assert(self@[i].0 == d);
                                } else {
                                    assert(self@[i - 1].0 == d);
                                }
                            }
                        }
                    }
                }
            }
            Ok(())
        } else {
            let denom2 = list[pos].denom.clone();
            proof {
                assert(denom2@ == pre[pos as int].0);
            }
            list.remove(pos);
            list.insert(pos, Coin { denom: denom2, amount: remaining });
            proof {
                assert(coin_views(list@) =~= pre.update(
                    pos as int,
                    (pre[pos as int].0, remaining),
                ));
                assert(bag_wf(coin_views(list@)));
            }
            core::mem::swap(&mut self.list, &mut list);
            proof {
                assert(self@ =~= pre.update(pos as int, (pre[pos as int].0, remaining)));
                assert(bag_wf(self@));
                assert forall|d: Seq<char>|
                    #[trigger] bag_amount(self@, d) == bag_amount(pre, d) - (if d == coin.denom@ {
                    coin.amount as int
                } else {
                    0
                }) by {
                    if d == coin.denom@ {
                        Self::lemma_entry_unique(self@, pos as int);
                    } else {
                        if bag_has(self@, d) {
                            let i = choose|i: int|
                                0 <= i < self@.len() && (#[trigger] self@[i]).0 == d;
                            assert(i != pos);
                            assert(pre[i] == self@[i]);
                            Self::lemma_entry_unique(self@, i);
                            Self::lemma_entry_unique(pre, i);
                        } else {
                            if bag_has(pre, d) {
                                let i = choose|i: int|
                                    0 <= i < pre.len() && (#[trigger] pre[i]).0 == d;
                                assert(i != pos);
                                assert(self@[i].0 == d);
                            }
                        }
                    }
                }
            }
            Ok(())
        }
    }

    /// The entries in canonical sorted order.
    pub fn to_vec(&self) -> (r: Vec<Coin>)
        ensures
            r@.len() == self@.len(),
            forall|i: int|
                0 <= i < r@.len() ==> (#[trigger] r@[i]).denom@ == self@[i].0 && r@[i].amount
                    == self@[i].1,
    {
        let mut r: Vec<Coin> = Vec::new();
        let mut i: usize = 0;
        while i < self.list.len()
            invariant
                0 <= i <= self.list@.len(),
                self@.len() == self.list@.len(),
                r@.len() == i,
                forall|j: int|
                    0 <= j < i ==> (#[trigger] r@[j]).denom@ == self@[j].0 && r@[j].amount
                        == self@[j].1,
            decreases self.list@.len() - i,
        {
            let c = Coin { denom: self.list[i].denom.clone(), amount: self.list[i].amount };
            r.push(c);
            proof {
                assert(r@[i as int].denom@ == self@[i as int].0);
            }
            i = i + 1;
        }
        r
    }

    /// Consume the bag into its entries in canonical sorted order.
    pub fn into_vec(self) -> (r: Vec<Coin>)
        ensures
            r@.len() == self@.len(),
            forall|i: int|
                0 <= i < r@.len() ==> (#[trigger] r@[i]).denom@ == self@[i].0 && r@[i].amount
                    == self@[i].1,
    {
        let r = self.to_vec();
        r
    }

    /// Build a bag from entries in any order; fails on a duplicate
    /// denomination or a zero amount, as a serialized list of single coins
    /// must never contain either.
    pub fn try_from_vec(v: &Vec<Coin>) -> (r: Result<Coins, CoinsError>)
        requires
            forall|i: int| 0 <= i < v@.len() ==> denom_ok((#[trigger] v@[i]).denom@),
        ensures
            match r {
                Ok(bag) => {
                    &&& forall|i: int|
                        0 <= i < v@.len() ==> bag_amount(bag@, (#[trigger] v@[i]).denom@)
                            == v@[i].amount
                    &&& forall|d: Seq<char>|
                        #[trigger] bag_has(bag@, d) ==> exists|i: int|
                            0 <= i < v@.len() && (#[trigger] v@[i]).denom@ == d
                    &&& forall|i: int, j: int|
                        0 <= i < j < v@.len() ==> (#[trigger] v@[i]).denom@ != (
                        #[trigger] v@[j]).denom@
                    &&& forall|i: int| 0 <= i < v@.len() ==> (#[trigger] v@[i]).amount > 0
                },
                Err(e) => {
                    ||| (e == CoinsError::ZeroAmount && exists|i: int|
                        0 <= i < v@.len() && (#[trigger] v@[i]).amount == 0)
                    ||| (e == CoinsError::DuplicateDenoms && exists|i: int, j: int|
                        0 <= i < j < v@.len() && (#[trigger] v@[i]).denom@ == (
                        #[trigger] v@[j]).denom@)
                },
            },
    {
        let mut bag = Coins::new();
        let mut i: usize = 0;
        while i < v.len()
            invariant
                0 <= i <= v@.len(),
                forall|k: int| 0 <= k < v@.len() ==> denom_ok((#[trigger] v@[k]).denom@),
                forall|k: int|
                    0 <= k < i ==> bag_amount(bag@, (#[trigger] v@[k]).denom@) == v@[k].amount,
                forall|d: Seq<char>|
                    #[trigger] bag_has(bag@, d) ==> exists|k: int|
                        0 <= k < i && (#[trigger] v@[k]).denom@ == d,
                forall|k1: int, k2: int|
                    0 <= k1 < k2 < i ==> (#[trigger] v@[k1]).denom@ != (#[trigger] v@[k2]).denom@,
                forall|k: int| 0 <= k < i ==> (#[trigger] v@[k]).amount > 0,
            decreases v@.len() - i,
        {
            let coin = &v[i];
            if coin.amount == 0 {
                proof {
                    assert(0 <= i < v@.len() && v@[i as int].amount == 0);
                    assert(exists|k: int| 0 <= k < v@.len() && (#[trigger] v@[k]).amount == 0);
                }
                return Err(CoinsError::ZeroAmount);
            }
            let (pos, found) = bag.position_of(&coin.denom);
            if found {
                proof {
                    assert(bag@[pos as int].0 == coin.denom@);
                    assert(bag_has(bag@, coin.denom@));
                    let k = choose|k: int|
                        0 <= k < i && (#[trigger] v@[k]).denom@ == coin.denom@;
                    assert(v@[k].denom@ == v@[i as int].denom@);
                    assert(0 <= k < i < v@.len());
                    assert(exists|a: int, b: int|
                        0 <= a < b < v@.len() && (#[trigger] v@[a]).denom@ == (
                        #[trigger] v@[b]).denom@);
                }
                return Err(CoinsError::DuplicateDenoms);
            }
            proof {
                assert(!bag_has(bag@, coin.denom@));
            }
            let added = bag.add(coin);
            match added {
                Ok(_) => {},
                Err(_) => {
                    proof {
                        assert(bag_amount(bag@, coin.denom@) == 0);
                        assert(false);
                    }
                    return Err(CoinsError::Overflow);
                },
            }
            proof {
                assert forall|k: int|
                    0 <= k < i + 1 implies bag_amount(bag@, (#[trigger] v@[k]).denom@)
                    == v@[k].amount by {}
            }
            i = i + 1;
        }
        Ok(bag)
    }
}

/// Characters before the first comma.
pub open spec fn until_comma(s: Seq<char>) -> int
    decreases s.len(),
{
    if s.len() == 0 {
        0
    } else if s[0] == ',' {
        0
    } else {
        1 + until_comma(s.skip(1))
    }
}

/// The first comma is within the string.
pub proof fn lemma_until_comma_bounds(s: Seq<char>)
    ensures
        0 <= until_comma(s) <= s.len(),
    decreases s.len(),
{
    if s.len() > 0 && s[0] != ',' {
        lemma_until_comma_bounds(s.skip(1));
    }
}

/// Split `s` at every comma; a trailing or leading comma yields an empty
/// piece.
pub open spec fn split_commas(s: Seq<char>) -> Seq<Seq<char>>
    decreases s.len(),
    via split_commas_decreases
{
    let k = until_comma(s);
    if k == s.len() {
        seq![s]
    } else {
        seq![s.take(k)] + split_commas(s.skip(k + 1))
    }
}

#[via_fn]
proof fn split_commas_decreases(s: Seq<char>) {
    lemma_until_comma_bounds(s);
}

/// If the first `k` characters are not commas and position `k` is a comma
/// or the end, the first comma is at `k`.
pub proof fn lemma_until_comma(s: Seq<char>, k: int)
    requires
        0 <= k <= s.len(),
        forall|i: int| 0 <= i < k ==> #[trigger] s[i] != ',',
        k == s.len() || s[k] == ',',
    ensures
        until_comma(s) == k,
    decreases k,
{
    if k == 0 {
    } else {
        assert(s[0] != ',');
        assert forall|i: int| 0 <= i < k - 1 implies #[trigger] s.skip(1)[i] != ',' by {
            assert(s.skip(1)[i] == s[i + 1]);
        }
        if k < s.len() {
            assert(s.skip(1)[k - 1] == s[k]);
        }
        lemma_until_comma(s.skip(1), k - 1);
    }
}

/// The length of the leading run of decimal digits.
pub open spec fn digits_len(s: Seq<char>) -> int
    decreases s.len(),
{
    if s.len() == 0 {
        0
    } else if !is_dec_digit(s[0]) {
        0
    } else {
        1 + digits_len(s.skip(1))
    }
}

/// If the first `k` characters are digits and position `k` is a non-digit
/// or the end, the digit run has length `k`.
pub proof fn lemma_digits_len(s: Seq<char>, k: int)
    requires
        0 <= k <= s.len(),
        forall|i: int| 0 <= i < k ==> is_dec_digit(#[trigger] s[i]),
        k == s.len() || !is_dec_digit(s[k]),
    ensures
        digits_len(s) == k,
    decreases k,
{
    if k == 0 {
    } else {
        assert(is_dec_digit(s[0]));
        assert forall|i: int| 0 <= i < k - 1 implies is_dec_digit(#[trigger] s.skip(1)[i]) by {
            assert(s.skip(1)[i] == s[i + 1]);
        }
        if k < s.len() {
            assert(s.skip(1)[k - 1] == s[k]);
        }
        lemma_digits_len(s.skip(1), k - 1);
    }
}

/// A serialized single-coin item is well-formed: a nonempty digit run with
/// a positive representable value, followed by a well-formed denomination.
pub open spec fn item_ok(it: Seq<char>) -> bool {
    let k = digits_len(it);
    &&& 0 < k < it.len()
    &&& denom_ok(it.skip(k))
    &&& 0 < dec_val(it.take(k)) <= u128::MAX
}

/// The denomination of a serialized single-coin item.
pub open spec fn item_denom(it: Seq<char>) -> Seq<char> {
    it.skip(digits_len(it))
}

/// The amount of a serialized single-coin item.
pub open spec fn item_val(it: Seq<char>) -> int {
    dec_val(it.take(digits_len(it)))
}

/// A well-formed serialized coin list: every comma-separated item parses
/// and no denomination repeats.
pub open spec fn list_wf(s: Seq<char>) -> bool {
    let items = split_commas(s);
    &&& forall|t: int| 0 <= t < items.len() ==> item_ok(#[trigger] items[t])
    &&& forall|t1: int, t2: int|
        0 <= t1 < t2 < items.len() ==> item_denom(#[trigger] items[t1]) != item_denom(
            #[trigger] items[t2],
        )
}

/// The canonical text of one entry: the amount in decimal, then the
/// denomination.
pub open spec fn coin_text(e: (Seq<char>, u128)) -> Seq<char> {
    dec_str(e.1 as nat) + e.0
}

/// The canonical comma-separated text of a bag.
pub open spec fn list_text(s: Seq<(Seq<char>, u128)>) -> Seq<char>
    decreases s.len(),
{
    if s.len() == 0 {
        Seq::empty()
    } else if s.len() == 1 {
        coin_text(s[0])
    } else {
        coin_text(s[0]) + seq![','] + list_text(s.skip(1))
    }
}

/// Appending one entry appends a comma and its text.
pub proof fn lemma_list_text_snoc(s: Seq<(Seq<char>, u128)>, e: (Seq<char>, u128))
    ensures
        s.len() == 0 ==> list_text(s.push(e)) == coin_text(e),
        s.len() > 0 ==> list_text(s.push(e)) == list_text(s) + seq![','] + coin_text(e),
    decreases s.len(),
{
    let t = s.push(e);
    if s.len() == 0 {
        assert(t.len() == 1);
        assert(t[0] == e);
    } else {
        assert(t.skip(1) =~= s.skip(1).push(e));
        lemma_list_text_snoc(s.skip(1), e);
        assert(t[0] == s[0]);
        if s.len() == 1 {
            assert(s.skip(1).len() == 0);
            assert(list_text(t) == coin_text(s[0]) + seq![','] + coin_text(e));
            assert(list_text(s) == coin_text(s[0]));
        } else {
            assert(list_text(t) == coin_text(s[0]) + seq![','] + list_text(s.skip(1).push(e)));
            assert(list_text(s.skip(1).push(e)) == list_text(s.skip(1)) + seq![','] + coin_text(
                e,
            ));
            assert(coin_text(s[0]) + seq![','] + (list_text(s.skip(1)) + seq![','] + coin_text(e))
                =~= (coin_text(s[0]) + seq![','] + list_text(s.skip(1))) + seq![','] + coin_text(
                e,
            ));
        }
    }
}

/// Split a string at every comma.
fn split_str(s: &str) -> (r: Vec<String>)
    ensures
        r@.map_values(|x: String| x@) == split_commas(s@),
{
    let n = s.unicode_len();
    let mut segs: Vec<String> = Vec::new();
    let mut start: usize = 0;
    let mut i: usize = 0;
    proof {
        assert(s@.skip(0) =~= s@);
        assert(segs@.map_values(|x: String| x@) =~= Seq::<Seq<char>>::empty());
        assert(Seq::<Seq<char>>::empty() + split_commas(s@) =~= split_commas(s@));
    }
    while i < n
        invariant
            0 <= start <= i <= n,
            n == s@.len(),
            forall|j: int| start <= j < i ==> #[trigger] s@[j] != ',',
            split_commas(s@) == segs@.map_values(|x: String| x@) + split_commas(
                s@.skip(start as int),
            ),
        decreases n - i,
    {
        let c = s.get_char(i);
        if c == ',' {
            let piece = s.substring_char(start, i).to_owned();
            let ghost pre = segs@.map_values(|x: String| x@);
            segs.push(piece);
            proof {
                let rem = s@.skip(start as int);
                assert forall|j: int| 0 <= j < i - start implies #[trigger] rem[j] != ',' by {
                    assert(rem[j] == s@[start + j]);
                }
                assert(rem[i - start] == s@[i as int]);
                lemma_until_comma(rem, i - start);
                assert(split_commas(rem) == seq![rem.take(i - start)] + split_commas(
                    rem.skip(i - start + 1),
                ));
                assert(rem.take(i - start) =~= s@.subrange(start as int, i as int));
                assert(rem.skip(i - start + 1) =~= s@.skip(i + 1));
                assert(segs@.map_values(|x: String| x@) =~= pre + seq![
                    s@.subrange(start as int, i as int),
                ]);
                assert(pre + (seq![rem.take(i - start)] + split_commas(rem.skip(i - start + 1)))
                    =~= (pre + seq![rem.take(i - start)]) + split_commas(s@.skip(i + 1)));
            }
            start = i + 1;
        }
        i = i + 1;
    }
    let piece = s.substring_char(start, n).to_owned();
    let ghost pre = segs@.map_values(|x: String| x@);
    segs.push(piece);
    proof {
        let rem = s@.skip(start as int);
        assert forall|j: int| 0 <= j < n - start implies #[trigger] rem[j] != ',' by {
            assert(rem[j] == s@[start + j]);
        }
        lemma_until_comma(rem, n - start);
        assert(split_commas(rem) == seq![rem]);
        assert(rem =~= s@.subrange(start as int, n as int));
        assert(segs@.map_values(|x: String| x@) =~= pre + seq![rem]);
        assert(pre + seq![rem] =~= pre + split_commas(rem));
    }
    segs
}

/// Parse one serialized coin item into its denomination and amount.
#[verifier::rlimit(100)]
fn parse_item(seg: &String) -> (r: Result<(String, u128), CoinsError>)
    ensures
        match r {
            Ok((d, a)) => item_ok(seg@) && d@ == item_denom(seg@) && a as int == item_val(seg@),
            Err(_) => !item_ok(seg@),
        },
{
    let sref = seg.as_str();
    let n = sref.unicode_len();
    let mut k: usize = 0;
    while k < n
        invariant
            0 <= k <= n,
            n == seg@.len(),
            sref@ == seg@,
            forall|j: int| 0 <= j < k ==> is_dec_digit(#[trigger] seg@[j]),
        ensures
            0 <= k <= n,
            n == seg@.len(),
            sref@ == seg@,
            forall|j: int| 0 <= j < k ==> is_dec_digit(#[trigger] seg@[j]),
            k == n || !is_dec_digit(seg@[k as int]),
        decreases n - k,
    {
        let c = sref.get_char(k);
        let u = c as u32;
        if u < 48 || u > 57 {
            proof {
                assert(!is_dec_digit(seg@[k as int]));
            }
            break ;
        }
        proof {
            assert(is_dec_digit(seg@[k as int]));
        }
        k = k + 1;
    }
    proof {
        if k < n {
            assert(!is_dec_digit(seg@[k as int]));
        }
        lemma_digits_len(seg@, k as int);
    }
    if k == 0 || k == n {
        proof {
            assert(!item_ok(seg@));
        }
        return Err(CoinsError::InvalidAmount { amount: seg.clone() });
    }
    let mut acc: u128 = 0;
    let mut j: usize = 0;
    proof {
        assert(all_dec_digits(seg@.take(k as int))) by {
            assert(forall|i: int|
                0 <= i < k ==> #[trigger] seg@.take(k as int)[i] == seg@[i]);
        }
        assert(seg@.take(0) =~= Seq::<char>::empty());
    }
    while j < k
        invariant
            0 <= j <= k < n,
            n == seg@.len(),
            sref@ == seg@,
            digits_len(seg@) == k as int,
            forall|i: int| 0 <= i < k ==> is_dec_digit(#[trigger] seg@[i]),
            all_dec_digits(seg@.take(k as int)),
            acc as int == dec_val(seg@.take(j as int)),
        decreases k - j,
    {
        let c = sref.get_char(j);
        let d = (c as u32 - 48) as u128;
        proof {
            assert(is_dec_digit(seg@[j as int]));
            assert(seg@.take(j + 1).drop_last() =~= seg@.take(j as int));
            assert(seg@.take(j + 1).last() == seg@[j as int]);
        }
        let next = match acc.checked_mul(10) {
            Some(m) => m.checked_add(d),
            None => None,
        };
        match next {
            Some(v) => {
                acc = v;
            },
            None => {
                proof {
                    assert(dec_val(seg@.take(j + 1)) > u128::MAX);
                    crate::codec::lemma_dec_val_prefix_le(seg@.take(k as int), j + 1);
                    assert(seg@.take(k as int).take(j + 1) =~= seg@.take(j + 1));
                    assert(dec_val(seg@.take(k as int)) > u128::MAX);
                    assert(!item_ok(seg@));
                }
                return Err(CoinsError::InvalidAmount { amount: seg.clone() });
            },
        }
        j = j + 1;
    }
    if acc == 0 {
        proof {
            assert(seg@.take(k as int).take(k as int) =~= seg@.take(k as int));
            assert(!item_ok(seg@));
        }
        return Err(CoinsError::InvalidAmount { amount: seg.clone() });
    }
    let denom = sref.substring_char(k, n).to_owned();
    proof {
        assert(denom@ == seg@.skip(k as int)) by {
            assert(seg@.subrange(k as int, n as int) =~= seg@.skip(k as int));
        }
    }
    let mut t: usize = k;
    while t < n
        invariant
            k <= t <= n,
            0 < k < n,
            n == seg@.len(),
            sref@ == seg@,
            digits_len(seg@) == k as int,
            forall|i: int| k <= i < t ==> #[trigger] seg@[i] != ',' && seg@[i] != '"' && seg@[i]
                != '\\',
        decreases n - t,
    {
        let c = sref.get_char(t);
        if c == ',' || c == '"' || c == '\\' {
            proof {
                assert(seg@.skip(k as int)[t - k] == seg@[t as int]);
                assert(!denom_ok(seg@.skip(k as int)));
                assert(!item_ok(seg@));
            }
            return Err(CoinsError::Malformed);
        }
        t = t + 1;
    }
    proof {
        assert(denom_ok(seg@.skip(k as int))) by {
            assert(seg@.skip(k as int).len() == n - k >= 1);
            assert(seg@.skip(k as int)[0] == seg@[k as int]);
            assert forall|i: int|
                0 <= i < seg@.skip(k as int).len() implies #[trigger] seg@.skip(k as int)[i]
                != ',' && seg@.skip(k as int)[i] != '"' && seg@.skip(k as int)[i] != '\\' by {
                assert(seg@.skip(k as int)[i] == seg@[k + i]);
            }
        }
        assert(item_ok(seg@));
    }
    Ok((denom, acc))
}

impl Coins {
    /// Parse a comma-separated coin list in any order; fails on malformed
    /// items, a zero or out-of-range amount, or a repeated denomination.
    pub fn from_str(s: &str) -> (r: Result<Coins, CoinsError>)
        ensures
            ({
                let items = split_commas(s@);
                match r {
                    Ok(bag) => {
                        &&& list_wf(s@)
                        &&& forall|t: int|
                            0 <= t < items.len() ==> bag_amount(
                                bag@,
                                item_denom(#[trigger] items[t]),
                            ) == item_val(items[t])
                        &&& forall|d: Seq<char>|
                            #[trigger] bag_has(bag@, d) ==> exists|t: int|
                                0 <= t < items.len() && item_denom(#[trigger] items[t]) == d
                    },
                    Err(_) => !list_wf(s@),
                }
            }),
    {
        let segs = split_str(s);
        let ghost items = split_commas(s@);
        let mut bag = Coins::new();
        let mut i: usize = 0;
        while i < segs.len()
            invariant
                0 <= i <= segs@.len(),
                items == split_commas(s@),
                segs@.map_values(|x: String| x@) == items,
                items.len() == segs@.len(),
                forall|t: int| 0 <= t < i ==> item_ok(#[trigger] items[t]),
                forall|t: int|
                    0 <= t < i ==> bag_amount(bag@, item_denom(#[trigger] items[t])) == item_val(
                        items[t],
                    ),
                forall|d: Seq<char>|
                    #[trigger] bag_has(bag@, d) ==> exists|t: int|
                        0 <= t < i && item_denom(#[trigger] items[t]) == d,
                forall|t1: int, t2: int|
                    0 <= t1 < t2 < i ==> item_denom(#[trigger] items[t1]) != item_denom(
                        #[trigger] items[t2],
                    ),
            decreases segs@.len() - i,
        {
            proof {
                assert(segs@[i as int]@ == items[i as int]);
            }
            let parsed = parse_item(&segs[i]);
            let (denom, amount) = match parsed {
                Ok(pair) => pair,
                Err(e) => {
                    proof {
                        assert(!item_ok(items[i as int]));
                        assert(!list_wf(s@));
                    }
                    return Err(e);
                },
            };
            let (pos, found) = bag.position_of(&denom);
            if found {
                proof {
                    assert(bag@[pos as int].0 == denom@);
                    assert(bag_has(bag@, denom@));
                    let t = choose|t: int|
                        0 <= t < i && item_denom(#[trigger] items[t]) == denom@;
                    assert(item_denom(items[t]) == item_denom(items[i as int]));
                    assert(!list_wf(s@));
                }
                return Err(CoinsError::DuplicateDenoms);
            }
            proof {
                assert(!bag_has(bag@, denom@));
            }
            let coin = Coin { denom, amount };
            match bag.add(&coin) {
                Ok(_) => {},
                Err(_) => {
                    proof {
                        assert(bag_amount(bag@, coin.denom@) == 0);
                        assert(false);
                    }
                    return Err(CoinsError::Overflow);
                },
            }
            i = i + 1;
        }
        Ok(bag)
    }

    /// Render the bag as the canonical comma-separated list, sorted
    /// ascending by denomination.
    pub fn to_string(&self) -> (r: String)
        ensures
            r@ == list_text(self@),
    {
        proof {
            use_type_invariant(self);
        }
        let mut out = String::new();
        let mut i: usize = 0;
        while i < self.list.len()
            invariant
                0 <= i <= self.list@.len(),
                self@.len() == self.list@.len(),
                out@ == list_text(self@.take(i as int)),
            decreases self.list@.len() - i,
        {
            let ghost pre = self@.take(i as int);
            if i > 0 {
                proof {
                    reveal_strlit(",");
                    assert(","@ =~= seq![',']);
                }
                out.append(",");
            }
            let amount_text = crate::codec::u128_to_dec(self.list[i].amount);
            out.append(amount_text.as_str());
            out.append(self.list[i].denom.as_str());
            proof {
                assert(self@[i as int].0 == self.list@[i as int].denom@);
                assert(self@[i as int].1 == self.list@[i as int].amount);
                lemma_list_text_snoc(pre, self@[i as int]);
                assert(self@.take(i + 1) =~= pre.push(self@[i as int]));
                assert(coin_text(self@[i as int]) == dec_str(self@[i as int].1 as nat) + self@[
                    i as int].0);
                if i == 0 {
                    assert(pre =~= Seq::<(Seq<char>, u128)>::empty());
                    assert(list_text(Seq::<(Seq<char>, u128)>::empty()) == Seq::<char>::empty());
                    assert(out@ =~= coin_text(self@[i as int]));
                } else {
                    assert(out@ =~= list_text(pre) + seq![','] + coin_text(self@[i as int]));
                }
            }
            i = i + 1;
        }
        proof {
            assert(self@.take(self@.len() as int) =~= self@);
        }
        out
    }

    /// Serializing a nonempty normalized bag and parsing the text yields
    /// the same bag: the canonical list is well-formed and its items carry
    /// exactly the bag's denominations and amounts, in order.
    pub proof fn lemma_list_round_trip(s: Seq<(Seq<char>, u128)>)
        requires
            bag_wf(s),
            s.len() >= 1,
        ensures
            split_commas(list_text(s)).len() == s.len(),
            forall|t: int|
                0 <= t < s.len() ==> item_ok(#[trigger] split_commas(list_text(s))[t])
                    && item_denom(split_commas(list_text(s))[t]) == s[t].0 && item_val(
                    split_commas(list_text(s))[t],
                ) == s[t].1 as int,
            list_wf(list_text(s)),
        decreases s.len(),
    {
        crate::codec::lemma_dec_str_val(s[0].1 as nat);
        let ct = coin_text(s[0]);
        let ds = dec_str(s[0].1 as nat);
        assert forall|i: int| 0 <= i < ct.len() implies (#[trigger] ct[i] == ',') == false by {
            if i < ds.len() {
                assert(ct[i] == ds[i]);
                assert(is_dec_digit(ds[i]));
            } else {
                assert(ct[i] == s[0].0[i - ds.len()]);
            }
        }
        assert(digits_len(ct) == ds.len()) by {
            assert forall|i: int| 0 <= i < ds.len() implies is_dec_digit(#[trigger] ct[i]) by {
                assert(ct[i] == ds[i]);
            }
            assert(ct[ds.len() as int] == s[0].0[0]);
            assert(!is_dec_digit(ct[ds.len() as int]));
            lemma_digits_len(ct, ds.len() as int);
        }
        assert(ct.take(ds.len() as int) =~= ds);
        assert(ct.skip(ds.len() as int) =~= s[0].0);
        assert(item_ok(ct) && item_denom(ct) == s[0].0 && item_val(ct) == s[0].1 as int);
        if s.len() == 1 {
            assert(list_text(s) == ct);
            lemma_until_comma(ct, ct.len() as int);
            assert(split_commas(list_text(s)) =~= seq![ct]);
        } else {
            assert(bag_wf(s.skip(1))) by {
                assert(forall|i: int|
                    0 <= i < s.skip(1).len() ==> #[trigger] s.skip(1)[i] == s[i + 1]);
            }
            Self::lemma_list_round_trip(s.skip(1));
            let whole = list_text(s);
            assert(whole == ct + seq![','] + list_text(s.skip(1)));
            assert forall|i: int| 0 <= i < ct.len() implies #[trigger] whole[i] != ',' by {
                assert(whole[i] == ct[i]);
            }
            assert(whole[ct.len() as int] == ',');
            lemma_until_comma(whole, ct.len() as int);
            assert(whole.take(ct.len() as int) =~= ct);
            assert(whole.skip(ct.len() as int + 1) =~= list_text(s.skip(1)));
            assert(split_commas(whole) == seq![ct] + split_commas(list_text(s.skip(1))));
            assert forall|t: int|
                0 <= t < s.len() implies item_ok(#[trigger] split_commas(whole)[t]) && item_denom(
                split_commas(whole)[t],
            ) == s[t].0 && item_val(split_commas(whole)[t]) == s[t].1 as int by {
                if t == 0 {
                    assert(split_commas(whole)[0] == ct);
                } else {
                    assert(split_commas(whole)[t] == split_commas(list_text(s.skip(1)))[t - 1]);
                    assert(s.skip(1)[t - 1] == s[t]);
                }
            }
            assert forall|t1: int, t2: int|
                0 <= t1 < t2 < split_commas(whole).len() implies item_denom(
                #[trigger] split_commas(whole)[t1],
            ) != item_denom(#[trigger] split_commas(whole)[t2]) by {
                assert(item_denom(split_commas(whole)[t1]) == s[t1].0);
                assert(item_denom(split_commas(whole)[t2]) == s[t2].0);
                lemma_lex_trichotomy(denom_bytes(s[t1].0), denom_bytes(s[t2].0));
            }
        }
    }
}

/// Normalization is canonical: two normalized bags holding the same
/// amount of every denomination are the same sequence. Together with the
/// serialization round trip, parsing a bag's canonical text yields exactly
/// the bag itself.
pub proof fn lemma_bag_extensional(s1: Seq<(Seq<char>, u128)>, s2: Seq<(Seq<char>, u128)>)
    requires
        bag_wf(s1),
        bag_wf(s2),
        forall|d: Seq<char>| #[trigger] bag_amount(s1, d) == bag_amount(s2, d),
    ensures
        s1 == s2,
    decreases s1.len(),
{
    if s1.len() == 0 {
        if s2.len() > 0 {
            Coins::lemma_entry_unique(s2, 0);
            assert(bag_amount(s1, s2[0].0) == 0);
            if bag_has(s1, s2[0].0) {
                let i = choose|i: int| 0 <= i < s1.len() && (#[trigger] s1[i]).0 == s2[0].0;
                assert(false);
            }
            assert(false);
        }
        assert(s1 =~= s2);
    } else {
        if s2.len() == 0 {
            Coins::lemma_entry_unique(s1, 0);
            assert(bag_amount(s2, s1[0].0) == 0);
            if bag_has(s2, s1[0].0) {
                let i = choose|i: int| 0 <= i < s2.len() && (#[trigger] s2[i]).0 == s1[0].0;
                assert(false);
            }
            assert(false);
        }
        // the heads carry the same denomination: each head's denomination
        // occurs in the other bag, and both sequences are sorted
        Coins::lemma_entry_unique(s1, 0);
        Coins::lemma_entry_unique(s2, 0);
        assert(bag_has(s2, s1[0].0)) by {
            if !bag_has(s2, s1[0].0) {
                assert(bag_amount(s2, s1[0].0) == 0);
            }
        }
        assert(bag_has(s1, s2[0].0)) by {
            if !bag_has(s1, s2[0].0) {
                assert(bag_amount(s1, s2[0].0) == 0);
            }
        }
        let j = choose|j: int| 0 <= j < s2.len() && (#[trigger] s2[j]).0 == s1[0].0;
        let i = choose|i: int| 0 <= i < s1.len() && (#[trigger] s1[i]).0 == s2[0].0;
        assert(s1[0].0 == s2[0].0) by {
            if s1[0].0 != s2[0].0 {
                assert(j > 0);
                assert(i > 0);
                assert(lex_lt(denom_bytes(s2[0].0), denom_bytes(s2[j].0)));
                assert(lex_lt(denom_bytes(s1[0].0), denom_bytes(s1[i].0)));
                lemma_lex_transitive(
                    denom_bytes(s1[0].0),
                    denom_bytes(s2[0].0),
                    denom_bytes(s1[0].0),
                );
                lemma_lex_trichotomy(denom_bytes(s1[0].0), denom_bytes(s1[0].0));
            }
        }
        assert(s1[0].1 == s2[0].1) by {
            assert(bag_amount(s1, s1[0].0) == s1[0].1 as int);
            assert(bag_amount(s2, s2[0].0) == s2[0].1 as int);
        }
        assert(bag_wf(s1.skip(1))) by {
            assert(forall|t: int|
                0 <= t < s1.skip(1).len() ==> #[trigger] s1.skip(1)[t] == s1[t + 1]);
        }
        assert(bag_wf(s2.skip(1))) by {
            assert(forall|t: int|
                0 <= t < s2.skip(1).len() ==> #[trigger] s2.skip(1)[t] == s2[t + 1]);
        }
        assert forall|d: Seq<char>| #[trigger] bag_amount(s1.skip(1), d) == bag_amount(
            s2.skip(1),
            d,
        ) by {
            lemma_bag_tail_amount(s1, d);
            lemma_bag_tail_amount(s2, d);
        }
        lemma_bag_extensional(s1.skip(1), s2.skip(1));
        assert(s1 =~= s2) by {
            assert(forall|t: int|
                1 <= t < s1.len() ==> #[trigger] s1[t] == s1.skip(1)[t - 1]);
            assert(forall|t: int|
                1 <= t < s2.len() ==> #[trigger] s2[t] == s2.skip(1)[t - 1]);
        }
    }
}

/// Dropping the head entry keeps every other denomination's amount, and
/// zeroes the head's.
proof fn lemma_bag_tail_amount(s: Seq<(Seq<char>, u128)>, d: Seq<char>)
    requires
        bag_wf(s),
        s.len() >= 1,
    ensures
        d == s[0].0 ==> bag_amount(s.skip(1), d) == 0,
        d != s[0].0 ==> bag_amount(s.skip(1), d) == bag_amount(s, d),
{
    let t = s.skip(1);
    assert(bag_wf(t)) by {
        assert(forall|k: int| 0 <= k < t.len() ==> #[trigger] t[k] == s[k + 1]);
    }
    if d == s[0].0 {
        if bag_has(t, d) {
            let k = choose|k: int| 0 <= k < t.len() && (#[trigger] t[k]).0 == d;
            assert(s[k + 1].0 == d);
            lemma_lex_trichotomy(denom_bytes(s[0].0), denom_bytes(s[k + 1].0));
            assert(false);
        }
    } else {
        if bag_has(t, d) {
            let k = choose|k: int| 0 <= k < t.len() && (#[trigger] t[k]).0 == d;
            assert(s[k + 1].0 == d);
            Coins::lemma_entry_unique(t, k);
            Coins::lemma_entry_unique(s, k + 1);
        } else {
            if bag_has(s, d) {
                let k = choose|k: int| 0 <= k < s.len() && (#[trigger] s[k]).0 == d;
                assert(k != 0);
                assert(t[k - 1].0 == d);
                assert(false);
            }
        }
    }
}

/// JSON whitespace.
pub open spec fn is_json_ws(c: char) -> bool {
    c == ' ' || c == '\n' || c == '\t' || c == '\r'
}

/// `s` with whitespace outside quoted sections removed.
pub open spec fn strip_q(s: Seq<char>, inq: bool) -> Seq<char>
    decreases s.len(),
{
    if s.len() == 0 {
        Seq::empty()
    } else if s[0] == '"' {
        seq!['"'] + strip_q(s.skip(1), !inq)
    } else if !inq && is_json_ws(s[0]) {
        strip_q(s.skip(1), inq)
    } else {
        seq![s[0]] + strip_q(s.skip(1), inq)
    }
}

/// Characters before the first double quote.
pub open spec fn until_quote(s: Seq<char>) -> int
    decreases s.len(),
{
    if s.len() == 0 {
        0
    } else if s[0] == '"' {
        0
    } else {
        1 + until_quote(s.skip(1))
    }
}

/// If the first `k` characters are not quotes and position `k` is a quote
/// or the end, the first quote is at `k`.
pub proof fn lemma_until_quote(s: Seq<char>, k: int)
    requires
        0 <= k <= s.len(),
        forall|i: int| 0 <= i < k ==> #[trigger] s[i] != '"',
        k == s.len() || s[k] == '"',
    ensures
        until_quote(s) == k,
    decreases k,
{
    if k > 0 {
        assert(s[0] != '"');
        assert forall|i: int| 0 <= i < k - 1 implies #[trigger] s.skip(1)[i] != '"' by {
            assert(s.skip(1)[i] == s[i + 1]);
        }
        if k < s.len() {
            assert(s.skip(1)[k - 1] == s[k]);
        }
        lemma_until_quote(s.skip(1), k - 1);
    }
}

/// A serialized map entry is well-formed: a quoted well-formed
/// denomination, a colon, and a quoted positive decimal amount in range.
pub open spec fn jitem_ok(it: Seq<char>) -> bool {
    let uq = until_quote(it.skip(1));
    &&& it.len() >= 1
    &&& it[0] == '"'
    &&& 1 + uq <= it.len() - 1
    &&& denom_ok(it.subrange(1, 1 + uq))
    &&& it.len() >= uq + 5
    &&& it[2 + uq] == ':'
    &&& it[3 + uq] == '"'
    &&& it.last() == '"'
    &&& it.len() - 1 > 4 + uq
    &&& all_dec_digits(it.subrange(4 + uq, it.len() - 1))
    &&& 0 < dec_val(it.subrange(4 + uq, it.len() - 1)) <= u128::MAX
}

/// The denomination of a serialized map entry.
pub open spec fn jitem_denom(it: Seq<char>) -> Seq<char> {
    it.subrange(1, 1 + until_quote(it.skip(1)))
}

/// The amount of a serialized map entry.
pub open spec fn jitem_val(it: Seq<char>) -> int {
    dec_val(it.subrange(4 + until_quote(it.skip(1)), it.len() - 1))
}

/// A well-formed serialized coin map: after removing whitespace outside
/// quotes, a brace-wrapped comma-separated run of well-formed entries with
/// no repeated denomination.
pub open spec fn json_wf(s: Seq<char>) -> bool {
    let t = strip_q(s, false);
    let items = split_commas(t.subrange(1, t.len() - 1));
    &&& t.len() >= 2
    &&& t[0] == '{'
    &&& t.last() == '}'
    &&& (t.len() == 2 || {
        &&& forall|i: int| 0 <= i < items.len() ==> jitem_ok(#[trigger] items[i])
        &&& forall|t1: int, t2: int|
            0 <= t1 < t2 < items.len() ==> jitem_denom(#[trigger] items[t1]) != jitem_denom(
                #[trigger] items[t2],
            )
    })
}

/// The canonical text of one map entry.
pub open spec fn jentry_text(e: (Seq<char>, u128)) -> Seq<char> {
    seq!['"'] + e.0 + seq!['"', ':', '"'] + dec_str(e.1 as nat) + seq!['"']
}

/// The canonical comma-separated run of map entries.
pub open spec fn jentries_text(s: Seq<(Seq<char>, u128)>) -> Seq<char>
    decreases s.len(),
{
    if s.len() == 0 {
        Seq::empty()
    } else if s.len() == 1 {
        jentry_text(s[0])
    } else {
        jentry_text(s[0]) + seq![','] + jentries_text(s.skip(1))
    }
}

/// The canonical structured-map text of a bag: sorted entries inside
/// braces, without whitespace.
pub open spec fn json_text(s: Seq<(Seq<char>, u128)>) -> Seq<char> {
    seq!['{'] + jentries_text(s) + seq!['}']
}

/// Appending one entry appends a comma and its text.
pub proof fn lemma_jentries_snoc(s: Seq<(Seq<char>, u128)>, e: (Seq<char>, u128))
    ensures
        s.len() == 0 ==> jentries_text(s.push(e)) == jentry_text(e),
        s.len() > 0 ==> jentries_text(s.push(e)) == jentries_text(s) + seq![','] + jentry_text(e),
    decreases s.len(),
{
    let t = s.push(e);
    if s.len() == 0 {
        assert(t.len() == 1);
        assert(t[0] == e);
    } else {
        assert(t.skip(1) =~= s.skip(1).push(e));
        lemma_jentries_snoc(s.skip(1), e);
        assert(t[0] == s[0]);
        if s.len() == 1 {
            assert(s.skip(1).len() == 0);
        } else {
            assert(jentry_text(s[0]) + seq![','] + (jentries_text(s.skip(1)) + seq![',']
                + jentry_text(e)) =~= (jentry_text(s[0]) + seq![','] + jentries_text(s.skip(1)))
                + seq![','] + jentry_text(e));
        }
    }
}

/// The number of quote characters in `s` is even exactly when `flip` is
/// unchanged: the quote state after scanning `s` from state `inq`.
pub open spec fn quote_state(s: Seq<char>, inq: bool) -> bool
    decreases s.len(),
{
    if s.len() == 0 {
        inq
    } else if s[0] == '"' {
        quote_state(s.skip(1), !inq)
    } else {
        quote_state(s.skip(1), inq)
    }
}

/// Stripping distributes over concatenation, threading the quote state.
proof fn lemma_strip_concat(a: Seq<char>, b: Seq<char>, inq: bool)
    ensures
        strip_q(a + b, inq) == strip_q(a, inq) + strip_q(b, quote_state(a, inq)),
    decreases a.len(),
{
    if a.len() == 0 {
        assert(a + b =~= b);
        assert(strip_q(a, inq) == Seq::<char>::empty());
        assert(strip_q(a, inq) + strip_q(b, inq) =~= strip_q(b, inq));
    } else {
        let ab = a + b;
        assert(ab[0] == a[0]);
        assert(ab.skip(1) =~= a.skip(1) + b);
        if a[0] == '"' {
            lemma_strip_concat(a.skip(1), b, !inq);
            assert(seq!['"'] + (strip_q(a.skip(1), !inq) + strip_q(
                b,
                quote_state(a.skip(1), !inq),
            )) =~= (seq!['"'] + strip_q(a.skip(1), !inq)) + strip_q(
                b,
                quote_state(a.skip(1), !inq),
            ));
        } else if !inq && is_json_ws(a[0]) {
            lemma_strip_concat(a.skip(1), b, inq);
        } else {
            lemma_strip_concat(a.skip(1), b, inq);
            assert(seq![a[0]] + (strip_q(a.skip(1), inq) + strip_q(
                b,
                quote_state(a.skip(1), inq),
            )) =~= (seq![a[0]] + strip_q(a.skip(1), inq)) + strip_q(
                b,
                quote_state(a.skip(1), inq),
            ));
        }
    }
}

/// A quote-free sequence strips to itself when inside quotes, or when it
/// holds no whitespace; either way its quote state is unchanged.
proof fn lemma_strip_identity(s: Seq<char>, inq: bool)
    requires
        forall|i: int| 0 <= i < s.len() ==> #[trigger] s[i] != '"',
        inq || forall|i: int| 0 <= i < s.len() ==> !is_json_ws(#[trigger] s[i]),
    ensures
        strip_q(s, inq) == s,
        quote_state(s, inq) == inq,
    decreases s.len(),
{
    if s.len() > 0 {
        assert(forall|i: int| 0 <= i < s.skip(1).len() ==> #[trigger] s.skip(1)[i] == s[i + 1]);
        lemma_strip_identity(s.skip(1), inq);
        assert(seq![s[0]] + s.skip(1) =~= s);
    }
}

/// A run free of quotes and whitespace survives stripping under any state
/// and leaves the state unchanged.
proof fn lemma_strip_plain(t: Seq<char>)
    requires
        forall|i: int| 0 <= i < t.len() ==> #[trigger] t[i] != '"',
        forall|i: int| 0 <= i < t.len() ==> !is_json_ws(#[trigger] t[i]),
    ensures
        strip_q(t, false) == t,
        quote_state(t, false) == false,
{
    lemma_strip_identity(t, false);
}

/// A single double quote survives stripping and toggles the quote state.
proof fn lemma_strip_quote(inq: bool)
    ensures
        strip_q(seq!['"'], inq) == seq!['"'],
        quote_state(seq!['"'], inq) == !inq,
{
    let q: Seq<char> = seq!['"'];
    assert(q.skip(1) =~= Seq::<char>::empty());
    assert(strip_q(Seq::<char>::empty(), !inq) == Seq::<char>::empty());
    assert(quote_state(Seq::<char>::empty(), !inq) == !inq);
    assert(strip_q(q, inq) == seq!['"'] + strip_q(q.skip(1), !inq));
    assert(quote_state(q, inq) == quote_state(q.skip(1), !inq));
    assert(seq!['"'] + Seq::<char>::empty() =~= q);
}

/// The canonical text of one map entry strips to itself and leaves the
/// quote state unchanged.
proof fn lemma_strip_jentry(e: (Seq<char>, u128))
    requires
        denom_ok(e.0),
    ensures
        strip_q(jentry_text(e), false) == jentry_text(e),
        quote_state(jentry_text(e), false) == false,
{
    let ds = dec_str(e.1 as nat);
    crate::codec::lemma_dec_str_val(e.1 as nat);
    let q: Seq<char> = seq!['"'];
    let mid: Seq<char> = seq!['"', ':', '"'];
    assert(jentry_text(e) == q + e.0 + mid + ds + q);
    lemma_strip_quote(false);
    lemma_strip_quote(true);
    assert(strip_q(mid, true) == mid && quote_state(mid, true) == true) by {
        let colon: Seq<char> = seq![':'];
        assert(mid =~= q + (colon + q));
        lemma_strip_quote(true);
        lemma_strip_quote(false);
        lemma_strip_identity(colon, false);
        lemma_strip_concat(colon, q, false);
        lemma_quote_state_concat(colon, q, false);
        assert(strip_q(colon + q, false) =~= colon + q);
        assert(quote_state(colon + q, false) == true);
        lemma_strip_concat(q, colon + q, true);
        lemma_quote_state_concat(q, colon + q, true);
        assert(strip_q(q + (colon + q), true) =~= q + (colon + q));
    }
    assert(strip_q(e.0, true) == e.0 && quote_state(e.0, true) == true) by {
        lemma_strip_identity(e.0, true);
    }
    assert(strip_q(ds, true) == ds && quote_state(ds, true) == true) by {
        assert forall|i: int| 0 <= i < ds.len() implies #[trigger] ds[i] != '"' by {
            assert(is_dec_digit(ds[i]));
        }
        lemma_strip_identity(ds, true);
    }
    lemma_strip_concat(q + e.0 + mid + ds, q, false);
    lemma_strip_concat(q + e.0 + mid, ds, false);
    lemma_strip_concat(q + e.0, mid, false);
    lemma_strip_concat(q, e.0, false);
    lemma_quote_state_concat(q, e.0, false);
    assert(quote_state(q + e.0, false) == true);
    assert(quote_state(q + e.0 + mid, false) == true) by {
        lemma_quote_state_concat(q + e.0, mid, false);
    }
    assert(quote_state(q + e.0 + mid + ds, false) == true) by {
        lemma_quote_state_concat(q + e.0 + mid, ds, false);
    }
    assert(quote_state(jentry_text(e), false) == false) by {
        lemma_quote_state_concat(q + e.0 + mid + ds, q, false);
    }
    assert(strip_q(q + e.0, false) =~= q + e.0);
    assert(strip_q(q + e.0 + mid, false) =~= q + e.0 + mid);
    assert(strip_q(q + e.0 + mid + ds, false) =~= q + e.0 + mid + ds);
    assert(strip_q(jentry_text(e), false) =~= jentry_text(e));
}

/// The quote state after a concatenation is the state after the second
/// part, started from the state after the first.
proof fn lemma_quote_state_concat(a: Seq<char>, b: Seq<char>, inq: bool)
    ensures
        quote_state(a + b, inq) == quote_state(b, quote_state(a, inq)),
    decreases a.len(),
{
    if a.len() == 0 {
        assert(a + b =~= b);
    } else {
        assert((a + b).skip(1) =~= a.skip(1) + b);
        if a[0] == '"' {
            lemma_quote_state_concat(a.skip(1), b, !inq);
        } else {
            lemma_quote_state_concat(a.skip(1), b, inq);
        }
    }
}

/// The canonical map text of a normalized bag strips to itself, is
/// well-formed, and parses back to exactly the bag's entries: the
/// structured round trip.
pub proof fn lemma_json_round_trip(s: Seq<(Seq<char>, u128)>)
    ensures
        bag_wf(s) ==> json_wf(json_text(s)),
        bag_wf(s) ==> strip_q(json_text(s), false) == json_text(s),
        bag_wf(s) && s.len() > 0 ==> {
            let items = split_commas(jentries_text(s));
            &&& items.len() == s.len()
            &&& forall|t: int|
                0 <= t < s.len() ==> jitem_ok(#[trigger] items[t]) && jitem_denom(items[t])
                    == s[t].0 && jitem_val(items[t]) == s[t].1 as int
        },
{
    if bag_wf(s) {
        lemma_strip_jentries(s);
        let body = jentries_text(s);
        let lb: Seq<char> = seq!['{'];
        let rb: Seq<char> = seq!['}'];
        assert(json_text(s) == lb + body + rb);
        lemma_strip_plain(lb);
        lemma_strip_plain(rb);
        lemma_strip_concat(lb + body, rb, false);
        lemma_strip_concat(lb, body, false);
        lemma_quote_state_concat(lb, body, false);
        assert(strip_q(lb + body, false) =~= lb + body);
        assert(strip_q(json_text(s), false) =~= json_text(s));
        let t = strip_q(json_text(s), false);
        assert(t == json_text(s));
        assert(t[0] == '{');
        assert(t.last() == '}');
        assert(t.subrange(1, t.len() - 1) =~= body);
        if s.len() == 0 {
            assert(body.len() == 0);
            assert(t.len() == 2);
        } else {
            lemma_jitems(s);
            let items = split_commas(t.subrange(1, t.len() - 1));
            assert forall|t1: int, t2: int|
                0 <= t1 < t2 < items.len() implies jitem_denom(#[trigger] items[t1])
                != jitem_denom(#[trigger] items[t2]) by {
                assert(jitem_denom(items[t1]) == s[t1].0);
                assert(jitem_denom(items[t2]) == s[t2].0);
                lemma_lex_trichotomy(denom_bytes(s[t1].0), denom_bytes(s[t2].0));
            }
        }
        assert(json_wf(json_text(s)));
    }
}

/// Each canonical entry run strips to itself and ends outside quotes.
proof fn lemma_strip_jentries(s: Seq<(Seq<char>, u128)>)
    requires
        bag_wf(s),
    ensures
        strip_q(jentries_text(s), false) == jentries_text(s),
        quote_state(jentries_text(s), false) == false,
    decreases s.len(),
{
    if s.len() == 0 {
    } else if s.len() == 1 {
        lemma_strip_jentry(s[0]);
    } else {
        lemma_strip_jentry(s[0]);
        assert(bag_wf(s.skip(1))) by {
            assert(forall|t: int|
                0 <= t < s.skip(1).len() ==> #[trigger] s.skip(1)[t] == s[t + 1]);
        }
        lemma_strip_jentries(s.skip(1));
        let c: Seq<char> = seq![','];
        lemma_strip_plain(c);
        assert(jentries_text(s) == jentry_text(s[0]) + c + jentries_text(s.skip(1)));
        lemma_strip_concat(jentry_text(s[0]) + c, jentries_text(s.skip(1)), false);
        lemma_strip_concat(jentry_text(s[0]), c, false);
        lemma_quote_state_concat(jentry_text(s[0]), c, false);
        lemma_quote_state_concat(jentry_text(s[0]) + c, jentries_text(s.skip(1)), false);
        assert(strip_q(jentry_text(s[0]) + c, false) =~= jentry_text(s[0]) + c);
        assert(strip_q(jentries_text(s), false) =~= jentries_text(s));
    }
}

/// The canonical entry run splits back into well-formed items carrying
/// exactly the bag's denominations and amounts.
proof fn lemma_jitems(s: Seq<(Seq<char>, u128)>)
    requires
        bag_wf(s),
        s.len() >= 1,
    ensures
        split_commas(jentries_text(s)).len() == s.len(),
        forall|t: int|
            0 <= t < s.len() ==> jitem_ok(#[trigger] split_commas(jentries_text(s))[t])
                && jitem_denom(split_commas(jentries_text(s))[t]) == s[t].0 && jitem_val(
                split_commas(jentries_text(s))[t],
            ) == s[t].1 as int,
    decreases s.len(),
{
    let it = jentry_text(s[0]);
    let ds = dec_str(s[0].1 as nat);
    crate::codec::lemma_dec_str_val(s[0].1 as nat);
    assert forall|i: int| 0 <= i < it.len() implies #[trigger] it[i] != ',' by {
        if i == 0 || i == 1 + s[0].0.len() as int || i == 3 + s[0].0.len() as int || i == it.len()
            - 1 {
            assert(it[i] == '"');
        } else if i < 1 + s[0].0.len() as int {
            assert(it[i] == s[0].0[i - 1]);
        } else if i == 2 + s[0].0.len() as int {
            assert(it[i] == ':');
        } else {
            assert(it[i] == ds[i - (4 + s[0].0.len() as int)]);
            assert(is_dec_digit(ds[i - (4 + s[0].0.len() as int)]));
        }
    }
    assert(jitem_ok(it) && jitem_denom(it) == s[0].0 && jitem_val(it) == s[0].1 as int) by {
        assert forall|i: int| 0 <= i < s[0].0.len() implies #[trigger] it.skip(1)[i] != '"' by {
            assert(it.skip(1)[i] == it[i + 1]);
            assert(it[i + 1] == s[0].0[i]);
        }
        assert(it.skip(1)[s[0].0.len() as int] == it[1 + s[0].0.len() as int]);
        lemma_until_quote(it.skip(1), s[0].0.len() as int);
        let uq = s[0].0.len() as int;
        assert(it.subrange(1, 1 + uq) =~= s[0].0);
        assert(it[2 + uq] == ':');
        assert(it[3 + uq] == '"');
        assert(it.last() == '"');
        assert(it.subrange(4 + uq, it.len() - 1) =~= ds);
    }
    if s.len() == 1 {
        lemma_until_comma(it, it.len() as int);
        assert(split_commas(jentries_text(s)) =~= seq![it]);
    } else {
        assert(bag_wf(s.skip(1))) by {
            assert(forall|t: int|
                0 <= t < s.skip(1).len() ==> #[trigger] s.skip(1)[t] == s[t + 1]);
        }
        lemma_jitems(s.skip(1));
        let whole = jentries_text(s);
        assert(whole == it + seq![','] + jentries_text(s.skip(1)));
        assert forall|i: int| 0 <= i < it.len() implies #[trigger] whole[i] != ',' by {
            assert(whole[i] == it[i]);
        }
        assert(whole[it.len() as int] == ',');
        lemma_until_comma(whole, it.len() as int);
        assert(whole.take(it.len() as int) =~= it);
        assert(whole.skip(it.len() as int + 1) =~= jentries_text(s.skip(1)));
        assert(split_commas(whole) == seq![it] + split_commas(jentries_text(s.skip(1))));
        assert forall|t: int|
            0 <= t < s.len() implies jitem_ok(#[trigger] split_commas(whole)[t]) && jitem_denom(
            split_commas(whole)[t],
        ) == s[t].0 && jitem_val(split_commas(whole)[t]) == s[t].1 as int by {
            if t == 0 {
                assert(split_commas(whole)[0] == it);
            } else {
                assert(split_commas(whole)[t] == split_commas(jentries_text(s.skip(1)))[t - 1]);
                assert(s.skip(1)[t - 1] == s[t]);
            }
        }
    }
}

/// Remove whitespace outside quoted sections.
fn strip_ws(s: &str) -> (r: String)
    ensures
        r@ == strip_q(s@, false),
{
    let n = s.unicode_len();
    let mut out = String::new();
    let mut i: usize = 0;
    let mut inq = false;
    proof {
        assert(s@.skip(0) =~= s@);
        assert(out@ + strip_q(s@, false) =~= strip_q(s@, false));
    }
    while i < n
        invariant
            0 <= i <= n,
            n == s@.len(),
            strip_q(s@, false) == out@ + strip_q(s@.skip(i as int), inq),
        decreases n - i,
    {
        let c = s.get_char(i);
        let ghost rem = s@.skip(i as int);
        proof {
            assert(rem[0] == s@[i as int]);
            assert(rem.skip(1) =~= s@.skip(i + 1));
        }
        if c == '"' {
            out.append(s.substring_char(i, i + 1));
            inq = !inq;
            proof {
                assert(s@.subrange(i as int, i + 1) =~= seq![s@[i as int]]);
                assert(strip_q(rem, !inq) == seq!['"'] + strip_q(s@.skip(i + 1), inq));
                assert(out@ + strip_q(s@.skip(i + 1), inq) =~= strip_q(s@, false));
            }
        } else if !inq && (c == ' ' || c == '\n' || c == '\t' || c == '\r') {
            proof {
                assert(is_json_ws(rem[0]));
                assert(strip_q(rem, inq) == strip_q(s@.skip(i + 1), inq));
            }
        } else {
            out.append(s.substring_char(i, i + 1));
            proof {
                assert(s@.subrange(i as int, i + 1) =~= seq![s@[i as int]]);
                assert(strip_q(rem, inq) == seq![rem[0]] + strip_q(s@.skip(i + 1), inq));
                assert(out@ + strip_q(s@.skip(i + 1), inq) =~= strip_q(s@, false));
            }
        }
        i = i + 1;
    }
    proof {
        assert(s@.skip(n as int).len() == 0);
        assert(strip_q(s@.skip(n as int), inq) == Seq::<char>::empty());
        assert(out@ =~= strip_q(s@, false));
    }
    out
}

/// Parse one serialized map entry into its denomination and amount.
#[verifier::rlimit(100)]
fn parse_json_item(seg: &String) -> (r: Result<(String, u128), CoinsError>)
    ensures
        match r {
            Ok((d, a)) => jitem_ok(seg@) && d@ == jitem_denom(seg@) && a as int == jitem_val(
                seg@,
            ),
            Err(_) => !jitem_ok(seg@),
        },
{
    let sref = seg.as_str();
    let n = sref.unicode_len();
    if n == 0 {
        return Err(CoinsError::Malformed);
    }
    if sref.get_char(0) != '"' {
        return Err(CoinsError::Malformed);
    }
    let mut q: usize = 1;
    while q < n
        invariant
            1 <= q <= n,
            n == seg@.len(),
            sref@ == seg@,
            forall|i: int| 1 <= i < q ==> #[trigger] seg@[i] != '"',
        ensures
            1 <= q <= n,
            n == seg@.len(),
            sref@ == seg@,
            forall|i: int| 1 <= i < q ==> #[trigger] seg@[i] != '"',
            q == n || seg@[q as int] == '"',
        decreases n - q,
    {
        if sref.get_char(q) == '"' {
            break ;
        }
        q = q + 1;
    }
    proof {
        assert forall|i: int| 0 <= i < q - 1 implies #[trigger] seg@.skip(1)[i] != '"' by {
            assert(seg@.skip(1)[i] == seg@[i + 1]);
        }
        if q < n {
            assert(seg@.skip(1)[q - 1] == seg@[q as int]);
        }
        lemma_until_quote(seg@.skip(1), q - 1);
        assert(until_quote(seg@.skip(1)) == q - 1);
    }
    if q == n {
        proof {
            assert(!jitem_ok(seg@));
        }
        return Err(CoinsError::Malformed);
    }
    if n - q < 4 {
        proof {
            assert(!jitem_ok(seg@));
        }
        return Err(CoinsError::Malformed);
    }
    if sref.get_char(q + 1) != ':' || sref.get_char(q + 2) != '"' || sref.get_char(n - 1) != '"' {
        proof {
            assert(!jitem_ok(seg@));
        }
        return Err(CoinsError::Malformed);
    }
    if n - 1 <= q + 3 {
        proof {
            assert(!jitem_ok(seg@));
        }
        return Err(CoinsError::Malformed);
    }
    let ghost uq = q - 1;
    let ghost vspec = seg@.subrange(3 + uq + 1, n - 1);
    let denom = sref.substring_char(1, q).to_owned();
    proof {
        assert(denom@ == seg@.subrange(1, 1 + uq));
    }
    let mut t: usize = 1;
    while t < q
        invariant
            1 <= t <= q < n,
            n == seg@.len(),
            sref@ == seg@,
            uq == q - 1,
            until_quote(seg@.skip(1)) == uq,
            forall|i: int| 1 <= i < t ==> #[trigger] seg@[i] != ',' && seg@[i] != '\\',
            t > 1 ==> !is_dec_digit(seg@[1]),
        decreases q - t,
    {
        let c = sref.get_char(t);
        if c == ',' || c == '\\' {
            proof {
                assert(seg@.subrange(1, 1 + uq)[t - 1] == seg@[t as int]);
                assert(!denom_ok(seg@.subrange(1, 1 + uq)));
                assert(!jitem_ok(seg@));
            }
            return Err(CoinsError::Malformed);
        }
        if t == 1 {
            let u = c as u32;
            if 48 <= u && u <= 57 {
                proof {
                    assert(is_dec_digit(seg@[1]));
                    assert(seg@.subrange(1, 1 + uq)[0] == seg@[1]);
                    assert(!denom_ok(seg@.subrange(1, 1 + uq)));
                    assert(!jitem_ok(seg@));
                }
                return Err(CoinsError::Malformed);
            }
            proof {
                assert(!is_dec_digit(seg@[1]));
            }
        }
        t = t + 1;
    }
    if q == 1 {
        proof {
            assert(seg@.subrange(1, 1 + uq).len() == 0);
            assert(!denom_ok(seg@.subrange(1, 1 + uq)));
            assert(!jitem_ok(seg@));
        }
        return Err(CoinsError::Malformed);
    }
    proof {
        assert(denom_ok(seg@.subrange(1, 1 + uq))) by {
            assert(seg@.subrange(1, 1 + uq).len() == uq >= 1);
            assert(seg@.subrange(1, 1 + uq)[0] == seg@[1]);
            assert forall|i: int|
                0 <= i < uq implies #[trigger] seg@.subrange(1, 1 + uq)[i] != ','
                && seg@.subrange(1, 1 + uq)[i] != '"' && seg@.subrange(1, 1 + uq)[i]
                != '\\' by {
                assert(seg@.subrange(1, 1 + uq)[i] == seg@[1 + i]);
            }
        }
    }
    let vstart = q + 3;
    let vend = n - 1;
    let mut acc: u128 = 0;
    let mut j: usize = vstart;
    proof {
        assert(vspec =~= seg@.subrange(vstart as int, vend as int));
        assert(seg@.subrange(vstart as int, vstart as int) =~= Seq::<char>::empty());
        assert(vspec.take(0) =~= Seq::<char>::empty());
    }
    while j < vend
        invariant
            vstart <= j <= vend < n,
            vstart == q + 3,
            1 <= q,
            uq == q - 1,
            until_quote(seg@.skip(1)) == uq,
            n == seg@.len(),
            sref@ == seg@,
            vend == n - 1,
            vspec == seg@.subrange(vstart as int, vend as int),
            forall|i: int| 0 <= i < j - vstart ==> is_dec_digit(#[trigger] vspec[i]),
            acc as int == dec_val(vspec.take(j - vstart)),
        decreases vend - j,
    {
        let c = sref.get_char(j);
        let u = c as u32;
        if u < 48 || u > 57 {
            proof {
                assert(vspec[j - vstart] == seg@[j as int]);
                assert(!is_dec_digit(vspec[j - vstart]));
                assert(!all_dec_digits(vspec));
                assert(!jitem_ok(seg@));
            }
            let token = sref.substring_char(vstart, vend).to_owned();
            return Err(CoinsError::InvalidAmount { amount: token });
        }
        let d = (u - 48) as u128;
        proof {
            assert(vspec[j - vstart] == seg@[j as int]);
            assert(is_dec_digit(vspec[j - vstart]));
            assert(vspec.take(j - vstart + 1).drop_last() =~= vspec.take(j - vstart));
            assert(vspec.take(j - vstart + 1).last() == vspec[j - vstart]);
        }
        let next = match acc.checked_mul(10) {
            Some(m) => m.checked_add(d),
            None => None,
        };
        match next {
            Some(v) => {
                acc = v;
            },
            None => {
                proof {
                    assert(dec_val(vspec.take(j - vstart + 1)) > u128::MAX);
                    assert(all_dec_digits(vspec.take(j - vstart + 1))) by {
                        assert(forall|i: int|
                            0 <= i < j - vstart + 1 ==> #[trigger] vspec.take(
                                j - vstart + 1,
                            )[i] == vspec[i]);
                    }
                    if all_dec_digits(vspec) {
                        crate::codec::lemma_dec_val_prefix_le(vspec, j - vstart + 1);
                        assert(dec_val(vspec) > u128::MAX);
                    }
                    assert(!jitem_ok(seg@));
                }
                let token = sref.substring_char(vstart, vend).to_owned();
                return Err(CoinsError::InvalidAmount { amount: token });
            },
        }
        j = j + 1;
    }
    proof {
        assert(vspec.take(vend - vstart) =~= vspec);
        assert(all_dec_digits(vspec));
    }
    if acc == 0 {
        proof {
            assert(!jitem_ok(seg@));
        }
        return Err(CoinsError::ZeroForDenom { denom });
    }
    proof {
        assert(jitem_ok(seg@));
        assert(jitem_denom(seg@) == seg@.subrange(1, 1 + uq));
        assert(jitem_val(seg@) == dec_val(vspec));
    }
    Ok((denom, acc))
}

impl Coins {
    /// Parse a structured coin map in any key order, tolerating
    /// whitespace; fails on malformed entries, a zero or out-of-range
    /// amount, or a repeated denomination.
    pub fn from_json(s: &str) -> (r: Result<Coins, CoinsError>)
        ensures
            ({
                let t = strip_q(s@, false);
                let items = split_commas(t.subrange(1, t.len() - 1));
                match r {
                    Ok(bag) => {
                        &&& json_wf(s@)
                        &&& (t.len() == 2 ==> bag@ == Seq::<(Seq<char>, u128)>::empty())
                        &&& (t.len() > 2 ==> {
                            &&& forall|i: int|
                                0 <= i < items.len() ==> bag_amount(
                                    bag@,
                                    jitem_denom(#[trigger] items[i]),
                                ) == jitem_val(items[i])
                            &&& forall|d: Seq<char>|
                                #[trigger] bag_has(bag@, d) ==> exists|i: int|
                                    0 <= i < items.len() && jitem_denom(#[trigger] items[i]) == d
                        })
                    },
                    Err(_) => !json_wf(s@),
                }
            }),
    {
        let stripped = strip_ws(s);
        let ghost t = strip_q(s@, false);
        let m = stripped.as_str().unicode_len();
        if m < 2 {
            return Err(CoinsError::Malformed);
        }
        if stripped.as_str().get_char(0) != '{' || stripped.as_str().get_char(m - 1) != '}' {
            return Err(CoinsError::Malformed);
        }
        if m == 2 {
            let bag = Coins::new();
            return Ok(bag);
        }
        let inner = stripped.as_str().substring_char(1, m - 1).to_owned();
        proof {
            assert(inner@ == t.subrange(1, t.len() - 1));
        }
        let segs = split_str(inner.as_str());
        let ghost items = split_commas(t.subrange(1, t.len() - 1));
        let mut bag = Coins::new();
        let mut i: usize = 0;
        while i < segs.len()
            invariant
                0 <= i <= segs@.len(),
                t == strip_q(s@, false),
                t.len() > 2,
                t[0] == '{',
                t.last() == '}',
                items == split_commas(t.subrange(1, t.len() - 1)),
                segs@.map_values(|x: String| x@) == items,
                items.len() == segs@.len(),
                forall|k: int| 0 <= k < i ==> jitem_ok(#[trigger] items[k]),
                forall|k: int|
                    0 <= k < i ==> bag_amount(bag@, jitem_denom(#[trigger] items[k]))
                        == jitem_val(items[k]),
                forall|d: Seq<char>|
                    #[trigger] bag_has(bag@, d) ==> exists|k: int|
                        0 <= k < i && jitem_denom(#[trigger] items[k]) == d,
                forall|k1: int, k2: int|
                    0 <= k1 < k2 < i ==> jitem_denom(#[trigger] items[k1]) != jitem_denom(
                        #[trigger] items[k2],
                    ),
            decreases segs@.len() - i,
        {
            proof {
                assert(segs@[i as int]@ == items[i as int]);
            }
            let parsed = parse_json_item(&segs[i]);
            let (denom, amount) = match parsed {
                Ok(pair) => pair,
                Err(e) => {
                    proof {
                        assert(!jitem_ok(items[i as int]));
                        assert(!json_wf(s@));
                    }
                    return Err(e);
                },
            };
            let (pos, found) = bag.position_of(&denom);
            if found {
                proof {
                    assert(bag@[pos as int].0 == denom@);
                    assert(bag_has(bag@, denom@));
                    let k = choose|k: int|
                        0 <= k < i && jitem_denom(#[trigger] items[k]) == denom@;
                    assert(jitem_denom(items[k]) == jitem_denom(items[i as int]));
                    assert(!json_wf(s@));
                }
                return Err(CoinsError::DuplicateDenom { denom });
            }
            proof {
                assert(!bag_has(bag@, denom@));
            }
            let coin = Coin { denom, amount };
            match bag.add(&coin) {
                Ok(_) => {},
                Err(_) => {
                    proof {
                        assert(bag_amount(bag@, coin.denom@) == 0);
                        assert(false);
                    }
                    return Err(CoinsError::Overflow);
                },
            }
            i = i + 1;
        }
        Ok(bag)
    }

    /// Render the bag as the canonical structured map, sorted ascending by
    /// denomination, without whitespace.
    pub fn to_json(&self) -> (r: String)
        ensures
            r@ == json_text(self@),
    {
        proof {
            use_type_invariant(self);
            reveal_strlit("{");
            reveal_strlit("}");
            reveal_strlit("\"");
            reveal_strlit("\":\"");
            reveal_strlit(",");
        }
        let mut out = String::from_str("{");
        proof {
            assert(out@ =~= seq!['{']);
        }
        let mut i: usize = 0;
        while i < self.list.len()
            invariant
                0 <= i <= self.list@.len(),
                self@.len() == self.list@.len(),
                out@ == seq!['{'] + jentries_text(self@.take(i as int)),
            decreases self.list@.len() - i,
        {
            let ghost pre = self@.take(i as int);
            proof {
                reveal_strlit("{");
                reveal_strlit("\"");
                reveal_strlit("\":\"");
                reveal_strlit(",");
            }
            if i > 0 {
                out.append(",");
            }
            out.append("\"");
            out.append(self.list[i].denom.as_str());
            out.append("\":\"");
            let amount_text = crate::codec::u128_to_dec(self.list[i].amount);
            out.append(amount_text.as_str());
            out.append("\"");
            proof {
                assert(self@[i as int].0 == self.list@[i as int].denom@);
                assert(self@[i as int].1 == self.list@[i as int].amount);
                lemma_jentries_snoc(pre, self@[i as int]);
                assert(self@.take(i + 1) =~= pre.push(self@[i as int]));
                assert(","@ =~= seq![',']);
                assert("\""@ =~= seq!['"']);
                assert("\":\""@ =~= seq!['"', ':', '"']);
                assert(jentry_text(self@[i as int]) == seq!['"'] + self@[i as int].0 + seq![
                    '"',
                    ':',
                    '"',
                ] + dec_str(self@[i as int].1 as nat) + seq!['"']);
                if i == 0 {
                    assert(pre =~= Seq::<(Seq<char>, u128)>::empty());
                    assert(jentries_text(Seq::<(Seq<char>, u128)>::empty())
                        == Seq::<char>::empty());
                    assert(out@ =~= seq!['{'] + jentry_text(self@[i as int]));
                } else {
                    assert(out@ =~= seq!['{'] + (jentries_text(pre) + seq![','] + jentry_text(
                        self@[i as int],
                    )));
                }
            }
            i = i + 1;
        }
        out.append("}");
        proof {
            reveal_strlit("}");
            assert("}"@ =~= seq!['}']);
            assert(self@.take(self@.len() as int) =~= self@);
            assert(out@ =~= json_text(self@));
        }
        out
    }
}

} // verus!
