//! Self-delimiting variable-length encoding of unsigned 64-bit integers.
//!
//! An integer is serialized in base-128, little-endian: the low seven bits of
//! each byte carry payload, the high bit is set iff more bytes follow.  The
//! final byte has the high bit clear.  A 64-bit value needs at most ten bytes.

use vstd::arithmetic::div_mod::{
    lemma_div_decreases, lemma_fundamental_div_mod, lemma_fundamental_div_mod_converse,
};
use vstd::pervasive::unreached;
use vstd::prelude::*;
use vstd::slice::slice_subrange;

use crate::error::EncodeError;

verus! {

/// The integer denoted by a little-endian base-128 byte string (continuation
/// bits are masked off; an empty string denotes zero).
pub open spec fn vi_value(s: Seq<u8>) -> nat
    decreases s.len(),
{
    if s.len() == 0 {
        0
    } else {
        ((s[0] % 128) as nat) + 128 * vi_value(s.skip(1))
    }
}

/// The canonical base-128 encoding of an integer: low seven bits first, the
/// high bit marking every byte that has a successor.
pub open spec fn vi_encode(n: nat) -> Seq<u8>
    decreases n,
    via vi_encode_dec
{
    if n < 128 {
        seq![n as u8]
    } else {
        seq![(n % 128 + 128) as u8] + vi_encode(n / 128)
    }
}

#[via_fn]
proof fn vi_encode_dec(n: nat) {
    if n >= 128 {
        lemma_div_decreases(n as int, 128);
    }
}

/// The position of the first byte with a clear continuation bit, if any.
pub open spec fn vi_term_at(s: Seq<u8>) -> Option<int>
    decreases s.len(),
{
    if s.len() == 0 {
        None
    } else if s[0] < 128 {
        Some(0)
    } else {
        match vi_term_at(s.skip(1)) {
            Some(i) => Some(i + 1),
            None => None,
        }
    }
}

/// What reading a byte string back as a `u64` yields: the value of the bytes
/// up to and including the first terminator; `Overflow` once ten continuation
/// bytes have been seen or when the payload exceeds 64 bits; `InvalidLength`
/// when the bytes end with the continuation bit still set.
pub open spec fn vi_to_u64_spec(s: Seq<u8>) -> Result<u64, EncodeError> {
    match vi_term_at(s) {
        Some(k) => if k >= 10 {
            Err(EncodeError::Overflow)
        } else if vi_value(s.take(k + 1)) >= 0x10000000000000000 {
            Err(EncodeError::Overflow)
        } else {
            Ok(vi_value(s.take(k + 1)) as u64)
        },
        None => if s.len() >= 11 {
            Err(EncodeError::Overflow)
        } else {
            Err(EncodeError::InvalidLength)
        },
    }
}

/// What reading one variable-sized id off the front of a byte stream yields:
/// the id's bytes and how many bytes were consumed, or the error that
/// `vi_to_u64_spec` describes for an unterminated or overlong head.
pub open spec fn vi_read_spec(s: Seq<u8>) -> Result<(Seq<u8>, int), EncodeError> {
    match vi_term_at(s) {
        Some(k) => if k <= 9 {
            Ok((s.take(k + 1), k + 1))
        } else {
            Err(EncodeError::Overflow)
        },
        None => if s.len() >= 11 {
            Err(EncodeError::Overflow)
        } else {
            Err(EncodeError::InvalidLength)
        },
    }
}

/// A structurally well-formed identifier byte string: every byte but the
/// last carries the continuation bit, the last does not, and the length is
/// at most ten bytes.
pub open spec fn vi_swf(s: Seq<u8>) -> bool {
    &&& 1 <= s.len() <= 10
    &&& (forall|i: int| 0 <= i < s.len() - 1 ==> s[i] >= 128)
    &&& s[s.len() - 1] < 128
}

/// A well-formed identifier byte string whose denoted value also fits in 64
/// bits.
pub open spec fn vi_wf(s: Seq<u8>) -> bool {
    &&& vi_swf(s)
    &&& vi_value(s) < 0x10000000000000000
}

/// `128^k`.
pub open spec fn pow128(k: nat) -> nat
    decreases k,
{
    if k == 0 {
        1
    } else {
        128 * pow128((k - 1) as nat)
    }
}

/// A node identifier held in its variable-length serialized form.
///
/// Equality and hashing are defined on the byte representation; the canonical
/// encoding of an integer is unique, so encodings of equal integers are
/// byte-identical.
#[derive(Debug, Clone, PartialEq, Eq, Hash)]
pub struct VariableSizedId {
    pub value: Vec<u8>,
}

impl VariableSizedId {
    /// The bytes are a well-formed identifier.
    pub open spec fn wf(self) -> bool {
        vi_wf(self.value@)
    }

    /// The integer the bytes denote.
    pub open spec fn val(self) -> nat {
        vi_value(self.value@)
    }

    /// The bytes are the canonical encoding of the value they denote.
    pub open spec fn canonical(self) -> bool {
        self.value@ == vi_encode(self.val())
    }

    /// Serializes `value` in base-128 with continuation bits.
    pub fn new(value: u64) -> (r: Self)
        ensures
            r.value@ == vi_encode(value as nat),
            r.wf(),
            r.canonical(),
            r.val() == value as nat,
    {
        let mut bytes: Vec<u8> = Vec::new();
        let mut v: u64 = value;
        loop
            invariant_except_break
                vi_encode(value as nat) == bytes@ + vi_encode(v as nat),
            ensures
                bytes@ == vi_encode(value as nat),
            decreases v,
        {
            if v < 128 {
                bytes.push(v as u8);
                proof {
                    assert(vi_encode(v as nat) =~= seq![v as u8]);
                    assert(bytes@ =~= vi_encode(value as nat));
                }
                break;
            } else {
                let b: u8 = ((v % 128) + 128) as u8;
                let ghost old_bytes = bytes@;
                bytes.push(b);
                proof {
                    assert(vi_encode(v as nat) == seq![(v as nat % 128 + 128) as u8]
                        + vi_encode(v as nat / 128));
                    assert(bytes@ + vi_encode((v / 128) as nat) =~= old_bytes + vi_encode(
                        v as nat,
                    ));
                }
                v = v / 128;
            }
        }
        proof {
            lemma_vi_encode_value(value as nat);
            lemma_vi_encode_structural(value as nat);
        }
        Self { value: bytes }
    }

    /// Returns the length of the serialized form in bytes.
    pub fn bytes_len(&self) -> (r: usize)
        ensures
            r == self.value@.len(),
    {
        self.value.len()
    }

    /// Reads the held bytes back as a `u64`, masking the continuation bits.
    pub fn to_u64(&self) -> (r: Result<u64, EncodeError>)
        ensures
            r == vi_to_u64_spec(self.value@),
    {
        let ghost sq = self.value@;
        let mut acc: u64 = 0;
        let mut mult: u64 = 1;
        let mut i: usize = 0;
        proof {
            reveal_with_fuel(pow128, 10);
            assert(sq.take(0) =~= Seq::<u8>::empty());
        }
        loop
            invariant
                0 <= i <= sq.len(),
                i <= 10,
                sq == self.value@,
                forall|j: int| 0 <= j < i ==> sq[j] >= 128,
                i <= 9 ==> mult == pow128(i as nat),
                i <= 9 ==> acc == vi_value(sq.take(i as int)),
                pow128(9) == 0x8000000000000000,
            decreases sq.len() - i + 1,
        {
            if i >= self.value.len() {
                proof {
                    lemma_vi_term_all_high(sq, sq.len() as int);
                }
                return Err(EncodeError::InvalidLength);
            }
            if i >= 10 {
                proof {
                    lemma_vi_term_all_high(sq, 10);
                }
                return Err(EncodeError::Overflow);
            }
            let b = self.value[i];
            let low: u8 = b % 128;
            proof {
                lemma_vi_value_take_succ(sq, i as int);
                lemma_vi_value_take_bound(sq, i as int);
                lemma_pow128_mono(i as nat, 9);
            }
            if b < 128 {
                proof {
                    lemma_vi_term_at_exact(sq, i as int);
                }
                if i == 9 && low > 1 {
                    proof {
                        assert(sq[9] == b);
                        assert(((sq[9] % 128) as nat) == low as nat);
                        assert(vi_value(sq.take(10)) == vi_value(sq.take(9)) + (low as nat)
                            * pow128(9));
                        assert((low as nat) * pow128(9) >= 2 * pow128(9)) by (nonlinear_arith)
                            requires
                                low >= 2,
                                pow128(9) >= 0,
                        ;
                        assert(vi_value(sq.take(10)) >= 0x10000000000000000);
                    }
                    return Err(EncodeError::Overflow);
                }
                proof {
                    if i < 9 {
                        lemma_pow128_mono(i as nat + 1, 9);
                        assert(vi_value(sq.take(i as int)) + ((low % 128) as nat) * pow128(
                            i as nat,
                        ) < pow128(i as nat + 1)) by (nonlinear_arith)
                            requires
                                vi_value(sq.take(i as int)) < pow128(i as nat),
                                low < 128,
                                pow128(i as nat + 1) == 128 * pow128(i as nat),
                        ;
                    }
                }
                let r = acc + (low as u64) * mult;
                return Ok(r);
            }
            if i < 9 {
                proof {
                    lemma_pow128_mono(i as nat + 1, 9);
                    assert(vi_value(sq.take(i as int)) + ((low % 128) as nat) * pow128(i as nat)
                        < pow128(i as nat + 1)) by (nonlinear_arith)
                        requires
                            vi_value(sq.take(i as int)) < pow128(i as nat),
                            low < 128,
                            pow128(i as nat + 1) == 128 * pow128(i as nat),
                    ;
                }
                acc = acc + (low as u64) * mult;
                mult = mult * 128;
            }
            i = i + 1;
        }
    }

    /// Serializes as a one-byte length prefix followed by the id bytes.
    pub fn encode(&self) -> (r: Vec<u8>)
        requires
            self.value@.len() <= 255,
        ensures
            r@ == seq![self.value@.len() as u8] + self.value@,
    {
        let mut out: Vec<u8> = Vec::new();
        out.push(self.value.len() as u8);
        let mut i: usize = 0;
        while i < self.value.len()
            invariant
                0 <= i <= self.value@.len(),
                self.value@.len() <= 255,
                out@ == seq![self.value@.len() as u8] + self.value@.take(i as int),
            decreases self.value@.len() - i,
        {
            out.push(self.value[i]);
            i = i + 1;
            proof {
                assert(seq![self.value@.len() as u8] + self.value@.take(i as int) =~= (seq![
                    self.value@.len() as u8,
                ] + self.value@.take(i - 1)).push(self.value@[i - 1]));
            }
        }
        proof {
            assert(self.value@.take(self.value@.len() as int) =~= self.value@);
        }
        out
    }

    /// Parses the length-prefixed form produced by [`Self::encode`].
    pub fn decode(id: &[u8]) -> (r: Result<Self, EncodeError>)
        ensures
            match r {
                Ok(v) => id@.len() >= 1 && id@.len() >= 1 + id@[0] as int && v.value@
                    == id@.subrange(1, 1 + id@[0] as int),
                Err(e) => e == EncodeError::InvalidLength && (id@.len() == 0 || id@.len() < 1
                    + id@[0] as int),
            },
    {
        if id.len() == 0 {
            return Err(EncodeError::InvalidLength);
        }
        let size = id[0] as usize;
        if id.len() < size + 1 {
            return Err(EncodeError::InvalidLength);
        }
        let sub = slice_subrange(id, 1, size + 1);
        let mut value: Vec<u8> = Vec::new();
        let mut i: usize = 0;
        while i < sub.len()
            invariant
                0 <= i <= sub@.len(),
                value@ == sub@.take(i as int),
            decreases sub@.len() - i,
        {
            value.push(sub[i]);
            i = i + 1;
            proof {
                assert(sub@.take(i as int) =~= sub@.take(i - 1).push(sub@[i - 1]));
            }
        }
        proof {
            assert(sub@.take(sub@.len() as int) =~= sub@);
        }
        Ok(Self { value })
    }

    /// Adds `rhs`, re-encoding canonically; fails if the held bytes do not
    /// read back as a `u64` or the sum overflows.
    pub fn checked_plus(&self, rhs: u64) -> (r: Result<Self, EncodeError>)
        ensures
            match vi_to_u64_spec(self.value@) {
                Ok(x) => if x + rhs < 0x10000000000000000 {
                    r matches Ok(v) && v.value@ == vi_encode((x + rhs) as nat)
                } else {
                    r == Err::<Self, _>(EncodeError::Overflow)
                },
                Err(e) => r == Err::<Self, _>(e),
            },
    {
        let x = match self.to_u64() {
            Ok(x) => x,
            Err(e) => {
                return Err(e);
            },
        };
        match x.checked_add(rhs) {
            Some(sum) => Ok(Self::new(sum)),
            None => Err(EncodeError::Overflow),
        }
    }

    /// Adds `rhs` to a well-formed id whose sum is known not to overflow.
    pub fn unchecked_plus(&self, rhs: u64) -> (r: Self)
        requires
            self.wf(),
            self.val() + rhs < 0x10000000000000000,
        ensures
            r.value@ == vi_encode((self.val() + rhs) as nat),
            r.wf(),
            r.canonical(),
            r.val() == self.val() + rhs,
    {
        proof {
            lemma_vi_wf_to_u64(self.value@);
        }
        let x = match self.to_u64() {
            Ok(x) => x,
            Err(_) => unreached(),
        };
        proof {
            lemma_vi_encode_value((x + rhs) as nat);
            lemma_vi_encode_structural((x + rhs) as nat);
        }
        Self::new(x + rhs)
    }

    /// Subtracts `rhs` from a well-formed id at least as large as `rhs`.
    pub fn unchecked_minus(&self, rhs: u64) -> (r: Self)
        requires
            self.wf(),
            rhs <= self.val(),
        ensures
            r.value@ == vi_encode((self.val() - rhs) as nat),
            r.wf(),
            r.canonical(),
            r.val() == self.val() - rhs,
    {
        proof {
            lemma_vi_wf_to_u64(self.value@);
        }
        let x = match self.to_u64() {
            Ok(x) => x,
            Err(_) => unreached(),
        };
        proof {
            lemma_vi_encode_value((x - rhs) as nat);
            lemma_vi_encode_structural((x - rhs) as nat);
        }
        Self::new(x - rhs)
    }
}

/// Reads one complete variable-sized id off the front of a byte stream and
/// returns it with the number of bytes consumed.
pub fn read_variable_sized_id(data: &[u8]) -> (r: Result<(VariableSizedId, usize), EncodeError>)
    ensures
        match r {
            Ok((vid, n)) => vi_read_spec(data@) == Ok::<_, EncodeError>((vid.value@, n as int)),
            Err(e) => vi_read_spec(data@) == Err::<(Seq<u8>, int), _>(e),
        },
{
    let ghost sq = data@;
    let mut bytes: Vec<u8> = Vec::new();
    let mut i: usize = 0;
    loop
        invariant
            0 <= i <= sq.len(),
            i <= 10,
            sq == data@,
            forall|j: int| 0 <= j < i ==> sq[j] >= 128,
            bytes@ == sq.take(i as int),
        decreases sq.len() - i + 1,
    {
        if i >= data.len() {
            proof {
                lemma_vi_term_all_high(sq, sq.len() as int);
            }
            return Err(EncodeError::InvalidLength);
        }
        if i >= 10 {
            proof {
                lemma_vi_term_all_high(sq, 10);
            }
            return Err(EncodeError::Overflow);
        }
        let b = data[i];
        bytes.push(b);
        i = i + 1;
        proof {
            assert(sq.take(i as int) =~= sq.take(i - 1).push(sq[i - 1]));
        }
        if b < 128 {
            proof {
                lemma_vi_term_at_exact(sq, i - 1);
            }
            return Ok((VariableSizedId { value: bytes }, i));
        }
    }
}

/// The canonical encoding round-trips: decoding it yields the integer again.
pub proof fn lemma_vi_encode_value(n: nat)
    ensures
        vi_value(vi_encode(n)) == n,
    decreases n,
{
    if n < 128 {
        assert(vi_encode(n) == seq![n as u8]);
        assert(seq![n as u8].skip(1) =~= Seq::<u8>::empty());
        assert(vi_value(Seq::<u8>::empty()) == 0);
        assert(vi_value(seq![n as u8]) == n);
    } else {
        lemma_div_decreases(n as int, 128);
        lemma_vi_encode_value(n / 128);
        let b = (n % 128 + 128) as u8;
        let s = vi_encode(n);
        assert(s == seq![b] + vi_encode(n / 128));
        assert(s.skip(1) =~= vi_encode(n / 128));
        assert((b % 128) as nat == n % 128);
        lemma_fundamental_div_mod(n as int, 128);
    }
}

/// Structure of the canonical encoding: continuation bits are exactly where
/// they must be, the length is between one and ten bytes for a 64-bit value,
/// a positive integer encodes with no zero byte, and the final byte of a
/// multi-byte encoding is never zero.
pub proof fn lemma_vi_encode_structural(n: nat)
    ensures
        1 <= vi_encode(n).len(),
        forall|i: int| 0 <= i < vi_encode(n).len() - 1 ==> vi_encode(n)[i] >= 128,
        vi_encode(n)[vi_encode(n).len() - 1] < 128,
        n >= 1 ==> forall|i: int| 0 <= i < vi_encode(n).len() ==> vi_encode(n)[i] != 0,
        n >= 128 ==> vi_encode(n)[vi_encode(n).len() - 1] != 0,
        n < 0x10000000000000000 ==> vi_encode(n).len() <= 10,
    decreases n,
{
    if n < 128 {
        assert(vi_encode(n) == seq![n as u8]);
    } else {
        lemma_div_decreases(n as int, 128);
        lemma_vi_encode_structural(n / 128);
        let b = (n % 128 + 128) as u8;
        let s = vi_encode(n);
        let rest = vi_encode(n / 128);
        assert(s == seq![b] + rest);
        assert(forall|i: int| 1 <= i < s.len() ==> s[i] == rest[i - 1]);
        assert(n / 128 >= 1) by {
            lemma_fundamental_div_mod(n as int, 128);
        }
        if n < 0x10000000000000000 {
            lemma_vi_encode_len10(n);
        }
    }
}

/// Helper bound: a 64-bit value encodes in at most ten bytes.
proof fn lemma_vi_encode_len10(n: nat)
    requires
        n < 0x10000000000000000,
    ensures
        vi_encode(n).len() <= 10,
{
    assert(pow128(10) == 0x400000000000000000) by {
        reveal_with_fuel(pow128, 11);
    }
    lemma_vi_encode_len_pow(n, 10);
}

/// An integer below `128^k` encodes in at most `k` bytes.
proof fn lemma_vi_encode_len_pow(n: nat, k: nat)
    requires
        1 <= k,
        n < pow128(k),
    ensures
        vi_encode(n).len() <= k,
    decreases n,
{
    if n < 128 {
    } else {
        lemma_div_decreases(n as int, 128);
        assert(pow128(k) == 128 * pow128((k - 1) as nat));
        assert(n / 128 < pow128((k - 1) as nat)) by {
            lemma_fundamental_div_mod(n as int, 128);
            assert(n == 128 * (n / 128) + n % 128);
            assert(128 * (n / 128) < 128 * pow128((k - 1) as nat));
            assert((n / 128) < pow128((k - 1) as nat)) by (nonlinear_arith)
                requires
                    128 * (n / 128) < 128 * pow128((k - 1) as nat),
            ;
        }
        assert(k >= 2) by {
            if k == 1 {
                assert(pow128(1nat) == 128);
            }
        }
        lemma_vi_encode_len_pow(n / 128, (k - 1) as nat);
    }
}

/// `128^k` is positive.
proof fn lemma_pow128_pos(k: nat)
    ensures
        pow128(k) >= 1,
    decreases k,
{
    if k > 0 {
        lemma_pow128_pos((k - 1) as nat);
    }
}

/// `128^k` grows with `k`.
proof fn lemma_pow128_mono(a: nat, b: nat)
    requires
        a <= b,
    ensures
        pow128(a) <= pow128(b),
        pow128(a) >= 1,
    decreases b,
{
    lemma_pow128_pos(a);
    if a < b {
        lemma_pow128_mono(a, (b - 1) as nat);
        lemma_pow128_pos((b - 1) as nat);
    }
}

/// Where the terminator position points: at the first byte with a clear
/// continuation bit, with every earlier byte carrying it; when there is no
/// terminator, every byte carries it.
pub proof fn lemma_vi_term_props(s: Seq<u8>)
    ensures
        match vi_term_at(s) {
            Some(k) => 0 <= k < s.len() && s[k] < 128 && (forall|j: int|
                0 <= j < k ==> s[j] >= 128),
            None => forall|j: int| 0 <= j < s.len() ==> s[j] >= 128,
        },
    decreases s.len(),
{
    if s.len() == 0 {
    } else if s[0] < 128 {
    } else {
        let t = s.skip(1);
        lemma_vi_term_props(t);
        match vi_term_at(t) {
            Some(i) => {
                assert(vi_term_at(s) == Some(i + 1));
                assert(s[i + 1] == t[i]);
                assert forall|j: int| 0 <= j < i + 1 implies s[j] >= 128 by {
                    if j >= 1 {
                        assert(s[j] == t[j - 1]);
                    }
                }
            },
            None => {
                assert forall|j: int| 0 <= j < s.len() implies s[j] >= 128 by {
                    if j >= 1 {
                        assert(s[j] == t[j - 1]);
                    }
                }
            },
        }
    }
}

/// If the first `m` bytes all carry the continuation bit, no terminator lies
/// before position `m`.
proof fn lemma_vi_term_all_high(s: Seq<u8>, m: int)
    requires
        0 <= m <= s.len(),
        forall|j: int| 0 <= j < m ==> s[j] >= 128,
    ensures
        match vi_term_at(s) {
            Some(k) => k >= m,
            None => true,
        },
        m == s.len() ==> vi_term_at(s) is None,
{
    lemma_vi_term_props(s);
}

/// If the bytes before `k` all carry the continuation bit and byte `k` does
/// not, the terminator is exactly at `k`.
pub proof fn lemma_vi_term_at_exact(s: Seq<u8>, k: int)
    requires
        0 <= k < s.len(),
        forall|j: int| 0 <= j < k ==> s[j] >= 128,
        s[k] < 128,
    ensures
        vi_term_at(s) == Some(k),
{
    lemma_vi_term_props(s);
    match vi_term_at(s) {
        Some(k2) => {
            if k2 < k {
                assert(s[k2] >= 128);
            } else if k2 > k {
                assert(s[k] >= 128);
            }
        },
        None => {
            assert(s[k] >= 128);
        },
    }
}

/// Peeling one more byte into the running value adds its payload scaled by
/// `128^i`.
proof fn lemma_vi_value_take_succ(s: Seq<u8>, i: int)
    requires
        0 <= i < s.len(),
    ensures
        vi_value(s.take(i + 1)) == vi_value(s.take(i)) + ((s[i] % 128) as nat) * pow128(i as nat),
    decreases i,
{
    if i == 0 {
        assert(s.take(1) =~= seq![s[0]]);
        assert(seq![s[0]].skip(1) =~= Seq::<u8>::empty());
        assert(s.take(0) =~= Seq::<u8>::empty());
        assert(vi_value(Seq::<u8>::empty()) == 0);
        assert(vi_value(s.take(1)) == ((s[0] % 128) as nat));
        assert(vi_value(s.take(0)) == 0);
        assert(pow128(0) == 1);
        assert(((s[0] % 128) as nat) * 1 == ((s[0] % 128) as nat)) by (nonlinear_arith);
        assert(vi_value(s.take(i + 1)) == vi_value(s.take(i)) + ((s[i] % 128) as nat) * pow128(
            i as nat,
        ));
    } else {
        let t = s.skip(1);
        lemma_vi_value_take_succ(t, i - 1);
        assert(s.take(i + 1).skip(1) =~= t.take(i));
        assert(s.take(i).skip(1) =~= t.take(i - 1));
        assert(s.take(i + 1)[0] == s[0]);
        assert(s.take(i)[0] == s[0]);
        assert(vi_value(s.take(i + 1)) == ((s[0] % 128) as nat) + 128 * vi_value(t.take(i)));
        assert(vi_value(s.take(i)) == ((s[0] % 128) as nat) + 128 * vi_value(t.take(i - 1)));
        assert(t[i - 1] == s[i]);
        assert(pow128(i as nat) == 128 * pow128((i - 1) as nat));
        assert(128 * vi_value(t.take(i)) == 128 * vi_value(t.take(i - 1)) + ((s[i]
            % 128) as nat) * pow128(i as nat)) by (nonlinear_arith)
            requires
                vi_value(t.take(i)) == vi_value(t.take(i - 1)) + ((s[i] % 128) as nat) * pow128(
                    (i - 1) as nat,
                ),
                pow128(i as nat) == 128 * pow128((i - 1) as nat),
        ;
        assert(vi_value(s.take(i + 1)) == vi_value(s.take(i)) + ((s[i] % 128) as nat) * pow128(
            i as nat,
        ));
    }
}

/// The value of `i` bytes is below `128^i`.
proof fn lemma_vi_value_take_bound(s: Seq<u8>, i: int)
    requires
        0 <= i <= s.len(),
    ensures
        vi_value(s.take(i)) < pow128(i as nat),
    decreases i,
{
    if i == 0 {
        assert(s.take(0) =~= Seq::<u8>::empty());
    } else {
        lemma_vi_value_take_bound(s, i - 1);
        lemma_vi_value_take_succ(s, i - 1);
        assert(((s[i - 1] % 128) as nat) * pow128((i - 1) as nat) <= 127 * pow128((i - 1) as nat))
            by (nonlinear_arith)
            requires
                ((s[i - 1] % 128) as nat) <= 127,
                pow128((i - 1) as nat) >= 0,
        ;
        assert(pow128(i as nat) == 128 * pow128((i - 1) as nat));
    }
}

/// A successful read yields a structurally well-formed id that is exactly
/// the consumed prefix of the stream.
pub proof fn lemma_vi_read_swf(s: Seq<u8>, b: Seq<u8>, n: int)
    requires
        vi_read_spec(s) == Ok::<_, EncodeError>((b, n)),
    ensures
        vi_swf(b),
        n == b.len(),
        b == s.take(n),
        1 <= n <= 10,
        n <= s.len(),
{
    lemma_vi_term_props(s);
    let k = vi_term_at(s)->Some_0;
    assert(b == s.take(k + 1));
    assert(b.len() == k + 1);
    assert(b[b.len() - 1] == s[k]);
    assert(forall|i: int| 0 <= i < b.len() - 1 ==> b[i] == s[i]);
}

/// A structurally well-formed id reads back as its value when that value
/// fits in 64 bits, and fails with `Overflow` otherwise.
pub proof fn lemma_vi_swf_to_u64(s: Seq<u8>)
    requires
        vi_swf(s),
    ensures
        vi_to_u64_spec(s) == if vi_value(s) < 0x10000000000000000 {
            Ok::<u64, EncodeError>(vi_value(s) as u64)
        } else {
            Err::<u64, EncodeError>(EncodeError::Overflow)
        },
{
    lemma_vi_term_at_exact(s, s.len() - 1);
    assert(s.take(s.len() as int) =~= s);
}

/// A well-formed id reads back as its value.
pub proof fn lemma_vi_wf_to_u64(s: Seq<u8>)
    requires
        vi_wf(s),
    ensures
        vi_to_u64_spec(s) == Ok::<u64, EncodeError>(vi_value(s) as u64),
{
    lemma_vi_term_at_exact(s, s.len() - 1);
    assert(s.take(s.len() as int) =~= s);
}

/// Round trip: reading the canonical encoding of any 64-bit value consumes
/// exactly the encoding and yields the value again; the encoding is between
/// one and ten bytes long.
pub proof fn lemma_varid_round_trip(x: u64)
    ensures
        vi_read_spec(vi_encode(x as nat)) == Ok::<_, EncodeError>(
            (vi_encode(x as nat), vi_encode(x as nat).len() as int),
        ),
        vi_to_u64_spec(vi_encode(x as nat)) == Ok::<u64, EncodeError>(x),
        1 <= vi_encode(x as nat).len() <= 10,
{
    let s = vi_encode(x as nat);
    lemma_vi_encode_value(x as nat);
    lemma_vi_encode_structural(x as nat);
    lemma_vi_wf_to_u64(s);
    lemma_vi_term_at_exact(s, s.len() - 1);
    assert(s.take(s.len() as int) =~= s);
}

/// The canonical encoding is prefix-free: streams that open with the
/// encodings of two different integers differ, whatever follows them.
pub proof fn lemma_vi_encode_prefix_free(a: nat, b: nat, s1: Seq<u8>, s2: Seq<u8>)
    requires
        a != b,
    ensures
        vi_encode(a) + s1 != vi_encode(b) + s2,
    decreases a,
{
    let x = vi_encode(a) + s1;
    let y = vi_encode(b) + s2;
    if x == y {
        assert(x[0] == vi_encode(a)[0]);
        assert(y[0] == vi_encode(b)[0]);
        if a < 128 && b < 128 {
            assert(vi_encode(a)[0] == a as u8);
            assert(vi_encode(b)[0] == b as u8);
        } else if a < 128 {
            assert(vi_encode(a)[0] < 128);
            assert(vi_encode(b)[0] >= 128);
        } else if b < 128 {
            assert(vi_encode(a)[0] >= 128);
            assert(vi_encode(b)[0] < 128);
        } else {
            assert(vi_encode(a)[0] == (a % 128 + 128) as u8);
            assert(vi_encode(b)[0] == (b % 128 + 128) as u8);
            assert(a % 128 == b % 128);
            lemma_fundamental_div_mod(a as int, 128);
            lemma_fundamental_div_mod(b as int, 128);
            assert(a / 128 != b / 128);
            lemma_div_decreases(a as int, 128);
            lemma_vi_encode_prefix_free(a / 128, b / 128, s1, s2);
            assert(x.skip(1) =~= vi_encode(a / 128) + s1);
            assert(y.skip(1) =~= vi_encode(b / 128) + s2);
        }
    }
}

/// A positive integer's canonical encoding contains no zero byte, so the
/// `0x00` separator of a composite key is unambiguous.
pub proof fn lemma_vi_encode_no_zero(n: nat)
    requires
        n >= 1,
    ensures
        forall|i: int| 0 <= i < vi_encode(n).len() ==> vi_encode(n)[i] != 0,
{
    lemma_vi_encode_structural(n);
}

} // verus!
