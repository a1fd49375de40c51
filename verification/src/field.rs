//! Field element codec: canonical elements of the scalar field, built from
//! hexadecimal strings or small unsigned integers.
//!
//! A `FieldElement` stores the canonical value (already reduced modulo the
//! field's prime) as base-2^32 digits, least significant first, with no
//! trailing zero digit.  Hexadecimal parsing and the wide reduction are
//! delegated to `num_bigint` through a few trusted wrappers; everything
//! around them is verified.

use vstd::prelude::*;
use vstd::string::StrSliceExecFns;
use num_bigint::BigUint;
use num_traits::Num;

verus! {

/// The little-endian base-2^32 digits of the scalar field's prime,
/// 0x30644e72e131a029b85045b68181585d2833e84879b9709143e1f593f0000001.
pub open spec fn prime_digits() -> Seq<u32> {
    seq![
        0xf0000001u32,
        0x43e1f593u32,
        0x79b97091u32,
        0x2833e848u32,
        0x8181585du32,
        0xb85045b6u32,
        0xe131a029u32,
        0x30644e72u32,
    ]
}

/// The prime order of the scalar field the circuit operates on.
pub open spec fn field_prime() -> nat {
    digits_val(prime_digits())
}

/// The prime is far above every directly embedded small integer.
pub proof fn lemma_field_prime_large()
    ensures
        field_prime() > 0xffff_ffff,
{
    reveal_with_fuel(digits_val_from, 10);
}

// ---------------------------------------------------------------------------
// Hexadecimal strings, as mathematics.
// ---------------------------------------------------------------------------

/// `c` is an ASCII hexadecimal digit.
pub open spec fn is_hex_char(c: char) -> bool {
    ('0' as u32 <= c as u32 && c as u32 <= '9' as u32)
    || ('a' as u32 <= c as u32 && c as u32 <= 'f' as u32)
    || ('A' as u32 <= c as u32 && c as u32 <= 'F' as u32)
}

/// The numeric value of a hexadecimal digit.
pub open spec fn hex_char_val(c: char) -> nat {
    if '0' as u32 <= c as u32 && c as u32 <= '9' as u32 {
        (c as u32 - '0' as u32) as nat
    } else if 'a' as u32 <= c as u32 && c as u32 <= 'f' as u32 {
        (c as u32 - 'a' as u32 + 10) as nat
    } else if 'A' as u32 <= c as u32 && c as u32 <= 'F' as u32 {
        (c as u32 - 'A' as u32 + 10) as nat
    } else {
        0
    }
}

pub open spec fn is_hex_seq(s: Seq<char>) -> bool {
    forall|i: int| 0 <= i < s.len() ==> is_hex_char(#[trigger] s[i])
}

/// The value of a big-endian sequence of hexadecimal digits.
pub open spec fn hex_seq_val(s: Seq<char>) -> nat
    decreases s.len(),
{
    if s.len() == 0 {
        0
    } else {
        16 * hex_seq_val(s.drop_last()) + hex_char_val(s.last())
    }
}

/// The digits of `s` after an optional `0x` prefix.
pub open spec fn hex_body(s: Seq<char>) -> Seq<char> {
    if s.len() >= 2 && s[0] == '0' && s[1] == 'x' {
        s.skip(2)
    } else {
        s
    }
}

/// `s` is a well-formed hexadecimal string: after the optional `0x` prefix
/// at least one digit remains, and every remaining character is a digit.
pub open spec fn hex_ok(s: Seq<char>) -> bool {
    hex_body(s).len() > 0 && is_hex_seq(hex_body(s))
}

/// The canonical field value a well-formed hexadecimal string denotes.
pub open spec fn hex_field_val(s: Seq<char>) -> nat {
    hex_seq_val(hex_body(s)) % field_prime()
}

// ---------------------------------------------------------------------------
// Base-2^32 digit sequences.
// ---------------------------------------------------------------------------

/// The value of base-2^32 digits starting at position `i`, least significant
/// digit first.
pub open spec fn digits_val_from(s: Seq<u32>, i: int) -> nat
    decreases s.len() - i,
{
    if i < 0 || i >= s.len() {
        0
    } else {
        (s[i] + 0x1_0000_0000 * digits_val_from(s, i + 1)) as nat
    }
}

/// The value of a little-endian base-2^32 digit sequence.
pub open spec fn digits_val(s: Seq<u32>) -> nat {
    digits_val_from(s, 0)
}

/// The sequence carries no trailing zero digit, so equal values have equal
/// digit sequences.
pub open spec fn digits_norm(s: Seq<u32>) -> bool {
    s.len() == 0 || s.last() != 0
}

// ---------------------------------------------------------------------------
// Trusted items over num_bigint.
// ---------------------------------------------------------------------------

/// Declares `num_bigint::BigUint`, the arbitrary-precision unsigned integer
/// the codec parses into and reduces with; a value of it is opaque here and
/// is spoken of only through `big_digits`.
#[verifier::external_type_specification]
#[verifier::external_body]
pub struct ExBigUint(BigUint);

/// The base-2^32 digits a `BigUint` holds, least significant first, with no
/// trailing zero digit (the crate keeps its digit vector normalized).
pub uninterp spec fn big_digits(b: BigUint) -> Seq<u32>;

/// Relies on `num_traits::Num::from_str_radix` for `num_bigint::BigUint`:
/// on a non-empty string of plain hexadecimal digits it returns the base-16
/// value of those digits.
#[verifier::external_body]
fn big_from_hex(s: &str) -> (r: BigUint)
    requires
        s@.len() > 0,
        is_hex_seq(s@),
    ensures
        digits_val(big_digits(r)) == hex_seq_val(s@),
{
    <BigUint as Num>::from_str_radix(s, 16).unwrap()
}

/// Relies on the remainder operator of `num_bigint::BigUint`: the Euclidean
/// remainder of the two values.
#[verifier::external_body]
fn big_mod(a: &BigUint, m: &BigUint) -> (r: BigUint)
    requires
        digits_val(big_digits(*m)) > 0,
    ensures
        digits_val(big_digits(r)) == digits_val(big_digits(*a)) % digits_val(big_digits(*m)),
{
    a % m
}

/// Relies on `num_bigint::BigUint::new`: builds the value with the given
/// base-2^32 digits, least significant first.
#[verifier::external_body]
fn big_from_digits(digits: Vec<u32>) -> (r: BigUint)
    ensures
        digits_val(big_digits(r)) == digits_val(digits@),
{
    BigUint::new(digits)
}

/// Relies on `num_bigint::BigUint::to_u32_digits`: the base-2^32 digits of
/// the value, least significant first, without trailing zeros.
#[verifier::external_body]
fn big_to_digits(b: &BigUint) -> (r: Vec<u32>)
    ensures
        r@ == big_digits(*b),
        digits_norm(r@),
{
    b.to_u32_digits()
}

// ---------------------------------------------------------------------------
// The prime, as digits.
// ---------------------------------------------------------------------------

/// The field's prime, as a `BigUint` modulus.
fn prime_big() -> (r: BigUint)
    ensures
        digits_val(big_digits(r)) == field_prime(),
{
    let mut v: Vec<u32> = Vec::new();
    v.push(0xf0000001u32);
    v.push(0x43e1f593u32);
    v.push(0x79b97091u32);
    v.push(0x2833e848u32);
    v.push(0x8181585du32);
    v.push(0xb85045b6u32);
    v.push(0xe131a029u32);
    v.push(0x30644e72u32);
    proof {
        assert(v@ =~= prime_digits());
    }
    big_from_digits(v)
}

// ---------------------------------------------------------------------------
// Field elements.
// ---------------------------------------------------------------------------

/// A canonical element of the scalar field.
pub struct FieldElement {
    digits: Vec<u32>,
}

impl FieldElement {
    /// The base-2^32 digit sequence of the element, least significant first.
    pub closed spec fn limb_seq(self) -> Seq<u32> {
        self.digits@
    }

    /// The value of the element, in `[0, field_prime())`.
    pub closed spec fn value(self) -> nat {
        digits_val(self.limb_seq())
    }

    /// The element is canonical: reduced and with normalized digits.
    pub closed spec fn wf(self) -> bool {
        digits_norm(self.digits@) && self.value() < field_prime()
    }

    /// The additive identity.
    pub fn zero() -> (r: Self)
        ensures
            r.wf(),
            r.value() == 0,
    {
        FieldElement { digits: Vec::new() }
    }

    /// The base-2^32 digits of the value, least significant first, without
    /// trailing zeros.
    pub fn limbs(&self) -> (r: &Vec<u32>)
        ensures
            r@ == self.limb_seq(),
            digits_val(r@) == self.value(),
            self.wf() ==> digits_norm(r@),
    {
        &self.digits
    }
}

/// Direct embedding of a small unsigned integer into the field.
pub fn uint_to_field(number: u8) -> (r: FieldElement)
    ensures
        r.wf(),
        r.value() == number as nat,
{
    if number == 0 {
        FieldElement::zero()
    } else {
        let mut v: Vec<u32> = Vec::new();
        v.push(number as u32);
        let r = FieldElement { digits: v };
        proof {
            reveal_with_fuel(digits_val_from, 3);
            assert(r.value() == number as nat);
            lemma_field_prime_large();
        }
        r
    }
}

/// Converts a hexadecimal string (with optional `0x` prefix) into the
/// canonical field element of its value reduced modulo the field's prime.
/// Returns `None` exactly when, after the optional prefix, the string is
/// empty or holds a character that is no hexadecimal digit.
pub fn hex_to_field(hex_str: &str) -> (r: Option<FieldElement>)
    ensures
        r is Some <==> hex_ok(hex_str@),
        r matches Some(f) ==> f.wf() && f.value() == hex_field_val(hex_str@),
{
    let n = hex_str.unicode_len();
    let body: &str = if n >= 2 && hex_str.get_char(0) == '0' && hex_str.get_char(1) == 'x' {
        hex_str.substring_char(2, n)
    } else {
        hex_str
    };
    proof {
        assert(body@ =~= hex_body(hex_str@));
    }
    let m = body.unicode_len();
    if m == 0 {
        return None;
    }
    let mut i: usize = 0;
    while i < m
        invariant
            body@ == hex_body(hex_str@),
            m as nat == body@.len(),
            i <= m,
            forall|j: int| 0 <= j < i ==> is_hex_char(#[trigger] body@[j]),
        decreases m - i,
    {
        let c = body.get_char(i);
        if !hex_char_exec(c) {
            return None;
        }
        i += 1;
    }
    let parsed = big_from_hex(body);
    let modulus = prime_big();
    let reduced = big_mod(&parsed, &modulus);
    let d = big_to_digits(&reduced);
    let r = FieldElement { digits: d };
    proof {
        lemma_field_prime_large();
        assert(r.value() == hex_seq_val(body@) % field_prime());
    }
    Some(r)
}

// ---------------------------------------------------------------------------
// Canonical representations are unique.
// ---------------------------------------------------------------------------

proof fn lemma_digits_val_zero(s: Seq<u32>, i: int)
    requires
        0 <= i <= s.len(),
        digits_val_from(s, i) == 0,
    ensures
        forall|k: int| i <= k < s.len() ==> s[k] == 0,
    decreases s.len() - i,
{
    if i < s.len() {
        assert(digits_val_from(s, i) == (s[i] + 0x1_0000_0000 * digits_val_from(s, i + 1)) as nat);
        lemma_digits_val_zero(s, i + 1);
    }
}

proof fn lemma_digits_unique_from(s1: Seq<u32>, s2: Seq<u32>, i: int)
    requires
        0 <= i,
        i <= s1.len(),
        i <= s2.len(),
        digits_norm(s1),
        digits_norm(s2),
        digits_val_from(s1, i) == digits_val_from(s2, i),
    ensures
        s1.len() == s2.len(),
        forall|k: int| i <= k < s1.len() ==> s1[k] == s2[k],
    decreases s1.len() - i,
{
    if i == s1.len() {
        lemma_digits_val_zero(s2, i);
        if i < s2.len() {
            assert(s2[s2.len() - 1] == 0);
            assert(false);
        }
    } else if i == s2.len() {
        lemma_digits_val_zero(s1, i);
        assert(s1[s1.len() - 1] == 0);
        assert(false);
    } else {
        let r1 = digits_val_from(s1, i + 1);
        let r2 = digits_val_from(s2, i + 1);
        assert(digits_val_from(s1, i) == (s1[i] + 0x1_0000_0000 * r1) as nat);
        assert(digits_val_from(s2, i) == (s2[i] + 0x1_0000_0000 * r2) as nat);
        assert(s1[i] == s2[i] && r1 == r2) by (nonlinear_arith)
            requires
                s1[i] < 0x1_0000_0000,
                s2[i] < 0x1_0000_0000,
                s1[i] + 0x1_0000_0000 * r1 == s2[i] + 0x1_0000_0000 * r2,
        ;
        lemma_digits_unique_from(s1, s2, i + 1);
    }
}

/// Canonical digit sequences are unique: without a trailing zero digit,
/// equal values have equal digit sequences.
pub proof fn lemma_canonical_digits(s1: Seq<u32>, s2: Seq<u32>)
    requires
        digits_norm(s1),
        digits_norm(s2),
        digits_val(s1) == digits_val(s2),
    ensures
        s1 == s2,
{
    lemma_digits_unique_from(s1, s2, 0);
    assert(s1 =~= s2);
}

/// Canonical field elements are unique: two well-formed elements of equal
/// value carry the same digits, bit for bit.  Together with the encoder's
/// deterministic write sequence this pins a witness array down completely.
pub proof fn lemma_field_element_unique(a: FieldElement, b: FieldElement)
    requires
        a.wf(),
        b.wf(),
        a.value() == b.value(),
    ensures
        a.limb_seq() == b.limb_seq(),
{
    lemma_canonical_digits(a.limb_seq(), b.limb_seq());
}

// ---------------------------------------------------------------------------
// The hexadecimal representation of a value, and the codec round trip.
// ---------------------------------------------------------------------------

/// The lowercase hexadecimal digit of a value below 16.
pub open spec fn hex_digit_char(d: nat) -> char {
    if d == 0 { '0' }
    else if d == 1 { '1' }
    else if d == 2 { '2' }
    else if d == 3 { '3' }
    else if d == 4 { '4' }
    else if d == 5 { '5' }
    else if d == 6 { '6' }
    else if d == 7 { '7' }
    else if d == 8 { '8' }
    else if d == 9 { '9' }
    else if d == 10 { 'a' }
    else if d == 11 { 'b' }
    else if d == 12 { 'c' }
    else if d == 13 { 'd' }
    else if d == 14 { 'e' }
    else if d == 15 { 'f' }
    else { '0' }
}

/// The shortest lowercase hexadecimal representation of a number, without
/// prefix.
pub open spec fn hex_repr(n: nat) -> Seq<char>
    decreases n,
{
    if n < 16 {
        seq![hex_digit_char(n)]
    } else {
        hex_repr(n / 16).push(hex_digit_char(n % 16))
    }
}

proof fn lemma_hex_digit(d: nat)
    requires
        d < 16,
    ensures
        is_hex_char(hex_digit_char(d)),
        hex_char_val(hex_digit_char(d)) == d,
{
}

proof fn lemma_hex_repr_hex(n: nat)
    ensures
        hex_repr(n).len() >= 1,
        is_hex_seq(hex_repr(n)),
    decreases n,
{
    if n < 16 {
        lemma_hex_digit(n);
    } else {
        lemma_hex_repr_hex(n / 16);
        lemma_hex_digit(n % 16);
        assert forall|i: int| 0 <= i < hex_repr(n).len() implies is_hex_char(
            #[trigger] hex_repr(n)[i],
        ) by {
            if i < hex_repr(n).len() - 1 {
                assert(hex_repr(n)[i] == hex_repr(n / 16)[i]);
            }
        }
    }
}

proof fn lemma_hex_repr_val(n: nat)
    ensures
        hex_seq_val(hex_repr(n)) == n,
    decreases n,
{
    if n < 16 {
        let s = hex_repr(n);
        assert(s.drop_last() =~= Seq::<char>::empty());
        assert(s.last() == hex_digit_char(n));
        assert(hex_seq_val(Seq::<char>::empty()) == 0);
        assert(hex_seq_val(s) == 16 * hex_seq_val(s.drop_last()) + hex_char_val(s.last()));
        lemma_hex_digit(n);
    } else {
        lemma_hex_repr_val(n / 16);
        lemma_hex_digit(n % 16);
        let s = hex_repr(n);
        assert(s == hex_repr(n / 16).push(hex_digit_char(n % 16)));
        assert(s.drop_last() =~= hex_repr(n / 16));
        assert(s.last() == hex_digit_char(n % 16));
        assert(hex_seq_val(s) == 16 * hex_seq_val(s.drop_last()) + hex_char_val(s.last()));
        assert(hex_seq_val(s.drop_last()) == n / 16);
        assert(hex_char_val(s.last()) == n % 16);
        vstd::arithmetic::div_mod::lemma_fundamental_div_mod(n as int, 16);
        assert(16 * (n / 16) + n % 16 == n);
    }
}

/// Round trip of the codec: every canonical field value is reproduced from
/// its hexadecimal representation, `hex_field_val(hex_repr(n)) == n`.
pub proof fn lemma_hex_round_trip(n: nat)
    requires
        n < field_prime(),
    ensures
        hex_ok(hex_repr(n)),
        hex_field_val(hex_repr(n)) == n,
{
    lemma_hex_repr_hex(n);
    lemma_hex_repr_val(n);
    let s = hex_repr(n);
    if s.len() >= 2 && s[0] == '0' && s[1] == 'x' {
        assert(is_hex_char(s[1]));
        assert(false);
    }
    assert(hex_body(s) == s);
    lemma_field_prime_large();
    vstd::arithmetic::div_mod::lemma_small_mod(n, field_prime());
}

/// Whether `c` is an ASCII hexadecimal digit.
fn hex_char_exec(c: char) -> (r: bool)
    ensures
        r == is_hex_char(c),
{
    let u = c as u32;
    (48 <= u && u <= 57) || (97 <= u && u <= 102) || (65 <= u && u <= 70)
}

} // verus!

