//! Location identifiers.
//!
//! An identifier is a 128-bit value. Its canonical text form is the
//! hyphenated lowercase hexadecimal encoding (digit groups 8-4-4-4-12).
//! Formatting to canonical form and parsing canonical form back are
//! verified here; parsing of the other accepted text representations is
//! delegated to the `uuid` crate behind a trusted wrapper, and fresh
//! random identifiers come from the same crate.

use vstd::arithmetic::div_mod::{
    lemma_basic_div, lemma_div_denominator, lemma_div_multiples_vanish, lemma_fundamental_div_mod,
};
use vstd::arithmetic::mul::{lemma_mul_inequality, lemma_mul_is_commutative};
use vstd::prelude::*;

verus! {

/// Byte value of the hyphen separator.
pub const HYPHEN: u8 = 45;

/// `16^k`.
pub open spec fn pow16(k: int) -> int
    decreases k,
{
    if k <= 0 {
        1
    } else {
        16 * pow16(k - 1)
    }
}

pub proof fn lemma_pow16_pos(k: int)
    ensures
        pow16(k) >= 1,
    decreases k,
{
    if k > 0 {
        lemma_pow16_pos(k - 1);
    }
}

pub proof fn lemma_pow16_mono(a: int, b: int)
    requires
        a <= b,
    ensures
        pow16(a) <= pow16(b),
    decreases b - a,
{
    if a < b {
        lemma_pow16_mono(a, b - 1);
        lemma_pow16_pos(b - 1);
    }
}

/// The byte of the lowercase hexadecimal digit for `n` (meaningful for
/// `0 <= n < 16`): `0`-`9` then `a`-`f`.
pub open spec fn hex_digit(n: int) -> u8 {
    if n < 10 {
        (48 + n) as u8
    } else {
        (87 + n) as u8
    }
}

/// The value of a hexadecimal digit byte, lowercase or uppercase;
/// 255 for a byte that is no hexadecimal digit.
pub open spec fn hex_val(c: u8) -> int {
    if 48 <= c <= 57 {
        c - 48
    } else if 97 <= c <= 102 {
        c - 87
    } else if 65 <= c <= 70 {
        c - 55
    } else {
        255
    }
}

pub proof fn lemma_hex_digit_val(n: int)
    requires
        0 <= n < 16,
    ensures
        hex_val(hex_digit(n)) == n,
        48 <= hex_digit(n) <= 102,
{
}

/// The `k`-th hexadecimal digit (most significant first, `0 <= k < 32`)
/// of the 128-bit value `u`.
pub open spec fn uuid_nibble(u: u128, k: int) -> int {
    (u as int / pow16(31 - k)) % 16
}

/// Position of the `k`-th hexadecimal digit within the canonical
/// 36-byte text, skipping the four hyphens.
pub open spec fn rawpos(k: int) -> int {
    if k < 8 {
        k
    } else if k < 12 {
        k + 1
    } else if k < 16 {
        k + 2
    } else if k < 20 {
        k + 3
    } else {
        k + 4
    }
}

/// How many hexadecimal digits stand before position `i` of the
/// canonical text.
pub open spec fn hexidx(i: int) -> int {
    if i <= 8 {
        i
    } else if i <= 13 {
        i - 1
    } else if i <= 18 {
        i - 2
    } else if i <= 23 {
        i - 3
    } else {
        i - 4
    }
}

/// Whether position `i` of the canonical text holds a hyphen.
pub open spec fn is_hyphen_pos(i: int) -> bool {
    i == 8 || i == 13 || i == 18 || i == 23
}

/// The byte at position `i` of the canonical text of `u`.
pub open spec fn uuid_char(u: u128, i: int) -> u8 {
    if is_hyphen_pos(i) {
        HYPHEN
    } else {
        hex_digit(uuid_nibble(u, hexidx(i)))
    }
}

/// The canonical text of identifier `u`: 32 lowercase hexadecimal
/// digits, most significant first, with hyphens after digits 8, 12,
/// 16 and 20.
pub open spec fn uuid_hyphenated(u: u128) -> Seq<u8> {
    Seq::new(36, |i: int| uuid_char(u, i))
}

/// Value of the first `k` hexadecimal digits of a canonical text.
pub open spec fn uuid_val_prefix(s: Seq<u8>, k: int) -> int
    decreases k,
{
    if k <= 0 {
        0
    } else {
        uuid_val_prefix(s, k - 1) * 16 + hex_val(s[rawpos(k - 1)])
    }
}

/// Whether `s` is a canonical identifier text: exactly 36 bytes,
/// hyphens in their four places, hexadecimal digits everywhere else.
pub open spec fn canonical_ok(s: Seq<u8>) -> bool {
    &&& s.len() == 36
    &&& s[8] == HYPHEN
    &&& s[13] == HYPHEN
    &&& s[18] == HYPHEN
    &&& s[23] == HYPHEN
    &&& forall|k: int| 0 <= k < 32 ==> hex_val(#[trigger] s[rawpos(k)]) < 16
}

/// The identifier a canonical text denotes, if it is one.
pub open spec fn spec_uuid_from_canonical(s: Seq<u8>) -> Option<u128> {
    if canonical_ok(s) {
        Some(uuid_val_prefix(s, 32) as u128)
    } else {
        None
    }
}

pub proof fn lemma_pow16_values()
    ensures
        pow16(31) == 0x1000_0000_0000_0000_0000_0000_0000_0000,
        pow16(32) == 0x1_0000_0000_0000_0000_0000_0000_0000_0000,
{
    assert(pow16(32) == 0x1_0000_0000_0000_0000_0000_0000_0000_0000) by {
        reveal_with_fuel(pow16, 33);
    }
    assert(pow16(31) == 0x1000_0000_0000_0000_0000_0000_0000_0000) by {
        reveal_with_fuel(pow16, 33);
    }
}

/// The value of `k` valid digits stays under `16^k`.
pub proof fn lemma_val_prefix_bound(s: Seq<u8>, k: int)
    requires
        forall|j: int| 0 <= j < k ==> hex_val(#[trigger] s[rawpos(j)]) < 16,
    ensures
        0 <= uuid_val_prefix(s, k),
        k >= 0 ==> uuid_val_prefix(s, k) < pow16(k),
    decreases k,
{
    if k > 0 {
        lemma_val_prefix_bound(s, k - 1);
    }
}

/// The digits of the canonical text of `u` are the nibbles of `u`.
pub proof fn lemma_hyphenated_digit(u: u128, k: int)
    requires
        0 <= k < 32,
    ensures
        uuid_hyphenated(u)[rawpos(k)] == hex_digit(uuid_nibble(u, k)),
        0 <= uuid_nibble(u, k) < 16,
{
    assert(!is_hyphen_pos(rawpos(k)));
    assert(hexidx(rawpos(k)) == k);
    lemma_pow16_pos(31 - k);
}

/// Reading the first `k` digits of the canonical text of `u` yields
/// `u` shifted right by the remaining digits.
proof fn lemma_val_prefix_hyphenated(u: u128, k: int)
    requires
        0 <= k <= 32,
    ensures
        uuid_val_prefix(uuid_hyphenated(u), k) == u as int / pow16(32 - k),
    decreases k,
{
    lemma_pow16_values();
    if k == 0 {
        lemma_basic_div(u as int, pow16(32));
    } else {
        lemma_val_prefix_hyphenated(u, k - 1);
        lemma_hyphenated_digit(u, k - 1);
        lemma_hex_digit_val(uuid_nibble(u, k - 1));
        let p = pow16(32 - k);
        lemma_pow16_pos(32 - k);
        let q = u as int / p;
        assert(pow16(33 - k) == 16 * p);
        lemma_div_denominator(u as int, p, 16);
        assert(u as int / (p * 16) == q / 16);
        lemma_mul_is_commutative(p, 16);
        lemma_fundamental_div_mod(q, 16);
        assert(uuid_val_prefix(uuid_hyphenated(u), k) == (q / 16) * 16 + q % 16);
        assert(q == 16 * (q / 16) + q % 16);
    }
}

/// Formatting an identifier and reading the canonical text back yields
/// the identifier.
pub proof fn lemma_uuid_canonical_round_trip(u: u128)
    ensures
        canonical_ok(uuid_hyphenated(u)),
        spec_uuid_from_canonical(uuid_hyphenated(u)) == Some(u),
{
    let s = uuid_hyphenated(u);
    assert forall|k: int| 0 <= k < 32 implies hex_val(#[trigger] s[rawpos(k)]) < 16 by {
        lemma_hyphenated_digit(u, k);
        lemma_hex_digit_val(uuid_nibble(u, k));
    }
    lemma_val_prefix_hyphenated(u, 32);
    assert(uuid_val_prefix(s, 32) == u as int / 1);
}

/// No byte of a canonical text is a quote, a backslash or a space.
pub proof fn lemma_hyphenated_plain(u: u128)
    ensures
        forall|i: int|
            0 <= i < 36 ==> {
                let c = #[trigger] uuid_hyphenated(u)[i];
                c != 34 && c != 92 && c != 32
            },
{
    assert forall|i: int| 0 <= i < 36 implies {
        let c = #[trigger] uuid_hyphenated(u)[i];
        c != 34 && c != 92 && c != 32
    } by {
        if !is_hyphen_pos(i) {
            lemma_pow16_pos(31 - hexidx(i));
        }
    }
}

/// The canonical text of an identifier, as bytes.
pub fn format_uuid(u: u128) -> (out: Vec<u8>)
    ensures
        out@ == uuid_hyphenated(u),
{
    let mut out: Vec<u8> = Vec::new();
    let mut p: u128 = 0x1000_0000_0000_0000_0000_0000_0000_0000;
    proof {
        lemma_pow16_values();
    }
    let mut i: usize = 0;
    let mut k: usize = 0;
    while i < 36
        invariant
            0 <= i <= 36,
            k == hexidx(i as int),
            out@ =~= uuid_hyphenated(u).take(i as int),
            k < 32 ==> p as int == pow16(31 - k),
        decreases 36 - i,
    {
        if i == 8 || i == 13 || i == 18 || i == 23 {
            out.push(HYPHEN);
        } else {
            proof {
                lemma_pow16_pos(31 - k);
                lemma_pow16_mono(31 - k as int, 31);
                lemma_pow16_values();
            }
            let d = ((u / p) % 16) as u8;
            let c = if d < 10 {
                48 + d
            } else {
                87 + d
            };
            assert(c == hex_digit(uuid_nibble(u, k as int)));
            out.push(c);
            if k < 31 {
                p = p / 16;
                proof {
                    lemma_pow16_pos(30 - k);
                    assert(pow16(31 - k) / 16 == pow16(31 - (k + 1))) by {
                        assert(pow16(31 - k) == 16 * pow16(30 - k));
                        lemma_div_multiples_vanish(pow16(30 - k), 16);
                    }
                }
            }
            k = k + 1;
        }
        i = i + 1;
        proof {
            assert(out@ =~= uuid_hyphenated(u).take(i as int));
        }
    }
    proof {
        assert(out@ =~= uuid_hyphenated(u));
    }
    out
}

/// The value of a hexadecimal digit byte, or 255.
fn hex_val_of(c: u8) -> (r: u8)
    ensures
        r as int == hex_val(c),
{
    if 48 <= c && c <= 57 {
        c - 48
    } else if 97 <= c && c <= 102 {
        c - 87
    } else if 65 <= c && c <= 70 {
        c - 55
    } else {
        255
    }
}

/// Position of digit `k` within a canonical text.
fn rawpos_of(k: usize) -> (r: usize)
    requires
        k < 32,
    ensures
        r as int == rawpos(k as int),
        r < 36,
{
    if k < 8 {
        k
    } else if k < 12 {
        k + 1
    } else if k < 16 {
        k + 2
    } else if k < 20 {
        k + 3
    } else {
        k + 4
    }
}

/// Parses a canonical identifier text; returns `None` on any other
/// input.
pub fn parse_uuid_canonical(s: &Vec<u8>) -> (r: Option<u128>)
    ensures
        r == spec_uuid_from_canonical(s@),
{
    if s.len() != 36 {
        return None;
    }
    if *s.get(8).unwrap() != HYPHEN || *s.get(13).unwrap() != HYPHEN || *s.get(18).unwrap()
        != HYPHEN || *s.get(23).unwrap() != HYPHEN {
        return None;
    }
    let mut acc: u128 = 0;
    let mut k: usize = 0;
    proof {
        lemma_pow16_values();
    }
    while k < 32
        invariant
            0 <= k <= 32,
            s@.len() == 36,
            s@[8] == HYPHEN,
            s@[13] == HYPHEN,
            s@[18] == HYPHEN,
            s@[23] == HYPHEN,
            forall|j: int| 0 <= j < k ==> hex_val(#[trigger] s@[rawpos(j)]) < 16,
            acc as int == uuid_val_prefix(s@, k as int),
        decreases 32 - k,
    {
        let pos = rawpos_of(k);
        let v = hex_val_of(*s.get(pos).unwrap());
        if v >= 16 {
            proof {
                assert(!canonical_ok(s@)) by {
                    assert(hex_val(s@[rawpos(k as int)]) >= 16);
                }
            }
            return None;
        }
        proof {
            lemma_val_prefix_bound(s@, k as int);
            lemma_pow16_mono(k as int, 31);
            lemma_pow16_values();
            assert(acc as int * 16 + 15 < pow16(32)) by {
                assert((acc as int) < pow16(k as int));
                lemma_mul_inequality(acc as int, pow16(k as int) - 1, 16);
                assert((pow16(k as int) - 1) * 16 + 16 == 16 * pow16(k as int)) by {
                    lemma_mul_is_commutative(pow16(k as int) - 1, 16);
                }
                assert(16 * pow16(k as int) == pow16(k as int + 1));
                lemma_pow16_mono(k as int + 1, 32);
            }
        }
        acc = acc * 16 + (v as u128);
        k = k + 1;
    }
    proof {
        assert(canonical_ok(s@));
    }
    Some(acc)
}

/// What `uuid::Uuid::parse_str` makes of a byte text: the identifier
/// value, or `None` where the bytes are no accepted UUID representation.
/// The result depends on the input bytes alone.
pub uninterp spec fn uuid_parse_spec(s: Seq<u8>) -> Option<u128>;

/// Relies on `uuid::Uuid::parse_str` (with `Uuid::as_u128`): parses any
/// accepted UUID text representation into its 128-bit value; the result
/// is a function of the input bytes alone.
#[verifier::external_body]
pub(crate) fn uuid_parse_any(s: &Vec<u8>) -> (r: Option<u128>)
    ensures
        r == uuid_parse_spec(s@),
{
    match core::str::from_utf8(s.as_slice()) {
        Ok(t) => match uuid::Uuid::parse_str(t) {
            Ok(u) => Some(u.as_u128()),
            Err(_) => None,
        },
        Err(_) => None,
    }
}

/// Relies on `uuid::Uuid::new_v4` (with `Uuid::as_u128`): a freshly
/// generated random identifier. Nothing is assumed of the value.
#[verifier::external_body]
pub(crate) fn uuid_new_v4() -> u128 {
    uuid::Uuid::new_v4().as_u128()
}

/// The identifier a text denotes: the canonical reading where the text
/// is canonical, else whatever the tolerant parser accepts.
pub open spec fn spec_parse_id(s: Seq<u8>) -> Option<u128> {
    if spec_uuid_from_canonical(s) is Some {
        spec_uuid_from_canonical(s)
    } else {
        uuid_parse_spec(s)
    }
}

/// Reads an identifier from text: canonical form first, then any other
/// representation the tolerant parser accepts.
pub fn parse_id(s: &Vec<u8>) -> (r: Option<u128>)
    ensures
        r == spec_parse_id(s@),
{
    match parse_uuid_canonical(s) {
        Some(u) => Some(u),
        None => uuid_parse_any(s),
    }
}

} // verus!
