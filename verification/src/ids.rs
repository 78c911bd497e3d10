//! Job identifiers: random version-4 UUIDs, written in their hyphenated
//! lowercase form.

use vstd::prelude::*;
use vstd::arithmetic::power::{pow, lemma_pow_positive};
use vstd::arithmetic::div_mod::{lemma_div_denominator, lemma_fundamental_div_mod};
use uuid::Uuid;

verus! {

/// Hex digit `k` of `id`, counted from the most significant one (0..31).
pub open spec fn uuid_nibble(id: u128, k: int) -> int {
    (id as int / pow(16, (31 - k) as nat)) % 16
}

/// The lowercase hexadecimal digit of a value below 16.
pub open spec fn hex_digit(v: int) -> char {
    if v < 10 {
        (48 + v) as char
    } else {
        (87 + v) as char
    }
}

/// Positions of the four hyphens in the 36-character form.
pub open spec fn is_hyphen_pos(i: int) -> bool {
    i == 8 || i == 13 || i == 18 || i == 23
}

/// Which hex digit of the value stands at position `i` of the text.
pub open spec fn digit_at(i: int) -> int {
    if i < 8 {
        i
    } else if i < 13 {
        i - 1
    } else if i < 18 {
        i - 2
    } else if i < 23 {
        i - 3
    } else {
        i - 4
    }
}

/// The hyphenated form `xxxxxxxx-xxxx-xxxx-xxxx-xxxxxxxxxxxx` of a UUID
/// given as its big-endian 128-bit value.
pub open spec fn uuid_text_of(id: u128) -> Seq<char> {
    Seq::new(
        36,
        |i: int|
            if is_hyphen_pos(i) {
                '-'
            } else {
                hex_digit(uuid_nibble(id, digit_at(i)))
            },
    )
}

/// Calls `uuid::Uuid::new_v4` and hands back its 128-bit value. The value is
/// random; as the crate's source shows, digit 12 is the version 4 and digit
/// 16 carries the RFC variant bits `10`, so it lies in 8..=11. Nothing more
/// is claimed of it.
#[verifier::external_body]
pub(crate) fn random_uuid() -> (id: u128)
    ensures
        uuid_nibble(id, 12) == 4,
        8 <= uuid_nibble(id, 16) <= 11,
{
    Uuid::new_v4().as_u128()
}

/// Calls `uuid::Uuid::from_u128` and formats the UUID with `to_string`: the
/// crate writes the 32 hex digits, most significant first, in lowercase,
/// with a hyphen after the 8th, 12th, 16th and 20th.
#[verifier::external_body]
pub(crate) fn uuid_text(id: u128) -> (text: String)
    ensures
        text@ == uuid_text_of(id),
{
    Uuid::from_u128(id).to_string()
}

/// The text position of hex digit `k`.
spec fn pos_of_digit(k: int) -> int {
    if k < 8 {
        k
    } else if k < 12 {
        k + 1
    } else if k < 16 {
        k + 2
    } else if k < 20 {
        k + 3
    } else {
        k + 4
    }
}

proof fn lemma_hex_digit_injective(v: int, w: int)
    requires
        0 <= v < 16,
        0 <= w < 16,
        hex_digit(v) == hex_digit(w),
    ensures
        v == w,
{
    assert(hex_digit(v) as u32 == if v < 10 { 48 + v } else { 87 + v });
    assert(hex_digit(w) as u32 == if w < 10 { 48 + w } else { 87 + w });
}

/// The top `j` hex digits of `a`, as a number.
spec fn top_digits(a: u128, j: int) -> int {
    a as int / pow(16, (32 - j) as nat)
}

proof fn lemma_top_digits_step(a: u128, j: int)
    requires
        0 <= j < 32,
    ensures
        top_digits(a, j + 1) == top_digits(a, j) * 16 + uuid_nibble(a, j),
{
    let e = (31 - j) as nat;
    reveal(pow);
    assert(pow(16, (e + 1) as nat) == 16 * pow(16, e));
    lemma_pow_positive(16, e);
    let x = a as int / pow(16, e);
    lemma_div_denominator(a as int, pow(16, e), 16);
    assert(pow(16, e) * 16 == pow(16, (e + 1) as nat));
    assert(top_digits(a, j) == x / 16);
    lemma_fundamental_div_mod(x, 16);
}

proof fn lemma_top_digits_agree(a: u128, b: u128, j: int)
    requires
        0 <= j <= 32,
        forall|k: int| 0 <= k < j ==> #[trigger] uuid_nibble(a, k) == uuid_nibble(b, k),
    ensures
        top_digits(a, j) == top_digits(b, j),
    decreases j,
{
    if j == 0 {
        reveal_with_fuel(pow, 33);
        assert(pow(16, 32) == 0x1_0000_0000_0000_0000_0000_0000_0000_0000int);
    } else {
        lemma_top_digits_agree(a, b, j - 1);
        lemma_top_digits_step(a, j - 1);
        lemma_top_digits_step(b, j - 1);
    }
}

/// Different UUIDs have different texts: the text determines the UUID.
pub proof fn lemma_uuid_text_injective(a: u128, b: u128)
    ensures
        uuid_text_of(a) == uuid_text_of(b) ==> a == b,
{
    if uuid_text_of(a) == uuid_text_of(b) {
        assert forall|k: int| 0 <= k < 32 implies #[trigger] uuid_nibble(a, k) == uuid_nibble(b, k) by {
            let i = pos_of_digit(k);
            assert(!is_hyphen_pos(i) && digit_at(i) == k && 0 <= i < 36);
            assert(uuid_text_of(a)[i] == uuid_text_of(b)[i]);
            lemma_pow_positive(16, (31 - k) as nat);
            lemma_hex_digit_injective(uuid_nibble(a, k), uuid_nibble(b, k));
        }
        lemma_top_digits_agree(a, b, 32);
        reveal(pow);
        assert(pow(16, 0) == 1);
    }
}

} // verus!
