//! Identifiers: 128-bit UUIDs, held as integers.
use uuid::Uuid;
use vstd::prelude::*;

verus! {

/// The lower-case hexadecimal digit that stands for `d`, for `d` below sixteen.
pub open spec fn hex_digit(d: int) -> char {
    if d < 10 {
        crate::fixed::digit(d)
    } else if d == 10 {
        'a'
    } else if d == 11 {
        'b'
    } else if d == 12 {
        'c'
    } else if d == 13 {
        'd'
    } else if d == 14 {
        'e'
    } else {
        'f'
    }
}

/// The `k` lowest hexadecimal digits of `n`, the highest of them first.
pub open spec fn hex_digits(n: nat, k: nat) -> Seq<char>
    decreases k,
{
    if k == 0 {
        Seq::empty()
    } else {
        hex_digits(n / 16, (k - 1) as nat).push(hex_digit((n % 16) as int))
    }
}

/// The hyphenated text of an identifier: 32 hexadecimal digits in groups of
/// 8, 4, 4, 4 and 12.
pub open spec fn hyphenated(id: u128) -> Seq<char> {
    let h = hex_digits(id as nat, 32);
    h.subrange(0, 8) + seq!['-'] + h.subrange(8, 12) + seq!['-'] + h.subrange(12, 16) + seq!['-']
        + h.subrange(16, 20) + seq!['-'] + h.subrange(20, 32)
}

/// What `str::parse` reads a text as, as an identifier.
pub uninterp spec fn parsed_id(s: Seq<char>) -> Option<u128>;

/// The identifier says of itself that it was drawn at random: its version is 4.
pub open spec fn is_random(id: u128) -> bool {
    (id >> 76u128) & 0xf == 4
}

/// A new random identifier from `Uuid::new_v4`. Whatever it is, its version is 4.
#[verifier::external_body]
pub(crate) fn fresh_id() -> (r: u128)
    ensures
        is_random(r),
{
    Uuid::new_v4().as_u128()
}

/// Writes an identifier with the `Display` of `Uuid`. The text parses back to it.
#[verifier::external_body]
pub(crate) fn id_text(id: u128) -> (r: String)
    ensures
        r@ == hyphenated(id),
        parsed_id(r@) == Some(id),
{
    Uuid::from_u128(id).to_string()
}

/// Reads an identifier with `str::parse` into a `Uuid`.
#[verifier::external_body]
pub(crate) fn parse_id(s: &str) -> (r: Option<u128>)
    ensures
        r == parsed_id(s@),
{
    s.parse::<Uuid>().ok().map(|id| id.as_u128())
}

proof fn hex_digits_len(n: nat, k: nat)
    ensures
        hex_digits(n, k).len() == k,
    decreases k,
{
    if k > 0 {
        hex_digits_len(n / 16, (k - 1) as nat);
    }
}

/// Every identifier is written with the same number of characters.
pub proof fn identifiers_have_one_length(id: u128)
    ensures
        hyphenated(id).len() == 36,
{
    hex_digits_len(id as nat, 32);
}

} // verus!
