//! Player ids: UUIDs written in their canonical text form.

use vstd::prelude::*;

verus! {

/// The lower-case hexadecimal digit for `n` (0 to 15).
pub open spec fn hex_digit(n: u128) -> char {
    seq!['0', '1', '2', '3', '4', '5', '6', '7', '8', '9', 'a', 'b', 'c', 'd', 'e', 'f'][n as int]
}

/// The `k`-th hexadecimal digit (0 to 31) of `value`, counted from the most
/// significant end.
pub open spec fn uuid_nibble(value: u128, k: int) -> u128 {
    (value >> ((124 - 4 * k) as u128)) & 0xfu128
}

/// Which of the 32 hexadecimal digits stands at position `i` of the
/// hyphenated form (positions 8, 13, 18 and 23 hold hyphens).
pub open spec fn digit_index(i: int) -> int {
    if i < 8 {
        i
    } else if i < 13 {
        i - 1
    } else if i < 18 {
        i - 2
    } else if i < 23 {
        i - 3
    } else {
        i - 4
    }
}

/// The canonical text of a UUID: 32 lower-case hexadecimal digits, most
/// significant first, in groups of 8, 4, 4, 4 and 12 joined by hyphens.
pub open spec fn hyphenated_uuid(value: u128) -> Seq<char> {
    Seq::new(
        36,
        |i: int|
            if i == 8 || i == 13 || i == 18 || i == 23 {
                '-'
            } else {
                hex_digit(uuid_nibble(value, digit_index(i)))
            },
    )
}

/// A UUID of version 4 (random) in the RFC 4122 variant: the version digit
/// is 4 and the two top bits of the variant byte are 1 and 0.
pub open spec fn is_random_uuid(value: u128) -> bool {
    &&& (value >> 76u128) & 0xfu128 == 4
    &&& (value >> 62u128) & 3u128 == 2
}

/// The UUID that `uuid::Uuid::parse_str` reads from `text`, if it accepts it.
pub uninterp spec fn uuid_from_text(text: Seq<char>) -> Option<u128>;

/// Calls `uuid::Uuid::new_v4` and hands back the UUID's 128 bits
/// (`as_u128`). The bits come from the operating system's random source;
/// all that is claimed of them is what `new_v4` sets on every outcome: the
/// version (4) and the RFC 4122 variant. `new_v4` panics if the random
/// source fails, which no precondition can rule out.
#[verifier::external_body]
fn random_uuid() -> (value: u128)
    ensures
        is_random_uuid(value),
{
    uuid::Uuid::new_v4().as_u128()
}

/// Calls `uuid::Uuid::from_u128` and formats the result with `to_string`.
/// Claims that the text is the canonical hyphenated lower-case form (as the
/// crate's `Display` impl writes it), and that `uuid::Uuid::parse_str` reads
/// the same UUID back from that text, as the crate documents for every
/// format it generates.
#[verifier::external_body]
pub(crate) fn uuid_text(value: u128) -> (text: String)
    ensures
        text@ == hyphenated_uuid(value),
        uuid_from_text(text@) == Some(value),
{
    uuid::Uuid::from_u128(value).to_string()
}

/// Calls `uuid::Uuid::parse_str` and hands back the parsed UUID's 128 bits,
/// or `None` where the crate reports an error. Claims only that the outcome
/// is `uuid_from_text` of the text.
#[verifier::external_body]
pub(crate) fn parse_uuid(text: &str) -> (value: Option<u128>)
    ensures
        value == uuid_from_text(text@),
{
    match uuid::Uuid::parse_str(text) {
        Ok(u) => Some(u.as_u128()),
        Err(_) => None,
    }
}

/// A fresh random player id in canonical UUID text form.
pub fn make_user_id() -> (id: String)
    ensures
        exists|value: u128|
            #[trigger] is_random_uuid(value) && id@ == hyphenated_uuid(value) && uuid_from_text(id@)
                == Some(value),
{
    let value = random_uuid();
    let id = uuid_text(value);
    assert(is_random_uuid(value) && id@ == hyphenated_uuid(value) && uuid_from_text(id@) == Some(value));
    id
}

} // verus!
