//! The session cookie: which room a browser was last in, and its player id.
//!
//! A session cookie carries `session=<room>:<player id>`. The cookie header
//! is searched with the regular expression `session=[^;]+`; the matched text
//! is split at `:`, the room is what stands between `session=` and the first
//! `:`, and the player id is what follows it, up to the next `:`. The player
//! id must be a UUID, and comes back in canonical form.

use vstd::prelude::*;
use vstd::utf8::*;
use vstd::string::StringSliceAdditionalSpecFns;
use crate::text::{first_index, find_byte, lemma_first_index, lemma_first_index_unique};
use crate::user_id::{digit_index, hyphenated_uuid, parse_uuid, uuid_from_text, uuid_nibble, uuid_text};

verus! {

#[verifier::external_type_specification]
#[verifier::external_body]
pub struct ExRegex(regex::Regex);

/// A compiled regular expression together with the pattern it came from.
pub struct CompiledPattern {
    regex: regex::Regex,
    pattern: Ghost<Seq<char>>,
}

impl View for CompiledPattern {
    type V = Seq<char>;

    closed spec fn view(&self) -> Seq<char> {
        self.pattern@
    }
}

/// The pattern that finds a session cookie: `session=[^;]+`.
pub open spec fn session_pattern() -> Seq<char> {
    seq!['s', 'e', 's', 's', 'i', 'o', 'n', '=', '[', '^', ';', ']', '+']
}

/// The bytes of `session=`.
pub open spec fn session_prefix() -> Seq<u8> {
    seq![115u8, 101u8, 115u8, 115u8, 105u8, 111u8, 110u8, 61u8]
}

/// The byte `:`, which separates the room from the player id.
pub open spec fn colon() -> u8 {
    58u8
}

/// The byte `;`, which ends a cookie.
pub open spec fn semicolon() -> u8 {
    59u8
}

/// `session=` followed by at least one byte other than `;` starts at `i`.
pub open spec fn session_starts_at(bytes: Seq<u8>, i: int) -> bool {
    &&& 0 <= i
    &&& i + 9 <= bytes.len()
    &&& bytes.subrange(i, i + 8) == session_prefix()
    &&& bytes[i + 8] != semicolon()
}

/// Some session cookie occurs in `bytes`.
pub open spec fn has_session(bytes: Seq<u8>) -> bool {
    exists|i: int| #[trigger] session_starts_at(bytes, i)
}

/// `bytes[start..end]` is the first match of `session=[^;]+` in `bytes`
/// (UTF-8 text): it starts at the first place where the pattern can match,
/// and runs on to the first `;` after `session=`, or to the end.
pub open spec fn is_session_match(bytes: Seq<u8>, start: int, end: int) -> bool {
    &&& session_starts_at(bytes, start)
    &&& forall|k: int| 0 <= k < start ==> !#[trigger] session_starts_at(bytes, k)
    &&& start + 9 <= end <= bytes.len()
    &&& forall|j: int| start + 8 <= j < end ==> #[trigger] bytes[j] != semicolon()
    &&& (end == bytes.len() || bytes[end] == semicolon())
}

/// What a search for `session=[^;]+` in `bytes` finds: byte offsets of the
/// first match, or nothing when there is none.
pub open spec fn session_search(bytes: Seq<u8>, found: Option<(usize, usize)>) -> bool {
    match found {
        Some((start, end)) => is_session_match(bytes, start as int, end as int),
        None => !has_session(bytes),
    }
}

/// The first match (byte offsets) that the `regex` crate finds for a pattern
/// in a text, if it finds one.
pub uninterp spec fn regex_first_match(pattern: Seq<char>, haystack: Seq<char>) -> Option<(int, int)>;

/// Calls `regex::Regex::new`, and keeps the pattern alongside the result;
/// `None` where the crate reports an error. Claims that the session pattern
/// compiles: it is valid syntax and far below the crate's size limit.
#[verifier::external_body]
fn compile_pattern(pattern: &str) -> (compiled: Option<CompiledPattern>)
    ensures
        compiled matches Some(c) ==> c@ == pattern@,
        pattern@ == session_pattern() ==> compiled is Some,
{
    match regex::Regex::new(pattern) {
        Ok(regex) => Some(CompiledPattern { regex, pattern: Ghost(pattern@) }),
        Err(_) => None,
    }
}

/// Calls `regex::Regex::find` and hands back the match's byte offsets.
/// Claims that the outcome is the crate's first match for the pattern in
/// the text, and that for `session=[^;]+` this is the leftmost-first match
/// that the crate documents, as `session_search` states it.
#[verifier::external_body]
fn first_match(compiled: &CompiledPattern, haystack: &str) -> (found: Option<(usize, usize)>)
    ensures
        match found {
            Some((start, end)) => regex_first_match(compiled@, haystack@) == Some(
                (start as int, end as int),
            ),
            None => regex_first_match(compiled@, haystack@) is None,
        },
        compiled@ == session_pattern() ==> session_search(haystack.spec_bytes(), found),
{
    compiled.regex.find(haystack).map(|m| (m.start(), m.end()))
}

/// The room in a matched cookie `matched` (which starts with `session=`):
/// the bytes after `session=` up to the first `:`.
pub open spec fn room_bytes(matched: Seq<u8>) -> Seq<u8> {
    matched.subrange(8, first_index(matched, colon()))
}

/// The player id in a matched cookie: the bytes after the first `:`, up to
/// the next `:` or the end.
pub open spec fn user_bytes(matched: Seq<u8>) -> Seq<u8> {
    let rest = matched.subrange(first_index(matched, colon()) + 1, matched.len() as int);
    rest.subrange(0, first_index(rest, colon()))
}

/// A session cookie, if `cookie` holds one, names a room and a player id
/// that reads as a UUID.
pub open spec fn session_cookie_parses(cookie: Seq<u8>) -> bool {
    forall|start: int, end: int| #[trigger]
        is_session_match(cookie, start, end) ==> {
            let matched = cookie.subrange(start, end);
            &&& first_index(matched, colon()) < matched.len()
            &&& uuid_from_text(decode_utf8(user_bytes(matched))) is Some
        }
}

/// There is one first match at most.
proof fn lemma_session_match_unique(bytes: Seq<u8>, s1: int, e1: int, s2: int, e2: int)
    requires
        is_session_match(bytes, s1, e1),
        is_session_match(bytes, s2, e2),
    ensures
        s1 == s2,
        e1 == e2,
{
    if s1 < s2 {
        assert(!session_starts_at(bytes, s1));
    }
    if s2 < s1 {
        assert(!session_starts_at(bytes, s2));
    }
    if e1 < e2 {
        assert(bytes[e1] != semicolon());
    }
    if e2 < e1 {
        assert(bytes[e2] != semicolon());
    }
}

/// In valid UTF-8, a position right after an ASCII byte is a character
/// boundary.
proof fn lemma_boundary_after_ascii(bytes: Seq<u8>, k: int)
    requires
        valid_utf8(bytes),
        0 < k <= bytes.len(),
        bytes[k - 1] < 0x80,
    ensures
        is_char_boundary(bytes, k),
{
    is_char_boundary_start_end_of_seq(bytes);
    if k < bytes.len() {
        is_char_boundary_iff_not_is_continuation_byte(bytes, k - 1);
        valid_utf8_split(bytes, k - 1);
        let tail = bytes.subrange(k - 1, bytes.len() as int);
        assert(tail[0] == bytes[k - 1]);
        assert(length_of_first_scalar(tail) == 1);
        assert(valid_utf8(tail));
        assert(pop_first_scalar(tail) =~= bytes.subrange(k, bytes.len() as int));
        let after = bytes.subrange(k, bytes.len() as int);
        assert(valid_utf8(after));
        assert(valid_first_scalar(after));
        assert(after[0] == bytes[k]);
        is_char_boundary_iff_not_is_continuation_byte(bytes, k);
    }
}

/// In valid UTF-8, an ASCII byte starts a character.
proof fn lemma_boundary_at_ascii(bytes: Seq<u8>, k: int)
    requires
        valid_utf8(bytes),
        0 <= k < bytes.len(),
        bytes[k] < 0x80,
    ensures
        is_char_boundary(bytes, k),
{
    is_char_boundary_iff_not_is_continuation_byte(bytes, k);
}

/// Where the parts of a session cookie lie in the cookie text (byte offsets).
enum SessionSearch {
    /// No session cookie.
    NotFound,
    /// The cookie at `start..end` holds no `:`.
    NoSeparator { start: usize, end: usize },
    /// The cookie at `start..end` names the room `start + 8..colon` and the
    /// player id `colon + 1..id_end`.
    Found { start: usize, end: usize, colon: usize, id_end: usize },
}

/// Finds the session cookie in `cookie` and the `:`s that split it.
fn locate_session(cookie: &str) -> (r: SessionSearch)
    ensures
        match r {
            SessionSearch::NotFound => !has_session(cookie.spec_bytes()),
            SessionSearch::NoSeparator { start, end } => {
                let matched = cookie.spec_bytes().subrange(start as int, end as int);
                &&& is_session_match(cookie.spec_bytes(), start as int, end as int)
                &&& first_index(matched, colon()) == matched.len()
            },
            SessionSearch::Found { start, end, colon: c1, id_end } => {
                let matched = cookie.spec_bytes().subrange(start as int, end as int);
                let rest = matched.subrange(
                    first_index(matched, colon()) + 1,
                    matched.len() as int,
                );
                &&& is_session_match(cookie.spec_bytes(), start as int, end as int)
                &&& c1 - start == first_index(matched, colon())
                &&& start + 8 <= c1 < end
                &&& c1 + 1 <= id_end <= end
                &&& id_end - (c1 + 1) == first_index(rest, colon())
            },
        },
{
    let pattern = "session=[^;]+";
    proof {
        reveal_strlit("session=[^;]+");
        assert(pattern@ =~= session_pattern());
    }
    let compiled = compile_pattern(pattern).unwrap();
    match first_match(&compiled, cookie) {
        None => SessionSearch::NotFound,
        Some((start, end)) => {
            let bytes = cookie.as_bytes();
            let ghost b = cookie.spec_bytes();
            let ghost matched = b.subrange(start as int, end as int);
            let c1 = find_byte(bytes, start, end, 58u8);
            proof {
                lemma_first_index(matched, colon());
                let f = first_index(matched, colon());
                if f < 8 {
                    assert(matched[f] == b.subrange(start as int, start + 8)[f]);
                    assert(session_prefix()[f] != colon());
                }
            }
            if c1 == end {
                SessionSearch::NoSeparator { start, end }
            } else {
                let id_end = find_byte(bytes, c1 + 1, end, 58u8);
                proof {
                    let rest = matched.subrange(c1 - start + 1, matched.len() as int);
                    assert(rest =~= b.subrange(c1 + 1, end as int));
                }
                SessionSearch::Found { start, end, colon: c1, id_end }
            }
        },
    }
}

/// Every first match of the session pattern in `bytes` is the one at
/// `start..end`.
proof fn lemma_only_match(bytes: Seq<u8>, start: int, end: int)
    requires
        is_session_match(bytes, start, end),
    ensures
        forall|s2: int, e2: int| #[trigger]
            is_session_match(bytes, s2, e2) ==> s2 == start && e2 == end,
{
    assert forall|s2: int, e2: int| #[trigger]
        is_session_match(bytes, s2, e2) implies s2 == start && e2 == end by {
        lemma_session_match_unique(bytes, start, end, s2, e2);
    }
}

/// The player id text of the session cookie at `start..end` of `cookie`,
/// whose first `:` is at `c1` and whose id ends at `id_end`.
fn id_text(cookie: &str, start: usize, end: usize, c1: usize, id_end: usize) -> (user: &str)
    requires
        ({
            let matched = cookie.spec_bytes().subrange(start as int, end as int);
            let rest = matched.subrange(first_index(matched, colon()) + 1, matched.len() as int);
            &&& is_session_match(cookie.spec_bytes(), start as int, end as int)
            &&& c1 - start == first_index(matched, colon())
            &&& start + 8 <= c1 < end
            &&& c1 + 1 <= id_end <= end
            &&& id_end - (c1 + 1) == first_index(rest, colon())
        }),
    ensures
        user.spec_bytes() == user_bytes(cookie.spec_bytes().subrange(start as int, end as int)),
        user@ == decode_utf8(user_bytes(cookie.spec_bytes().subrange(start as int, end as int))),
{
    let ghost b = cookie.spec_bytes();
    let ghost matched = b.subrange(start as int, end as int);
    proof {
        encode_utf8_valid_utf8(cookie@);
        let rest = matched.subrange(c1 - start + 1, matched.len() as int);
        lemma_first_index(matched, colon());
        lemma_first_index(rest, colon());
        is_char_boundary_start_end_of_seq(b);
        if id_end < b.len() {
            if id_end < end {
                assert(b[id_end as int] == rest[id_end - (c1 + 1)]);
            }
            lemma_boundary_at_ascii(b, id_end as int);
        }
        valid_utf8_split(b, id_end as int);
        assert(b.subrange(0, id_end as int)[c1 as int] == matched[c1 - start]);
        lemma_boundary_after_ascii(b.subrange(0, id_end as int), c1 + 1);
    }
    let (before_end, _) = cookie.split_at(id_end);
    let (_, user) = before_end.split_at(c1 + 1);
    proof {
        assert(user.spec_bytes() =~= user_bytes(matched));
        encode_utf8_decode_utf8(user@);
    }
    user
}

/// The room and the player id of the session cookie in `cookie` (the value
/// of a `Cookie` header): the room as it is written, the player id in
/// canonical UUID form. Both are empty when `cookie` holds no session
/// cookie.
pub fn get_session(cookie: &str) -> (r: (&str, String))
    requires
        session_cookie_parses(cookie.spec_bytes()),
    ensures
        !has_session(cookie.spec_bytes()) ==> r.0@ == Seq::<char>::empty() && r.1@ == Seq::<
            char,
        >::empty(),
        forall|start: int, end: int| #[trigger]
            is_session_match(cookie.spec_bytes(), start, end) ==> {
                let matched = cookie.spec_bytes().subrange(start, end);
                &&& r.0@ == decode_utf8(room_bytes(matched))
                &&& r.1@ == hyphenated_uuid(
                    uuid_from_text(decode_utf8(user_bytes(matched))).unwrap(),
                )
            },
{
    let ghost b = cookie.spec_bytes();
    proof {
        encode_utf8_valid_utf8(cookie@);
    }
    match locate_session(cookie) {
        SessionSearch::NotFound => {
            let empty = "";
            proof {
                reveal_strlit("");
            }
            (empty, String::new())
        },
        SessionSearch::NoSeparator { start, end } => {
            // The precondition rules this case out.
            proof {
                assert(is_session_match(b, start as int, end as int));
                assert(false);
            }
            (cookie, String::new())
        },
        SessionSearch::Found { start, end, colon: c1, id_end } => {
            let ghost matched = b.subrange(start as int, end as int);
            proof {
                lemma_first_index(matched, colon());
                assert(b[c1 as int] == matched[c1 - start]);
                lemma_boundary_at_ascii(b, c1 as int);
                valid_utf8_split(b, c1 as int);
                assert(b.subrange(0, c1 as int)[start + 7] == session_prefix()[7]);
                lemma_boundary_after_ascii(b.subrange(0, c1 as int), start + 8);
            }
            let (before_colon, _) = cookie.split_at(c1);
            let (_, room) = before_colon.split_at(start + 8);
            let user = id_text(cookie, start, end, c1, id_end);
            proof {
                assert(room.spec_bytes() =~= room_bytes(matched));
                encode_utf8_decode_utf8(room@);
            }
            let value = parse_uuid(user).unwrap();
            let id = uuid_text(value);
            proof {
                lemma_only_match(b, start as int, end as int);
            }
            (room, id)
        },
    }
}

/// `get_session`, for any cookie text: `None` where the cookie holds a
/// session cookie without a `:`, or whose player id is not a UUID.
pub fn try_get_session(cookie: &str) -> (r: Option<(&str, String)>)
    ensures
        r is Some <==> session_cookie_parses(cookie.spec_bytes()),
        r matches Some(pair) ==> {
            &&& !has_session(cookie.spec_bytes()) ==> pair.0@ == Seq::<char>::empty()
                && pair.1@ == Seq::<char>::empty()
            &&& forall|start: int, end: int| #[trigger]
                is_session_match(cookie.spec_bytes(), start, end) ==> {
                    let matched = cookie.spec_bytes().subrange(start, end);
                    &&& pair.0@ == decode_utf8(room_bytes(matched))
                    &&& pair.1@ == hyphenated_uuid(
                        uuid_from_text(decode_utf8(user_bytes(matched))).unwrap(),
                    )
                }
        },
{
    let ghost b = cookie.spec_bytes();
    proof {
        encode_utf8_valid_utf8(cookie@);
    }
    let parses = match locate_session(cookie) {
        SessionSearch::NotFound => true,
        SessionSearch::NoSeparator { start, end } => {
            proof {
                assert(is_session_match(b, start as int, end as int));
            }
            false
        },
        SessionSearch::Found { start, end, colon: c1, id_end } => {
            let user = id_text(cookie, start, end, c1, id_end);
            proof {
                lemma_only_match(b, start as int, end as int);
            }
            parse_uuid(user).is_some()
        },
    };
    if parses {
        Some(get_session(cookie))
    } else {
        None
    }
}

/// The characters `session=`.
pub open spec fn session_prefix_text() -> Seq<char> {
    seq!['s', 'e', 's', 's', 'i', 'o', 'n', '=']
}

/// `text` holds neither `:` nor `;`.
pub open spec fn free_of_separators(text: Seq<char>) -> bool {
    forall|i: int| 0 <= i < text.len() ==> #[trigger] text[i] != ':' && text[i] != ';'
}

proof fn lemma_encode_concat(a: Seq<char>, b: Seq<char>)
    ensures
        encode_utf8(a + b) == encode_utf8(a) + encode_utf8(b),
    decreases a.len(),
{
    if a.len() == 0 {
        assert(a + b =~= b);
    } else {
        assert((a + b).drop_first() =~= a.drop_first() + b);
        lemma_encode_concat(a.drop_first(), b);
        assert(encode_utf8(a + b) =~= encode_utf8(a) + encode_utf8(b));
    }
}

proof fn lemma_ascii_byte(s: u32)
    by (bit_vector)
    requires
        s < 0x80,
    ensures
        (s & 0x7F) as u8 == s as u8,
        (s as u8) as u32 == s,
{
}

proof fn lemma_high_bytes(s: u32)
    by (bit_vector)
    ensures
        0xC0u8 | ((s >> 6) & 0x1F) as u8 >= 0x80,
        0xE0u8 | ((s >> 12) & 0x0F) as u8 >= 0x80,
        0xF0u8 | ((s >> 18) & 0x7) as u8 >= 0x80,
        0x80u8 | (s & 0x3F) as u8 >= 0x80,
        0x80u8 | ((s >> 6) & 0x3F) as u8 >= 0x80,
        0x80u8 | ((s >> 12) & 0x3F) as u8 >= 0x80,
{
}

/// The UTF-8 of a character other than `:` and `;` holds neither byte.
proof fn lemma_char_bytes(c: char)
    requires
        c != ':' && c != ';',
    ensures
        forall|i: int|
            0 <= i < encode_scalar(c as u32).len() ==> #[trigger] encode_scalar(c as u32)[i]
                != colon() && encode_scalar(c as u32)[i] != semicolon(),
        (c as u32) < 0x80 ==> encode_scalar(c as u32) == seq![(c as u32) as u8],
{
    let s = c as u32;
    lemma_high_bytes(s);
    if s < 0x80 {
        lemma_ascii_byte(s);
        assert(s != 58 && s != 59);
    }
}

/// The UTF-8 of text free of `:` and `;` holds neither byte.
proof fn lemma_text_bytes(text: Seq<char>)
    requires
        free_of_separators(text),
    ensures
        forall|i: int|
            0 <= i < encode_utf8(text).len() ==> #[trigger] encode_utf8(text)[i] != colon()
                && encode_utf8(text)[i] != semicolon(),
    decreases text.len(),
{
    if text.len() > 0 {
        lemma_char_bytes(text[0]);
        assert(free_of_separators(text.drop_first())) by {
            assert forall|i: int| 0 <= i < text.drop_first().len() implies #[trigger] text.drop_first()[i]
                != ':' && text.drop_first()[i] != ';' by {
                assert(text.drop_first()[i] == text[i + 1]);
            }
        }
        lemma_text_bytes(text.drop_first());
        let first = encode_scalar(text[0] as u32);
        let rest = encode_utf8(text.drop_first());
        assert(encode_utf8(text) == first + rest);
        assert forall|i: int| 0 <= i < encode_utf8(text).len() implies #[trigger] encode_utf8(text)[i]
            != colon() && encode_utf8(text)[i] != semicolon() by {
            if i < first.len() {
                assert(encode_utf8(text)[i] == first[i]);
            } else {
                assert(encode_utf8(text)[i] == rest[i - first.len()]);
            }
        }
    }
}

/// The UTF-8 of ASCII text is its characters as bytes.
proof fn lemma_ascii_text(text: Seq<char>)
    requires
        forall|i: int| 0 <= i < text.len() ==> (#[trigger] text[i] as u32) < 0x80,
    ensures
        encode_utf8(text) == text.map_values(|c: char| (c as u32) as u8),
    decreases text.len(),
{
    if text.len() > 0 {
        let s = text[0] as u32;
        lemma_ascii_byte(s);
        assert(text.drop_first().len() == text.len() - 1);
        assert forall|i: int| 0 <= i < text.drop_first().len() implies (#[trigger] text.drop_first()[i] as u32)
            < 0x80 by {
            assert(text.drop_first()[i] == text[i + 1]);
        }
        lemma_ascii_text(text.drop_first());
        assert(encode_utf8(text) =~= text.map_values(|c: char| (c as u32) as u8));
    }
}

proof fn lemma_nibble_small(value: u128, shift: u128)
    by (bit_vector)
    ensures
        (value >> shift) & 0xfu128 < 16,
{
}

/// A canonical UUID text holds neither `:` nor `;`.
proof fn lemma_uuid_text_free(value: u128)
    ensures
        free_of_separators(hyphenated_uuid(value)),
{
    let digits = seq!['0', '1', '2', '3', '4', '5', '6', '7', '8', '9', 'a', 'b', 'c', 'd', 'e', 'f'];
    assert forall|i: int| 0 <= i < hyphenated_uuid(value).len() implies #[trigger] hyphenated_uuid(value)[i]
        != ':' && hyphenated_uuid(value)[i] != ';' by {
        if !(i == 8 || i == 13 || i == 18 || i == 23) {
            let k = digit_index(i);
            lemma_nibble_small(value, (124 - 4 * k) as u128);
            let n = uuid_nibble(value, k);
            assert(0 <= n < 16);
            assert(hyphenated_uuid(value)[i] == digits[n as int]);
        }
    }
}

/// The cookie `session=<room>:<id>` alone is found whole and reads back.
proof fn lemma_session_cookie_core(room: Seq<char>, value: u128)
    requires
        free_of_separators(room),
    ensures
        ({
            let cookie = encode_utf8(
                session_prefix_text() + room + seq![':'] + hyphenated_uuid(value),
            );
            &&& is_session_match(cookie, 0, cookie.len() as int)
            &&& first_index(cookie, colon()) < cookie.len()
            &&& decode_utf8(room_bytes(cookie)) == room
            &&& decode_utf8(user_bytes(cookie)) == hyphenated_uuid(value)
            &&& uuid_from_text(hyphenated_uuid(value)) is Some ==> session_cookie_parses(cookie)
        }),
{
    let id = hyphenated_uuid(value);
    let prefix = session_prefix_text();
    let sep = seq![':'];
    lemma_encode_concat(prefix, room);
    lemma_encode_concat(prefix + room, sep);
    lemma_encode_concat(prefix + room + sep, id);
    assert forall|i: int| 0 <= i < prefix.len() implies (#[trigger] prefix[i] as u32) < 0x80 by {}
    lemma_ascii_text(prefix);
    assert(encode_utf8(prefix) =~= session_prefix());
    assert forall|i: int| 0 <= i < sep.len() implies (#[trigger] sep[i] as u32) < 0x80 by {}
    lemma_ascii_text(sep);
    assert(encode_utf8(sep) =~= seq![colon()]);
    lemma_text_bytes(room);
    lemma_uuid_text_free(value);
    lemma_text_bytes(id);
    let r = encode_utf8(room);
    let u = encode_utf8(id);
    let cookie = encode_utf8(prefix + room + sep + id);
    assert(cookie =~= session_prefix() + r + seq![colon()] + u);
    let len = cookie.len() as int;
    // where the cookie starts and ends
    assert(cookie.subrange(0, 8) =~= session_prefix());
    assert(cookie[8] != semicolon()) by {
        if r.len() > 0 {
            assert(cookie[8] == r[0]);
        } else {
            assert(cookie[8] == colon());
        }
    }
    assert forall|j: int| 8 <= j < len implies #[trigger] cookie[j] != semicolon() by {
        if j < 8 + r.len() {
            assert(cookie[j] == r[j - 8]);
        } else if j > 8 + r.len() {
            assert(cookie[j] == u[j - 9 - r.len()]);
        }
    }
    assert(is_session_match(cookie, 0, len));
    // the separator
    let k = 8 + r.len() as int;
    assert forall|i: int| 0 <= i < k implies cookie[i] != colon() by {
        if i < 8 {
            assert(cookie[i] == session_prefix()[i]);
        } else {
            assert(cookie[i] == r[i - 8]);
        }
    }
    lemma_first_index_unique(cookie, colon(), k);
    assert(cookie.subrange(0, len) =~= cookie);
    assert(room_bytes(cookie) =~= r);
    encode_utf8_decode_utf8(room);
    let rest = cookie.subrange(k + 1, len);
    assert(rest =~= u);
    lemma_first_index_unique(rest, colon(), rest.len() as int);
    assert(user_bytes(cookie) =~= u);
    encode_utf8_decode_utf8(id);
    if uuid_from_text(id) is Some {
        assert forall|start: int, end: int| #[trigger]
            is_session_match(cookie, start, end) implies {
                let matched = cookie.subrange(start, end);
                &&& first_index(matched, colon()) < matched.len()
                &&& uuid_from_text(decode_utf8(user_bytes(matched))) is Some
            } by {
            lemma_session_match_unique(cookie, 0, len, start, end);
        }
    }
}

/// A session cookie in the form the server writes it,
/// `session=<room>:<id>` followed by nothing or by attributes that start
/// with `;` (such as `; SameSite=Strict; HttpOnly=true; Path=/;`), with a
/// room name free of `:` and `;` and an id in canonical UUID form (as
/// `make_user_id` makes them), is found up to the attributes and reads back
/// as that room and that id; and if the id parses as a UUID (as every id
/// that `uuid_text` writes does), the cookie is one `get_session` accepts.
pub proof fn law_session_cookie_round_trip(room: Seq<char>, value: u128, attributes: Seq<char>)
    requires
        free_of_separators(room),
        attributes.len() == 0 || attributes[0] == ';',
    ensures
        ({
            let written = session_prefix_text() + room + seq![':'] + hyphenated_uuid(value);
            let cookie = encode_utf8(written + attributes);
            let end = encode_utf8(written).len() as int;
            let matched = cookie.subrange(0, end);
            &&& is_session_match(cookie, 0, end)
            &&& decode_utf8(room_bytes(matched)) == room
            &&& decode_utf8(user_bytes(matched)) == hyphenated_uuid(value)
            &&& uuid_from_text(hyphenated_uuid(value)) is Some ==> session_cookie_parses(cookie)
        }),
{
    let written = session_prefix_text() + room + seq![':'] + hyphenated_uuid(value);
    let core = encode_utf8(written);
    let tail = encode_utf8(attributes);
    lemma_session_cookie_core(room, value);
    lemma_encode_concat(written, attributes);
    let cookie = encode_utf8(written + attributes);
    let end = core.len() as int;
    assert(cookie =~= core + tail);
    assert(cookie.subrange(0, end) =~= core);
    assert(cookie.subrange(0, 8) =~= core.subrange(0, 8));
    assert(cookie[8] == core[8]);
    assert forall|j: int| 8 <= j < end implies #[trigger] cookie[j] != semicolon() by {
        assert(cookie[j] == core[j]);
    }
    if attributes.len() > 0 {
        lemma_ascii_byte(';' as u32);
        assert(tail[0] == semicolon());
        assert(cookie[end] == tail[0]);
    }
    assert(is_session_match(cookie, 0, end));
    if uuid_from_text(hyphenated_uuid(value)) is Some {
        lemma_only_match(cookie, 0, end);
    }
}

/// Cookies that hold no `session=` and end with `;` or a space.
pub open spec fn other_cookies(others: Seq<u8>) -> bool {
    &&& others.len() == 0 || others.last() == semicolon() || others.last() == 32u8
    &&& forall|k: int| 0 <= k && k + 8 <= others.len() ==> #[trigger] others.subrange(k, k + 8) != session_prefix()
}

/// Behind other cookies, a session cookie can only start where it starts
/// in the rest.
proof fn lemma_starts_behind(others: Seq<u8>, cookie: Seq<u8>, k: int)
    requires
        other_cookies(others),
    ensures
        session_starts_at(others + cookie, k) == (k >= others.len() && session_starts_at(
            cookie,
            k - others.len(),
        )),
{
    let all = others + cookie;
    let p = others.len() as int;
    if 0 <= k < p {
        if k + 8 <= p {
            assert(all.subrange(k, k + 8) =~= others.subrange(k, k + 8));
        } else if k + 8 <= all.len() {
            let j = p - 1;
            assert(all[j] == others.last());
            if all.subrange(k, k + 8) == session_prefix() {
                assert(all.subrange(k, k + 8)[j - k] == all[j]);
                let bytes = session_prefix();
                assert(bytes[0] != 59u8 && bytes[1] != 59u8 && bytes[2] != 59u8 && bytes[3] != 59u8);
                assert(bytes[4] != 59u8 && bytes[5] != 59u8 && bytes[6] != 59u8 && bytes[7] != 59u8);
                assert(bytes[0] != 32u8 && bytes[1] != 32u8 && bytes[2] != 32u8 && bytes[3] != 32u8);
                assert(bytes[4] != 32u8 && bytes[5] != 32u8 && bytes[6] != 32u8 && bytes[7] != 32u8);
            }
        }
    } else if k >= p {
        if k + 9 <= all.len() {
            assert(all.subrange(k, k + 8) =~= cookie.subrange(k - p, k - p + 8));
            assert(all[k + 8] == cookie[k - p + 8]);
        }
    }
}

/// Other cookies written in front of the session cookie (holding no
/// `session=` and ending with `;` or a space, as in `theme=dark; `) change
/// nothing: the same session cookie is found, shifted by their length, and
/// the header is accepted exactly when the rest is.
pub proof fn law_session_behind_other_cookies(others: Seq<u8>, cookie: Seq<u8>)
    requires
        other_cookies(others),
    ensures
        has_session(others + cookie) == has_session(cookie),
        forall|start: int, end: int|
            #[trigger] is_session_match(others + cookie, start, end) ==> start >= others.len(),
        forall|start: int, end: int|
            #[trigger] is_session_match(cookie, start, end) ==> is_session_match(
                others + cookie,
                start + others.len(),
                end + others.len(),
            ) && (others + cookie).subrange(start + others.len(), end + others.len())
                == cookie.subrange(start, end),
        session_cookie_parses(others + cookie) == session_cookie_parses(cookie),
{
    let all = others + cookie;
    let p = others.len() as int;
    assert forall|k: int| #[trigger] session_starts_at(all, k) == (k >= p && session_starts_at(cookie, k - p)) by {
        lemma_starts_behind(others, cookie, k);
    }
    // where matches lie
    assert forall|start: int, end: int|
        #[trigger] is_session_match(all, start, end) implies start >= p && is_session_match(
            cookie,
            start - p,
            end - p,
        ) && all.subrange(start, end) == cookie.subrange(start - p, end - p) by {
        assert(session_starts_at(all, start));
        assert forall|k: int| 0 <= k < start - p implies !#[trigger] session_starts_at(cookie, k) by {
            assert(!session_starts_at(all, k + p));
        }
        assert forall|j: int| start - p + 8 <= j < end - p implies #[trigger] cookie[j] != semicolon() by {
            assert(all[j + p] == cookie[j]);
        }
        if end < all.len() {
            assert(all[end] == cookie[end - p]);
        }
        assert(all.subrange(start, end) =~= cookie.subrange(start - p, end - p));
    }
    assert forall|start: int, end: int|
        #[trigger] is_session_match(cookie, start, end) implies is_session_match(
            all,
            start + p,
            end + p,
        ) && all.subrange(start + p, end + p) == cookie.subrange(start, end) by {
        assert(session_starts_at(all, start + p));
        assert forall|k: int| 0 <= k < start + p implies !#[trigger] session_starts_at(all, k) by {
            if k >= p {
                assert(!session_starts_at(cookie, k - p));
            }
        }
        assert forall|j: int| start + p + 8 <= j < end + p implies #[trigger] all[j] != semicolon() by {
            assert(all[j] == cookie[j - p]);
        }
        if end < cookie.len() {
            assert(all[end + p] == cookie[end]);
        }
        assert(all.subrange(start + p, end + p) =~= cookie.subrange(start, end));
    }
    if has_session(all) {
        let k = choose|k: int| #[trigger] session_starts_at(all, k);
        assert(session_starts_at(cookie, k - p));
    }
    if has_session(cookie) {
        let k = choose|k: int| #[trigger] session_starts_at(cookie, k);
        assert(session_starts_at(all, k + p));
    }
    if session_cookie_parses(cookie) {
        assert forall|start: int, end: int| #[trigger] is_session_match(all, start, end) implies {
            let matched = all.subrange(start, end);
            &&& first_index(matched, colon()) < matched.len()
            &&& uuid_from_text(decode_utf8(user_bytes(matched))) is Some
        } by {
            assert(is_session_match(cookie, start - p, end - p));
        }
    }
    if session_cookie_parses(all) {
        assert forall|start: int, end: int| #[trigger] is_session_match(cookie, start, end) implies {
            let matched = cookie.subrange(start, end);
            &&& first_index(matched, colon()) < matched.len()
            &&& uuid_from_text(decode_utf8(user_bytes(matched))) is Some
        } by {
            assert(is_session_match(all, start + p, end + p));
        }
    }
}

} // verus!
