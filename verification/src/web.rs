//! The game server's HTTP side: which resource a request asks for, the
//! replies it gets, the WebSocket handshake, and the echo of WebSocket text
//! messages.

use vstd::prelude::*;
use vstd::string::StrSliceExecFns;
use crate::headers::{
    all_values, first_value, header_is, header_match, is_visible_ascii, lower_byte, lower_char,
    lowered_text, same_name, HeaderList,
};
use crate::text::{
    chars_of, decimal, decimal_value, find_char, law_decimal_reads_back, first_index, is_text, join_with, law_join_split, lemma_first_index,
    lemma_split_nonempty, push_decimal, split_on, string_of,
};

verus! {

/// An HTTP reply: status code, headers (name and value) in order, and body.
pub struct Reply {
    pub status: u16,
    pub headers: Vec<(String, String)>,
    pub body: Vec<u8>,
}

/// A reply's headers as text pairs.
pub open spec fn header_pairs(r: &Reply) -> Seq<(Seq<char>, Seq<char>)> {
    r.headers@.map_values(|h: (String, String)| (h.0@, h.1@))
}

/// A header pair built from text.
fn header(name: &str, value: &str) -> (h: (String, String))
    ensures
        h.0@ == name@,
        h.1@ == value@,
{
    (name.to_owned(), value.to_owned())
}

/// The part of `path` after its first `/`.
pub open spec fn after_first_slash(path: Seq<char>) -> Seq<char> {
    path.subrange(first_index(path, '/') + 1, path.len() as int)
}

/// The first segment of `path`: what stands between its first and second
/// `/` (or the end).
pub open spec fn first_segment(path: Seq<char>) -> Seq<char> {
    let rest = after_first_slash(path);
    rest.subrange(0, first_index(rest, '/'))
}

/// `path` has a second `/`.
pub open spec fn has_tail(path: Seq<char>) -> bool {
    let rest = after_first_slash(path);
    first_index(rest, '/') < rest.len()
}

/// What follows the second `/` of `path`; empty when there is none.
pub open spec fn path_tail(path: Seq<char>) -> Seq<char> {
    let rest = after_first_slash(path);
    if has_tail(path) {
        rest.subrange(first_index(rest, '/') + 1, rest.len() as int)
    } else {
        Seq::empty()
    }
}

/// The path's pieces as cutting it at every `/` gives them: the first
/// segment is the second piece, there is a second `/` exactly when there
/// are three pieces or more, and the tail is the pieces from the third on
/// glued back together with `/`.
pub proof fn law_path_pieces(path: Seq<char>)
    requires
        first_index(path, '/') < path.len(),
    ensures
        split_on(path, '/').len() >= 2,
        split_on(path, '/')[1] == first_segment(path),
        has_tail(path) <==> split_on(path, '/').len() >= 3,
        has_tail(path) ==> split_on(path, '/').subrange(2, split_on(path, '/').len() as int)
            == split_on(path_tail(path), '/'),
        join_with(split_on(path, '/').subrange(2, split_on(path, '/').len() as int), '/')
            == path_tail(path),
{
    lemma_first_index(path, '/');
    let rest = after_first_slash(path);
    lemma_first_index(rest, '/');
    let pieces = split_on(path, '/');
    assert(pieces.drop_first() =~= split_on(rest, '/'));
    if has_tail(path) {
        let tail = path_tail(path);
        lemma_split_nonempty(tail, '/');
        assert(split_on(rest, '/').drop_first() =~= split_on(tail, '/'));
        assert(pieces.subrange(2, pieces.len() as int) =~= split_on(tail, '/'));
        law_join_split(tail, '/');
    } else {
        assert(rest.subrange(0, rest.len() as int) =~= rest);
        assert(pieces.subrange(2, pieces.len() as int) =~= Seq::<Seq<char>>::empty());
    }
}

/// A request path split at its first two `/`.
pub struct PathParts {
    /// The first segment.
    pub segment: String,
    /// Whether there is a second `/`.
    pub has_tail: bool,
    /// What follows the second `/`.
    pub tail: String,
}

/// Splits `path` (which holds a `/`, as every request path does) into its
/// first segment and what follows it.
pub fn split_path(path: &str) -> (parts: PathParts)
    requires
        first_index(path@, '/') < path@.len(),
    ensures
        parts.segment@ == first_segment(path@),
        parts.has_tail == has_tail(path@),
        parts.tail@ == path_tail(path@),
{
    let chars = chars_of(path);
    let n = chars.len();
    let c1 = find_char(&chars, 0, n, '/');
    assert(chars@.subrange(0, n as int) =~= path@);
    let c2 = find_char(&chars, c1 + 1, n, '/');
    let segment = string_of(&chars, c1 + 1, c2);
    let ghost rest = after_first_slash(path@);
    assert(chars@.subrange(c1 + 1, n as int) =~= rest);
    assert(segment@ =~= rest.subrange(0, first_index(rest, '/')));
    if c2 < n {
        let tail = string_of(&chars, c2 + 1, n);
        assert(tail@ =~= rest.subrange(first_index(rest, '/') + 1, rest.len() as int));
        PathParts { segment, has_tail: true, tail }
    } else {
        PathParts { segment, has_tail: false, tail: String::new() }
    }
}

/// What the server does with a request.
pub enum Action {
    /// Send the web resource with this name.
    Resource(String),
    /// Open a WebSocket connection.
    WebSocket,
    /// Reply with an empty page.
    Nothing,
    /// Refuse the method.
    MethodNotAllowed,
}

/// Routes a request: `GET /` serves `index.html`, `GET /web/<name>` serves
/// the resource `<name>`, `GET /ws` opens a WebSocket, any other `GET` gets
/// an empty page, and every other method is refused.
pub fn route(method: &str, path: &str) -> (action: Action)
    requires
        method@ == "GET"@ ==> first_index(path@, '/') < path@.len(),
    ensures
        method@ != "GET"@ ==> action is MethodNotAllowed,
        method@ == "GET"@ ==> {
            let segment = first_segment(path@);
            if segment.len() == 0 {
                action matches Action::Resource(name) && name@ == "index.html"@
            } else if segment == "web"@ {
                action matches Action::Resource(name) && name@ == path_tail(path@)
            } else if segment == "ws"@ {
                action is WebSocket
            } else {
                action is Nothing
            }
        },
{
    if method.to_owned() != "GET".to_owned() {
        return Action::MethodNotAllowed;
    }
    let parts = split_path(path);
    if parts.segment.as_str().unicode_len() == 0 {
        Action::Resource("index.html".to_owned())
    } else if is_text(&parts.segment, "web") {
        Action::Resource(parts.tail)
    } else if is_text(&parts.segment, "ws") {
        Action::WebSocket
    } else {
        Action::Nothing
    }
}

/// The file that holds the web resource `name`: `./dist/<name>`.
pub fn resource_location(name: &str) -> (location: String)
    ensures
        location@ == "./dist/"@ + name@,
{
    let mut location = "./dist/".to_owned();
    location.append(name);
    location
}

/// The media type that the `mime_guess` crate guesses from a file path.
pub uninterp spec fn guessed_media_type(path: Seq<char>) -> Seq<char>;

/// Calls `mime_guess::from_path` and takes the first guess, or
/// `application/octet-stream` when there is none (`first_or_octet_stream`),
/// as text. Claims only that the outcome is `guessed_media_type` of the
/// path: the guess depends on the path's extension alone.
#[verifier::external_body]
fn media_type(path: &str) -> (media: String)
    ensures
        media@ == guessed_media_type(path@),
{
    mime_guess::from_path(path).first_or_octet_stream().to_string()
}

/// The reply to a request for the resource stored at `location`, given the
/// file's contents, or `None` when it could not be read: the contents with
/// the media type guessed from the location, or 404 with an empty body.
pub fn resource_reply(location: &str, contents: Option<Vec<u8>>) -> (reply: Reply)
    ensures
        match contents {
            Some(file) => {
                &&& reply.status == 200
                &&& header_pairs(&reply) == seq![("content-type"@, guessed_media_type(location@))]
                &&& reply.body@ == file@
            },
            None => reply.status == 404 && reply.headers@.len() == 0 && reply.body@.len() == 0,
        },
{
    match contents {
        Some(file) => {
            let media = media_type(location);
            let mut headers = Vec::new();
            headers.push(("content-type".to_owned(), media));
            let reply = Reply { status: 200, headers, body: file };
            assert(header_pairs(&reply) =~= seq![("content-type"@, guessed_media_type(location@))]);
            reply
        },
        None => Reply { status: 404, headers: Vec::new(), body: Vec::new() },
    }
}

/// An empty page: status 200, no headers, no body.
pub fn empty_reply() -> (reply: Reply)
    ensures
        reply.status == 200,
        reply.headers@.len() == 0,
        reply.body@.len() == 0,
{
    Reply { status: 200, headers: Vec::new(), body: Vec::new() }
}

/// The reply to a method other than `GET`: 405 with `allow: GET`.
pub fn method_not_allowed() -> (reply: Reply)
    ensures
        reply.status == 405,
        header_pairs(&reply) == seq![("allow"@, "GET"@)],
        reply.body@.len() == 0,
{
    let mut headers = Vec::new();
    headers.push(header("allow", "GET"));
    let reply = Reply { status: 405, headers, body: Vec::new() };
    assert(header_pairs(&reply) =~= seq![("allow"@, "GET"@)]);
    reply
}

/// The reply for a failure inside the server: 500 with the error's text as
/// its body.
pub fn error_response(err: String) -> (reply: Reply)
    ensures
        reply.status == 500,
        reply.headers@.len() == 0,
        reply.body@ == vstd::utf8::encode_utf8(err@),
{
    Reply { status: 500, headers: Vec::new(), body: err.as_str().as_bytes_vec() }
}

/// The `sec-websocket-accept` value that the `headers` crate derives from
/// a `sec-websocket-key` value (`SecWebsocketAccept::from`), if the key
/// bytes form a header value.
pub uninterp spec fn websocket_accept_for(key: Seq<u8>) -> Option<Seq<char>>;

/// Whether the `headers` crate, reading the given `connection` header
/// values (`Connection`), finds `option` among the listed options.
pub uninterp spec fn connection_lists_option(values: Seq<Seq<u8>>, option: Seq<char>) -> bool;

/// A byte that a header value may hold: anything from 32 up but 127, or a
/// tab.
pub open spec fn is_header_value_byte(b: u8) -> bool {
    (b >= 32 && b != 127) || b == 9
}

/// A byte that may stand in a plain connection option: visible ASCII other
/// than space, `"` and `,`.
pub open spec fn is_option_byte(b: u8) -> bool {
    33 <= b <= 126 && b != 34 && b != 44
}

/// `text` with ASCII upper-case letters made lower case.
pub open spec fn lowered_chars(text: Seq<char>) -> Seq<char> {
    text.map_values(|c: char| lower_char(c))
}

/// Builds a header value from `key` (`HeaderValue::from_bytes`), reads it as
/// a `headers::SecWebsocketKey` (`Header::decode`), signs it with
/// `SecWebsocketAccept::from` and hands back the signed value as text
/// (`Header::encode`, `HeaderValue::to_str`); `None` where one of these
/// reports an error. Claims that the outcome is `websocket_accept_for` of
/// the key, and that there is one exactly when every key byte may stand in
/// a header value (the only check that can fail: a key is decoded from its
/// single value, signing cannot fail, and the signed base64 text is visible
/// ASCII). That the value is the base64 of the SHA-1 of the key and the
/// WebSocket GUID is left to the name.
#[verifier::external_body]
fn websocket_accept(key: &[u8]) -> (accept: Option<String>)
    ensures
        match accept {
            Some(a) => websocket_accept_for(key@) == Some(a@),
            None => websocket_accept_for(key@) is None,
        },
        accept is Some <==> forall|i: int| 0 <= i < key@.len() ==> is_header_value_byte(#[trigger] key@[i]),
{
    match headers::HeaderValue::from_bytes(key) {
        Ok(value) => match <headers::SecWebsocketKey as headers::Header>::decode(&mut std::iter::once(&value)) {
            Ok(decoded) => {
                let mut encoded: Vec<headers::HeaderValue> = Vec::new();
                headers::Header::encode(&headers::SecWebsocketAccept::from(decoded), &mut encoded);
                encoded.first().and_then(|v| v.to_str().ok()).map(|text| text.to_string())
            },
            Err(_) => None,
        },
        Err(_) => None,
    }
}

/// Builds header values from `values` (`HeaderValue::from_bytes`), reads
/// them as one `headers::Connection` header (`Header::decode`) and asks
/// whether it lists `option` (`Connection::contains`, which ignores ASCII
/// case); `false` where the values do not form header values. Claims that
/// the outcome is `connection_lists_option` of the values and option; and
/// that when the values are visible ASCII without `"` (so that the crate
/// joins them with `, `, reads the result as text and cuts it at every `,`
/// into trimmed options), a non-empty `option` made of plain option bytes
/// is found if one of the values is that option up to ASCII case. The rest
/// of the crate's reading (quoted parts, other bytes) is left to the name.
#[verifier::external_body]
fn connection_lists(values: &Vec<Vec<u8>>, option: &str) -> (listed: bool)
    ensures
        listed == connection_lists_option(values@.map_values(|v: Vec<u8>| v@), option@),
        ({
            &&& forall|k: int, j: int|
                0 <= k < values@.len() && 0 <= j < values@[k]@.len() ==> 32 <= #[trigger] values@[k]@[j]
                    <= 126 && values@[k]@[j] != 34
            &&& option@.len() > 0
            &&& forall|i: int| 0 <= i < option@.len() ==> is_option_byte(#[trigger] option@[i] as u8)
                && (option@[i] as u32) < 128
            &&& exists|k: int| 0 <= k < values@.len() && lowered_text(#[trigger] values@[k]@) == lowered_chars(option@)
        }) ==> listed,
{
    let parsed: Result<Vec<headers::HeaderValue>, _> =
        values.iter().map(|v| headers::HeaderValue::from_bytes(v)).collect();
    match parsed {
        Ok(parsed) => match <headers::Connection as headers::Header>::decode(&mut parsed.iter()) {
            Ok(connection) => connection.contains(option),
            Err(_) => false,
        },
        Err(_) => false,
    }
}

/// A WebSocket handshake request: it has a `sec-websocket-key` whose
/// answer can be derived, `upgrade: websocket`, `sec-websocket-version: 13`
/// and `connection` headers that list `upgrade`.
pub open spec fn handshake_accepted(headers: Seq<(Seq<char>, Seq<u8>)>) -> bool {
    &&& first_value(headers, "sec-websocket-key"@) matches Some(key) && websocket_accept_for(key) is Some
    &&& header_is(headers, "upgrade"@, "websocket"@)
    &&& header_is(headers, "sec-websocket-version"@, "13"@)
    &&& connection_lists_option(all_values(headers, "connection"@), "upgrade"@)
}

/// Replacing the value of an entry whose name is not `name` changes neither
/// the first value nor the list of values under `name`; replacing it under
/// `name` changes the first value at most from the old value to the new one.
proof fn lemma_values_after_update(
    headers: Seq<(Seq<char>, Seq<u8>)>,
    k: int,
    value: Seq<u8>,
    name: Seq<char>,
)
    requires
        0 <= k < headers.len(),
    ensures
        ({
            let updated = headers.update(k, (headers[k].0, value));
            &&& !same_name(headers[k].0, name) ==> first_value(updated, name) == first_value(headers, name)
            &&& !same_name(headers[k].0, name) ==> all_values(updated, name) == all_values(headers, name)
            &&& first_value(updated, name) == first_value(headers, name) || (first_value(headers, name)
                == Some(headers[k].1) && first_value(updated, name) == Some(value))
        }),
    decreases headers.len(),
{
    let updated = headers.update(k, (headers[k].0, value));
    if k > 0 {
        lemma_values_after_update(headers.drop_first(), k - 1, value, name);
        assert(updated.drop_first() =~= headers.drop_first().update(k - 1, (headers[k].0, value)));
        assert(updated[0] == headers[0]);
    } else {
        assert(updated.drop_first() =~= headers.drop_first());
    }
}

/// Whether a header matches an expected value does not depend on the ASCII
/// case of the header's value: changing the case of letters in the value of
/// any entry leaves `header_is` as it was, for every name and expected
/// text.
pub proof fn law_header_match_ignores_value_case(
    headers: Seq<(Seq<char>, Seq<u8>)>,
    k: int,
    value: Seq<u8>,
    name: Seq<char>,
    expected: Seq<char>,
)
    requires
        0 <= k < headers.len(),
        value.len() == headers[k].1.len(),
        forall|i: int| 0 <= i < value.len() ==> lower_byte(#[trigger] value[i]) == lower_byte(headers[k].1[i]),
    ensures
        header_is(headers.update(k, (headers[k].0, value)), name, expected) == header_is(
            headers,
            name,
            expected,
        ),
{
    let updated = headers.update(k, (headers[k].0, value));
    lemma_values_after_update(headers, k, value, name);
    let old_value = headers[k].1;
    assert(lowered_text(value) =~= lowered_text(old_value));
    assert forall|i: int| 0 <= i < value.len() implies is_visible_ascii(#[trigger] value[i])
        == is_visible_ascii(old_value[i]) by {
        assert(lower_byte(value[i]) == lower_byte(old_value[i]));
    }
    let new_visible = forall|i: int| 0 <= i < value.len() ==> is_visible_ascii(#[trigger] value[i]);
    let old_visible = forall|i: int| 0 <= i < old_value.len() ==> is_visible_ascii(#[trigger] old_value[i]);
    if new_visible {
        assert forall|i: int| 0 <= i < old_value.len() implies is_visible_ascii(#[trigger] old_value[i]) by {
            assert(is_visible_ascii(value[i]));
        }
    }
    if old_visible {
        assert forall|i: int| 0 <= i < value.len() implies is_visible_ascii(#[trigger] value[i]) by {
            assert(is_visible_ascii(old_value[i]));
        }
    }
}

/// The handshake decision sees the `upgrade` header's value only up to
/// ASCII case: changing the case of letters in an `upgrade` value leaves the
/// decision, and the accept answer, as they were.
pub proof fn law_handshake_ignores_upgrade_case(
    headers: Seq<(Seq<char>, Seq<u8>)>,
    k: int,
    value: Seq<u8>,
)
    requires
        0 <= k < headers.len(),
        same_name(headers[k].0, "upgrade"@),
        value.len() == headers[k].1.len(),
        forall|i: int| 0 <= i < value.len() ==> lower_byte(#[trigger] value[i]) == lower_byte(headers[k].1[i]),
    ensures
        handshake_accepted(headers.update(k, (headers[k].0, value))) == handshake_accepted(headers),
        handshake_accept(headers.update(k, (headers[k].0, value))) == handshake_accept(headers),
{
    reveal_strlit("upgrade");
    reveal_strlit("sec-websocket-key");
    reveal_strlit("sec-websocket-version");
    reveal_strlit("connection");
    let updated = headers.update(k, (headers[k].0, value));
    lemma_values_after_update(headers, k, value, "sec-websocket-key"@);
    lemma_values_after_update(headers, k, value, "sec-websocket-version"@);
    lemma_values_after_update(headers, k, value, "connection"@);
    lemma_values_after_update(headers, k, value, "upgrade"@);
    law_header_match_ignores_value_case(headers, k, value, "upgrade"@, "websocket"@);
    assert(header_is(updated, "upgrade"@, "websocket"@) == header_is(headers, "upgrade"@, "websocket"@));
}

/// The answer to the request's `sec-websocket-key`.
pub open spec fn handshake_accept(headers: Seq<(Seq<char>, Seq<u8>)>) -> Seq<char> {
    websocket_accept_for(first_value(headers, "sec-websocket-key"@).unwrap()).unwrap()
}

/// The WebSocket handshake: a handshake request is answered 101 with the
/// upgrade headers and the answer to its key; any other request gets 400.
pub fn upgrade_connection(headers: &HeaderList) -> (reply: Result<Reply, Reply>)
    ensures
        reply is Ok <==> handshake_accepted(headers@),
        reply matches Ok(r) ==> {
            &&& r.status == 101
            &&& header_pairs(&r) == seq![
                ("upgrade"@, "websocket"@),
                ("sec-websocket-accept"@, handshake_accept(headers@)),
                ("connection"@, "upgrade"@),
            ]
            &&& r.body@.len() == 0
        },
        reply matches Err(r) ==> r.status == 400 && r.headers@.len() == 0 && r.body@.len() == 0,
{
    let accept = match headers.get("sec-websocket-key") {
        Some(key) => websocket_accept(key.as_slice()),
        None => None,
    };
    match accept {
        Some(accept_value) => {
            if header_match(headers, "upgrade", "websocket") && header_match(
                headers,
                "sec-websocket-version",
                "13",
            ) && connection_lists(&headers.get_all("connection"), "upgrade") {
                let ghost accept_view = accept_value@;
                let mut reply_headers = Vec::new();
                reply_headers.push(header("upgrade", "websocket"));
                reply_headers.push(("sec-websocket-accept".to_owned(), accept_value));
                reply_headers.push(header("connection", "upgrade"));
                let reply = Reply { status: 101, headers: reply_headers, body: Vec::new() };
                assert(header_pairs(&reply) =~= seq![
                    ("upgrade"@, "websocket"@),
                    ("sec-websocket-accept"@, accept_view),
                    ("connection"@, "upgrade"@),
                ]);
                Ok(reply)
            } else {
                Err(Reply { status: 400, headers: Vec::new(), body: Vec::new() })
            }
        },
        None => Err(Reply { status: 400, headers: Vec::new(), body: Vec::new() }),
    }
}

/// A WebSocket message as the echo sees it.
pub enum Incoming {
    Text(String),
    /// Any other message: binary, ping, pong or close.
    Other,
}

/// The answer to the `count`-th text message `text`: `Response <count>: <text>`.
pub open spec fn echo_text(count: nat, text: Seq<char>) -> Seq<char> {
    "Response "@ + decimal(count) + ": "@ + text
}

/// The answer to a text message is `Response ` followed by the count in
/// decimal digits (which read back as the count), then `: ` and the whole
/// message text, unchanged.
pub proof fn law_echo_answer(count: nat, text: Seq<char>)
    ensures
        ({
            let answer = echo_text(count, text);
            let len = answer.len() as int;
            &&& len >= 9 + 1 + 2 + text.len()
            &&& answer.subrange(0, 9) == "Response "@
            &&& answer.subrange(len - text.len(), len) == text
            &&& answer.subrange(len - text.len() - 2, len - text.len()) == ": "@
            &&& decimal_value(answer.subrange(9, len - text.len() - 2)) == count
            &&& forall|i: int| 9 <= i < len - text.len() - 2 ==> '0' <= #[trigger] answer[i] <= '9'
        }),
{
    reveal_strlit("Response ");
    reveal_strlit(": ");
    law_decimal_reads_back(count);
    let digits = decimal(count);
    let answer = echo_text(count, text);
    let len = answer.len() as int;
    assert(answer =~= "Response "@ + digits + ": "@ + text);
    assert(answer.subrange(0, 9) =~= "Response "@);
    assert(answer.subrange(len - text.len(), len) =~= text);
    assert(answer.subrange(len - text.len() - 2, len - text.len()) =~= ": "@);
    assert(answer.subrange(9, len - text.len() - 2) =~= digits);
    assert forall|i: int| 9 <= i < len - text.len() - 2 implies '0' <= #[trigger] answer[i] <= '9' by {
        assert(answer[i] == digits[i - 9]);
    }
}

/// The echo of one WebSocket connection: it answers each text message with
/// the message, numbered, and lets every other message pass unanswered.
pub struct EchoSession {
    count: i32,
}

impl EchoSession {
    #[verifier::type_invariant]
    spec fn counts_up(&self) -> bool {
        self.count >= 0
    }

    /// How many text messages have been answered.
    pub closed spec fn answered(&self) -> nat {
        self.count as nat
    }

    /// A session that has answered nothing yet.
    pub fn new() -> (s: EchoSession)
        ensures
            s.answered() == 0,
    {
        EchoSession { count: 0 }
    }

    /// How many text messages have been answered.
    pub fn answered_count(&self) -> (n: i32)
        ensures
            n == self.answered(),
    {
        proof {
            use_type_invariant(self);
        }
        self.count
    }

    /// The answer to `message`, if it gets one. The count may not pass the
    /// largest `i32`.
    pub fn respond(&mut self, message: &Incoming) -> (answer: Option<String>)
        requires
            message is Text ==> old(self).answered() < i32::MAX,
        ensures
            match message {
                Incoming::Text(text) => {
                    &&& final(self).answered() == old(self).answered() + 1
                    &&& answer matches Some(a) && a@ == echo_text(final(self).answered(), text@)
                },
                Incoming::Other => final(self).answered() == old(self).answered() && answer is None,
            },
    {
        proof {
            use_type_invariant(&*self);
        }
        match message {
            Incoming::Text(text) => {
                self.count = self.count + 1;
                let mut answer = "Response ".to_owned();
                push_decimal(&mut answer, self.count as u64);
                answer.append(": ");
                answer.append(text.as_str());
                Some(answer)
            },
            Incoming::Other => None,
        }
    }
}

} // verus!
