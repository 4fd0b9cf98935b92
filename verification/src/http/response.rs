//! Responses: their fields, their form on the wire, and how one is read
//! back from the bytes that a peer sent.

use crate::http::table::{
    entries, lists, pair_views, table_clone, table_get, table_insert, table_new, table_pairs,
    Entries, Pair,
};
use crate::http::text::{
    chars_of, contains, decimal, decimal_of, decode_failure, extend, find_from, free_of, join,
    lemma_decimal_free_of, lemma_find_behind, lemma_find_char, lemma_free_of_concat,
    lemma_number_of_decimal, lemma_split_first, lemma_split_whole, lemma_text_of_buffer,
    lemma_trim_space_before, lines, lines_of, number_u16, parse_u16, pattern, push_str, same, split,
    split_at_each, string_of, text_in, text_of, trim, trimmed, until_nul, views,
};
use crate::http::wire::{
    all_sendable, field, fields, header_lines, lemma_header_lines_without_nul,
    lemma_lines_of_message, line_end, message, render_message, sendable,
};
use dashmap::DashMap;
use vstd::prelude::*;
use vstd::utf8::encode_utf8;

verus! {

pub type PotentialResponse = Option<Response>;

pub type ResponseBytes = Vec<u8>;

pub type ResponseHeaders = DashMap<String, String>;

/// A response: protocol, status, body and headers.
#[derive(Debug)]
pub struct Response {
    pub protocol: String,
    pub status: u16,
    pub body: String,
    pub headers: ResponseHeaders,
}

/// What a response is in contracts.
#[verifier::ext_equal]
pub struct ResponseView {
    pub protocol: Seq<char>,
    pub status: u16,
    pub body: Seq<char>,
    pub headers: Entries,
}

impl View for Response {
    type V = ResponseView;

    open spec fn view(&self) -> ResponseView {
        ResponseView {
            protocol: self.protocol@,
            status: self.status,
            body: self.body@,
            headers: entries(self.headers),
        }
    }
}

impl ResponseView {
    /// This response with another status.
    pub open spec fn with_status(self, status: u16) -> ResponseView {
        ResponseView { status, ..self }
    }

    /// This response with another body, and with the header that gives the
    /// number of bytes of that body.
    pub open spec fn with_body(self, body: Seq<char>) -> ResponseView {
        ResponseView {
            body,
            headers: self.headers.insert("Content-Length"@, decimal(encode_utf8(body).len())),
            ..self
        }
    }

    /// This response with another protocol.
    pub open spec fn with_protocol(self, protocol: Seq<char>) -> ResponseView {
        ResponseView { protocol, ..self }
    }

    /// This response with `value` as its header `key`.
    pub open spec fn with_header(self, key: Seq<char>, value: Seq<char>) -> ResponseView {
        ResponseView { headers: self.headers.insert(key, value), ..self }
    }

    /// The value of the header `key`, or the empty text if there is none.
    pub open spec fn header(self, key: Seq<char>) -> Seq<char> {
        if self.headers.contains_key(key) {
            self.headers[key]
        } else {
            seq![]
        }
    }

    /// This response with the cookie `key` set to `value` in its header
    /// `Set-Cookie`.
    pub open spec fn with_cookie(self, key: Seq<char>, value: Seq<char>) -> ResponseView {
        if self.headers.contains_key("Set-Cookie"@) {
            self.with_header("Set-Cookie"@, cookie_set(self.headers["Set-Cookie"@], key, value))
        } else {
            self.with_header("Set-Cookie"@, cookie_segment(key, value) + seq![';'])
        }
    }

    /// The value of the cookie `key` in the header `Cookie`, or the empty
    /// text if the header or the cookie is not there.
    pub open spec fn cookie(self, key: Seq<char>) -> Seq<char> {
        if self.headers.contains_key("Cookie"@) {
            cookie_value(split(self.headers["Cookie"@], seq![';']), key)
        } else {
            seq![]
        }
    }
}

/// A cookie as it stands in a header: key, `=`, value.
pub open spec fn cookie_segment(key: Seq<char>, value: Seq<char>) -> Seq<char> {
    key + seq!['='] + value
}

/// Whether a segment of a header is the cookie `key`: the key, one `=`, and
/// a value.
pub open spec fn names(segment: Seq<char>, key: Seq<char>) -> bool {
    split(segment, seq!['=']).len() == 2 && split(segment, seq!['='])[0] == key
}

/// Whether one of the segments is the cookie `key`.
pub open spec fn any_names(segments: Seq<Seq<char>>, key: Seq<char>) -> bool {
    exists|i: int| 0 <= i < segments.len() && names(#[trigger] segments[i], key)
}

/// The segments with `value` as the value of the cookie `key`, wherever
/// that cookie stands.
pub open spec fn revalued(segments: Seq<Seq<char>>, key: Seq<char>, value: Seq<char>) -> Seq<
    Seq<char>,
> {
    Seq::new(
        segments.len(),
        |i: int|
            if names(segments[i], key) {
                cookie_segment(key, value)
            } else {
                segments[i]
            },
    )
}

/// A header `Set-Cookie` after the cookie `key` was set to `value`. The
/// header is a list of segments with `;` between them. Where the cookie is
/// among them its value changes in place; where it is not, the cookie and a
/// `;` are put behind the header.
pub open spec fn cookie_set(header: Seq<char>, key: Seq<char>, value: Seq<char>) -> Seq<char> {
    if any_names(split(header, seq![';']), key) {
        join(revalued(split(header, seq![';']), key, value), seq![';'])
    } else {
        header + cookie_segment(key, value) + seq![';']
    }
}

/// The value of the first of the segments that is the cookie `key`, or the
/// empty text if none is.
pub open spec fn cookie_value(segments: Seq<Seq<char>>, key: Seq<char>) -> Seq<char>
    decreases segments.len(),
{
    if segments.len() == 0 {
        seq![]
    } else if names(segments[0], key) {
        split(segments[0], seq!['='])[1]
    } else {
        cookie_value(segments.drop_first(), key)
    }
}

/// The response that `Response::new` makes: `HTTP/1.1`, status 200, no body
/// and no headers.
pub open spec fn blank() -> ResponseView {
    ResponseView { protocol: "HTTP/1.1"@, status: 200, body: seq![], headers: Map::empty() }
}

/// A brief response: a status and a body, and the length of the body as
/// header.
pub open spec fn brief(status: u16, body: Seq<char>) -> ResponseView {
    blank().with_status(status).with_body(body)
}

/// What a response that may be absent is in contracts.
pub open spec fn response_view(response: Option<Response>) -> Option<ResponseView> {
    match response {
        Some(response) => Some(response@),
        None => None,
    }
}

/// The response to a request that no route answers.
pub open spec fn missing() -> ResponseView {
    ResponseView { protocol: "HTTP/1.1"@, status: 404, body: "Not Found"@, headers: Map::empty() }
}

/// The first line of a response.
pub open spec fn status_line(protocol: Seq<char>, status: u16) -> Seq<char> {
    protocol + seq![' '] + decimal(status as nat)
}

/// Whether `text` is the response as it goes over the wire, with its
/// headers in some order.
pub open spec fn renders(response: ResponseView, text: Seq<char>) -> bool {
    exists|order: Seq<Pair>| #[trigger]
        lists(order, response.headers) && text == message(
            status_line(response.protocol, response.status),
            order,
            response.body,
        )
}

/// Whether `bytes` are the response as it goes over the wire: its text in
/// UTF-8.
pub open spec fn encodes(response: ResponseView, bytes: Seq<u8>) -> bool {
    exists|text: Seq<char>| #[trigger] renders(response, text) && bytes == encode_utf8(text)
}

/// What reading one line of a response gives: the response so far, to go
/// on with, or the response that reports why reading stops.
pub enum Step {
    Next(ResponseView),
    Stop(ResponseView),
}

/// The step that an executable result stands for.
pub open spec fn step_of(result: Result<Response, Response>) -> Step {
    match result {
        Ok(response) => Step::Next(response@),
        Err(response) => Step::Stop(response@),
    }
}

/// Reading the first line of a response: protocol, a space, the status as
/// a number below 65536, and whatever follows a further space.
pub open spec fn first_line(line: Seq<char>, so_far: ResponseView) -> Step {
    let parts = split(line, seq![' ']);
    if parts.len() < 2 {
        Step::Stop(brief(400, "malformed response, more than 2 parts in status line"@))
    } else {
        match number_u16(parts[1]) {
            Some(status) => Step::Next(so_far.with_status(status).with_protocol(parts[0])),
            None => Step::Stop(brief(400, "malformed response, status is not a number"@)),
        }
    }
}

/// Reading a line between the first and the last: a line without a colon
/// says nothing, a line with one colon is a header whose key and value are
/// trimmed, and a line with more colons ends the reading.
pub open spec fn header_line(line: Seq<char>, so_far: ResponseView) -> Step {
    if !contains(line, seq![':']) {
        Step::Next(so_far)
    } else {
        let parts = split(line, seq![':']);
        if parts.len() != 2 {
            Step::Stop(brief(400, "malformed response, more than 2 parts in header line"@))
        } else {
            Step::Next(so_far.with_header(trim(parts[0]), trim(parts[1])))
        }
    }
}

/// Reading the last line: trimmed, it is the body, unless nothing is left
/// of it.
pub open spec fn last_line(line: Seq<char>, so_far: ResponseView) -> ResponseView {
    if trim(line).len() == 0 {
        so_far
    } else {
        ResponseView { body: trim(line), ..so_far }
    }
}

/// Reading the line at position `at`. An empty line says nothing, wherever
/// it stands.
pub open spec fn line_step(lines: Seq<Seq<char>>, at: int, so_far: ResponseView) -> Step {
    if lines[at].len() == 0 {
        Step::Next(so_far)
    } else if at == 0 {
        first_line(lines[at], so_far)
    } else if at == lines.len() - 1 {
        Step::Next(last_line(lines[at], so_far))
    } else {
        header_line(lines[at], so_far)
    }
}

/// The response that the lines from position `at` on lead to, from the
/// response read so far.
pub open spec fn response_of(lines: Seq<Seq<char>>, at: int, so_far: ResponseView) -> ResponseView
    decreases lines.len() - at,
{
    if at < 0 || at >= lines.len() {
        so_far
    } else {
        match line_step(lines, at, so_far) {
            Step::Next(next) => response_of(lines, at + 1, next),
            Step::Stop(failed) => failed,
        }
    }
}

/// The response that a text holds, read line by line.
pub open spec fn read_text(text: Seq<char>) -> ResponseView {
    response_of(lines(text), 0, blank())
}

/// The response that reports bytes which are no text, and why they are
/// none.
pub open spec fn unreadable(why: Seq<char>) -> ResponseView {
    brief(500, "internal server error: "@ + why)
}

/// The response that received bytes hold. Bytes that are no text give a
/// response with status 500 that tells why.
pub open spec fn decoded(bytes: Seq<u8>) -> ResponseView {
    match text_of(bytes) {
        Some(text) => read_text(text),
        None => unreadable(decode_failure(until_nul(bytes))),
    }
}

/// Reads the first line of a response.
pub fn read_first_line(line: &[char], response: Response) -> (out: Result<Response, Response>)
    ensures
        step_of(out) == first_line(line@, response@),
{
    let space = pattern(' ');
    let parts = split_at_each(line, space.as_slice());
    if parts.len() < 2 {
        return Err(
            Response::new().status(400).body(
                "malformed response, more than 2 parts in status line",
            ),
        );
    }
    assert(views(parts@)[0] == parts@[0]@ && views(parts@)[1] == parts@[1]@);
    match parse_u16(parts[1].as_slice()) {
        Some(status) => {
            let mut out = response;
            out.status = status;
            out.protocol = string_of(parts[0].as_slice());
            Ok(out)
        },
        None => Err(Response::new().status(400).body("malformed response, status is not a number")),
    }
}

/// Reads a line between the first and the last.
pub fn read_header_line(line: &[char], response: Response) -> (out: Result<Response, Response>)
    ensures
        step_of(out) == header_line(line@, response@),
{
    let colon = pattern(':');
    assert(line@.skip(0) == line@);
    if find_from(line, colon.as_slice(), 0).is_none() {
        return Ok(response);
    }
    let parts = split_at_each(line, colon.as_slice());
    if parts.len() != 2 {
        return Err(
            Response::new().status(400).body(
                "malformed response, more than 2 parts in header line",
            ),
        );
    }
    assert(views(parts@)[0] == parts@[0]@ && views(parts@)[1] == parts@[1]@);
    let key = trimmed(parts[0].as_slice());
    let value = trimmed(parts[1].as_slice());
    let mut out = response;
    table_insert(&mut out.headers, string_of(key.as_slice()), string_of(value.as_slice()));
    Ok(out)
}

/// Reads the last line of a response.
pub fn read_last_line(line: &[char], response: Response) -> (out: Response)
    ensures
        out@ == last_line(line@, response@),
{
    let body = trimmed(line);
    if body.len() == 0 {
        return response;
    }
    let mut out = response;
    out.body = string_of(body.as_slice());
    out
}

/// The value of a segment that is the cookie `key`.
pub fn value_if_named(segment: &[char], key: &[char]) -> (out: Option<Vec<char>>)
    ensures
        out is Some == names(segment@, key@),
        out is Some ==> out->0@ == split(segment@, seq!['='])[1],
{
    let equals = pattern('=');
    let mut parts = split_at_each(segment, equals.as_slice());
    if parts.len() != 2 {
        return None;
    }
    assert(views(parts@)[0] == parts@[0]@ && views(parts@)[1] == parts@[1]@);
    if !same(parts[0].as_slice(), key) {
        return None;
    }
    parts.pop()
}

/// A header `Set-Cookie` after the cookie `key` was set to `value`.
pub fn set_in_header(header: &[char], key: &[char], value: &[char]) -> (out: Vec<char>)
    ensures
        out@ == cookie_set(header@, key@, value@),
{
    let semicolon = pattern(';');
    let segments = split_at_each(header, semicolon.as_slice());
    let ghost all = views(segments@);
    let ghost changed = revalued(all, key@, value@);
    let mut cookie: Vec<char> = Vec::new();
    extend(&mut cookie, key);
    cookie.push('=');
    extend(&mut cookie, value);
    assert(cookie@ == cookie_segment(key@, value@));
    let mut out: Vec<char> = Vec::new();
    let mut found = false;
    let mut i: usize = 0;
    assert(changed.take(0) == Seq::<Seq<char>>::empty());
    while i < segments.len()
        invariant
            i <= segments.len(),
            all == views(segments@),
            changed == revalued(all, key@, value@),
            cookie@ == cookie_segment(key@, value@),
            out@ == join(changed.take(i as int), seq![';']),
            found == any_names(all.take(i as int), key@),
        decreases segments.len() - i,
    {
        assert(changed.take(i + 1).drop_last() == changed.take(i as int));
        assert(changed.take(i + 1).last() == changed[i as int]);
        assert(all[i as int] == segments@[i as int]@);
        if i > 0 {
            out.push(';');
        }
        let named = value_if_named(segments[i].as_slice(), key).is_some();
        if named {
            extend(&mut out, cookie.as_slice());
            assert(names(all.take(i + 1)[i as int], key@));
        } else {
            extend(&mut out, segments[i].as_slice());
            proof {
                if found {
                    let k = choose|k: int|
                        0 <= k < i && names(#[trigger] all.take(i as int)[k], key@);
                    assert(names(all.take(i + 1)[k], key@));
                } else {
                    assert forall|k: int| 0 <= k < i + 1 implies !names(
                        #[trigger] all.take(i + 1)[k],
                        key@,
                    ) by {
                        if k < i {
                            assert(all.take(i as int)[k] == all.take(i + 1)[k]);
                        }
                    }
                }
            }
        }
        found = found || named;
        i += 1;
    }
    assert(all.take(segments.len() as int) == all);
    assert(changed.take(segments.len() as int) == changed);
    if found {
        return out;
    }
    let mut out: Vec<char> = Vec::new();
    extend(&mut out, header);
    extend(&mut out, cookie.as_slice());
    out.push(';');
    out
}

/// The value of the first of the segments that is the cookie `key`.
pub fn find_cookie(segments: &Vec<Vec<char>>, key: &[char]) -> (out: Vec<char>)
    ensures
        out@ == cookie_value(views(segments@), key@),
{
    let ghost all = views(segments@);
    let mut i: usize = 0;
    assert(all.skip(0) == all);
    while i < segments.len()
        invariant
            i <= segments.len(),
            all == views(segments@),
            cookie_value(all.skip(i as int), key@) == cookie_value(all, key@),
        decreases segments.len() - i,
    {
        assert(all.skip(i as int)[0] == segments@[i as int]@);
        assert(all.skip(i as int).drop_first() == all.skip(i + 1));
        match value_if_named(segments[i].as_slice(), key) {
            Some(value) => {
                return value;
            },
            None => {},
        }
        i += 1;
    }
    Vec::new()
}

impl Clone for Response {
    fn clone(&self) -> (out: Self)
        ensures
            out@ == self@,
    {
        Response {
            protocol: self.protocol.clone(),
            status: self.status,
            body: self.body.clone(),
            headers: table_clone(&self.headers),
        }
    }
}

impl Response {
    /// A response with protocol `HTTP/1.1`, status 200, no body and no
    /// headers.
    pub fn new() -> (out: Self)
        ensures
            out@ == blank(),
    {
        Response {
            protocol: "HTTP/1.1".to_owned(),
            status: 200,
            body: String::new(),
            headers: table_new(),
        }
    }

    /// The response as text: status line, header lines in the order in which
    /// the table hands them out, an empty line, and the body.
    pub fn raw(&self) -> (out: String)
        ensures
            renders(self@, out@),
    {
        let pairs = table_pairs(&self.headers);
        let mut first = chars_of(self.protocol.as_str());
        first.push(' ');
        let number = decimal_of(self.status as u64);
        extend(&mut first, number.as_slice());
        assert(first@ == status_line(self@.protocol, self@.status));
        let text = render_message(&first, &pairs, self.body.as_str());
        let out = string_of(text.as_slice());
        assert(lists(pair_views(pairs@), self@.headers));
        out
    }

    /// This response with another status.
    pub fn status(self, status: u16) -> (out: Self)
        ensures
            out@ == self@.with_status(status),
    {
        let mut out = self;
        out.status = status;
        out
    }

    /// This response with another body. The header `Content-Length` is set
    /// to the number of bytes of the body.
    pub fn body(self, body: &str) -> (out: Self)
        ensures
            out@ == self@.with_body(body@),
    {
        let mut out = self;
        out.body = body.to_owned();
        let length = decimal_of(body.as_bytes().len() as u64);
        table_insert(&mut out.headers, "Content-Length".to_owned(), string_of(length.as_slice()));
        out
    }

    /// The response that a text holds, read line by line.
    pub fn from_text(text: &str) -> (out: Response)
        ensures
            out@ == read_text(text@),
    {
        let chars = chars_of(text);
        let lines = lines_of(chars.as_slice());
        let mut response = Response::new();
        let mut at: usize = 0;
        while at < lines.len()
            invariant
                at <= lines.len(),
                response_of(views(lines@), at as int, response@) == read_text(text@),
            decreases lines.len() - at,
        {
            assert(views(lines@)[at as int] == lines@[at as int]@);
            let line = lines[at].as_slice();
            let step = if line.len() == 0 {
                Ok(response)
            } else if at == 0 {
                read_first_line(line, response)
            } else if at == lines.len() - 1 {
                Ok(read_last_line(line, response))
            } else {
                read_header_line(line, response)
            };
            match step {
                Ok(next) => {
                    response = next;
                },
                Err(failed) => {
                    return failed;
                },
            }
            at += 1;
        }
        response
    }

    /// The response that reports bytes which are no text, and why they are
    /// none.
    pub fn unreadable(why: &str) -> (out: Response)
        ensures
            out@ == unreadable(why@),
    {
        let mut message = chars_of("internal server error: ");
        push_str(&mut message, why);
        let message = string_of(message.as_slice());
        Response::new().status(500).body(message.as_str())
    }

    /// The response that received bytes hold: what stands before the first
    /// zero byte, read as text, line by line.
    pub fn new_from_bytes(response_bytes: &Vec<u8>) -> (out: Response)
        ensures
            out@ == decoded(response_bytes@),
    {
        match text_in(response_bytes.as_slice()) {
            Ok(text) => Response::from_text(text.as_str()),
            Err(why) => Response::unreadable(why.as_str()),
        }
    }

    /// The bytes that go over the wire for this response: its text in
    /// UTF-8.
    pub fn to_bytes(&self) -> (out: Vec<u8>)
        ensures
            encodes(self@, out@),
    {
        let text = self.raw();
        text.as_str().as_bytes_vec()
    }

    /// This response with `value` as its header `key`.
    pub fn set_header(self, key: &str, value: &str) -> (out: Self)
        ensures
            out@ == self@.with_header(key@, value@),
    {
        let mut out = self;
        table_insert(&mut out.headers, key.to_owned(), value.to_owned());
        out
    }

    /// The value of the header `key`, or the empty string if there is none.
    pub fn get_header(&self, key: &str) -> (out: String)
        ensures
            out@ == self@.header(key@),
    {
        match table_get(&self.headers, key) {
            Some(value) => value,
            None => String::new(),
        }
    }

    /// Sets the cookie `key` to `value` in the header `Set-Cookie`. The
    /// header is made if it is not there. Where it holds the cookie already,
    /// the value of the cookie changes in place.
    pub fn set_cookie(&mut self, key: &str, value: &str)
        ensures
            final(self)@ == old(self)@.with_cookie(key@, value@),
    {
        let key = chars_of(key);
        let value = chars_of(value);
        let header = match table_get(&self.headers, "Set-Cookie") {
            Some(current) => {
                let current = chars_of(current.as_str());
                set_in_header(current.as_slice(), key.as_slice(), value.as_slice())
            },
            None => {
                let mut header: Vec<char> = Vec::new();
                extend(&mut header, key.as_slice());
                header.push('=');
                extend(&mut header, value.as_slice());
                header.push(';');
                assert(header@ == cookie_segment(key@, value@) + seq![';']);
                header
            },
        };
        table_insert(&mut self.headers, "Set-Cookie".to_owned(), string_of(header.as_slice()));
    }

    /// The value of the cookie `key` in the header `Cookie`, or the empty
    /// string if the header or the cookie is not there.
    pub fn get_cookie(&self, key: &str) -> (out: String)
        ensures
            out@ == self@.cookie(key@),
    {
        match table_get(&self.headers, "Cookie") {
            Some(cookies) => {
                let cookies = chars_of(cookies.as_str());
                let semicolon = pattern(';');
                let segments = split_at_each(cookies.as_slice(), semicolon.as_slice());
                let key = chars_of(key);
                let value = find_cookie(&segments, key.as_slice());
                string_of(value.as_slice())
            },
            None => String::new(),
        }
    }
}

/// A response with a status and a body, and the length of the body as a
/// header.
pub fn new_response(status: u16, body: &str) -> (out: Response)
    ensures
        out@ == brief(status, body@),
{
    Response::new().status(status).body(body)
}

/// The answer to a request that was sent to its host: the response that
/// came back, read from its bytes, or, where the exchange failed, status 500
/// with the reason as body.
pub fn answer_of(outcome: Result<Vec<u8>, String>) -> (out: Response)
    ensures
        out@ == match outcome {
            Ok(bytes) => decoded(bytes@),
            Err(why) => brief(500, why@),
        },
{
    match outcome {
        Ok(bytes) => Response::new_from_bytes(&bytes),
        Err(why) => new_response(500, why.as_str()),
    }
}

/// The response to a request that no route answers: status 404 and the body
/// `Not Found`, without headers.
pub fn not_found() -> (out: Response)
    ensures
        out@ == missing(),
{
    Response {
        protocol: "HTTP/1.1".to_owned(),
        status: 404,
        body: "Not Found".to_owned(),
        headers: table_new(),
    }
}

/// Whether no two headers of a list have keys that are the same when
/// trimmed.
pub open spec fn distinct_when_trimmed(order: Seq<Pair>) -> bool {
    forall|i: int, j: int|
        0 <= i < j < order.len() ==> trim((#[trigger] order[i]).0) != trim(
            (#[trigger] order[j]).0,
        )
}

/// A response after headers were read from the wire, one after the other:
/// each with its key and its value trimmed.
pub open spec fn with_fields(so_far: ResponseView, order: Seq<Pair>) -> ResponseView
    decreases order.len(),
{
    if order.len() == 0 {
        so_far
    } else {
        with_fields(so_far.with_header(trim(order[0].0), trim(order[0].1)), order.drop_first())
    }
}

/// Reading the line of a sendable header gives the header, with key and
/// value trimmed.
pub proof fn lemma_field_read(pair: Pair, so_far: ResponseView)
    requires
        sendable(pair.0),
        sendable(pair.1),
    ensures
        field(pair).len() > 0,
        header_line(field(pair), so_far) == Step::Next(
            so_far.with_header(trim(pair.0), trim(pair.1)),
        ),
{
    let colon = seq![':'];
    let behind = seq![' '] + pair.1;
    let line = field(pair);
    assert(line == pair.0 + colon + behind);
    lemma_free_of_concat(seq![' '], pair.1, ':');
    lemma_find_char(pair.0, ':');
    lemma_find_char(behind, ':');
    lemma_find_behind(pair.0, colon, behind);
    lemma_split_first(pair.0, colon, behind);
    lemma_split_whole(behind, colon);
    assert(split(line, colon) == seq![pair.0, behind]);
    lemma_trim_space_before(pair.1);
}

/// Headers that are read later leave a header alone whose key is not
/// theirs, and leave the status alone.
pub proof fn lemma_with_fields_keeps(so_far: ResponseView, order: Seq<Pair>, key: Seq<char>)
    requires
        forall|i: int| 0 <= i < order.len() ==> trim((#[trigger] order[i]).0) != key,
    ensures
        with_fields(so_far, order).status == so_far.status,
        with_fields(so_far, order).protocol == so_far.protocol,
        with_fields(so_far, order).body == so_far.body,
        with_fields(so_far, order).headers.contains_key(key) == so_far.headers.contains_key(key),
        with_fields(so_far, order).headers[key] == so_far.headers[key],
    decreases order.len(),
{
    if order.len() > 0 {
        let rest = order.drop_first();
        assert forall|i: int| 0 <= i < rest.len() implies trim((#[trigger] rest[i]).0)
            != key by {
            assert(rest[i] == order[i + 1]);
        }
        assert(trim(order[0].0) != key);
        lemma_with_fields_keeps(
            so_far.with_header(trim(order[0].0), trim(order[0].1)),
            rest,
            key,
        );
    }
}

/// Headers read from the wire are all there afterwards, each under its
/// trimmed key with its trimmed value, where no two keys are the same when
/// trimmed.
pub proof fn lemma_with_fields_holds(so_far: ResponseView, order: Seq<Pair>, at: int)
    requires
        0 <= at < order.len(),
        distinct_when_trimmed(order),
    ensures
        with_fields(so_far, order).headers.contains_key(trim(order[at].0)),
        with_fields(so_far, order).headers[trim(order[at].0)] == trim(order[at].1),
    decreases order.len(),
{
    let rest = order.drop_first();
    let next = so_far.with_header(trim(order[0].0), trim(order[0].1));
    if at == 0 {
        assert forall|i: int| 0 <= i < rest.len() implies trim((#[trigger] rest[i]).0) != trim(
            order[0].0,
        ) by {
            assert(rest[i] == order[i + 1]);
        }
        lemma_with_fields_keeps(next, rest, trim(order[0].0));
    } else {
        assert(distinct_when_trimmed(rest)) by {
            assert forall|i: int, j: int| 0 <= i < j < rest.len() implies trim(
                (#[trigger] rest[i]).0,
            ) != trim((#[trigger] rest[j]).0) by {
                assert(rest[i] == order[i + 1]);
                assert(rest[j] == order[j + 1]);
            }
        }
        assert(rest[at - 1] == order[at]);
        lemma_with_fields_holds(next, rest, at - 1);
    }
}

/// Headers read later leave status and protocol alone.
pub proof fn lemma_with_fields_status(so_far: ResponseView, order: Seq<Pair>)
    ensures
        with_fields(so_far, order).status == so_far.status,
        with_fields(so_far, order).protocol == so_far.protocol,
    decreases order.len(),
{
    if order.len() > 0 {
        lemma_with_fields_status(
            so_far.with_header(trim(order[0].0), trim(order[0].1)),
            order.drop_first(),
        );
    }
}

/// Whether a text can be the protocol of a response that comes back from
/// the wire: it holds no space, no line feed and no zero character.
pub open spec fn one_word(text: Seq<char>) -> bool {
    free_of(text, ' ') && free_of(text, '\n') && free_of(text, '\0')
}

/// Reading the first line that a response is sent with gives its protocol
/// and its status.
pub proof fn lemma_status_line_read(protocol: Seq<char>, status: u16, so_far: ResponseView)
    requires
        one_word(protocol),
    ensures
        status_line(protocol, status).len() > 0,
        free_of(status_line(protocol, status), '\n'),
        free_of(status_line(protocol, status), '\0'),
        first_line(status_line(protocol, status), so_far) == Step::Next(
            so_far.with_status(status).with_protocol(protocol),
        ),
{
    let space = seq![' '];
    let number = decimal(status as nat);
    let line = status_line(protocol, status);
    lemma_decimal_free_of(status as nat, ' ');
    lemma_decimal_free_of(status as nat, '\n');
    lemma_decimal_free_of(status as nat, '\0');
    lemma_free_of_concat(protocol, space, '\n');
    lemma_free_of_concat(protocol + space, number, '\n');
    lemma_free_of_concat(protocol, space, '\0');
    lemma_free_of_concat(protocol + space, number, '\0');
    lemma_find_char(protocol, ' ');
    lemma_find_char(number, ' ');
    lemma_find_behind(protocol, space, number);
    lemma_split_first(protocol, space, number);
    lemma_split_whole(number, space);
    assert(split(line, space) == seq![protocol, number]);
    lemma_number_of_decimal(status);
}

/// Reading the header lines of a message is reading its headers one after
/// the other.
pub proof fn lemma_fields_read(
    all: Seq<Seq<char>>,
    order: Seq<Pair>,
    at: int,
    so_far: ResponseView,
)
    requires
        all_sendable(order),
        0 <= at <= order.len(),
        all.len() > order.len() + 1,
        forall|j: int| 0 <= j < order.len() ==> all[1 + j] == field(#[trigger] order[j]),
    ensures
        response_of(all, 1 + at, so_far) == response_of(
            all,
            1 + order.len() as int,
            with_fields(so_far, order.skip(at)),
        ),
    decreases order.len() - at,
{
    let left = order.skip(at);
    if at < order.len() {
        let pair = order[at];
        assert(all[1 + at] == field(pair));
        lemma_field_read(pair, so_far);
        let next = so_far.with_header(trim(pair.0), trim(pair.1));
        assert(line_step(all, 1 + at, so_far) == Step::Next(next));
        lemma_fields_read(all, order, at + 1, next);
        assert(left[0] == pair);
        assert(left.drop_first() == order.skip(at + 1));
    } else {
        assert(left.len() == 0);
    }
}

/// Reading lines of which none before the last holds a colon changes
/// neither protocol nor status nor headers.
pub proof fn lemma_body_read(all: Seq<Seq<char>>, from: int, so_far: ResponseView)
    requires
        1 <= from,
        forall|i: int| from <= i < all.len() - 1 ==> free_of(#[trigger] all[i], ':'),
    ensures
        response_of(all, from, so_far).protocol == so_far.protocol,
        response_of(all, from, so_far).status == so_far.status,
        response_of(all, from, so_far).headers == so_far.headers,
    decreases all.len() - from,
{
    if from < all.len() {
        if all[from].len() == 0 {
            lemma_body_read(all, from + 1, so_far);
        } else if from == all.len() - 1 {
            let next = last_line(all[from], so_far);
            assert(line_step(all, from, so_far) == Step::Next(next));
            assert(response_of(all, from + 1, next) == next);
        } else {
            lemma_find_char(all[from], ':');
            assert(line_step(all, from, so_far) == Step::Next(so_far));
            lemma_body_read(all, from + 1, so_far);
        }
    }
}

/// A response that went over the wire comes back with its protocol and its
/// status, and with each of its headers under the trimmed key with the
/// trimmed value.
///
/// This holds of a response whose protocol is one word, whose keys and
/// values are sendable and differ when trimmed, and whose body is free of
/// the zero character and holds no colon in a line before its last.
pub proof fn lemma_round_trip(response: ResponseView, bytes: Seq<u8>)
    requires
        encodes(response, bytes),
        one_word(response.protocol),
        forall|key: Seq<char>| #[trigger]
            response.headers.contains_key(key) ==> sendable(key) && sendable(
                response.headers[key],
            ),
        forall|a: Seq<char>, b: Seq<char>|
            #![trigger response.headers.contains_key(a), response.headers.contains_key(b)]
            response.headers.contains_key(a) && response.headers.contains_key(b) && trim(a)
                == trim(b) ==> a == b,
        free_of(response.body, '\0'),
        forall|i: int|
            0 <= i < lines(response.body).len() - 1 ==> free_of(
                #[trigger] lines(response.body)[i],
                ':',
            ),
    ensures
        decoded(bytes).protocol == response.protocol,
        decoded(bytes).status == response.status,
        forall|key: Seq<char>| #[trigger]
            response.headers.contains_key(key) ==> decoded(bytes).headers.contains_key(trim(key))
                && decoded(bytes).headers[trim(key)] == trim(response.headers[key]),
{
    let sent = response;
    let text = choose|text: Seq<char>| #[trigger]
        renders(sent, text) && bytes == encode_utf8(text);
    let first = status_line(sent.protocol, sent.status);
    let order = choose|order: Seq<Pair>| #[trigger]
        lists(order, sent.headers) && text == message(first, order, sent.body);
    let body = response.body;
    let n = order.len() as int;
    assert(all_sendable(order));
    assert(distinct_when_trimmed(order)) by {
        assert forall|i: int, j: int| 0 <= i < j < order.len() implies trim(
            (#[trigger] order[i]).0,
        ) != trim((#[trigger] order[j]).0) by {
            assert(response.headers.contains_key(order[i].0));
            assert(response.headers.contains_key(order[j].0));
        }
    }
    lemma_status_line_read(response.protocol, response.status, blank());
    // The bytes hold the text.
    lemma_header_lines_without_nul(order);
    assert(free_of(line_end(), '\0'));
    lemma_free_of_concat(first, line_end(), '\0');
    lemma_free_of_concat(first + line_end(), header_lines(order), '\0');
    lemma_free_of_concat(first + line_end() + header_lines(order), line_end(), '\0');
    lemma_free_of_concat(first + line_end() + header_lines(order) + line_end(), body, '\0');
    assert(bytes.take(bytes.len() as int) == bytes);
    lemma_text_of_buffer(text, bytes);
    // The text holds these lines.
    lemma_lines_of_message(first, order, body);
    let all = lines(text);
    let tail = lines(body);
    assert(all == seq![first] + fields(order) + seq![Seq::<char>::empty()] + tail);
    assert(all.len() == n + 2 + tail.len());
    assert(all[0] == first);
    assert forall|j: int| 0 <= j < order.len() implies all[1 + j] == field(
        #[trigger] order[j],
    ) by {
        assert(fields(order)[j] == field(order[j]));
    }
    assert(all[1 + n].len() == 0);
    assert forall|i: int| 1 + n <= i < all.len() - 1 implies free_of(#[trigger] all[i], ':') by {
        if i > 1 + n {
            assert(all[i] == tail[i - n - 2]);
        }
    }
    // Reading the lines.
    let named = blank().with_status(response.status).with_protocol(response.protocol);
    assert(line_step(all, 0, blank()) == Step::Next(named));
    assert(response_of(all, 0, blank()) == response_of(all, 1, named));
    lemma_fields_read(all, order, 0, named);
    assert(order.skip(0) == order);
    let read = with_fields(named, order);
    lemma_with_fields_status(named, order);
    lemma_body_read(all, 1 + n, read);
    assert(read.protocol == response.protocol);
    assert(decoded(bytes) == response_of(all, 1 + n, read));
    assert forall|key: Seq<char>| #[trigger] response.headers.contains_key(key) implies decoded(
        bytes,
    ).headers.contains_key(trim(key)) && decoded(bytes).headers[trim(key)] == trim(
        response.headers[key],
    ) by {
        assert(sent.headers.contains_key(key));
        let at = choose|at: int| 0 <= at < order.len() && (#[trigger] order[at]).0 == key;
        lemma_with_fields_holds(named, order, at);
    }
}

} // verus!
