//! Requests: their fields, how one is read from the bytes of a connection,
//! and its form on the wire.

use crate::http::cookie::{
    first_named, lemma_first_named_in_range, plain, Cookie, CookieJar, CookieView,
};
use crate::http::response::{brief, response_view, PotentialResponse, Response, ResponseView};
use crate::http::table::{
    entries, lists, pair_views, table_clone, table_get, table_insert, table_new, table_pairs,
    Entries, Pair,
};
use crate::http::text::{
    chars_of, contains, extend, find, find_from, free_of, join, lemma_find, lemma_find_behind,
    lemma_find_char, lemma_free_of_concat, lemma_free_of_join, lemma_pieces_free_of,
    lemma_split_first, lemma_split_join, lemma_split_whole, lemma_text_of_buffer, lines, lines_of,
    pattern, same, slice_of, split, split_at_each, string_of, text_in, text_of, views,
};
use crate::http::wire::{
    all_sendable, field, fields, lemma_lines_of_message, message, render_message, sendable,
};
use dashmap::DashMap;
use vstd::prelude::*;
use vstd::utf8::encode_utf8;

verus! {

/// The verbs of a request.
#[derive(Debug, Clone, Copy, PartialEq, Eq, Structural)]
pub enum HttpMethod {
    GET,
    POST,
    PUT,
    DELETE,
    PATCH,
}

impl HttpMethod {
    /// The verb as it stands on the wire.
    pub open spec fn text(self) -> Seq<char> {
        match self {
            HttpMethod::GET => "GET"@,
            HttpMethod::POST => "POST"@,
            HttpMethod::PUT => "PUT"@,
            HttpMethod::DELETE => "DELETE"@,
            HttpMethod::PATCH => "PATCH"@,
        }
    }

    /// The verb as it stands on the wire.
    pub fn as_str(&self) -> (out: &'static str)
        ensures
            out@ == self.text(),
    {
        match *self {
            HttpMethod::GET => "GET",
            HttpMethod::POST => "POST",
            HttpMethod::PUT => "PUT",
            HttpMethod::DELETE => "DELETE",
            HttpMethod::PATCH => "PATCH",
        }
    }
}

/// The verb that a word names. Only the five verbs in capital letters name
/// one.
pub open spec fn method_named(word: Seq<char>) -> Option<HttpMethod> {
    if word == "GET"@ {
        Some(HttpMethod::GET)
    } else if word == "POST"@ {
        Some(HttpMethod::POST)
    } else if word == "PUT"@ {
        Some(HttpMethod::PUT)
    } else if word == "DELETE"@ {
        Some(HttpMethod::DELETE)
    } else if word == "PATCH"@ {
        Some(HttpMethod::PATCH)
    } else {
        None
    }
}

/// A key of the context of a request, for those who use the context to
/// name their keys.
pub trait Contextable: Send + Sync + 'static {
    /// The text of the key.
    fn key(&self) -> &'static str;
}

/// Whether `name` is a text that a key can give for itself.
pub open spec fn names_key<K: Contextable>(key: K, name: Seq<char>) -> bool {
    exists|text: &'static str| #[trigger] call_ensures(K::key, (&key,), text) && text@ == name
}

pub type Context = DashMap<String, String>;

pub type Headers = DashMap<String, String>;

pub type Params = DashMap<String, String>;

pub type RequestBuffer = [u8; 1024];

/// A request.
#[derive(Debug)]
pub struct Request {
    pub host: String,
    pub method_and_path: String,
    pub method: HttpMethod,
    pub path: String,
    pub protocol: String,
    pub body: String,
    pub headers: Headers,
    pub params: Params,
    pub context: Context,
    pub cookies: CookieJar,
}

/// What a request is in contracts.
#[verifier::ext_equal]
pub struct RequestView {
    pub host: Seq<char>,
    pub method_and_path: Seq<char>,
    pub method: HttpMethod,
    pub path: Seq<char>,
    pub protocol: Seq<char>,
    pub body: Seq<char>,
    pub headers: Entries,
    pub params: Entries,
    pub context: Entries,
    pub cookies: Seq<CookieView>,
}

impl View for Request {
    type V = RequestView;

    open spec fn view(&self) -> RequestView {
        RequestView {
            host: self.host@,
            method_and_path: self.method_and_path@,
            method: self.method,
            path: self.path@,
            protocol: self.protocol@,
            body: self.body@,
            headers: entries(self.headers),
            params: entries(self.params),
            context: entries(self.context),
            cookies: self.cookies@,
        }
    }
}

impl RequestView {
    /// The value of the header `key`, or the empty text if there is none.
    pub open spec fn header(self, key: Seq<char>) -> Seq<char> {
        if self.headers.contains_key(key) {
            self.headers[key]
        } else {
            seq![]
        }
    }

    /// What the context holds under `key`, or the empty text if it holds
    /// nothing there.
    pub open spec fn context_value(self, key: Seq<char>) -> Seq<char> {
        if self.context.contains_key(key) {
            self.context[key]
        } else {
            seq![]
        }
    }

    /// The value of the first cookie with the given name, or the empty text
    /// if there is none.
    pub open spec fn cookie(self, name: Seq<char>) -> Seq<char> {
        match first_named(self.cookies, name) {
            Some(i) => self.cookies[i].value,
            None => seq![],
        }
    }

    /// The first line of the request on the wire: verb, path and protocol
    /// with a space between each two.
    pub open spec fn first_line(self) -> Seq<char> {
        self.method.text() + seq![' '] + self.path + seq![' '] + self.protocol
    }
}

/// The request that `Request::new` makes for a host: a `GET` of the empty
/// path with protocol `HTTP/1.1`, and nothing else.
pub open spec fn fresh(host: Seq<char>) -> RequestView {
    RequestView { host, protocol: "HTTP/1.1"@, ..unread() }
}

/// Whether `text` is the request as it goes over the wire, with its headers
/// in some order.
pub open spec fn sends(request: RequestView, text: Seq<char>) -> bool {
    exists|order: Seq<Pair>| #[trigger]
        lists(order, request.headers) && text == message(
            request.first_line(),
            order,
            request.body,
        )
}

/// The request that reading starts from: every text empty, every table
/// empty, no cookie, and `GET` as the verb.
pub open spec fn unread() -> RequestView {
    RequestView {
        host: seq![],
        method_and_path: seq![],
        method: HttpMethod::GET,
        path: seq![],
        protocol: seq![],
        body: seq![],
        headers: Map::empty(),
        params: Map::empty(),
        context: Map::empty(),
        cookies: seq![],
    }
}

/// What reading a request gives: the request as far as it was read, and
/// the response that reports why reading stopped, if it did.
#[verifier::ext_equal]
pub struct Parsed {
    pub request: RequestView,
    pub error: Option<ResponseView>,
}

/// What reading one line of a request gives: the request so far, to go on
/// with, or the request so far and the response that ends the reading.
#[verifier::ext_equal]
pub enum Outcome {
    Next(RequestView),
    Stop(RequestView, ResponseView),
}

/// The path in the target of a request: what stands before the first `?`.
pub open spec fn path_of(target: Seq<char>) -> Seq<char> {
    match find(target, seq!['?']) {
        Some(i) => target.take(i),
        None => target,
    }
}

/// The query in the target of a request: what stands behind the first `?`.
pub open spec fn query_of(target: Seq<char>) -> Seq<char> {
    match find(target, seq!['?']) {
        Some(i) => target.skip(i + 1),
        None => seq![],
    }
}

/// A table after the pairs of a query were put into it, one after the
/// other. A pair is a key, one `=` and a value; what is no pair is left out.
pub open spec fn with_pairs(table: Entries, pairs: Seq<Seq<char>>) -> Entries
    decreases pairs.len(),
{
    if pairs.len() == 0 {
        table
    } else {
        let before = with_pairs(table, pairs.drop_last());
        let parts = split(pairs.last(), seq!['=']);
        if parts.len() == 2 {
            before.insert(parts[0], parts[1])
        } else {
            before
        }
    }
}

/// The cookies that the segments of a `Cookie` header name, in order. A
/// segment is a name, one `=` and a value; what is no such segment is left
/// out.
pub open spec fn cookies_of(segments: Seq<Seq<char>>) -> Seq<CookieView>
    decreases segments.len(),
{
    if segments.len() == 0 {
        seq![]
    } else {
        let before = cookies_of(segments.drop_last());
        let parts = split(segments.last(), seq!['=']);
        if parts.len() == 2 {
            before.push(plain(parts[0], parts[1]))
        } else {
            before
        }
    }
}

/// Reading the first line: verb, target and protocol, with one space
/// between each two. The target gives path, routing key and parameters even
/// where protocol or verb are then refused.
pub open spec fn request_line(line: Seq<char>, so_far: RequestView) -> Outcome {
    let parts = split(line, seq![' ']);
    if parts.len() != 3 {
        Outcome::Stop(
            so_far,
            brief(400, "malformed request: status line did not have exactly three parts"@),
        )
    } else {
        let located = RequestView {
            path: path_of(parts[1]),
            method_and_path: parts[0] + seq![' '] + path_of(parts[1]),
            params: with_pairs(so_far.params, split(query_of(parts[1]), seq!['&'])),
            ..so_far
        };
        if parts[2] != "HTTP/1.1"@ {
            Outcome::Stop(
                located,
                brief(400, "protocol is missing or invalid: only HTTP/1.1 is supported"@),
            )
        } else {
            match method_named(parts[0]) {
                Some(method) => Outcome::Next(
                    RequestView { method, protocol: parts[2], ..located },
                ),
                None => Outcome::Stop(
                    located,
                    brief(
                        400,
                        "malformed request: method was extracted but found to be invalid"@,
                    ),
                ),
            }
        }
    }
}

/// Reading a line between the first and the last. An empty line says
/// nothing. Any other line needs a colon. With one colon it is a header, or,
/// under the key `Cookie`, a list of cookies; with more colons it is passed
/// over.
pub open spec fn field_line(line: Seq<char>, so_far: RequestView) -> Outcome {
    if line.len() == 0 {
        Outcome::Next(so_far)
    } else if !contains(line, seq![':']) {
        Outcome::Stop(
            so_far,
            brief(400, "malformed request: header line did not contain a colon"@),
        )
    } else {
        let parts = split(line, seq![':']);
        if parts.len() != 2 {
            Outcome::Next(so_far)
        } else if parts[0] != "Cookie"@ {
            Outcome::Next(
                RequestView { headers: so_far.headers.insert(parts[0], parts[1]), ..so_far },
            )
        } else {
            Outcome::Next(
                RequestView {
                    cookies: so_far.cookies + cookies_of(split(parts[1], seq![';', ' '])),
                    ..so_far
                },
            )
        }
    }
}

/// Reading the line at position `at`: the first line names the request, the
/// last line is the body, each line between them is a field.
pub open spec fn request_step(lines: Seq<Seq<char>>, at: int, so_far: RequestView) -> Outcome {
    if at == 0 {
        request_line(lines[at], so_far)
    } else if at == lines.len() - 1 {
        Outcome::Next(RequestView { body: lines[at], ..so_far })
    } else {
        field_line(lines[at], so_far)
    }
}

/// What the lines from position `at` on lead to, from the request read so
/// far.
pub open spec fn request_of(lines: Seq<Seq<char>>, at: int, so_far: RequestView) -> Parsed
    decreases lines.len() - at,
{
    if at < 0 || at >= lines.len() {
        Parsed { request: so_far, error: None }
    } else {
        match request_step(lines, at, so_far) {
            Outcome::Next(next) => request_of(lines, at + 1, next),
            Outcome::Stop(request, response) => Parsed { request, error: Some(response) },
        }
    }
}

/// What reading a text as a request gives.
pub open spec fn parsed_text(text: Seq<char>) -> Parsed {
    request_of(lines(text), 0, unread())
}

/// What reading the bytes of a buffer as a request gives. Bytes that are
/// no text give status 400 and a request of which nothing was read.
pub open spec fn parsed(bytes: Seq<u8>) -> Parsed {
    match text_of(bytes) {
        Some(text) => parsed_text(text),
        None => Parsed { request: unread(), error: Some(brief(400, "failed to parse request"@)) },
    }
}

/// What an executable result of reading one line stands for.
pub open spec fn outcome_of(result: Result<Request, (Request, Response)>) -> Outcome {
    match result {
        Ok(request) => Outcome::Next(request@),
        Err(stopped) => Outcome::Stop(stopped.0@, stopped.1@),
    }
}

/// The verb that a word names.
pub fn method_of(word: &[char]) -> (out: Option<HttpMethod>)
    ensures
        out == method_named(word@),
{
    if same(word, chars_of("GET").as_slice()) {
        Some(HttpMethod::GET)
    } else if same(word, chars_of("POST").as_slice()) {
        Some(HttpMethod::POST)
    } else if same(word, chars_of("PUT").as_slice()) {
        Some(HttpMethod::PUT)
    } else if same(word, chars_of("DELETE").as_slice()) {
        Some(HttpMethod::DELETE)
    } else if same(word, chars_of("PATCH").as_slice()) {
        Some(HttpMethod::PATCH)
    } else {
        None
    }
}

/// Puts the pairs of a query into a table.
pub fn insert_pairs(table: &mut Params, pairs: &Vec<Vec<char>>)
    ensures
        entries(*final(table)) == with_pairs(entries(*old(table)), views(pairs@)),
{
    let equals = pattern('=');
    let ghost all = views(pairs@);
    let mut i: usize = 0;
    assert(all.take(0) == Seq::<Seq<char>>::empty());
    while i < pairs.len()
        invariant
            i <= pairs.len(),
            equals@ == seq!['='],
            all == views(pairs@),
            entries(*table) == with_pairs(entries(*old(table)), all.take(i as int)),
        decreases pairs.len() - i,
    {
        assert(all.take(i + 1).drop_last() == all.take(i as int));
        assert(all.take(i + 1).last() == pairs@[i as int]@);
        let parts = split_at_each(pairs[i].as_slice(), equals.as_slice());
        if parts.len() == 2 {
            assert(views(parts@)[0] == parts@[0]@ && views(parts@)[1] == parts@[1]@);
            table_insert(table, string_of(parts[0].as_slice()), string_of(parts[1].as_slice()));
        }
        i += 1;
    }
    assert(all.take(pairs.len() as int) == all);
}

/// Puts the cookies that the segments name into a jar.
pub fn add_cookies(jar: &mut CookieJar, segments: &Vec<Vec<char>>)
    ensures
        final(jar)@ == old(jar)@ + cookies_of(views(segments@)),
{
    let equals = pattern('=');
    let ghost all = views(segments@);
    let mut i: usize = 0;
    assert(all.take(0) == Seq::<Seq<char>>::empty());
    assert(jar@ == old(jar)@ + cookies_of(all.take(0)));
    while i < segments.len()
        invariant
            i <= segments.len(),
            equals@ == seq!['='],
            all == views(segments@),
            jar@ == old(jar)@ + cookies_of(all.take(i as int)),
        decreases segments.len() - i,
    {
        assert(all.take(i + 1).drop_last() == all.take(i as int));
        assert(all.take(i + 1).last() == segments@[i as int]@);
        let parts = split_at_each(segments[i].as_slice(), equals.as_slice());
        if parts.len() == 2 {
            assert(views(parts@)[0] == parts@[0]@ && views(parts@)[1] == parts@[1]@);
            let name = string_of(parts[0].as_slice());
            let value = string_of(parts[1].as_slice());
            jar.add(Cookie::new(name.as_str(), value.as_str()));
            assert(jar@ == old(jar)@ + cookies_of(all.take(i as int)).push(
                plain(parts@[0]@, parts@[1]@),
            ));
        }
        i += 1;
    }
    assert(all.take(segments.len() as int) == all);
}

/// Reads the first line of a request.
pub fn read_request_line(line: &[char], request: Request) -> (out: Result<
    Request,
    (Request, Response),
>)
    ensures
        outcome_of(out) == request_line(line@, request@),
{
    let space = pattern(' ');
    let parts = split_at_each(line, space.as_slice());
    if parts.len() != 3 {
        return Err(
            (
                request,
                Response::new().status(400).body(
                    "malformed request: status line did not have exactly three parts",
                ),
            ),
        );
    }
    assert(views(parts@)[0] == parts@[0]@ && views(parts@)[1] == parts@[1]@ && views(parts@)[2]
        == parts@[2]@);
    let target = parts[1].as_slice();
    let mark = pattern('?');
    assert(target@.skip(0) == target@);
    let (path, query) = match find_from(target, mark.as_slice(), 0) {
        Some(i) => {
            proof {
                lemma_find(target@, mark@);
            }
            (slice_of(target, 0, i), slice_of(target, i + 1, target.len()))
        },
        None => (slice_of(target, 0, target.len()), Vec::new()),
    };
    assert(path@ == path_of(target@));
    assert(query@ == query_of(target@));
    let mut key = slice_of(parts[0].as_slice(), 0, parts[0].len());
    key.push(' ');
    extend(&mut key, path.as_slice());
    let amp = pattern('&');
    let pairs = split_at_each(query.as_slice(), amp.as_slice());
    let ghost expected = RequestView {
        path: path_of(parts@[1]@),
        method_and_path: parts@[0]@ + seq![' '] + path_of(parts@[1]@),
        params: with_pairs(request@.params, split(query_of(parts@[1]@), seq!['&'])),
        ..request@
    };
    let mut located = request;
    located.path = string_of(path.as_slice());
    located.method_and_path = string_of(key.as_slice());
    insert_pairs(&mut located.params, &pairs);
    assert(located@ =~= expected);
    if !same(parts[2].as_slice(), chars_of("HTTP/1.1").as_slice()) {
        return Err(
            (
                located,
                Response::new().status(400).body(
                    "protocol is missing or invalid: only HTTP/1.1 is supported",
                ),
            ),
        );
    }
    match method_of(parts[0].as_slice()) {
        Some(method) => {
            located.method = method;
            located.protocol = string_of(parts[2].as_slice());
            assert(located@ =~= RequestView { method, protocol: parts@[2]@, ..expected });
            Ok(located)
        },
        None => Err(
            (
                located,
                Response::new().status(400).body(
                    "malformed request: method was extracted but found to be invalid",
                ),
            ),
        ),
    }
}

/// Reads a line between the first and the last line of a request.
pub fn read_field_line(line: &[char], request: Request) -> (out: Result<
    Request,
    (Request, Response),
>)
    ensures
        outcome_of(out) == field_line(line@, request@),
{
    if line.len() == 0 {
        return Ok(request);
    }
    let colon = pattern(':');
    assert(line@.skip(0) == line@);
    if find_from(line, colon.as_slice(), 0).is_none() {
        return Err(
            (
                request,
                Response::new().status(400).body(
                    "malformed request: header line did not contain a colon",
                ),
            ),
        );
    }
    let parts = split_at_each(line, colon.as_slice());
    if parts.len() != 2 {
        return Ok(request);
    }
    assert(views(parts@)[0] == parts@[0]@ && views(parts@)[1] == parts@[1]@);
    let mut out = request;
    if !same(parts[0].as_slice(), chars_of("Cookie").as_slice()) {
        table_insert(
            &mut out.headers,
            string_of(parts[0].as_slice()),
            string_of(parts[1].as_slice()),
        );
        return Ok(out);
    }
    let mut between = pattern(';');
    between.push(' ');
    assert(between@ == seq![';', ' ']);
    let segments = split_at_each(parts[1].as_slice(), between.as_slice());
    add_cookies(&mut out.cookies, &segments);
    Ok(out)
}

impl Clone for Request {
    fn clone(&self) -> (out: Self)
        ensures
            out@ == self@,
    {
        Request {
            host: self.host.clone(),
            method_and_path: self.method_and_path.clone(),
            method: self.method,
            path: self.path.clone(),
            protocol: self.protocol.clone(),
            body: self.body.clone(),
            headers: table_clone(&self.headers),
            params: table_clone(&self.params),
            context: table_clone(&self.context),
            cookies: self.cookies.clone(),
        }
    }
}

impl Request {
    /// A request to a host: a `GET` of the empty path with protocol
    /// `HTTP/1.1`, without body, headers, parameters, context or cookies.
    pub fn new(host: &String) -> (out: Self)
        ensures
            out@ == fresh(host@),
    {
        Request {
            host: host.clone(),
            method_and_path: String::new(),
            method: HttpMethod::GET,
            path: String::new(),
            protocol: "HTTP/1.1".to_owned(),
            body: String::new(),
            headers: table_new(),
            params: table_new(),
            context: table_new(),
            cookies: CookieJar::new(),
        }
    }

    /// This request with another verb.
    pub fn method(self, method: HttpMethod) -> (out: Self)
        ensures
            out@ == (RequestView { method, ..self@ }),
    {
        let mut out = self;
        out.method = method;
        out
    }

    /// This request with another path.
    pub fn path(self, path: &str) -> (out: Self)
        ensures
            out@ == (RequestView { path: path@, ..self@ }),
    {
        let mut out = self;
        out.path = path.to_owned();
        out
    }

    /// This request with another body.
    pub fn body(self, body: &str) -> (out: Self)
        ensures
            out@ == (RequestView { body: body@, ..self@ }),
    {
        let mut out = self;
        out.body = body.to_owned();
        out
    }

    /// The value of the header `key`, or the empty string if there is none.
    pub fn get_header(&self, key: &str) -> (out: String)
        ensures
            out@ == self@.header(key@),
    {
        match table_get(&self.headers, key) {
            Some(value) => value,
            None => String::new(),
        }
    }

    /// This request with `value` as its header `key`.
    pub fn header(self, key: &str, value: &str) -> (out: Self)
        ensures
            out@ == (RequestView { headers: self@.headers.insert(key@, value@), ..self@ }),
    {
        let mut out = self;
        table_insert(&mut out.headers, key.to_owned(), value.to_owned());
        out
    }

    /// What the context holds under the text `key`, or the empty string if
    /// it holds nothing there.
    pub fn context_value(&self, key: &str) -> (out: String)
        ensures
            out@ == self@.context_value(key@),
    {
        match table_get(&self.context, key) {
            Some(value) => value,
            None => String::new(),
        }
    }

    /// Puts `value` into the context under the text `key`.
    pub fn put_context(&mut self, key: &str, value: String)
        ensures
            final(self)@ == (RequestView {
                context: old(self)@.context.insert(key@, value@),
                ..old(self)@
            }),
    {
        table_insert(&mut self.context, key.to_owned(), value);
    }

    /// What the context holds under `key`, or the empty string if it holds
    /// nothing there. The key is asked for its text once.
    pub fn get_context<K: Contextable>(&self, key: K) -> (out: String)
        ensures
            exists|name: Seq<char>| #[trigger]
                names_key(key, name) && out@ == self@.context_value(name),
    {
        let name = key.key();
        assert(names_key(key, name@));
        self.context_value(name)
    }

    /// Puts `value` into the context under `key`. The key is asked for its
    /// text once.
    pub fn set_context<K: Contextable>(&mut self, key: K, value: String)
        ensures
            exists|name: Seq<char>| #[trigger]
                names_key(key, name) && final(self)@ == (RequestView {
                    context: old(self)@.context.insert(name, value@),
                    ..old(self)@
                }),
    {
        let name = key.key();
        assert(names_key(key, name@));
        self.put_context(name, value);
    }

    /// The value of the first cookie with the given name, or the empty
    /// string if there is none.
    pub fn get_cookie(&self, key: &str) -> (out: String)
        ensures
            out@ == self@.cookie(key@),
    {
        proof {
            lemma_first_named_in_range(self@.cookies, key@);
        }
        match self.cookies.get(key) {
            Some(cookie) => cookie.value.clone(),
            None => String::new(),
        }
    }

    /// Host and path, one behind the other.
    pub fn get_url(&self) -> (out: String)
        ensures
            out@ == self@.host + self@.path,
    {
        self.host.clone().concat(self.path.as_str())
    }

    /// The host.
    pub fn get_host(&self) -> (out: String)
        ensures
            out@ == self@.host,
    {
        self.host.clone()
    }

    /// The request as text: first line, header lines in the order in which
    /// the table hands them out, an empty line, and the body.
    pub fn raw(&self) -> (out: String)
        ensures
            sends(self@, out@),
    {
        let pairs = table_pairs(&self.headers);
        let mut first = chars_of(self.method.as_str());
        first.push(' ');
        extend(&mut first, chars_of(self.path.as_str()).as_slice());
        first.push(' ');
        extend(&mut first, chars_of(self.protocol.as_str()).as_slice());
        assert(first@ == self@.first_line());
        let text = render_message(&first, &pairs, self.body.as_str());
        let out = string_of(text.as_slice());
        assert(lists(pair_views(pairs@), self@.headers));
        out
    }

    /// Reads a request from the buffer of a connection.
    pub fn new_from_bytes(request_bytes: RequestBuffer) -> (out: (Request, PotentialResponse))
        ensures
            out.0@ == parsed(request_bytes@).request,
            response_view(out.1) == parsed(request_bytes@).error,
    {
        Request::parse_request_bytes(request_bytes)
    }

    /// Reads a request from a text, line by line. The request comes back in
    /// any case, as far as it was read; a response comes with it where the
    /// reading stopped, and then it is the answer to send.
    pub fn from_text(text: &str) -> (out: (Request, PotentialResponse))
        ensures
            out.0@ == parsed_text(text@).request,
            response_view(out.1) == parsed_text(text@).error,
    {
        let mut request = Request::unread();
        let chars = chars_of(text);
        let lines = lines_of(chars.as_slice());
        let mut at: usize = 0;
        while at < lines.len()
            invariant
                at <= lines.len(),
                request_of(views(lines@), at as int, request@) == parsed_text(text@),
            decreases lines.len() - at,
        {
            assert(views(lines@)[at as int] == lines@[at as int]@);
            let line = lines[at].as_slice();
            let step = if at == 0 {
                read_request_line(line, request)
            } else if at == lines.len() - 1 {
                let mut next = request;
                next.body = string_of(line);
                Ok(next)
            } else {
                read_field_line(line, request)
            };
            match step {
                Ok(next) => {
                    request = next;
                },
                Err(stopped) => {
                    return (stopped.0, Some(stopped.1));
                },
            }
            at += 1;
        }
        (request, None)
    }

    /// The request that reading starts from.
    pub fn unread() -> (out: Request)
        ensures
            out@ == unread(),
    {
        Request {
            method_and_path: String::new(),
            method: HttpMethod::GET,
            path: String::new(),
            protocol: String::new(),
            body: String::new(),
            host: String::new(),
            headers: table_new(),
            context: table_new(),
            params: table_new(),
            cookies: CookieJar::new(),
        }
    }

    /// Reads a request from the buffer of a connection: the bytes before the
    /// first zero byte, as text, line by line. Bytes that are no text are
    /// answered with status 400.
    pub fn parse_request_bytes(request_bytes: RequestBuffer) -> (out: (Request, PotentialResponse))
        ensures
            out.0@ == parsed(request_bytes@).request,
            response_view(out.1) == parsed(request_bytes@).error,
    {
        match text_in(request_bytes.as_slice()) {
            Ok(text) => Request::from_text(text.as_str()),
            Err(_) => (
                Request::unread(),
                Some(Response::new().status(400).body("failed to parse request")),
            ),
        }
    }
}

/// Every response that ends the reading of a request has status 400.
pub proof fn lemma_refusals_are_400(lines: Seq<Seq<char>>, at: int, so_far: RequestView)
    ensures
        request_of(lines, at, so_far).error is Some ==> request_of(
            lines,
            at,
            so_far,
        ).error->0.status == 400,
    decreases lines.len() - at,
{
    if 0 <= at < lines.len() {
        match request_step(lines, at, so_far) {
            Outcome::Next(next) => {
                lemma_refusals_are_400(lines, at + 1, next);
            },
            Outcome::Stop(_, _) => {},
        }
    }
}

/// A request that is refused is refused with status 400, whatever its bytes
/// are.
pub proof fn lemma_refused_with_400(bytes: Seq<u8>)
    ensures
        parsed(bytes).error is Some ==> parsed(bytes).error->0.status == 400,
{
    match text_of(bytes) {
        Some(text) => {
            lemma_refusals_are_400(lines(text), 0, unread());
        },
        None => {},
    }
}

/// A request that was read to its end has the routing key of its verb and
/// path: the verb, a space, and the path without the query.
pub proof fn lemma_routing_key(text: Seq<char>)
    requires
        lines(text).len() > 0,
        parsed_text(text).error is None,
    ensures
        parsed_text(text).request.method_and_path == parsed_text(text).request.method.text()
            + seq![' '] + parsed_text(text).request.path,
{
    let all = lines(text);
    match request_step(all, 0, unread()) {
        Outcome::Next(next) => {
            let word = split(all[0], seq![' '])[0];
            assert(method_named(word) == Some(next.method));
            assert(word == next.method.text());
            lemma_key_is_kept(all, 1, next);
        },
        Outcome::Stop(_, _) => {},
    }
}

/// Reading the lines behind the first changes neither verb nor path nor
/// routing key.
pub proof fn lemma_key_is_kept(lines: Seq<Seq<char>>, at: int, so_far: RequestView)
    requires
        at >= 1,
    ensures
        request_of(lines, at, so_far).request.method_and_path == so_far.method_and_path,
        request_of(lines, at, so_far).request.method == so_far.method,
        request_of(lines, at, so_far).request.path == so_far.path,
    decreases lines.len() - at,
{
    if at < lines.len() {
        match request_step(lines, at, so_far) {
            Outcome::Next(next) => {
                lemma_key_is_kept(lines, at + 1, next);
            },
            Outcome::Stop(_, _) => {},
        }
    }
}

/// A request whose first word is none of the five verbs is refused with
/// status 400, whatever its path, its protocol and its other lines are.
pub proof fn lemma_unknown_method_refused(text: Seq<char>)
    requires
        lines(text).len() > 0,
        method_named(split(lines(text)[0], seq![' '])[0]) is None,
    ensures
        parsed_text(text).error is Some,
        parsed_text(text).error->0.status == 400,
{
    lemma_refusals_are_400(lines(text), 0, unread());
}

/// A request with a line between the first and the last that is not empty
/// and holds no colon is refused with status 400.
pub proof fn lemma_field_without_colon_refused(text: Seq<char>, at: int)
    requires
        0 < at < lines(text).len() - 1,
        lines(text)[at].len() > 0,
        !contains(lines(text)[at], seq![':']),
    ensures
        parsed_text(text).error is Some,
        parsed_text(text).error->0.status == 400,
{
    lemma_reading_stops_at(lines(text), 0, unread(), at);
    lemma_refusals_are_400(lines(text), 0, unread());
}

/// Reading that starts at or before a line without a colon does not get
/// past that line.
pub proof fn lemma_reading_stops_at(
    lines: Seq<Seq<char>>,
    from: int,
    so_far: RequestView,
    at: int,
)
    requires
        0 <= from <= at,
        0 < at < lines.len() - 1,
        lines[at].len() > 0,
        !contains(lines[at], seq![':']),
    ensures
        request_of(lines, from, so_far).error is Some,
    decreases at - from,
{
    if from < at {
        match request_step(lines, from, so_far) {
            Outcome::Next(next) => {
                lemma_reading_stops_at(lines, from + 1, next, at);
            },
            Outcome::Stop(_, _) => {},
        }
    }
}

/// A line between the first and the last that holds more than one colon is
/// passed over: the request is read as if the line were empty. No header
/// comes of it and the reading goes on.
pub proof fn lemma_crowded_field_passed_over(text: Seq<char>, at: int)
    requires
        0 < at < lines(text).len() - 1,
        split(lines(text)[at], seq![':']).len() > 2,
    ensures
        parsed_text(text) == request_of(lines(text).update(at, seq![]), 0, unread()),
{
    lemma_passed_over_from(lines(text), at, 0, unread());
}

/// Reading from any line on gives the same with a line of several colons as
/// with an empty line in its place.
pub proof fn lemma_passed_over_from(
    lines: Seq<Seq<char>>,
    at: int,
    from: int,
    so_far: RequestView,
)
    requires
        0 < at < lines.len() - 1,
        split(lines[at], seq![':']).len() > 2,
    ensures
        request_of(lines, from, so_far) == request_of(lines.update(at, seq![]), from, so_far),
    decreases lines.len() - from,
{
    let emptied = lines.update(at, seq![]);
    if 0 <= from < lines.len() {
        if from == at {
            assert(request_step(lines, from, so_far) == Outcome::Next(so_far));
            assert(request_step(emptied, from, so_far) == Outcome::Next(so_far));
            lemma_passed_over_from(lines, at, from + 1, so_far);
        } else {
            assert(emptied[from] == lines[from]);
            assert(request_step(lines, from, so_far) == request_step(emptied, from, so_far));
            match request_step(lines, from, so_far) {
                Outcome::Next(next) => {
                    lemma_passed_over_from(lines, at, from + 1, next);
                },
                Outcome::Stop(_, _) => {},
            }
        }
    }
}

/// A cookie as it stands in a `Cookie` header: name, `=`, value.
pub open spec fn pair_text(pair: (Seq<char>, Seq<char>)) -> Seq<char> {
    pair.0 + seq!['='] + pair.1
}

/// The cookie that a name and a value make.
pub open spec fn pair_cookie(pair: (Seq<char>, Seq<char>)) -> CookieView {
    plain(pair.0, pair.1)
}

/// A name, `=` and a value split at `=` into the name and the value, where
/// neither holds a `=`.
pub proof fn lemma_pair_splits(name: Seq<char>, value: Seq<char>)
    requires
        free_of(name, '='),
        free_of(value, '='),
    ensures
        split(name + seq!['='] + value, seq!['=']) == seq![name, value],
{
    let equals = seq!['='];
    lemma_find_char(name, '=');
    lemma_find_char(value, '=');
    lemma_find_behind(name, equals, value);
    lemma_split_first(name, equals, value);
    lemma_split_whole(value, equals);
}

/// The cookies of segments that are each a name, `=` and a value are the
/// cookies of these names and values, in order.
pub proof fn lemma_cookies_of_pairs(pairs: Seq<(Seq<char>, Seq<char>)>)
    requires
        forall|i: int|
            0 <= i < pairs.len() ==> free_of((#[trigger] pairs[i]).0, '=') && free_of(
                pairs[i].1,
                '=',
            ),
    ensures
        cookies_of(pairs.map_values(|pair: (Seq<char>, Seq<char>)| pair_text(pair)))
            == pairs.map_values(|pair: (Seq<char>, Seq<char>)| pair_cookie(pair)),
    decreases pairs.len(),
{
    let segments = pairs.map_values(|pair: (Seq<char>, Seq<char>)| pair_text(pair));
    let cookies = pairs.map_values(|pair: (Seq<char>, Seq<char>)| pair_cookie(pair));
    if pairs.len() > 0 {
        let front = pairs.drop_last();
        assert forall|i: int| 0 <= i < front.len() implies free_of(
            (#[trigger] front[i]).0,
            '=',
        ) && free_of(front[i].1, '=') by {
            assert(front[i] == pairs[i]);
        }
        lemma_cookies_of_pairs(front);
        assert(segments.drop_last() == front.map_values(
            |pair: (Seq<char>, Seq<char>)| pair_text(pair),
        ));
        assert(cookies.drop_last() == front.map_values(
            |pair: (Seq<char>, Seq<char>)| pair_cookie(pair),
        ));
        lemma_pair_splits(pairs.last().0, pairs.last().1);
        assert(segments.last() == pair_text(pairs.last()));
        assert(cookies == cookies.drop_last().push(pair_cookie(pairs.last())));
    } else {
        assert(cookies == Seq::<CookieView>::empty());
    }
}

/// The name of a cookie that was read from a header holds no `=`.
pub proof fn lemma_read_cookie_names(segments: Seq<Seq<char>>)
    ensures
        forall|i: int|
            0 <= i < cookies_of(segments).len() ==> free_of(
                (#[trigger] cookies_of(segments)[i]).name,
                '=',
            ),
    decreases segments.len(),
{
    if segments.len() > 0 {
        let before = cookies_of(segments.drop_last());
        lemma_read_cookie_names(segments.drop_last());
        lemma_pieces_free_of(segments.last(), '=');
        let parts = split(segments.last(), seq!['=']);
        assert forall|i: int| 0 <= i < cookies_of(segments).len() implies free_of(
            (#[trigger] cookies_of(segments)[i]).name,
            '=',
        ) by {
            if i < before.len() {
                assert(cookies_of(segments)[i] == before[i]);
            } else {
                assert(cookies_of(segments)[i].name == parts[0]);
            }
        }
    }
}

/// A header `Cookie` whose value is a list of segments with `; ` between
/// them adds the cookies of these segments to the request, in order, and
/// the reading goes on. A segment that is no name, `=` and value adds
/// nothing.
pub proof fn lemma_cookie_header(segments: Seq<Seq<char>>, so_far: RequestView)
    requires
        segments.len() > 0,
        forall|i: int|
            0 <= i < segments.len() ==> free_of(#[trigger] segments[i], ':') && find(
                segments[i],
                seq![';', ' '],
            ) is None,
    ensures
        field_line("Cookie"@ + seq![':'] + join(segments, seq![';', ' ']), so_far)
            == Outcome::Next(
            RequestView { cookies: so_far.cookies + cookies_of(segments), ..so_far },
        ),
{
    let between = seq![';', ' '];
    let colon = seq![':'];
    let value = join(segments, between);
    let line = "Cookie"@ + colon + value;
    reveal_strlit("Cookie");
    assert(free_of("Cookie"@, ':'));
    assert(free_of(between, ':'));
    lemma_free_of_join(segments, between, ':');
    lemma_find_char("Cookie"@, ':');
    lemma_find_char(value, ':');
    lemma_find_behind("Cookie"@, colon, value);
    lemma_split_first("Cookie"@, colon, value);
    lemma_split_whole(value, colon);
    assert(split(line, colon) == seq!["Cookie"@, value]);
    lemma_split_join(segments, between);
}

/// A header `Cookie` whose value is a list of cookies, each a name, `=` and
/// a value, with `; ` between them, adds these cookies to the request in
/// order.
pub proof fn lemma_cookie_pairs(pairs: Seq<(Seq<char>, Seq<char>)>, so_far: RequestView)
    requires
        pairs.len() > 0,
        forall|i: int|
            0 <= i < pairs.len() ==> free_of((#[trigger] pairs[i]).0, '=') && free_of(
                pairs[i].1,
                '=',
            ) && free_of(pair_text(pairs[i]), ':') && find(pair_text(pairs[i]), seq![';', ' '])
                is None,
    ensures
        field_line(
            "Cookie"@ + seq![':'] + join(
                pairs.map_values(|pair: (Seq<char>, Seq<char>)| pair_text(pair)),
                seq![';', ' '],
            ),
            so_far,
        ) == Outcome::Next(
            RequestView {
                cookies: so_far.cookies + pairs.map_values(
                    |pair: (Seq<char>, Seq<char>)| pair_cookie(pair),
                ),
                ..so_far
            },
        ),
{
    let segments = pairs.map_values(|pair: (Seq<char>, Seq<char>)| pair_text(pair));
    assert forall|i: int| 0 <= i < segments.len() implies free_of(#[trigger] segments[i], ':')
        && find(segments[i], seq![';', ' ']) is None by {
        assert(segments[i] == pair_text(pairs[i]));
    }
    lemma_cookie_header(segments, so_far);
    lemma_cookies_of_pairs(pairs);
}

/// The five verbs hold neither a space nor a line feed, and each names
/// itself.
pub proof fn lemma_method_text(method: HttpMethod)
    ensures
        free_of(method.text(), ' '),
        free_of(method.text(), '\n'),
        method_named(method.text()) == Some(method),
{
    reveal_strlit("GET");
    reveal_strlit("POST");
    reveal_strlit("PUT");
    reveal_strlit("DELETE");
    reveal_strlit("PATCH");
    assert("GET"@.len() == 3 && "POST"@.len() == 4 && "PUT"@.len() == 3 && "DELETE"@.len() == 6
        && "PATCH"@.len() == 5);
    assert("GET"@[0] == 'G' && "PUT"@[0] == 'P');
    match method {
        HttpMethod::GET => {
            assert(method_named("GET"@) == Some(HttpMethod::GET));
        },
        HttpMethod::POST => {
            assert("POST"@ != "GET"@);
            assert(method_named("POST"@) == Some(HttpMethod::POST));
        },
        HttpMethod::PUT => {
            assert("PUT"@ != "GET"@);
            assert("PUT"@ != "POST"@);
            assert(method_named("PUT"@) == Some(HttpMethod::PUT));
        },
        HttpMethod::DELETE => {
            assert("DELETE"@ != "GET"@);
            assert("DELETE"@ != "POST"@);
            assert("DELETE"@ != "PUT"@);
            assert(method_named("DELETE"@) == Some(HttpMethod::DELETE));
        },
        HttpMethod::PATCH => {
            assert("PATCH"@ != "GET"@);
            assert("PATCH"@ != "POST"@);
            assert("PATCH"@ != "PUT"@);
            assert("PATCH"@ != "DELETE"@);
            assert(method_named("PATCH"@) == Some(HttpMethod::PATCH));
        },
    }
}

/// A request of one line: a verb, a target and `HTTP/1.1` with a space
/// between each two.
pub open spec fn request_text(method: HttpMethod, target: Seq<char>) -> Seq<char> {
    method.text() + seq![' '] + target + seq![' '] + "HTTP/1.1"@
}

/// The request after its first line was read, for a verb and a target:
/// verb, path, routing key and protocol are set, and the parameters of the
/// query are put into the table.
pub open spec fn named(so_far: RequestView, method: HttpMethod, target: Seq<char>) -> RequestView {
    RequestView {
        method,
        protocol: "HTTP/1.1"@,
        path: path_of(target),
        method_and_path: method.text() + seq![' '] + path_of(target),
        params: with_pairs(so_far.params, split(query_of(target), seq!['&'])),
        ..so_far
    }
}

/// Reading a first line that is made of one of the five verbs, a target
/// without space, and `HTTP/1.1`, names the request, and the reading goes
/// on.
pub proof fn lemma_request_line_read(method: HttpMethod, target: Seq<char>, so_far: RequestView)
    requires
        free_of(target, ' '),
    ensures
        request_line(request_text(method, target), so_far) == Outcome::Next(
            named(so_far, method, target),
        ),
        free_of(target, '\n') ==> free_of(request_text(method, target), '\n'),
        request_text(method, target).len() > 0,
{
    let space = seq![' '];
    let verb = method.text();
    let protocol = "HTTP/1.1"@;
    let text = request_text(method, target);
    reveal_strlit("HTTP/1.1");
    lemma_method_text(method);
    assert(free_of(protocol, ' ') && free_of(protocol, '\n'));
    assert(free_of(space, '\n'));
    lemma_free_of_concat(verb, space, '\n');
    lemma_free_of_concat(verb + space, target, '\n');
    lemma_free_of_concat(verb + space + target, space, '\n');
    lemma_free_of_concat(verb + space + target + space, protocol, '\n');
    let words = seq![verb, target, protocol];
    assert(join(words, space) == text) by {
        assert(words.drop_last() == seq![verb, target]);
        assert(words.drop_last().drop_last() == seq![verb]);
        assert(join(seq![verb], space) == verb);
        assert(join(seq![verb, target], space) == verb + space + target);
    }
    assert forall|i: int| 0 <= i < words.len() implies find(#[trigger] words[i], space)
        is None by {
        lemma_find_char(words[i], ' ');
    }
    lemma_split_join(words, space);
    assert(split(text, space) == words);
}

/// A request of one line, made of one of the five verbs, a target without
/// space or line feed, and `HTTP/1.1`, is read to its end. Its routing key
/// is the verb, a space, and the target without its query.
pub proof fn lemma_single_line_request(method: HttpMethod, target: Seq<char>)
    requires
        free_of(target, ' '),
        free_of(target, '\n'),
    ensures
        parsed_text(request_text(method, target)).error is None,
        parsed_text(request_text(method, target)).request.method == method,
        parsed_text(request_text(method, target)).request.method_and_path == method.text()
            + seq![' '] + path_of(target),
{
    let text = request_text(method, target);
    lemma_request_line_read(method, target, unread());
    lemma_find_char(text, '\n');
    let all = seq![text];
    assert(lines(text) == all);
    let next = named(unread(), method, target);
    assert(request_step(all, 0, unread()) == Outcome::Next(next));
    assert(request_of(all, 1, next) == Parsed { request: next, error: None });
    assert(request_of(all, 0, unread()) == request_of(all, 1, next));
}

/// A buffer that begins with the bytes of a text, and ends there or goes on
/// with a zero byte, is read as that text is read, where the text is free
/// of the zero character.
pub proof fn lemma_parsed_of_buffer(text: Seq<char>, bytes: Seq<u8>)
    requires
        free_of(text, '\0'),
        encode_utf8(text).len() <= bytes.len(),
        bytes.take(encode_utf8(text).len() as int) == encode_utf8(text),
        encode_utf8(text).len() == bytes.len() || bytes[encode_utf8(text).len() as int] == 0,
    ensures
        parsed(bytes) == parsed_text(text),
{
    lemma_text_of_buffer(text, bytes);
}

/// A buffer that holds one line, made of one of the five verbs, a target
/// and `HTTP/1.1`, and zero bytes behind it if any, is read to the end as a
/// request. Its routing key is the verb, a space, and the target without its
/// query.
pub proof fn lemma_single_line_buffer(method: HttpMethod, target: Seq<char>, bytes: Seq<u8>)
    requires
        free_of(target, ' '),
        free_of(target, '\n'),
        free_of(target, '\0'),
        encode_utf8(request_text(method, target)).len() <= bytes.len(),
        bytes.take(encode_utf8(request_text(method, target)).len() as int) == encode_utf8(
            request_text(method, target),
        ),
        forall|i: int|
            encode_utf8(request_text(method, target)).len() <= i < bytes.len() ==> bytes[i] == 0,
    ensures
        parsed(bytes).error is None,
        parsed(bytes).request.method == method,
        parsed(bytes).request.method_and_path == method.text() + seq![' '] + path_of(target),
{
    let text = request_text(method, target);
    reveal_strlit("HTTP/1.1");
    reveal_strlit("GET");
    reveal_strlit("POST");
    reveal_strlit("PUT");
    reveal_strlit("DELETE");
    reveal_strlit("PATCH");
    assert(free_of(method.text(), '\0'));
    assert(free_of("HTTP/1.1"@, '\0'));
    assert(free_of(seq![' '], '\0'));
    lemma_free_of_concat(method.text(), seq![' '], '\0');
    lemma_free_of_concat(method.text() + seq![' '], target, '\0');
    lemma_free_of_concat(method.text() + seq![' '] + target, seq![' '], '\0');
    lemma_free_of_concat(method.text() + seq![' '] + target + seq![' '], "HTTP/1.1"@, '\0');
    lemma_parsed_of_buffer(text, bytes);
    lemma_single_line_request(method, target);
}

/// A request after headers were read from the wire, one after the other.
/// What stands behind the colon of a header is its value, with the space
/// that follows the colon.
pub open spec fn with_fields(so_far: RequestView, order: Seq<Pair>) -> RequestView
    decreases order.len(),
{
    if order.len() == 0 {
        so_far
    } else {
        with_fields(
            RequestView {
                headers: so_far.headers.insert(order[0].0, seq![' '] + order[0].1),
                ..so_far
            },
            order.drop_first(),
        )
    }
}

/// Reading the line of a sendable header whose key is not `Cookie` gives
/// the header, with a space before its value.
pub proof fn lemma_field_read(pair: Pair, so_far: RequestView)
    requires
        sendable(pair.0),
        sendable(pair.1),
        pair.0 != "Cookie"@,
    ensures
        field_line(field(pair), so_far) == Outcome::Next(
            RequestView {
                headers: so_far.headers.insert(pair.0, seq![' '] + pair.1),
                ..so_far
            },
        ),
{
    let colon = seq![':'];
    let behind = seq![' '] + pair.1;
    let line = field(pair);
    assert(line == pair.0 + colon + behind);
    assert(line.len() > 0);
    lemma_free_of_concat(seq![' '], pair.1, ':');
    lemma_find_char(pair.0, ':');
    lemma_find_char(behind, ':');
    lemma_find_behind(pair.0, colon, behind);
    lemma_split_first(pair.0, colon, behind);
    lemma_split_whole(behind, colon);
    assert(split(line, colon) == seq![pair.0, behind]);
}

/// Reading the header lines of a message is reading its headers one after
/// the other.
pub proof fn lemma_fields_read(
    all: Seq<Seq<char>>,
    order: Seq<Pair>,
    at: int,
    so_far: RequestView,
)
    requires
        all_sendable(order),
        forall|j: int| 0 <= j < order.len() ==> (#[trigger] order[j]).0 != "Cookie"@,
        0 <= at <= order.len(),
        all.len() > order.len() + 1,
        forall|j: int| 0 <= j < order.len() ==> all[1 + j] == field(#[trigger] order[j]),
    ensures
        request_of(all, 1 + at, so_far) == request_of(
            all,
            1 + order.len() as int,
            with_fields(so_far, order.skip(at)),
        ),
    decreases order.len() - at,
{
    let left = order.skip(at);
    if at < order.len() {
        let pair = order[at];
        assert(all[1 + at] == field(pair));
        lemma_field_read(pair, so_far);
        let next = RequestView {
            headers: so_far.headers.insert(pair.0, seq![' '] + pair.1),
            ..so_far
        };
        assert(request_step(all, 1 + at, so_far) == Outcome::Next(next));
        lemma_fields_read(all, order, at + 1, next);
        assert(left[0] == pair);
        assert(left.drop_first() == order.skip(at + 1));
    } else {
        assert(left.len() == 0);
    }
}

/// Headers that are read from the wire change the headers only: a key that
/// is among them gets the value of the last header with that key, with a
/// space before it, and every other key keeps what it had.
pub proof fn lemma_with_fields(so_far: RequestView, order: Seq<Pair>, key: Seq<char>)
    requires
        forall|i: int, j: int|
            0 <= i < j < order.len() ==> (#[trigger] order[i]).0 != (#[trigger] order[j]).0,
    ensures
        with_fields(so_far, order) == (RequestView {
            headers: with_fields(so_far, order).headers,
            ..so_far
        }),
        forall|i: int|
            0 <= i < order.len() && (#[trigger] order[i]).0 == key ==> with_fields(
                so_far,
                order,
            ).headers.contains_key(key) && with_fields(so_far, order).headers[key] == seq![' ']
                + order[i].1,
        (forall|i: int| 0 <= i < order.len() ==> (#[trigger] order[i]).0 != key) ==> with_fields(
            so_far,
            order,
        ).headers.contains_key(key) == so_far.headers.contains_key(key) && with_fields(
            so_far,
            order,
        ).headers[key] == so_far.headers[key],
    decreases order.len(),
{
    if order.len() > 0 {
        let rest = order.drop_first();
        let next = RequestView {
            headers: so_far.headers.insert(order[0].0, seq![' '] + order[0].1),
            ..so_far
        };
        assert forall|i: int, j: int| 0 <= i < j < rest.len() implies (#[trigger] rest[i]).0 != (
        #[trigger] rest[j]).0 by {
            assert(rest[i] == order[i + 1]);
            assert(rest[j] == order[j + 1]);
        }
        lemma_with_fields(next, rest, key);
        assert forall|i: int| 0 <= i < order.len() && (#[trigger] order[i]).0
            == key implies with_fields(so_far, order).headers.contains_key(key) && with_fields(
            so_far,
            order,
        ).headers[key] == seq![' '] + order[i].1 by {
            if i == 0 {
                assert forall|j: int| 0 <= j < rest.len() implies (#[trigger] rest[j]).0
                    != key by {
                    assert(rest[j] == order[j + 1]);
                }
            } else {
                assert(rest[i - 1] == order[i]);
            }
        }
        if forall|i: int| 0 <= i < order.len() ==> (#[trigger] order[i]).0 != key {
            assert(order[0].0 != key);
            assert forall|j: int| 0 <= j < rest.len() implies (#[trigger] rest[j]).0 != key by {
                assert(rest[j] == order[j + 1]);
            }
        }
    }
}

/// A request that went over the wire as `raw` renders it is read to its end
/// as the request that was sent: the same verb, path, protocol and body,
/// the routing key of verb and path, and each header under its key, with a
/// space before its value.
///
/// This holds of a request with protocol `HTTP/1.1`, whose path holds no
/// space and no line feed, whose keys and values are sendable, with no key
/// `Cookie`, and whose body holds no line feed.
pub proof fn lemma_sent_request_is_read(request: RequestView, text: Seq<char>)
    requires
        sends(request, text),
        request.protocol == "HTTP/1.1"@,
        free_of(request.path, ' '),
        free_of(request.path, '\n'),
        free_of(request.body, '\n'),
        !request.headers.contains_key("Cookie"@),
        forall|key: Seq<char>| #[trigger]
            request.headers.contains_key(key) ==> sendable(key) && sendable(request.headers[key]),
    ensures
        parsed_text(text).error is None,
        parsed_text(text).request.method == request.method,
        parsed_text(text).request.protocol == request.protocol,
        parsed_text(text).request.path == path_of(request.path),
        parsed_text(text).request.method_and_path == request.method.text() + seq![' '] + path_of(
            request.path,
        ),
        parsed_text(text).request.body == request.body,
        parsed_text(text).request.cookies.len() == 0,
        forall|key: Seq<char>|
            parsed_text(text).request.headers.contains_key(key) == request.headers.contains_key(
                key,
            ),
        forall|key: Seq<char>| #[trigger]
            request.headers.contains_key(key) ==> parsed_text(text).request.headers[key] == seq![
                ' ',
            ] + request.headers[key],
{
    let first = request.first_line();
    let order = choose|order: Seq<Pair>| #[trigger]
        lists(order, request.headers) && text == message(first, order, request.body);
    let body = request.body;
    let n = order.len() as int;
    assert(first == request_text(request.method, request.path));
    lemma_request_line_read(request.method, request.path, unread());
    assert(all_sendable(order));
    lemma_lines_of_message(first, order, body);
    lemma_find_char(body, '\n');
    let tail = lines(body);
    let all = lines(text);
    assert(all == seq![first] + fields(order) + seq![Seq::<char>::empty()] + tail);
    assert(all[0] == first);
    assert forall|j: int| 0 <= j < order.len() implies all[1 + j] == field(
        #[trigger] order[j],
    ) by {
        assert(fields(order)[j] == field(order[j]));
    }
    assert forall|j: int| 0 <= j < order.len() implies (#[trigger] order[j]).0 != "Cookie"@ by {
        assert(request.headers.contains_key(order[j].0));
    }
    assert(all[1 + n].len() == 0);
    let start = named(unread(), request.method, request.path);
    assert(request_step(all, 0, unread()) == Outcome::Next(start));
    assert(request_of(all, 0, unread()) == request_of(all, 1, start));
    lemma_fields_read(all, order, 0, start);
    assert(order.skip(0) == order);
    let read = with_fields(start, order);
    lemma_with_fields(start, order, Seq::<char>::empty());
    let done = RequestView { body, ..read };
    if body.len() == 0 {
        assert(all.len() == n + 2);
        assert(request_step(all, 1 + n, read) == Outcome::Next(done));
        assert(request_of(all, 2 + n, done) == Parsed { request: done, error: None });
    } else {
        assert(tail == seq![body]);
        assert(all.len() == n + 3);
        assert(all[2 + n] == body);
        assert(request_step(all, 1 + n, read) == Outcome::Next(read));
        assert(request_step(all, 2 + n, read) == Outcome::Next(done));
        assert(request_of(all, 3 + n, done) == Parsed { request: done, error: None });
        assert(request_of(all, 2 + n, read) == request_of(all, 3 + n, done));
    }
    assert(request_of(all, 1 + n, read).request == done);
    assert(parsed_text(text).request == done);
    assert forall|key: Seq<char>|
        parsed_text(text).request.headers.contains_key(key) == request.headers.contains_key(
            key,
        ) by {
        lemma_with_fields(start, order, key);
        if !request.headers.contains_key(key) {
            assert forall|i: int| 0 <= i < order.len() implies (#[trigger] order[i]).0 != key by {
                assert(request.headers.contains_key(order[i].0));
            }
        }
    }
    assert forall|key: Seq<char>| #[trigger] request.headers.contains_key(key) implies parsed_text(
        text,
    ).request.headers[key] == seq![' '] + request.headers[key] by {
        lemma_with_fields(start, order, key);
    }
}

} // verus!
