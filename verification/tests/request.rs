use zeke::http::cookie::Cookie;
use zeke::http::request::{Contextable, HttpMethod, Request};

fn buffer_of(text: &str) -> [u8; 1024] {
    let mut bytes = [0u8; 1024];
    bytes[..text.len()].copy_from_slice(text.as_bytes());
    bytes
}

fn read(text: &str) -> (Request, Option<zeke::http::response::Response>) {
    Request::parse_request_bytes(buffer_of(text))
}

fn header(request: &Request, key: &str) -> Option<String> {
    request.headers.get(key).map(|entry| entry.value().clone())
}

fn param(request: &Request, key: &str) -> Option<String> {
    request.params.get(key).map(|entry| entry.value().clone())
}

fn names_and_values(request: &Request) -> Vec<(String, String)> {
    request.cookies.cookies.iter().map(|cookie| (cookie.name.clone(), cookie.value.clone())).collect()
}

enum Key {
    Trace,
    User,
}

impl Contextable for Key {
    fn key(&self) -> &'static str {
        match self {
            Key::Trace => "TRACE",
            Key::User => "USER",
        }
    }
}

#[test]
fn as_str_gives_each_verb() {
    assert_eq!(HttpMethod::GET.as_str(), "GET");
    assert_eq!(HttpMethod::POST.as_str(), "POST");
    assert_eq!(HttpMethod::PUT.as_str(), "PUT");
    assert_eq!(HttpMethod::DELETE.as_str(), "DELETE");
    assert_eq!(HttpMethod::PATCH.as_str(), "PATCH");
}

#[test]
fn a_request_with_a_header_is_read() {
    let (request, response) = read("GET / HTTP/1.1\r\nHost: localhost\r\n\r\n");
    assert!(response.is_none());
    assert_eq!(request.method_and_path, "GET /");
    assert_eq!(request.method, HttpMethod::GET);
    assert_eq!(request.path, "/");
    assert_eq!(request.protocol, "HTTP/1.1");
    assert_eq!(request.body, "");
    assert_eq!(request.host, "");
    assert_eq!(header(&request, "Host"), Some(" localhost".to_string()));
    assert_eq!(request.headers.len(), 1);
    assert_eq!(request.params.len(), 0);
    assert_eq!(request.context.len(), 0);
    assert!(request.cookies.cookies.is_empty());
}

#[test]
fn each_verb_is_read_on_a_single_line() {
    let verbs = [
        ("GET", HttpMethod::GET),
        ("POST", HttpMethod::POST),
        ("PUT", HttpMethod::PUT),
        ("DELETE", HttpMethod::DELETE),
        ("PATCH", HttpMethod::PATCH),
    ];
    for (word, verb) in verbs {
        let (request, response) = read(&format!("{} /items?page=2 HTTP/1.1", word));
        assert!(response.is_none());
        assert_eq!(request.method, verb);
        assert_eq!(request.method_and_path, format!("{} /items", word));
        assert_eq!(request.path, "/items");
        assert_eq!(request.body, "");
        assert_eq!(param(&request, "page"), Some("2".to_string()));
    }
}

#[test]
fn a_single_line_is_not_taken_as_body() {
    let (request, response) = read("GET / HTTP/1.1");
    assert!(response.is_none());
    assert_eq!(request.body, "");
    assert_eq!(request.method_and_path, "GET /");
}

#[test]
fn the_last_line_is_the_body() {
    let (request, response) = read("POST /test/post_with_body HTTP/1.1\r\nA: b\r\n\r\nthis is a post request");
    assert!(response.is_none());
    assert_eq!(request.method, HttpMethod::POST);
    assert_eq!(request.body, "this is a post request");
    assert_eq!(header(&request, "A"), Some(" b".to_string()));
}

#[test]
fn the_last_line_is_the_body_even_with_a_colon() {
    let (request, response) = read("PUT /test/put HTTP/1.1\r\n\r\n{\"name\": \"Zeke Updated\", \"age\": 26}");
    assert!(response.is_none());
    assert_eq!(request.body, "{\"name\": \"Zeke Updated\", \"age\": 26}");
    assert_eq!(request.headers.len(), 0);
}

#[test]
fn a_header_as_last_line_is_taken_as_body() {
    let (request, response) = read("GET / HTTP/1.1\r\nHost: localhost");
    assert!(response.is_none());
    assert_eq!(request.body, "Host: localhost");
    assert_eq!(request.headers.len(), 0);
}

#[test]
fn an_unknown_verb_is_refused() {
    let (request, response) = read("GE / HTTP/1.1\r\n\r\n");
    let response = response.unwrap();
    assert_eq!(response.status, 400);
    assert_eq!(response.body, "malformed request: method was extracted but found to be invalid");
    assert_eq!(response.get_header("Content-Length"), "63");
    assert_eq!(request.method_and_path, "GE /");
    assert_eq!(request.path, "/");
    assert_eq!(request.protocol, "");
}

#[test]
fn invalid_method() {
    let (_, response) = read("GE / HTTP/1.1\r\nHost: localhost\r\nConnection: close\r\n\r\n");
    assert_eq!(response.unwrap().status, 400);
}

#[test]
fn missing_method() {
    let (_, response) = read("/ HTTP/1.1\r\nHost: localhost\r\nConnection: close\r\n\r\n");
    let response = response.unwrap();
    assert_eq!(response.status, 400);
    assert_eq!(response.body, "malformed request: status line did not have exactly three parts");
}

#[test]
fn invalid_protocol() {
    let (_, response) = read("GET .1#####@@##@#\r\nHost: localhost\r\nConnection: close\r\n\r\n");
    assert_eq!(response.unwrap().status, 400);
}

#[test]
fn missing_protocol() {
    let (request, response) = read("GET / \r\nHost: localhost\r\nConnection: close\r\n\r\n");
    let response = response.unwrap();
    assert_eq!(response.status, 400);
    assert_eq!(response.body, "protocol is missing or invalid: only HTTP/1.1 is supported");
    assert_eq!(request.method_and_path, "GET /");
}

#[test]
fn another_protocol_is_refused() {
    let (_, response) = read("GET / HTTP/1.0\r\n\r\n");
    let response = response.unwrap();
    assert_eq!(response.status, 400);
    assert_eq!(response.body, "protocol is missing or invalid: only HTTP/1.1 is supported");
}

#[test]
fn the_protocol_is_looked_at_before_the_verb() {
    let (_, response) = read("GE / HTTP/2\r\n\r\n");
    assert_eq!(response.unwrap().body, "protocol is missing or invalid: only HTTP/1.1 is supported");
}

#[test]
fn verbs_are_matched_by_case() {
    let (_, response) = read("get / HTTP/1.1\r\n\r\n");
    assert_eq!(response.unwrap().status, 400);
}

#[test]
fn status_line_no_spaces() {
    let (_, response) = read("GET/HTTP/1.1\r\nHost: localhost\r\nConnection: close\r\n\r\n");
    let response = response.unwrap();
    assert_eq!(response.status, 400);
    assert_eq!(response.body, "malformed request: status line did not have exactly three parts");
}

#[test]
fn malformed_header() {
    let (request, response) = read("GET / HTTP/1.1\r\nHost: localhost\r\nxxxxxxxxxxxxx\r\n\r\n");
    let response = response.unwrap();
    assert_eq!(response.status, 400);
    assert_eq!(response.body, "malformed request: header line did not contain a colon");
    assert_eq!(header(&request, "Host"), Some(" localhost".to_string()));
    assert_eq!(request.body, "");
    assert_eq!(request.method_and_path, "GET /");
}

#[test]
fn a_bad_header_and_a_bad_first_line_give_different_messages() {
    let (_, first) = read("GET /\r\n\r\n");
    let (_, header) = read("GET / HTTP/1.1\r\nnocolon\r\n\r\n");
    let first = first.unwrap();
    let header = header.unwrap();
    assert_eq!(first.status, 400);
    assert_eq!(header.status, 400);
    assert_ne!(first.body, header.body);
}

#[test]
fn missing_carriages() {
    let (_, response) = read("GET / HTTP/1.1");
    assert!(response.is_none());
    let (_, response) = read("GET / HTTP/1.1 Host: localhost\r\n\r\n");
    assert_eq!(response.unwrap().status, 400);
}

#[test]
fn line_feeds_alone_end_lines_too() {
    let (request, response) = read("GET / HTTP/1.1\nA:b\n\nbody");
    assert!(response.is_none());
    assert_eq!(header(&request, "A"), Some("b".to_string()));
    assert_eq!(request.body, "body");
}

#[test]
fn a_header_with_two_colons_is_passed_over() {
    let (request, response) = read("GET / HTTP/1.1\r\nHost: localhost:8080\r\nAccept: text\r\n\r\n");
    assert!(response.is_none());
    assert_eq!(header(&request, "Host"), None);
    assert_eq!(header(&request, "Accept"), Some(" text".to_string()));
    assert_eq!(request.headers.len(), 1);
}

#[test]
fn a_header_with_two_colons_reads_like_an_empty_line() {
    let (with, first) = read("GET / HTTP/1.1\r\nA: 1\r\nB: x:y\r\nC: 3\r\n\r\nbody");
    let (without, second) = read("GET / HTTP/1.1\r\nA: 1\r\n\r\nC: 3\r\n\r\nbody");
    assert!(first.is_none() && second.is_none());
    assert_eq!(with.headers.len(), without.headers.len());
    assert_eq!(header(&with, "A"), header(&without, "A"));
    assert_eq!(header(&with, "C"), header(&without, "C"));
    assert_eq!(header(&with, "B"), None);
    assert_eq!(with.body, without.body);
}

#[test]
fn header_values_are_not_trimmed() {
    let (request, _) = read("GET / HTTP/1.1\r\nKey:  two spaces \r\n\r\n");
    assert_eq!(header(&request, "Key"), Some("  two spaces ".to_string()));
}

#[test]
fn the_last_of_two_headers_with_one_key_stays() {
    let (request, _) = read("GET / HTTP/1.1\r\nA:1\r\nA:2\r\n\r\n");
    assert_eq!(header(&request, "A"), Some("2".to_string()));
    assert_eq!(request.headers.len(), 1);
}

#[test]
fn query_parameters_are_read() {
    let (request, response) = read("GET /test/query_params?name=zeke&age=your_mom HTTP/1.1\r\n\r\n");
    assert!(response.is_none());
    assert_eq!(request.path, "/test/query_params");
    assert_eq!(request.method_and_path, "GET /test/query_params");
    assert_eq!(param(&request, "name"), Some("zeke".to_string()));
    assert_eq!(param(&request, "age"), Some("your_mom".to_string()));
    assert_eq!(request.params.len(), 2);
}

#[test]
fn what_is_no_pair_in_a_query_is_left_out() {
    let (request, response) = read("GET /p?a=1&b&c=2=3&=4&d= HTTP/1.1\r\n\r\n");
    assert!(response.is_none());
    assert_eq!(param(&request, "a"), Some("1".to_string()));
    assert_eq!(param(&request, "b"), None);
    assert_eq!(param(&request, "c"), None);
    assert_eq!(param(&request, ""), Some("4".to_string()));
    assert_eq!(param(&request, "d"), Some("".to_string()));
    assert_eq!(request.params.len(), 3);
}

#[test]
fn the_query_is_what_follows_the_first_question_mark() {
    let (request, response) = read("GET /p?a=1?b HTTP/1.1\r\n\r\n");
    assert!(response.is_none());
    assert_eq!(request.path, "/p");
    assert_eq!(param(&request, "a"), Some("1?b".to_string()));
}

#[test]
fn parameters_are_kept_when_the_protocol_is_refused() {
    let (request, response) = read("GET /p?a=1 HTTP/9\r\n\r\n");
    assert_eq!(response.unwrap().status, 400);
    assert_eq!(request.path, "/p");
    assert_eq!(param(&request, "a"), Some("1".to_string()));
}

#[test]
fn cookies_are_read_into_the_jar() {
    let (request, response) = read("GET / HTTP/1.1\r\nCookie:a=1; b=2\r\n\r\n");
    assert!(response.is_none());
    assert_eq!(
        names_and_values(&request),
        vec![("a".to_string(), "1".to_string()), ("b".to_string(), "2".to_string())]
    );
    assert_eq!(header(&request, "Cookie"), None);
    assert_eq!(request.get_cookie("a"), "1");
    assert_eq!(request.get_cookie("b"), "2");
    assert_eq!(request.get_cookie("c"), "");
}

#[test]
fn what_is_no_cookie_is_left_out() {
    let (request, response) = read("GET / HTTP/1.1\r\nCookie:a=1; junk; b=2=3; c=4\r\nX:y\r\n\r\n");
    assert!(response.is_none());
    assert_eq!(
        names_and_values(&request),
        vec![("a".to_string(), "1".to_string()), ("c".to_string(), "4".to_string())]
    );
    assert_eq!(header(&request, "X"), Some("y".to_string()));
}

#[test]
fn the_space_behind_the_colon_belongs_to_the_first_cookie() {
    let (request, _) = read("GET / HTTP/1.1\r\nCookie: a=1; b=2\r\n\r\n");
    assert_eq!(
        names_and_values(&request),
        vec![(" a".to_string(), "1".to_string()), ("b".to_string(), "2".to_string())]
    );
}

#[test]
fn cookies_of_two_headers_follow_each_other() {
    let (request, _) = read("GET / HTTP/1.1\r\nCookie:a=1\r\nCookie:a=2; b=3\r\n\r\n");
    assert_eq!(request.cookies.cookies.len(), 3);
    assert_eq!(request.get_cookie("a"), "1");
}

#[test]
fn only_the_key_cookie_names_cookies() {
    let (request, _) = read("GET / HTTP/1.1\r\ncookie:a=1\r\n\r\n");
    assert!(request.cookies.cookies.is_empty());
    assert_eq!(header(&request, "cookie"), Some("a=1".to_string()));
}

#[test]
fn bytes_that_are_no_text_are_refused() {
    let mut bytes = [0u8; 1024];
    bytes[0] = b'G';
    bytes[1] = 0xff;
    bytes[2] = b'T';
    let (request, response) = Request::parse_request_bytes(bytes);
    let response = response.unwrap();
    assert_eq!(response.status, 400);
    assert_eq!(response.body, "failed to parse request");
    assert_eq!(request.method_and_path, "");
}

#[test]
fn an_empty_buffer_gives_an_empty_request() {
    let (request, response) = Request::parse_request_bytes([0u8; 1024]);
    assert!(response.is_none());
    assert_eq!(request.method_and_path, "");
    assert_eq!(request.protocol, "");
    assert_eq!(request.method, HttpMethod::GET);
}

#[test]
fn what_follows_a_zero_byte_is_not_read() {
    let (request, response) = read("GET / HTTP/1.1\r\nA:b\r\n\r\nbo\0dy");
    assert!(response.is_none());
    assert_eq!(request.body, "bo");
}

#[test]
fn a_full_buffer_is_read_to_its_end() {
    let mut text = String::from("GET / HTTP/1.1\r\n\r\n");
    while text.len() < 1024 {
        text.push('x');
    }
    let (request, response) = read(&text);
    assert!(response.is_none());
    assert_eq!(request.body.len(), 1024 - 18);
}

#[test]
fn new_from_bytes_reads_like_parse_request_bytes() {
    let (request, response) = Request::new_from_bytes(buffer_of("DELETE /test/delete HTTP/1.1\r\n\r\n"));
    assert!(response.is_none());
    assert_eq!(request.method, HttpMethod::DELETE);
    assert_eq!(request.method_and_path, "DELETE /test/delete");
    let (_, response) = Request::new_from_bytes(buffer_of("NOPE / HTTP/1.1\r\n\r\n"));
    assert_eq!(response.unwrap().status, 400);
}

#[test]
fn a_new_request_is_a_get_of_nothing() {
    let request = Request::new(&"localhost:8080".to_string());
    assert_eq!(request.host, "localhost:8080");
    assert_eq!(request.method, HttpMethod::GET);
    assert_eq!(request.path, "");
    assert_eq!(request.method_and_path, "");
    assert_eq!(request.protocol, "HTTP/1.1");
    assert_eq!(request.body, "");
    assert_eq!(request.headers.len(), 0);
    assert_eq!(request.get_host(), "localhost:8080");
}

#[test]
fn builders_set_their_field() {
    let request = Request::new(&"h".to_string())
        .method(HttpMethod::PATCH)
        .path("/x")
        .body("payload")
        .header("Zeke", "zeke rules")
        .header("Zekes-Mom", "so does zeke's mom");
    assert_eq!(request.method, HttpMethod::PATCH);
    assert_eq!(request.path, "/x");
    assert_eq!(request.body, "payload");
    assert_eq!(request.get_header("Zeke"), "zeke rules");
    assert_eq!(request.get_header("Zekes-Mom"), "so does zeke's mom");
    assert_eq!(request.get_header("Other"), "");
    assert_eq!(request.get_url(), "h/x");
    assert_eq!(request.host, "h");
}

#[test]
fn raw_renders_the_request() {
    let request = Request::new(&"h".to_string()).method(HttpMethod::POST).path("/p").body("hello");
    assert_eq!(request.raw(), "POST /p HTTP/1.1\r\n\r\nhello");
    let request = request.header("A", "b");
    assert_eq!(request.raw(), "POST /p HTTP/1.1\r\nA: b\r\n\r\nhello");
}

#[test]
fn raw_renders_every_header_once() {
    let request = Request::new(&"h".to_string()).path("/").header("A", "1").header("B", "2").header("C", "3");
    let raw = request.raw();
    let mut lines: Vec<&str> = raw.split("\r\n").collect();
    assert_eq!(lines.remove(0), "GET / HTTP/1.1");
    assert_eq!(lines.pop(), Some(""));
    assert_eq!(lines.pop(), Some(""));
    lines.sort();
    assert_eq!(lines, vec!["A: 1", "B: 2", "C: 3"]);
}

#[test]
fn context_is_kept_under_the_key() {
    let mut request = Request::new(&"h".to_string());
    assert_eq!(request.get_context(Key::Trace), "");
    request.set_context(Key::Trace, "t1".to_string());
    request.set_context(Key::User, "u".to_string());
    request.set_context(Key::Trace, "t2".to_string());
    assert_eq!(request.get_context(Key::Trace), "t2");
    assert_eq!(request.get_context(Key::User), "u");
    assert_eq!(request.context_value("TRACE"), "t2");
    assert_eq!(request.context_value("OTHER"), "");
    assert_eq!(request.context.len(), 2);
}

#[test]
fn get_cookie_gives_the_first_of_a_name() {
    let mut request = Request::new(&"h".to_string());
    assert_eq!(request.get_cookie("a"), "");
    request.cookies.add(Cookie::new("a", "1"));
    request.cookies.add(Cookie::new("b", "2"));
    request.cookies.add(Cookie::new("a", "3"));
    assert_eq!(request.get_cookie("a"), "1");
    assert_eq!(request.get_cookie("b"), "2");
}

#[test]
fn a_clone_has_tables_of_its_own() {
    let request = Request::new(&"h".to_string()).path("/p").header("A", "1");
    let copy = request.clone();
    let copy = copy.header("A", "2").header("B", "3");
    assert_eq!(request.get_header("A"), "1");
    assert_eq!(request.get_header("B"), "");
    assert_eq!(copy.get_header("A"), "2");
    assert_eq!(copy.path, "/p");
}

#[test]
fn from_text_reads_like_parse_request_bytes() {
    let (request, response) = Request::from_text("PATCH /a?b=c HTTP/1.1\r\nK:v\r\n\r\nbody");
    assert!(response.is_none());
    assert_eq!(request.method, HttpMethod::PATCH);
    assert_eq!(request.method_and_path, "PATCH /a");
    assert_eq!(param(&request, "b"), Some("c".to_string()));
    assert_eq!(header(&request, "K"), Some("v".to_string()));
    assert_eq!(request.body, "body");
    let (request, response) = Request::from_text("");
    assert!(response.is_none());
    assert_eq!(request.protocol, "");
}

#[test]
fn an_unread_request_is_empty() {
    let request = Request::unread();
    assert_eq!(request.host, "");
    assert_eq!(request.method_and_path, "");
    assert_eq!(request.method, HttpMethod::GET);
    assert_eq!(request.protocol, "");
    assert_eq!(request.headers.len() + request.params.len() + request.context.len(), 0);
    assert!(request.cookies.cookies.is_empty());
}

#[test]
fn put_context_keeps_a_value_under_a_text() {
    let mut request = Request::unread();
    request.put_context("K", "v".to_string());
    assert_eq!(request.context_value("K"), "v");
    assert_eq!(request.context.len(), 1);
}

#[test]
fn a_request_comes_back_from_the_wire() {
    let sent = Request::new(&"localhost:8080".to_string())
        .method(HttpMethod::PUT)
        .path("/items/7?force=1")
        .header("Accept", "text/html")
        .header("X-Empty", "")
        .body("the body");
    let (request, response) = Request::from_text(&sent.raw());
    assert!(response.is_none());
    assert_eq!(request.method, HttpMethod::PUT);
    assert_eq!(request.path, "/items/7");
    assert_eq!(request.method_and_path, "PUT /items/7");
    assert_eq!(request.protocol, "HTTP/1.1");
    assert_eq!(request.body, "the body");
    assert_eq!(request.get_header("Accept"), " text/html");
    assert_eq!(header(&request, "X-Empty"), Some(" ".to_string()));
    assert_eq!(request.headers.len(), 2);
    assert_eq!(param(&request, "force"), Some("1".to_string()));
    assert!(request.cookies.cookies.is_empty());
    assert_eq!(request.host, "");
}

#[test]
fn a_request_without_body_comes_back_from_the_wire() {
    for sent in [
        Request::new(&"h".to_string()).path("/"),
        Request::new(&"h".to_string()).path("/").header("A", "b"),
        Request::new(&"h".to_string()).method(HttpMethod::DELETE).path("/x").header("A", "b").header("C", "d"),
    ] {
        let (request, response) = Request::from_text(&sent.raw());
        assert!(response.is_none());
        assert_eq!(request.method, sent.method);
        assert_eq!(request.path, sent.path);
        assert_eq!(request.body, "");
        assert_eq!(request.headers.len(), sent.headers.len());
    }
}
