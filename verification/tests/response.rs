use zeke::http::response::{answer_of, new_response, not_found, Response};

fn header(response: &Response, key: &str) -> Option<String> {
    response.headers.get(key).map(|entry| entry.value().clone())
}

fn decode(text: &str) -> Response {
    Response::new_from_bytes(&text.as_bytes().to_vec())
}

#[test]
fn a_new_response_is_an_empty_200() {
    let response = Response::new();
    assert_eq!(response.protocol, "HTTP/1.1");
    assert_eq!(response.status, 200);
    assert_eq!(response.body, "");
    assert_eq!(response.headers.len(), 0);
}

#[test]
fn status_sets_the_status_only() {
    let response = Response::new().body("x").status(404);
    assert_eq!(response.status, 404);
    assert_eq!(response.body, "x");
    assert_eq!(response.protocol, "HTTP/1.1");
    assert_eq!(response.headers.len(), 1);
}

#[test]
fn body_sets_the_content_length() {
    let response = Response::new().body("hello");
    assert_eq!(response.body, "hello");
    assert_eq!(header(&response, "Content-Length"), Some("5".to_string()));
    let response = response.body("");
    assert_eq!(header(&response, "Content-Length"), Some("0".to_string()));
    assert_eq!(response.headers.len(), 1);
}

#[test]
fn the_content_length_counts_bytes() {
    let response = Response::new().body("héllo wörld");
    assert_eq!(response.get_header("Content-Length"), "13");
    let response = Response::new().body(&"a".repeat(1234));
    assert_eq!(response.get_header("Content-Length"), "1234");
}

#[test]
fn headers_are_set_and_read() {
    let response = Response::new().set_header("Content-Type", "text/html").set_header("A", "1").set_header("A", "2");
    assert_eq!(response.get_header("Content-Type"), "text/html");
    assert_eq!(response.get_header("A"), "2");
    assert_eq!(response.get_header("B"), "");
    assert_eq!(response.headers.len(), 2);
}

#[test]
fn raw_renders_the_response() {
    assert_eq!(Response::new().raw(), "HTTP/1.1 200\r\n\r\n");
    let response = Response::new().status(201).body("hello");
    assert_eq!(response.raw(), "HTTP/1.1 201\r\nContent-Length: 5\r\n\r\nhello");
}

#[test]
fn the_wire_names_the_protocol_of_the_response() {
    let mut response = Response::new();
    response.protocol = "HTTP/2".to_string();
    assert_eq!(response.raw(), "HTTP/2 200\r\n\r\n");
    assert_eq!(response.to_bytes(), b"HTTP/2 200\r\n\r\n".to_vec());
    assert_eq!(Response::new_from_bytes(&response.to_bytes()).protocol, "HTTP/2");
}

#[test]
fn to_bytes_renders_the_response() {
    let response = Response::new().status(500).body("failed to write to socket");
    assert_eq!(
        response.to_bytes(),
        b"HTTP/1.1 500\r\nContent-Length: 25\r\n\r\nfailed to write to socket".to_vec()
    );
    assert_eq!(Response::new().body("é").to_bytes(), "HTTP/1.1 200\r\nContent-Length: 2\r\n\r\né".as_bytes().to_vec());
}

#[test]
fn to_bytes_renders_every_header_once() {
    let response = Response::new().set_header("A", "1").set_header("B", "2").set_header("C", "3").body("x");
    let text = String::from_utf8(response.to_bytes()).unwrap();
    let mut lines: Vec<&str> = text.split("\r\n").collect();
    assert_eq!(lines.remove(0), "HTTP/1.1 200");
    assert_eq!(lines.pop(), Some("x"));
    assert_eq!(lines.pop(), Some(""));
    lines.sort();
    assert_eq!(lines, vec!["A: 1", "B: 2", "C: 3", "Content-Length: 1"]);
}

#[test]
fn not_found_is_a_404_without_headers() {
    let response = not_found();
    assert_eq!(response.status, 404);
    assert_eq!(response.body, "Not Found");
    assert_eq!(response.protocol, "HTTP/1.1");
    assert_eq!(response.headers.len(), 0);
}

#[test]
fn set_cookie_makes_the_header() {
    let mut response = Response::new();
    response.set_cookie("a", "1");
    assert_eq!(response.get_header("Set-Cookie"), "a=1;");
}

#[test]
fn set_cookie_puts_a_new_cookie_behind_the_others() {
    let mut response = Response::new();
    response.set_cookie("a", "1");
    response.set_cookie("b", "2");
    assert_eq!(response.get_header("Set-Cookie"), "a=1;b=2;");
    response.set_cookie("c", "3");
    assert_eq!(response.get_header("Set-Cookie"), "a=1;b=2;c=3;");
}

#[test]
fn set_cookie_changes_a_cookie_in_place() {
    let mut response = Response::new();
    response.set_cookie("a", "1");
    response.set_cookie("b", "2");
    response.set_cookie("a", "3");
    assert_eq!(response.get_header("Set-Cookie"), "a=3;b=2;");
    response.set_cookie("b", "");
    assert_eq!(response.get_header("Set-Cookie"), "a=3;b=;");
}

#[test]
fn set_cookie_leaves_other_segments_alone() {
    let mut response = Response::new().set_header("Set-Cookie", "aa=1; a=2;junk;a=3");
    response.set_cookie("a", "9");
    assert_eq!(response.get_header("Set-Cookie"), "aa=1; a=2;junk;a=9");
    response.set_cookie("aa", "8");
    assert_eq!(response.get_header("Set-Cookie"), "aa=8; a=2;junk;a=9");
    response.set_cookie("b", "7");
    assert_eq!(response.get_header("Set-Cookie"), "aa=8; a=2;junk;a=9b=7;");
}

#[test]
fn set_cookie_changes_every_cookie_of_the_name() {
    let mut response = Response::new().set_header("Set-Cookie", "a=1;b=2;a=3;");
    response.set_cookie("a", "0");
    assert_eq!(response.get_header("Set-Cookie"), "a=0;b=2;a=0;");
}

#[test]
fn set_cookie_keeps_the_other_headers() {
    let mut response = Response::new().status(201).body("x").set_header("K", "v");
    response.set_cookie("a", "1");
    assert_eq!(response.status, 201);
    assert_eq!(response.body, "x");
    assert_eq!(response.get_header("K"), "v");
    assert_eq!(response.get_header("Content-Length"), "1");
    assert_eq!(response.headers.len(), 3);
}

#[test]
fn get_cookie_reads_the_cookie_header() {
    let response = Response::new().set_header("Cookie", "a=1;b=2;a=3");
    assert_eq!(response.get_cookie("a"), "1");
    assert_eq!(response.get_cookie("b"), "2");
    assert_eq!(response.get_cookie("c"), "");
    assert_eq!(Response::new().get_cookie("a"), "");
}

#[test]
fn get_cookie_does_not_trim() {
    let response = Response::new().set_header("Cookie", "a=1; b=2;c=3=4;d");
    assert_eq!(response.get_cookie("b"), "");
    assert_eq!(response.get_cookie(" b"), "2");
    assert_eq!(response.get_cookie("c"), "");
    assert_eq!(response.get_cookie("d"), "");
}

#[test]
fn get_cookie_does_not_read_set_cookie() {
    let mut response = Response::new();
    response.set_cookie("a", "1");
    assert_eq!(response.get_cookie("a"), "");
}

#[test]
fn a_response_is_read_from_bytes() {
    let response = decode("HTTP/1.1 200\r\nContent-Type: text/html\r\nContent-Length: 13\r\n\r\n<h1>Home</h1>");
    assert_eq!(response.protocol, "HTTP/1.1");
    assert_eq!(response.status, 200);
    assert_eq!(response.body, "<h1>Home</h1>");
    assert_eq!(response.get_header("Content-Type"), "text/html");
    assert_eq!(response.get_header("Content-Length"), "13");
    assert_eq!(response.headers.len(), 2);
}

#[test]
fn a_reason_behind_the_status_is_passed_over() {
    let response = decode("HTTP/1.0 404 Not Found\r\n\r\nnothing");
    assert_eq!(response.protocol, "HTTP/1.0");
    assert_eq!(response.status, 404);
    assert_eq!(response.body, "nothing");
}

#[test]
fn a_first_line_of_one_word_is_refused() {
    let response = decode("HTTP/1.1\r\n\r\n");
    assert_eq!(response.status, 400);
    assert_eq!(response.body, "malformed response, more than 2 parts in status line");
    assert_eq!(response.get_header("Content-Length"), "52");
}

#[test]
fn a_status_that_is_no_number_is_refused() {
    for text in ["HTTP/1.1 abc\r\n\r\n", "HTTP/1.1 65536\r\n\r\n", "HTTP/1.1  200\r\n\r\n", "HTTP/1.1 -1\r\n\r\n"] {
        let response = decode(text);
        assert_eq!(response.status, 400);
        assert_eq!(response.body, "malformed response, status is not a number");
    }
}

#[test]
fn the_status_may_be_any_number_below_65536() {
    assert_eq!(decode("HTTP/1.1 0\r\n\r\n").status, 0);
    assert_eq!(decode("HTTP/1.1 65535\r\n\r\n").status, 65535);
    assert_eq!(decode("HTTP/1.1 +007\r\n\r\n").status, 7);
}

#[test]
fn a_header_line_with_two_colons_is_refused() {
    let response = decode("HTTP/1.1 200\r\nHost: localhost:8080\r\n\r\nbody");
    assert_eq!(response.status, 400);
    assert_eq!(response.body, "malformed response, more than 2 parts in header line");
}

#[test]
fn a_line_without_colon_is_passed_over() {
    let response = decode("HTTP/1.1 200\r\nnocolon\r\nA: b\r\n\r\nbody");
    assert_eq!(response.status, 200);
    assert_eq!(response.get_header("A"), "b");
    assert_eq!(response.headers.len(), 1);
    assert_eq!(response.body, "body");
}

#[test]
fn keys_and_values_are_trimmed() {
    let response = decode("HTTP/1.1 200\r\n  Key \t:  some value  \r\n\r\n");
    assert_eq!(response.get_header("Key"), "some value");
    assert_eq!(response.headers.len(), 1);
}

#[test]
fn the_last_line_is_trimmed() {
    let response = decode("HTTP/1.1 200\r\n\r\n  body text \t");
    assert_eq!(response.body, "body text");
    let response = decode("HTTP/1.1 200\r\nA: b\r\n\r\n     ");
    assert_eq!(response.body, "");
    assert_eq!(response.get_header("A"), "b");
}

#[test]
fn a_header_as_last_line_is_the_body() {
    let response = decode("HTTP/1.1 200\r\nA: b");
    assert_eq!(response.body, "A: b");
    assert_eq!(response.headers.len(), 0);
}

#[test]
fn an_empty_first_line_leaves_the_defaults() {
    let response = decode("\r\nA: b\r\n\r\n");
    assert_eq!(response.status, 200);
    assert_eq!(response.protocol, "HTTP/1.1");
    assert_eq!(response.get_header("A"), "b");
    let response = decode("");
    assert_eq!(response.status, 200);
    assert_eq!(response.body, "");
    assert_eq!(response.headers.len(), 0);
}

#[test]
fn reading_stops_at_a_zero_byte() {
    let response = Response::new_from_bytes(&b"HTTP/1.1 201\r\n\r\nbo\0dy".to_vec());
    assert_eq!(response.status, 201);
    assert_eq!(response.body, "bo");
}

#[test]
fn bytes_that_are_no_text_give_a_500() {
    let bytes = vec![b'H', 0xff, b'T'];
    let response = Response::new_from_bytes(&bytes);
    assert_eq!(response.status, 500);
    let why = format!("{:?}", String::from_utf8(bytes).unwrap_err());
    assert_eq!(response.body, format!("internal server error: {}", why));
    assert_eq!(response.get_header("Content-Length"), response.body.len().to_string());
    assert_eq!(response.protocol, "HTTP/1.1");
}

#[test]
fn a_response_comes_back_from_the_wire() {
    let response = Response::new()
        .status(418)
        .set_header("Content-Type", "text/html")
        .set_header(" Padded ", "  value\t")
        .set_header("X-Empty", "")
        .body("short and stout");
    let back = Response::new_from_bytes(&response.to_bytes());
    assert_eq!(back.status, 418);
    assert_eq!(back.body, "short and stout");
    assert_eq!(back.get_header("Content-Type"), "text/html");
    assert_eq!(back.get_header("Padded"), "value");
    assert_eq!(header(&back, "X-Empty"), Some("".to_string()));
    assert_eq!(back.get_header("Content-Length"), "15");
    assert_eq!(back.headers.len(), 4);
}

#[test]
fn every_status_comes_back_from_the_wire() {
    for status in [0u16, 1, 99, 200, 404, 500, 9999, 65535] {
        let back = Response::new_from_bytes(&Response::new().status(status).to_bytes());
        assert_eq!(back.status, status);
    }
}

#[test]
fn a_body_of_several_lines_comes_back_with_its_last_line() {
    let response = Response::new().set_header("A", "1").body("first\r\nsecond\r\nthird");
    let back = Response::new_from_bytes(&response.to_bytes());
    assert_eq!(back.status, 200);
    assert_eq!(back.get_header("A"), "1");
    assert_eq!(back.body, "third");
}

#[test]
fn a_colon_in_a_value_does_not_come_back() {
    let response = Response::new().set_header("Location", "http://localhost");
    let back = Response::new_from_bytes(&response.to_bytes());
    assert_eq!(back.status, 400);
}

#[test]
fn a_clone_has_headers_of_its_own() {
    let response = Response::new().status(201).body("x").set_header("A", "1");
    let copy = response.clone().set_header("A", "2");
    assert_eq!(response.get_header("A"), "1");
    assert_eq!(copy.get_header("A"), "2");
    assert_eq!(copy.status, 201);
    assert_eq!(copy.body, "x");
    assert_eq!(copy.protocol, "HTTP/1.1");
    assert_eq!(copy.get_header("Content-Length"), "1");
}

#[test]
fn new_response_sets_status_body_and_length() {
    let response = new_response(503, "busy");
    assert_eq!(response.status, 503);
    assert_eq!(response.body, "busy");
    assert_eq!(response.protocol, "HTTP/1.1");
    assert_eq!(response.get_header("Content-Length"), "4");
    assert_eq!(response.headers.len(), 1);
}

#[test]
fn the_answer_is_what_came_back() {
    let response = answer_of(Ok(b"HTTP/1.1 204\r\nA: b\r\n\r\n".to_vec()));
    assert_eq!(response.status, 204);
    assert_eq!(response.get_header("A"), "b");
    let response = answer_of(Ok(Vec::new()));
    assert_eq!(response.status, 200);
}

#[test]
fn a_failed_exchange_is_answered_with_500() {
    let response = answer_of(Err("connection refused".to_string()));
    assert_eq!(response.status, 500);
    assert_eq!(response.body, "connection refused");
    assert_eq!(response.get_header("Content-Length"), "18");
}

#[test]
fn from_text_reads_like_new_from_bytes() {
    let text = "HTTP/1.1 302\r\nLocation: /next\r\n\r\nmoved";
    let response = Response::from_text(text);
    assert_eq!(response.status, 302);
    assert_eq!(response.get_header("Location"), "/next");
    assert_eq!(response.body, "moved");
    let response = Response::from_text("a\0b 200");
    assert_eq!(response.protocol, "a\0b");
}

#[test]
fn unreadable_tells_why() {
    let response = Response::unreadable("bad bytes");
    assert_eq!(response.status, 500);
    assert_eq!(response.body, "internal server error: bad bytes");
    assert_eq!(response.get_header("Content-Length"), "32");
}
