use server_rs::http::handler::Handler;
use server_rs::http::header::{
    content_encoding, content_length, content_type, date, expires, from_string_key, header,
    last_modified, location, server, www_authenticate, HeaderValue, HeaderValueString,
    HeaderValueTime, HttpHeaderValue, ToString as _,
};
use server_rs::http::http::{finish, invalid_request, Http1};
use server_rs::http::request::HttpRequest;
use server_rs::http::response::{HeaderSetter, HttpResponse};
use server_rs::http::value::{
    Error, HttpMethod, HttpResponseCode, HttpVersion, WeightedValue,
};
use server_rs::util::date::Date;
use std::time::{Duration, SystemTime};

struct Hi;

impl<R> Handler<R> for Hi {
    fn handle(&self, _req: &mut HttpRequest<R>, res: &mut HttpResponse) {
        res.write("hi".as_bytes());
    }
}

struct Recording {
    seen: std::cell::RefCell<Vec<String>>,
}

impl Handler<()> for Recording {
    fn handle(&self, req: &mut HttpRequest<()>, res: &mut HttpResponse) {
        let mut seen = self.seen.borrow_mut();
        seen.push(req.method().to_string());
        seen.push(req.path().to_string());
        seen.push(req.version().to_string());
        seen.push(req.param().get("asdf").unwrap().join(","));
        seen.push(req.header().get("Host").unwrap().join(","));
        seen.push(req.remote_addr().to_string());
        seen.push(String::from_utf8(res.write_header()).unwrap());
    }
}

struct Echoing;

impl Handler<Vec<u8>> for Echoing {
    fn handle(&self, req: &mut HttpRequest<Vec<u8>>, res: &mut HttpResponse) {
        let rest = req.reader().clone();
        res.write(&rest);
    }
}

struct Replacing;

impl Handler<()> for Replacing {
    fn handle(&self, _req: &mut HttpRequest<()>, res: &mut HttpResponse) {
        *res = HttpResponse::new(HttpVersion::Http11);
        res.set_header(&server(HttpHeaderValue::Str("other")));
        res.set_header(&content_length(99));
        res.write("abc".as_bytes());
        res.write("".as_bytes());
        res.write("de".as_bytes());
    }
}

fn strings(items: &[&str]) -> Vec<String> {
    items.iter().map(|s| s.to_string()).collect()
}

fn text(bytes: &[u8]) -> String {
    String::from_utf8(bytes.to_vec()).unwrap()
}

#[test]
fn header_test_time_to_header_string() {
    assert_eq!(
        HeaderValueTime::from_system_time(SystemTime::UNIX_EPOCH)
            .to_string()
            .as_ref(),
        "Thu, 01 Jan 1970 00:00:00 GMT"
    );

    println!(
        "{}",
        HeaderValueTime::from_system_time(SystemTime::now()).to_string()
    )
}

#[test]
fn system_time_is_read_to_the_second() {
    let time = SystemTime::UNIX_EPOCH + Duration::new(1_000_000_000, 999_999_999);
    assert_eq!(
        Date::from_system_time(time).to_rfc1123(),
        "Sun, 09 Sep 2001 01:46:40 GMT"
    );
    assert_eq!(server_rs::util::date::epoch_secs(time), 1_000_000_000);
}

#[test]
fn time_before_1970_counts_as_its_start() {
    let time = SystemTime::UNIX_EPOCH - Duration::from_secs(86_400);
    assert_eq!(
        Date::from_system_time(time).to_rfc1123(),
        "Thu, 01 Jan 1970 00:00:00 GMT"
    );
}

#[test]
fn handler_is_given_the_request_and_a_fresh_response() {
    let http = Http1::new(8192, Recording { seen: std::cell::RefCell::new(Vec::new()) });
    let input = strings(&[
        "GET /test?asdf=asdf&asdf=fdsa HTTP/1.0\r\n",
        "Host: x\r\n",
        "\r\n",
    ]);
    let reply = http.process("127.0.0.1:9", &input, 0);
    assert_eq!(reply.result, Ok((51, 0)));
    let recording = Recording { seen: std::cell::RefCell::new(Vec::new()) };
    let lines = http.read_header("127.0.0.1:9", &input).unwrap().1;
    let mut request = http.init_request("127.0.0.1:9", &lines, ()).unwrap();
    let mut response = HttpResponse::from_request(&request);
    response.set_header(&server(HttpHeaderValue::Str("server_rs")));
    recording.handle(&mut request, &mut response);
    assert_eq!(
        *recording.seen.borrow(),
        strings(&[
            "GET",
            "/test",
            "HTTP/1.0",
            "asdf,fdsa",
            "x",
            "127.0.0.1:9",
            "HTTP/1.0 200 OK\r\nServer: server_rs\r\n\r\n",
        ])
    );
}

#[test]
fn handler_can_read_on_where_the_header_ended() {
    let http = Http1::new(8192, Echoing);
    let header = http.read_header("peer", &strings(&["POST /in HTTP/1.0\r\n", "\r\n"]));
    let reply = http.respond("peer", header, "a=1&b=2".as_bytes().to_vec(), 0);
    assert!(text(&reply.bytes).ends_with("Content-Length: 7\r\nDate: Thu, 01 Jan 1970 00:00:00 GMT\r\n\r\na=1&b=2"));
    assert_eq!(reply.result, Ok((21, 0)));
    let request = http
        .init_request("peer", &strings(&["GET / HTTP/1.0"]), vec![1u8, 2])
        .unwrap();
    assert_eq!(request.reader(), &vec![1u8, 2]);
}

#[test]
fn get_is_answered_with_head_and_body() {
    let http = Http1::new(8192, Hi);
    let reply = http.process("peer", &strings(&["GET / HTTP/1.0\r\n", "\r\n"]), 0);
    assert_eq!(
        text(&reply.bytes),
        "HTTP/1.0 200 OK\r\nServer: server_rs\r\nContent-Length: 2\r\n\
         Date: Thu, 01 Jan 1970 00:00:00 GMT\r\n\r\nhi"
    );
    assert_eq!(reply.result, Ok((18, 0)));
}

#[test]
fn head_is_answered_without_body() {
    let http = Http1::new(8192, Hi);
    let reply = http.process("peer", &strings(&["HEAD / HTTP/1.0\r\n", "\r\n"]), 86_400);
    let sent = text(&reply.bytes);
    assert!(sent.starts_with("HTTP/1.0 200 OK\r\n"));
    assert!(sent.contains("Content-Length: 2\r\n"));
    assert!(sent.contains("Date: Fri, 02 Jan 1970 00:00:00 GMT\r\n"));
    assert!(sent.ends_with("\r\n\r\n"));
    assert_eq!(sent.find("\r\n\r\n"), Some(sent.len() - 4));
    assert_eq!(reply.result, Ok((19, 0)));
}

#[test]
fn version_of_the_request_is_echoed() {
    let http = Http1::new(8192, Hi);
    let reply = http.process("peer", &strings(&["GET / HTTP/1.1\r\n", "\r\n"]), 0);
    assert!(text(&reply.bytes).starts_with("HTTP/1.1 200 OK\r\n"));
}

#[test]
fn handler_cannot_undo_head_or_version() {
    let http = Http1::new(8192, Replacing);
    let reply = http.process("peer", &strings(&["HEAD /x HTTP/1.0\r\n", "\r\n"]), 0);
    assert_eq!(
        text(&reply.bytes),
        "HTTP/1.0 200 OK\r\nServer: other\r\nContent-Length: 5\r\n\
         Date: Thu, 01 Jan 1970 00:00:00 GMT\r\n\r\n"
    );
}

#[test]
fn block_over_the_limit_is_answered_with_400() {
    let http = Http1::new(17, Hi);
    let reply = http.process("9.9.9.9:1", &strings(&["GET / HTTP/1.0\r\n", "\r\n"]), 0);
    assert_eq!(
        text(&reply.bytes),
        "HTTP/1.0 400 Bad Request\r\nServer: server_rs\r\nContent-Type: text/plain\r\n\
         Date: Thu, 01 Jan 1970 00:00:00 GMT\r\nContent-Length: 15\r\n\r\nInvalid request"
    );
    assert_eq!(
        reply.result,
        Err(Error::BadRequest("9.9.9.9:1".to_string(), "header size limit exceed"))
    );
    assert_eq!(reply.bytes, invalid_request(0));
}

#[test]
fn unreadable_request_is_answered_with_400() {
    let http = Http1::new(8192, Hi);
    let reply = http.process("peer", &strings(&["GET /\r\n", "\r\n"]), 5);
    assert_eq!(reply.bytes, invalid_request(5));
    assert_eq!(
        reply.result,
        Err(Error::ParseFail("invalid request line: GET /".to_string()))
    );
    let reply = http.process("peer", &Vec::new(), 5);
    assert_eq!(reply.bytes, invalid_request(5));
    assert_eq!(reply.result, Err(Error::ReadFail("EOF".to_string())));
    let reply = http.respond("peer", Err(Error::ReadFail("timed out".to_string())), (), 5);
    assert_eq!(reply.bytes, invalid_request(5));
    assert_eq!(reply.result, Err(Error::ReadFail("timed out".to_string())));
}

#[test]
fn blank_first_line_makes_no_request() {
    let http = Http1::new(8192, Hi);
    let reply = http.process("peer", &strings(&["\r\n"]), 0);
    assert_eq!(reply.bytes, invalid_request(0));
    assert_eq!(
        reply.result,
        Err(Error::ParseFail("invalid request line: ".to_string()))
    );
}

#[test]
fn write_failure_is_reported_for_a_served_request_only() {
    let http = Http1::new(8192, Hi);
    let served = http.process("peer", &strings(&["GET / HTTP/1.0\r\n", "\r\n"]), 0);
    assert_eq!(
        served.conclude(Some("broken pipe".to_string())),
        Err(Error::IoFail("broken pipe".to_string()))
    );
    let served = http.process("peer", &strings(&["GET / HTTP/1.0\r\n", "\r\n"]), 0);
    assert_eq!(served.conclude(None), Ok((18, 0)));
    let refused = http.process("peer", &strings(&["GET\r\n"]), 0);
    assert_eq!(
        refused.conclude(Some("broken pipe".to_string())),
        Err(Error::ParseFail("invalid request line: GET".to_string()))
    );
}

#[test]
fn content_length_counts_bytes_not_chunks() {
    let mut response = HttpResponse::new(HttpVersion::Http10);
    assert_eq!(response.write("abc".as_bytes()), 3);
    assert_eq!(response.write(&[]), 0);
    assert_eq!(response.write("\u{00e9}".as_bytes()), 2);
    response.set_header(&content_length(1));
    let sent = text(&response.flush(0));
    assert!(sent.contains("Content-Length: 5\r\n"));
    assert!(!sent.contains("Content-Length: 1\r\n"));
    assert!(sent.ends_with("\r\n\r\nabc\u{00e9}"));
}

#[test]
fn flush_overrides_date() {
    let mut response = HttpResponse::new(HttpVersion::Http10);
    response.set_header(&header("Date", HttpHeaderValue::Str("yesterday")));
    let sent = text(&response.flush(951_782_400));
    assert_eq!(
        sent,
        "HTTP/1.0 200 OK\r\nDate: Tue, 29 Feb 2000 00:00:00 GMT\r\nContent-Length: 0\r\n\r\n"
    );
}

#[test]
fn set_header_replaces_and_append_header_adds() {
    let mut response = HttpResponse::new(HttpVersion::Http10);
    response.set_header(&header("X-A", HttpHeaderValue::Str("1")));
    response.append_header(&header("X-A", HttpHeaderValue::Str("2")));
    response.append_header(&from_string_key(
        "X-B".to_string(),
        HeaderValue::String(HeaderValueString { string: "b".to_string() }),
    ));
    response.append_header(&header("X-A", HttpHeaderValue::String("3".to_string())));
    assert_eq!(
        text(&response.write_header()),
        "HTTP/1.0 200 OK\r\nX-A: 1;2;3\r\nX-B: b\r\n\r\n"
    );
    response.set_header(&from_string_key(
        "X-A".to_string(),
        HeaderValue::String(HeaderValueString { string: "z".to_string() }),
    ));
    assert_eq!(
        text(&response.write_header()),
        "HTTP/1.0 200 OK\r\nX-A: z\r\nX-B: b\r\n\r\n"
    );
}

#[test]
fn status_lines() {
    let all = [
        (HttpResponseCode::OK, 200, "OK"),
        (HttpResponseCode::Created, 201, "Created"),
        (HttpResponseCode::Accepted, 202, "Accepted"),
        (HttpResponseCode::NoContent, 204, "No Content"),
        (HttpResponseCode::MovedPermanetly, 301, "Moved Permanently"),
        (HttpResponseCode::MovedTemporarily, 302, "Moved Temporarily"),
        (HttpResponseCode::NotModified, 304, "Not Modified"),
        (HttpResponseCode::BadRequest, 400, "Bad Request"),
        (HttpResponseCode::Unauthorized, 401, "Unauthorized"),
        (HttpResponseCode::Forbidden, 403, "Forbidden"),
        (HttpResponseCode::NotFound, 404, "NotFound"),
        (HttpResponseCode::InternalServerError, 500, "Interna Server Error"),
        (HttpResponseCode::NotImplemented, 501, "Not Implemented"),
        (HttpResponseCode::BadGateway, 502, "Bad Gateway"),
        (HttpResponseCode::ServiceUnavailable, 503, "Service Unavailable"),
    ];
    for (code, number, reason) in all {
        assert_eq!(code.code(), number);
        assert_eq!(code.reason(), reason);
        let mut response = HttpResponse::new(HttpVersion::Http11);
        response.set_response_code(code);
        assert_eq!(
            text(&response.write_header()),
            format!("HTTP/1.1 {} {}\r\n\r\n", number, reason)
        );
    }
}

#[test]
fn versions_and_methods() {
    assert_eq!(HttpVersion::parse("HTTP/1.0"), Some(HttpVersion::Http10));
    assert_eq!(HttpVersion::parse("http/1.1"), Some(HttpVersion::Http11));
    assert_eq!(HttpVersion::parse("hTtP/1.1"), Some(HttpVersion::Http11));
    assert_eq!(HttpVersion::parse("HTTP/1.2"), None);
    assert_eq!(HttpVersion::parse("HTTP/1.0 "), None);
    assert_eq!(HttpVersion::parse(""), None);
    assert_eq!(HttpVersion::parse("\u{212a}TTP/1.0"), None);
    assert_eq!(HttpVersion::default(), HttpVersion::Http10);
    assert_eq!(HttpVersion::Http10.to_string(), "HTTP/1.0");
    assert_eq!(HttpVersion::Http11.as_str(), "HTTP/1.1");
    assert_eq!(HttpVersion::Http11.clone(), HttpVersion::Http11);
    assert_eq!(HttpMethod::parse("GET"), HttpMethod::GET);
    assert_eq!(HttpMethod::parse("post"), HttpMethod::POST);
    assert_eq!(HttpMethod::parse("Head"), HttpMethod::HEAD);
    assert_eq!(HttpMethod::parse("po\u{017f}t"), HttpMethod::POST);
    assert_eq!(HttpMethod::parse("put"), HttpMethod::UNDEFINED("put".to_string()));
    assert_eq!(HttpMethod::parse(""), HttpMethod::UNDEFINED(String::new()));
    assert_eq!(HttpMethod::from_upper("GET", "anything"), HttpMethod::GET);
    assert_eq!(HttpMethod::from_upper("get", "get"), HttpMethod::UNDEFINED("get".to_string()));
    assert_eq!(HttpMethod::UNDEFINED("put".to_string()).to_string(), "put");
    assert_eq!(HttpMethod::HEAD.to_string(), "HEAD");
    assert_eq!(HttpMethod::POST.clone(), HttpMethod::POST);
}

#[test]
fn headers_by_name() {
    let check = |made: server_rs::http::header::HttpHeader, name: &str, value: &str| {
        assert_eq!(made.key_str(), Some(name));
        assert!(made.key_string().is_none());
        assert_eq!(made.value().to_string().as_str(), value);
    };
    check(content_encoding(HttpHeaderValue::Str("gzip")), "Content-Encoding", "gzip");
    check(content_length(0), "Content-Length", "0");
    check(content_length(1234567890), "Content-Length", "1234567890");
    check(content_type(HttpHeaderValue::String("text/html".to_string())), "Content-Type", "text/html");
    check(header("X-Any", HttpHeaderValue::Str("v")), "X-Any", "v");
    check(location(HttpHeaderValue::Str("/next")), "Location", "/next");
    check(server(HttpHeaderValue::Str("server_rs")), "Server", "server_rs");
    check(www_authenticate(HttpHeaderValue::Str("Basic")), "WWW-Authenticate", "Basic");
    check(date(SystemTime::UNIX_EPOCH), "Date", "Thu, 01 Jan 1970 00:00:00 GMT");
    check(
        expires(SystemTime::UNIX_EPOCH + Duration::from_secs(59)),
        "Expires",
        "Thu, 01 Jan 1970 00:00:59 GMT",
    );
    check(
        last_modified(SystemTime::UNIX_EPOCH + Duration::from_secs(3600)),
        "Last-Modified",
        "Thu, 01 Jan 1970 01:00:00 GMT",
    );
    let owned = from_string_key("X-Own".to_string(), HttpHeaderValue::Str("o").to_value());
    assert_eq!(owned.key_str(), None);
    assert_eq!(owned.key_string().unwrap().as_str(), "X-Own");
    assert_eq!(owned.value().to_string().as_str(), "o");
}

#[test]
fn weighted_list_is_sent_one_character_short() {
    let list = vec![
        WeightedValue::new("GET".to_string(), Some(format!("{:.2}", 0.5f64))),
        WeightedValue::new("HEAD".to_string(), None),
        WeightedValue::new("POST".to_string(), Some(format!("{:.2}", 0.125f64))),
    ];
    assert_eq!(list[0].value(), "GET");
    assert_eq!(list[0].weight(), Some(&"0.50".to_string()));
    assert_eq!(list[1].weight(), None);
    assert_eq!(list[2].clone(), list[2]);
    let made = server_rs::http::header::allow(list);
    assert_eq!(made.key_str(), Some("Allow"));
    assert_eq!(made.value().to_string().as_str(), "GET;q=0.50,HEAD,POST;q=0.1");
    assert_eq!(server_rs::http::header::allow(Vec::new()).value().to_string().as_str(), "");
    let one = server_rs::http::header::allow(vec![WeightedValue::new("x".to_string(), None)]);
    assert_eq!(one.value().to_string().as_str(), "");
    let wide = server_rs::http::header::allow(vec![WeightedValue::new("a\u{00e9}".to_string(), None)]);
    assert_eq!(wide.value().to_string().as_str(), "a");
}

#[test]
fn finish_takes_version_and_head_mark_from_the_request() {
    let http = Http1::new(64, Hi);
    let request = http
        .init_request("peer", &strings(&["HEAD / HTTP/1.1"]), ())
        .unwrap();
    let mut response = HttpResponse::new(HttpVersion::Http10);
    response.write("body".as_bytes());
    assert_eq!(
        text(&finish(response, &request, 60)),
        "HTTP/1.1 200 OK\r\nContent-Length: 4\r\n\
         Date: Thu, 01 Jan 1970 00:01:00 GMT\r\n\r\n"
    );
    let response = HttpResponse::from_request(&request);
    assert_eq!(
        text(&response.flush(60)),
        "HTTP/1.1 200 OK\r\nContent-Length: 0\r\n\
         Date: Thu, 01 Jan 1970 00:01:00 GMT\r\n\r\n"
    );
    assert_eq!(http.name(), "http");
}
