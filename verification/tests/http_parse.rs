use server_rs::http::http::{parse_url, put_data_to_hashmap, HeaderReader, Http1};
use server_rs::http::handler::Handler;
use server_rs::http::multimap::MultiMap;
use server_rs::http::request::HttpRequest;
use server_rs::http::response::HttpResponse;
use server_rs::http::value::{Error, HttpMethod, HttpVersion};

struct Silent;

impl<R> Handler<R> for Silent {
    fn handle(&self, _req: &mut HttpRequest<R>, _res: &mut HttpResponse) {}
}

fn strings(items: &[&str]) -> Vec<String> {
    items.iter().map(|s| s.to_string()).collect()
}

#[test]
fn lib_test_parse_url() {
    let (path, param) = parse_url("/test?asdf=asdf&asdf=fdsa");

    assert_eq!(path, "/test");
    assert_eq!(param.get("asdf"), Some(&strings(&["asdf", "fdsa"])));
}

#[test]
fn lib_test_no_param() {
    let (path, param) = parse_url("/test");

    assert_eq!(path, "/test");
    assert!(param.is_empty());
}

#[test]
fn http_test_parse_url() {
    let (path, param) = parse_url("/test?asdf=asdf&asdf=fdsa");

    assert_eq!(path, "/test");
    assert_eq!(param.get("asdf"), Some(&strings(&["asdf", "fdsa"])));
}

#[test]
fn http_test_no_param() {
    let (path, param) = parse_url("/test");

    assert_eq!(path, "/test");
    assert!(param.is_empty());
}

#[test]
fn query_round_trip() {
    let (path, param) = parse_url("/p?k=v");
    assert_eq!(path, "/p");
    assert_eq!(param.len(), 1);
    assert_eq!(param.key_at(0), Some("k"));
    assert_eq!(param.get("k"), Some(&strings(&["v"])));
}

#[test]
fn key_only_param_is_true() {
    let (path, param) = parse_url("/p?k");
    assert_eq!(path, "/p");
    assert_eq!(param.get("k"), Some(&strings(&["true"])));
}

#[test]
fn empty_query_gives_no_params() {
    let (path, param) = parse_url("/p?");
    assert_eq!(path, "/p");
    assert!(param.is_empty());
}

#[test]
fn empty_segments_are_dropped() {
    let (_, param) = parse_url("/p?&&a=1&&b&");
    assert_eq!(param.len(), 2);
    assert_eq!(param.get("a"), Some(&strings(&["1"])));
    assert_eq!(param.get("b"), Some(&strings(&["true"])));
}

#[test]
fn query_is_all_that_follows_the_first_question_mark() {
    let (path, param) = parse_url("/p?a=1?b=2");
    assert_eq!(path, "/p");
    assert_eq!(param.get("a"), Some(&strings(&["1?b=2"])));
}

#[test]
fn value_keeps_later_equal_signs() {
    let (_, param) = parse_url("/p?a=b=c&=x");
    assert_eq!(param.get("a"), Some(&strings(&["b=c"])));
    assert_eq!(param.get(""), Some(&strings(&["x"])));
}

#[test]
fn repeated_params_keep_their_order() {
    let (_, param) = parse_url("/p?x=3&y=9&x=1&x=2");
    assert_eq!(param.key_at(0), Some("x"));
    assert_eq!(param.key_at(1), Some("y"));
    assert_eq!(param.key_at(2), None);
    assert_eq!(param.values_at(0), Some(&strings(&["3", "1", "2"])));
    assert_eq!(param.get("y"), Some(&strings(&["9"])));
    assert_eq!(param.get("z"), None);
    assert!(param.contains_key("x"));
    assert!(!param.contains_key("z"));
}

#[test]
fn put_data_adds_a_value() {
    let mut map = MultiMap::new();
    put_data_to_hashmap(&mut map, "a".to_string(), "1".to_string());
    put_data_to_hashmap(&mut map, "a".to_string(), "2".to_string());
    assert_eq!(map.get("a"), Some(&strings(&["1", "2"])));
    map.set("a".to_string(), "3".to_string());
    assert_eq!(map.get("a"), Some(&strings(&["3"])));
    assert_eq!(map.len(), 1);
}

#[test]
fn request_line_with_params() {
    let server = Http1::new(1024, Silent);
    let lines = strings(&["GET /test?asdf=asdf&asdf=fdsa HTTP/1.0", "Host: x"]);
    let request = server.init_request("127.0.0.1:4000", &lines, ()).unwrap();
    assert_eq!(request.method(), HttpMethod::GET);
    assert_eq!(request.path(), "/test");
    assert_eq!(request.param().get("asdf"), Some(&strings(&["asdf", "fdsa"])));
    assert_eq!(request.version(), HttpVersion::Http10);
    assert_eq!(request.header().get("Host"), Some(&strings(&["x"])));
    assert_eq!(request.remote_addr(), "127.0.0.1:4000");
}

#[test]
fn header_line_without_colon_is_dropped() {
    let server = Http1::new(1024, Silent);
    let lines = strings(&[
        "GET / HTTP/1.0",
        "this line has no separator",
        "Host: example.org",
        "Accept:  text/plain  ",
        "  X-Padded  :v",
    ]);
    let request = server.init_request("peer", &lines, ()).unwrap();
    let header = request.header();
    assert_eq!(header.len(), 3);
    assert_eq!(header.get("Host"), Some(&strings(&["example.org"])));
    assert_eq!(header.get("Accept"), Some(&strings(&["text/plain"])));
    assert_eq!(header.get("X-Padded"), Some(&strings(&["v"])));
    assert_eq!(header.get("this line has no separator"), None);
}

#[test]
fn repeated_headers_keep_their_order() {
    let server = Http1::new(1024, Silent);
    let lines = strings(&["GET / HTTP/1.0", "A: 1", "B: 2", "A: 3", "a: 4", "A:"]);
    let header = server.init_header(&lines);
    assert_eq!(header.get("A"), Some(&strings(&["1", "3", ""])));
    assert_eq!(header.get("a"), Some(&strings(&["4"])));
    assert_eq!(header.key_at(0), Some("A"));
    assert_eq!(header.key_at(1), Some("B"));
    assert_eq!(header.key_at(2), Some("a"));
}

#[test]
fn header_value_keeps_later_colons() {
    let server = Http1::new(1024, Silent);
    let lines = strings(&["GET / HTTP/1.0", "Host: example.org:8080"]);
    let header = server.init_header(&lines);
    assert_eq!(header.get("Host"), Some(&strings(&["example.org:8080"])));
}

#[test]
fn trimming_goes_by_unicode_whitespace() {
    let server = Http1::new(1024, Silent);
    let lines = strings(&["GET / HTTP/1.0", "\u{2003}Key\u{00a0}:\u{3000}value\t"]);
    let header = server.init_header(&lines);
    assert_eq!(header.get("Key"), Some(&strings(&["value"])));
}

#[test]
fn no_lines_make_no_headers() {
    let server = Http1::new(1024, Silent);
    assert!(server.init_header(&Vec::new()).is_empty());
    assert!(server.init_header(&strings(&["GET / HTTP/1.0"])).is_empty());
}

#[test]
fn version_token_is_read_without_regard_to_case() {
    let server = Http1::new(1024, Silent);
    let request = server.init_request("peer", &strings(&["GET / http/1.1"]), ()).unwrap();
    assert_eq!(request.version(), HttpVersion::Http11);
    let request = server.init_request("peer", &strings(&["GET / HTTP/2"]), ()).unwrap();
    assert_eq!(request.version(), HttpVersion::Http10);
}

#[test]
fn method_token_is_read_without_regard_to_case() {
    let server = Http1::new(1024, Silent);
    let request = server.init_request("peer", &strings(&["head / HTTP/1.0"]), ()).unwrap();
    assert_eq!(request.method(), HttpMethod::HEAD);
    let request = server.init_request("peer", &strings(&["Purge / HTTP/1.0"]), ()).unwrap();
    assert_eq!(request.method(), HttpMethod::UNDEFINED("Purge".to_string()));
}

#[test]
fn request_line_needs_three_tokens() {
    let server = Http1::new(1024, Silent);
    assert_eq!(
        server.init_request("peer", &strings(&["GET /"]), ()).err(),
        Some(Error::ParseFail("invalid request line: GET /".to_string()))
    );
    assert_eq!(
        server.init_request("peer", &strings(&["GET"]), ()).err(),
        Some(Error::ParseFail("invalid request line: GET".to_string()))
    );
    assert_eq!(
        server.init_request("peer", &Vec::new(), ()).err(),
        Some(Error::ParseFail("invalid request line: ".to_string()))
    );
}

#[test]
fn tokens_are_split_on_single_spaces() {
    let server = Http1::new(1024, Silent);
    let request = server.init_request("peer", &strings(&["GET  / HTTP/1.1"]), ()).unwrap();
    assert_eq!(request.path(), "");
    assert_eq!(request.version(), HttpVersion::Http10);
}

#[test]
fn reader_collects_lines_up_to_the_blank_line() {
    let mut reader = HeaderReader::new("peer".to_string(), 1024);
    assert_eq!(reader.feed("GET / HTTP/1.0\r\n"), Ok(false));
    assert_eq!(reader.feed("  Host: x\r\n"), Ok(false));
    assert_eq!(reader.feed("\r\n"), Ok(true));
    assert_eq!(
        reader.finish(),
        Ok((29, strings(&["GET / HTTP/1.0", "Host: x"])))
    );
}

#[test]
fn reader_counts_bytes_not_characters() {
    let mut reader = HeaderReader::new("peer".to_string(), 1024);
    assert_eq!(reader.feed("X: \u{00e9}\u{4e2d}\r\n"), Ok(false));
    assert_eq!(reader.feed(""), Ok(true));
    assert_eq!(reader.finish(), Ok((10, strings(&["X: \u{00e9}\u{4e2d}"]))));
}

#[test]
fn reader_takes_a_block_of_exactly_the_limit() {
    let mut reader = HeaderReader::new("peer".to_string(), 18);
    assert_eq!(reader.feed("GET / HTTP/1.0\r\n"), Ok(false));
    assert_eq!(reader.feed("\r\n"), Ok(true));
    assert_eq!(reader.finish(), Ok((18, strings(&["GET / HTTP/1.0"]))));
}

#[test]
fn reader_refuses_a_block_over_the_limit() {
    let mut reader = HeaderReader::new("10.0.0.7:5555".to_string(), 17);
    assert_eq!(reader.feed("GET / HTTP/1.0\r\n"), Ok(false));
    assert_eq!(
        reader.feed("\r\n"),
        Err(Error::BadRequest("10.0.0.7:5555".to_string(), "header size limit exceed"))
    );
}

#[test]
fn reader_refuses_a_line_without_line_end() {
    let mut reader = HeaderReader::new("peer".to_string(), 1024);
    assert_eq!(
        reader.feed(" GET / HTTP/1.0\n"),
        Err(Error::ParseFail("Invalid heaader GET / HTTP/1.0\n".to_string()))
    );
    assert_eq!(reader.feed("x"), Err(Error::ParseFail("Invalid heaader x".to_string())));
}

#[test]
fn reader_reports_an_empty_stream() {
    let mut reader = HeaderReader::new("peer".to_string(), 1024);
    assert_eq!(reader.feed(""), Ok(true));
    assert_eq!(reader.finish(), Err(Error::ReadFail("EOF".to_string())));
}

#[test]
fn whitespace_line_ends_the_block() {
    let server = Http1::new(1024, Silent);
    let read = server.read_header(
        "peer",
        &strings(&["GET / HTTP/1.0\r\n", " \t \r\n", "Ignored: yes\r\n"]),
    );
    assert_eq!(read, Ok((21, strings(&["GET / HTTP/1.0"]))));
}

#[test]
fn input_that_runs_out_ends_the_block() {
    let server = Http1::new(1024, Silent);
    let read = server.read_header("peer", &strings(&["GET / HTTP/1.0\r\n", "A: b\r\n"]));
    assert_eq!(read, Ok((22, strings(&["GET / HTTP/1.0", "A: b"]))));
    assert_eq!(
        server.read_header("peer", &Vec::new()),
        Err(Error::ReadFail("EOF".to_string()))
    );
}

#[test]
fn error_texts() {
    assert_eq!(
        Error::ParseFail("m".to_string()).to_string(),
        "HttpError: [parse fail] m"
    );
    assert_eq!(Error::ReadFail("EOF".to_string()).to_string(), "HttpError: [read fail] EOF");
    assert_eq!(Error::WriteFail("w".to_string()).to_string(), "HttpError: [write fail] w");
    assert_eq!(
        Error::BadRequest("1.2.3.4:5".to_string(), "header size limit exceed").to_string(),
        "HttpError: [bad request] 1.2.3.4:5 header size limit exceed"
    );
    assert_eq!(Error::IoFail("broken pipe".to_string()).to_string(), "HttpError: [io fail] broken pipe");
    assert_eq!(Error::IoFail("x".to_string()).clone(), Error::IoFail("x".to_string()));
}
