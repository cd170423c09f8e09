use crate::http::handler::Handler;
use crate::http::header::{
    content_type, from_str_key, server, HeaderValue, HeaderValueTime, HttpHeaderValue,
};
use crate::http::multimap::{
    collect, lemma_collect_empty, lemma_collect_lookup, lemma_collect_push, lookup, occurs, replace,
    values_of, Entries, MultiMap,
};
use crate::http::request::{HttpRequest, Request};
use crate::http::response::{HeaderSetter, HttpResponse, Response};
use crate::http::value::{Error, Failure, HttpMethod, HttpResponseCode, HttpVersion};
use crate::text::{
    chars_of, lemma_split_once_joined, lemma_split_without, split, split_once, split_once_str,
    split_str, substring, trim, trim_bounds, trim_start,
};
use crate::util::date::date_text;
use vstd::prelude::*;
use vstd::utf8::encode_utf8;

verus! {

/// The time in milliseconds that a read or a write on a connection may take
/// while its header block is read.
pub const HEADER_TIMEOUT_MS: u64 = 100;

/// The number of bytes that `s` takes on the wire.
pub open spec fn byte_len(s: Seq<char>) -> nat {
    encode_utf8(s).len()
}

/// Whether `s` ends in a carriage return and a line feed.
pub open spec fn ends_with_crlf(s: Seq<char>) -> bool {
    s.len() >= 2 && s[s.len() - 2] == '\r' && s[s.len() - 1] == '\n'
}

/// The reading of a header block, as a mathematical value: the peer, the limit
/// on the bytes of the block, the bytes read so far, and the lines so far,
/// without their line ends.
pub struct Reading {
    pub remote: Seq<char>,
    pub max: nat,
    pub readed: nat,
    pub lines: Seq<Seq<char>>,
}

/// What one more line does to the reading of a header block.
pub enum Fed {
    /// The line was a header line; the block goes on.
    More(Reading),
    /// The line ended the block.
    Complete(Reading),
    /// The line cannot be taken.
    Failed(Failure),
}

impl Reading {
    /// The reading before the first line.
    pub open spec fn start(remote: Seq<char>, max: nat) -> Reading {
        Reading { remote, max, readed: 0, lines: Seq::empty() }
    }

    /// What the line `line`, as it was read with its line end, does. Its bytes
    /// count towards the limit, and a block over the limit is refused. Of the
    /// line only what follows its leading whitespace counts: nothing there
    /// ends the block; anything else must end in a carriage return and a line
    /// feed, and is a line of the header without them.
    pub open spec fn feed(self, line: Seq<char>) -> Fed {
        let readed = self.readed + byte_len(line);
        let rest = trim_start(line);
        if readed > self.max {
            Fed::Failed(Failure::BadRequest(self.remote, "header size limit exceed"@))
        } else if rest.len() == 0 {
            Fed::Complete(Reading { readed, ..self })
        } else if !ends_with_crlf(rest) {
            Fed::Failed(Failure::ParseFail("Invalid heaader "@ + rest))
        } else {
            Fed::More(Reading { readed, lines: self.lines.push(rest.take(rest.len() - 2)), ..self })
        }
    }

    /// What a complete reading gives: the bytes read and the lines, unless
    /// nothing at all was read.
    pub open spec fn outcome(self) -> Result<(nat, Seq<Seq<char>>), Failure> {
        if self.readed == 0 {
            Err(Failure::ReadFail("EOF"@))
        } else {
            Ok((self.readed, self.lines))
        }
    }

    /// What the reading gives on the lines `input`, taken one by one up to the
    /// line that ends the block; where the input runs out before that, the
    /// block ends there, as at the end of a stream.
    pub open spec fn read(self, input: Seq<Seq<char>>) -> Result<(nat, Seq<Seq<char>>), Failure>
        decreases input.len(),
    {
        if input.len() == 0 {
            match self.feed(Seq::empty()) {
                Fed::Failed(f) => Err(f),
                Fed::Complete(r) => r.outcome(),
                Fed::More(r) => r.outcome(),
            }
        } else {
            match self.feed(input[0]) {
                Fed::Failed(f) => Err(f),
                Fed::Complete(r) => r.outcome(),
                Fed::More(r) => r.read(input.drop_first()),
            }
        }
    }
}

/// The header of a request while it is read line by line.
pub struct HeaderReader {
    remote: String,
    max_header_length: usize,
    readed: usize,
    lines: Vec<String>,
}

impl View for HeaderReader {
    type V = Reading;

    closed spec fn view(&self) -> Reading {
        Reading {
            remote: self.remote@,
            max: self.max_header_length as nat,
            readed: self.readed as nat,
            lines: self.lines.deep_view(),
        }
    }
}

/// The view of what a header read gives.
pub open spec fn header_view(r: Result<(usize, Vec<String>), Error>) -> Result<
    (nat, Seq<Seq<char>>),
    Failure,
> {
    match r {
        Ok((readed, lines)) => Ok((readed as nat, lines.deep_view())),
        Err(e) => Err(e@),
    }
}

impl HeaderReader {
    pub fn new(remote: String, max_header_length: usize) -> (r: Self)
        ensures
            r@ == Reading::start(remote@, max_header_length as nat),
    {
        let r = HeaderReader { remote, max_header_length, readed: 0, lines: Vec::new() };
        assert(r@.lines =~= Seq::<Seq<char>>::empty());
        r
    }

    /// Takes the next line as it was read, with its line end; an empty `line`
    /// stands for the end of the stream. Says whether the block is complete.
    pub fn feed(&mut self, line: &str) -> (r: Result<bool, Error>)
        ensures
            match old(self)@.feed(line@) {
                Fed::More(next) => r == Ok::<bool, Error>(false) && final(self)@ == next,
                Fed::Complete(next) => r == Ok::<bool, Error>(true) && final(self)@ == next,
                Fed::Failed(f) => r matches Err(e) && e@ == f && final(self)@ == old(self)@,
            },
    {
        let bytes = line.as_bytes();
        let limit = self.max_header_length;
        let readed = match self.readed.checked_add(bytes.len()) {
            Some(n) => n,
            None => {
                return Err(Error::BadRequest(self.remote.clone(), "header size limit exceed"));
            },
        };
        if readed > limit {
            return Err(Error::BadRequest(self.remote.clone(), "header size limit exceed"));
        }
        let v = chars_of(line);
        let n = v.len();
        let (a, _) = trim_bounds(&v, 0, n);
        proof {
            assert(v@.subrange(0, n as int) == line@);
            assert(v@.subrange(a as int, n as int).len() == n - a);
        }
        if a == n {
            self.readed = readed;
            return Ok(true);
        }
        let ghost rest = trim_start(line@);
        if n - a < 2 || v[n - 2] != '\r' || v[n - 1] != '\n' {
            let mut message = String::new();
            message.append("Invalid heaader ");
            message.append(substring(line, a, n).as_str());
            proof {
                assert(rest[rest.len() - 1] == v@[n - 1]);
                if n - a >= 2 {
                    assert(rest[rest.len() - 2] == v@[n - 2]);
                }
                assert(message@ =~= "Invalid heaader "@ + rest);
            }
            return Err(Error::ParseFail(message));
        }
        let ghost before = self.lines.deep_view();
        let text = substring(line, a, n - 2);
        proof {
            assert(rest[rest.len() - 1] == v@[n - 1]);
            assert(rest[rest.len() - 2] == v@[n - 2]);
            assert(text@ =~= rest.take(rest.len() - 2));
        }
        self.lines.push(text);
        self.readed = readed;
        assert(self.lines.deep_view() =~= before.push(text@));
        Ok(false)
    }

    /// The bytes read and the lines of the block that was read.
    pub fn finish(self) -> (r: Result<(usize, Vec<String>), Error>)
        ensures
            header_view(r) == self@.outcome(),
    {
        if self.readed == 0 {
            Err(Error::ReadFail("EOF".to_owned()))
        } else {
            Ok((self.readed, self.lines))
        }
    }
}

/// The name and the value of a header line: what stands before and after its
/// first colon, without the whitespace around either. A line without a colon
/// gives nothing.
pub open spec fn header_pair(line: Seq<char>) -> Option<(Seq<char>, Seq<char>)> {
    match split_once(line, ':') {
        Some((name, value)) => Some((trim(name), trim(value))),
        None => None,
    }
}

pub open spec fn header_pair_of() -> spec_fn(Seq<char>) -> Option<(Seq<char>, Seq<char>)> {
    |line: Seq<char>| header_pair(line)
}

/// The headers of a block of lines, of which the first is the request line.
pub open spec fn headers_of(lines: Seq<Seq<char>>) -> Entries {
    if lines.len() == 0 {
        Seq::empty()
    } else {
        collect(lines.skip(1).filter_map(header_pair_of()))
    }
}

/// The name and the value of one segment of a query: what stands before and
/// after its first `=`, or the segment and `true` where it has none. An empty
/// segment gives nothing.
pub open spec fn param_pair(segment: Seq<char>) -> Option<(Seq<char>, Seq<char>)> {
    if segment.len() == 0 {
        None
    } else {
        match split_once(segment, '=') {
            Some((name, value)) => Some((name, value)),
            None => Some((segment, "true"@)),
        }
    }
}

pub open spec fn param_pair_of() -> spec_fn(Seq<char>) -> Option<(Seq<char>, Seq<char>)> {
    |segment: Seq<char>| param_pair(segment)
}

/// The parameters of a query: its segments between `&`, each as a pair.
pub open spec fn params_of(query: Seq<char>) -> Entries {
    collect(split(query, '&').filter_map(param_pair_of()))
}

/// The path of a request target: what stands before its first `?`.
pub open spec fn url_path(target: Seq<char>) -> Seq<char> {
    match split_once(target, '?') {
        Some((path, _)) => path,
        None => target,
    }
}

/// The parameters of a request target: those of what follows its first `?`.
pub open spec fn url_params(target: Seq<char>) -> Entries {
    match split_once(target, '?') {
        Some((_, query)) => params_of(query),
        None => Seq::empty(),
    }
}

/// The request that a block of lines makes, sent by `remote`. The first line
/// must hold three tokens with single spaces between them: the method, the
/// target and the version; a version that is not known counts as HTTP/1.0.
pub open spec fn request_of(remote: Seq<char>, lines: Seq<Seq<char>>) -> Result<Request, Failure> {
    if lines.len() == 0 {
        Err(Failure::ParseFail("invalid request line: "@))
    } else {
        let tokens = split(lines[0], ' ');
        if tokens.len() < 3 {
            Err(Failure::ParseFail("invalid request line: "@ + lines[0]))
        } else {
            Ok(
                Request {
                    remote_addr: remote,
                    method: HttpMethod::spec_parse(tokens[0]),
                    version: match HttpVersion::spec_parse(tokens[2]) {
                        Some(v) => v,
                        None => HttpVersion::Http10,
                    },
                    path: url_path(tokens[1]),
                    header: headers_of(lines),
                    param: url_params(tokens[1]),
                },
            )
        }
    }
}

/// Adds `value` to the values of `key` in `map`.
pub fn put_data_to_hashmap(map: &mut MultiMap, key: String, value: String)
    ensures
        final(map)@ == crate::http::multimap::put(old(map)@, key@, value@),
{
    map.append(key, value);
}

/// Takes a request target apart into its path and its parameters.
pub fn parse_url(query: &str) -> (r: (String, MultiMap))
    ensures
        r.0@ == url_path(query@),
        r.1@ == url_params(query@),
{
    match split_once_str(query, '?') {
        None => (query.to_owned(), MultiMap::new()),
        Some((path, rest)) => {
            let segments = split_str(rest.as_str(), '&');
            let ghost all = segments.deep_view();
            let mut map = MultiMap::new();
            let mut i: usize = 0;
            proof {
                lemma_collect_empty();
                assert(all.take(0).filter_map(param_pair_of()) =~= Seq::empty());
            }
            while i < segments.len()
                invariant
                    i <= segments.len(),
                    all == segments.deep_view(),
                    map@ == collect(all.take(i as int).filter_map(param_pair_of())),
                decreases segments.len() - i,
            {
                let segment = segments[i].as_str();
                proof {
                    all.lemma_filter_map_take_succ(param_pair_of(), i as int);
                    assert(all[i as int] == segment@);
                }
                let ghost pairs = all.take(i as int).filter_map(param_pair_of());
                if !segment.is_empty() {
                    match split_once_str(segment, '=') {
                        Some((name, value)) => {
                            proof {
                                lemma_collect_push(pairs, name@, value@);
                                assert(pairs + seq![(name@, value@)] =~= pairs.push(
                                    (name@, value@),
                                ));
                            }
                            put_data_to_hashmap(&mut map, name, value);
                        },
                        None => {
                            proof {
                                lemma_collect_push(pairs, segment@, "true"@);
                                assert(pairs + seq![(segment@, "true"@)] =~= pairs.push(
                                    (segment@, "true"@),
                                ));
                            }
                            put_data_to_hashmap(&mut map, segment.to_owned(), "true".to_owned());
                        },
                    }
                } else {
                    assert(pairs + Seq::<(Seq<char>, Seq<char>)>::empty() =~= pairs);
                }
                i = i + 1;
            }
            assert(all.take(i as int) == all);
            (path, map)
        },
    }
}

/// Serves HTTP/1.0 requests with a handler.
pub struct Http1<T> {
    max_header_length: usize,
    handler: T,
}

impl<T> Http1<T> {
    pub closed spec fn spec_max_header_length(&self) -> nat {
        self.max_header_length as nat
    }

    pub closed spec fn spec_handler(&self) -> T {
        self.handler
    }

    pub fn new(max_header_length: usize, handler: T) -> (r: Self)
        ensures
            r.spec_max_header_length() == max_header_length,
            r.spec_handler() == handler,
    {
        Http1 { max_header_length, handler }
    }

    pub fn name(&self) -> (r: String)
        ensures
            r@ == "http"@,
    {
        "http".to_owned()
    }

    /// A reader for the header block of a request from `remote`, with the
    /// limit of this server.
    pub fn reader(&self, remote: String) -> (r: HeaderReader)
        ensures
            r@ == Reading::start(remote@, self.spec_max_header_length()),
    {
        HeaderReader::new(remote, self.max_header_length)
    }

    /// Reads a header block from lines that are all there, each as it was
    /// read with its line end.
    pub fn read_header(&self, remote: &str, input: &Vec<String>) -> (r: Result<
        (usize, Vec<String>),
        Error,
    >)
        ensures
            header_view(r) == Reading::start(remote@, self.spec_max_header_length()).read(
                input.deep_view(),
            ),
    {
        let mut reader = self.reader(remote.to_owned());
        let ghost all = input.deep_view();
        let ghost first = reader@;
        let mut i: usize = 0;
        assert(all.skip(0) =~= all);
        while i < input.len()
            invariant
                i <= input.len(),
                all == input.deep_view(),
                first == Reading::start(remote@, self.spec_max_header_length()),
                first.read(all) == reader@.read(all.skip(i as int)),
            decreases input.len() - i,
        {
            proof {
                assert(all.skip(i as int).len() > 0);
                assert(all.skip(i as int)[0] == input[i as int]@);
                assert(all.skip(i as int).drop_first() =~= all.skip(i + 1));
            }
            match reader.feed(input[i].as_str()) {
                Err(e) => {
                    return Err(e);
                },
                Ok(true) => {
                    return reader.finish();
                },
                Ok(false) => {},
            }
            i = i + 1;
        }
        proof {
            reveal_strlit("");
            assert(all.skip(i as int).len() == 0);
            assert(""@ =~= Seq::<char>::empty());
        }
        match reader.feed("") {
            Err(e) => Err(e),
            Ok(_) => reader.finish(),
        }
    }

    /// The headers of a block of lines, of which the first is the request line.
    pub fn init_header(&self, reader: &Vec<String>) -> (r: MultiMap)
        ensures
            r@ == headers_of(reader.deep_view()),
    {
        let ghost all = reader.deep_view();
        let ghost rest = all.skip(1);
        let mut header_map = MultiMap::new();
        let mut i: usize = 1;
        proof {
            lemma_collect_empty();
            assert(rest.take(0).filter_map(header_pair_of()) =~= Seq::empty());
        }
        if reader.len() == 0 {
            return header_map;
        }
        while i < reader.len()
            invariant
                1 <= i <= reader.len(),
                all == reader.deep_view(),
                rest == all.skip(1),
                header_map@ == collect(rest.take(i - 1).filter_map(header_pair_of())),
            decreases reader.len() - i,
        {
            let buf = reader[i].as_str();
            let ghost pairs = rest.take(i - 1).filter_map(header_pair_of());
            proof {
                rest.lemma_filter_map_take_succ(header_pair_of(), i - 1);
                assert(rest[i - 1] == buf@);
            }
            let v = chars_of(buf);
            assert(v@.skip(0) == v@);
            match crate::text::find_from(&v, ':', 0) {
                None => {
                    assert(pairs + Seq::<(Seq<char>, Seq<char>)>::empty() =~= pairs);
                },
                Some(at) => {
                    let (a, b) = trim_bounds(&v, 0, at);
                    let (c, d) = trim_bounds(&v, at + 1, v.len());
                    let key = substring(buf, a, b);
                    let value = substring(buf, c, d);
                    proof {
                        assert(v@.subrange(0, at as int) == buf@.take(at as int));
                        assert(v@.subrange(at + 1, v.len() as int) == buf@.skip(at + 1));
                        lemma_collect_push(pairs, key@, value@);
                        assert(pairs + seq![(key@, value@)] =~= pairs.push((key@, value@)));
                    }
                    put_data_to_hashmap(&mut header_map, key, value);
                },
            }
            i = i + 1;
        }
        assert(rest.take(i - 1) == rest);
        header_map
    }

    /// Makes the request of a block of lines, of which the first is the
    /// request line, sent by `remote` over `reader`.
    pub fn init_request<R>(&self, remote: &str, header: &Vec<String>, reader: R) -> (r: Result<
        HttpRequest<R>,
        Error,
    >)
        ensures
            match request_of(remote@, header.deep_view()) {
                Ok(request) => r matches Ok(made) && made@ == request && made.spec_reader()
                    == reader,
                Err(f) => r matches Err(e) && e@ == f,
            },
    {
        if header.len() == 0 {
            return Err(Error::ParseFail("invalid request line: ".to_owned()));
        }
        let buf = header[0].as_str();
        assert(header.deep_view()[0] == buf@);
        let req_line = split_str(buf, ' ');
        if req_line.len() < 3 {
            let mut message = String::new();
            message.append("invalid request line: ");
            message.append(buf);
            assert(message@ =~= "invalid request line: "@ + buf@);
            return Err(Error::ParseFail(message));
        }
        let ghost tokens = req_line.deep_view();
        let method = req_line[0].clone();
        let path_query = req_line[1].as_str();
        let ver_str = req_line[2].as_str();
        proof {
            assert(tokens[0] == method@);
            assert(tokens[1] == path_query@);
            assert(tokens[2] == ver_str@);
        }
        let version = match HttpVersion::parse(ver_str) {
            Some(v) => v,
            None => HttpVersion::default(),
        };
        let (path, param) = parse_url(path_query);
        Ok(
            HttpRequest::new(
                remote.to_owned(),
                method,
                version,
                path,
                self.init_header(header),
                param,
                reader,
            ),
        )
    }
}

/// The response to a request that could not be read or parsed, before it is
/// sent at the moment `now`: status 400, the headers `Server`, `Content-Type`
/// and `Date`, and a body that says so.
pub open spec fn invalid_request_response(now: nat) -> Response {
    Response {
        version: HttpVersion::Http10,
        code: HttpResponseCode::BadRequest,
        header: replace(
            replace(replace(Seq::empty(), "Server"@, "server_rs"@), "Content-Type"@, "text/plain"@),
            "Date"@,
            date_text(now),
        ),
        body: seq![encode_utf8("Invalid request"@)],
        header_only: false,
    }
}

/// The bytes that answer a request that could not be read or parsed.
pub open spec fn invalid_request_wire(now: nat) -> Seq<u8> {
    invalid_request_response(now).stamped(now).wire()
}

/// The bytes that answer `request` at the moment `now`, where the handler
/// left the response `response`: the version and the mark of a `HEAD` request
/// are those of the request, whatever the handler did.
pub open spec fn answer_wire(request: Request, response: Response, now: nat) -> Seq<u8> {
    (Response {
        version: request.version,
        header_only: request.method is Head,
        ..response
    }).stamped(now).wire()
}

/// What a connection comes to: the bytes to send, and the result to report
/// once they are sent.
pub struct Reply {
    pub bytes: Vec<u8>,
    pub result: Result<(usize, usize), Error>,
}

/// What is reported for a connection whose reply was sent, or could not be
/// sent for the reason `write_error`: a served request whose reply could not
/// be written is an `IoFail`; a request that was refused stays refused for its
/// own reason.
pub open spec fn concluded(
    result: Result<(usize, usize), Error>,
    write_error: Option<Seq<char>>,
) -> Result<(usize, usize), Failure> {
    match result {
        Ok(counts) => match write_error {
            Some(message) => Err(Failure::IoFail(message)),
            None => Ok(counts),
        },
        Err(e) => Err(e@),
    }
}

impl Reply {
    /// The reply refuses the request for the reason `f`: the bytes are those of
    /// the answer with status 400, and the result is the failure `f`.
    pub open spec fn refuses(&self, f: Failure, now: nat) -> bool {
        &&& self.bytes@ == invalid_request_wire(now)
        &&& self.result matches Err(e)
        &&& e@ == f
    }

    /// The reply serves `request`, whose header block took `readed` bytes: the
    /// bytes are those of the response that the handler left, and the result
    /// is the bytes read and 0.
    pub open spec fn serves(&self, request: Request, readed: nat, now: nat) -> bool {
        &&& self.result == Ok::<(usize, usize), Error>((readed as usize, 0))
        &&& exists|response: Response|
            self.bytes@ == #[trigger] answer_wire(request, response, now)
    }

    /// The reply is the one owed to the peer `remote` at the moment `now`,
    /// where reading its header block gave `header`. A block that could not be
    /// read, or that makes no request, is refused; any other is served.
    pub open spec fn replies_to(
        &self,
        remote: Seq<char>,
        header: Result<(nat, Seq<Seq<char>>), Failure>,
        now: nat,
    ) -> bool {
        match header {
            Err(f) => self.refuses(f, now),
            Ok((readed, lines)) => match request_of(remote, lines) {
                Err(f) => self.refuses(f, now),
                Ok(request) => self.serves(request, readed, now),
            },
        }
    }

    /// The result to report, given what came of sending the bytes.
    pub fn conclude(self, write_error: Option<String>) -> (r: Result<(usize, usize), Error>)
        ensures
            match concluded(
                self.result,
                match write_error {
                    Some(m) => Some(m@),
                    None => None,
                },
            ) {
                Ok(counts) => r == Ok::<(usize, usize), Error>(counts),
                Err(f) => r matches Err(e) && e@ == f,
            },
    {
        match self.result {
            Ok(counts) => match write_error {
                Some(message) => Err(Error::IoFail(message)),
                None => Ok(counts),
            },
            Err(e) => Err(e),
        }
    }
}

/// The bytes that answer a request that could not be read or parsed, at the
/// moment `now`, in seconds since the start of 1970.
pub fn invalid_request(now: u64) -> (r: Vec<u8>)
    ensures
        r@ == invalid_request_wire(now as nat),
{
    let mut response = HttpResponse::new(HttpVersion::default());
    response.set_response_code(HttpResponseCode::BadRequest);
    response.set_header(&server(HttpHeaderValue::Str("server_rs")));
    response.set_header(&content_type(HttpHeaderValue::Str("text/plain")));
    let time = HeaderValueTime::from_epoch_secs(now);
    proof {
        crate::util::date::lemma_date_text(time.time@, now as nat);
    }
    response.set_header(&from_str_key("Date", HeaderValue::Time(time)));
    let _ = response.write("Invalid request".as_bytes());
    proof {
        assert(response@.body =~= seq![encode_utf8("Invalid request"@)]);
        assert(response@ == invalid_request_response(now as nat));
    }
    response.flush(now)
}

/// Ends the response that a handler left for `request`, at the moment `now`,
/// and gives the bytes to send.
pub fn finish<R>(response: HttpResponse, request: &HttpRequest<R>, now: u64) -> (r: Vec<u8>)
    ensures
        r@ == answer_wire(request@, response@, now as nat),
{
    let mut response = response;
    let header_only = match request.method() {
        HttpMethod::HEAD => true,
        _ => false,
    };
    response.seal(request.version(), header_only);
    response.flush(now)
}

impl<T> Http1<T> {
    /// Answers what the reading of a header block from `reader` gave, for the
    /// peer `remote` at the moment `now`. A block that could not be read, or
    /// that makes no request, is answered with status 400 and reported with
    /// its own error; the handler is not asked. Else the handler is given the
    /// request, with the reader where the block left it, and the response that
    /// it leaves is sent.
    pub fn respond<R>(
        &self,
        remote: &str,
        header: Result<(usize, Vec<String>), Error>,
        reader: R,
        now: u64,
    ) -> (r: Reply) where T: Handler<R>
        ensures
            r.replies_to(remote@, header_view(header), now as nat),
    {
        let (header_readed, headers) = match header {
            Ok(read) => read,
            Err(err) => {
                return Reply { bytes: invalid_request(now), result: Err(err) };
            },
        };
        let mut request = match self.init_request(remote, &headers, reader) {
            Ok(request) => request,
            Err(err) => {
                return Reply { bytes: invalid_request(now), result: Err(err) };
            },
        };
        let ghost asked = request@;
        let version = request.version();
        let header_only = match request.method() {
            HttpMethod::HEAD => true,
            _ => false,
        };
        let mut response = HttpResponse::from_request(&request);
        response.set_header(&server(HttpHeaderValue::Str("server_rs")));
        self.handler.handle(&mut request, &mut response);
        let ghost left = response@;
        response.seal(version, header_only);
        let bytes = response.flush(now);
        assert(bytes@ == answer_wire(asked, left, now as nat));
        Reply { bytes, result: Ok((header_readed, 0)) }
    }

    /// Serves one request whose lines are all there, each as it was read with
    /// its line end: reads the header block, then answers it. The handler is
    /// given nothing to read on.
    pub fn process(&self, remote: &str, input: &Vec<String>, now: u64) -> (r: Reply) where
        T: Handler<()>,
        ensures
            r.replies_to(
                remote@,
                Reading::start(remote@, self.spec_max_header_length()).read(input.deep_view()),
                now as nat,
            ),
    {
        let header = self.read_header(remote, input);
        self.respond(remote, header, (), now)
    }
}

/// A header line as it is written: the name, a colon, the value.
pub open spec fn header_line_of(pair: (Seq<char>, Seq<char>)) -> Seq<char> {
    pair.0 + seq![':'] + pair.1
}

pub open spec fn header_line_fn() -> spec_fn((Seq<char>, Seq<char>)) -> Seq<char> {
    |pair: (Seq<char>, Seq<char>)| header_line_of(pair)
}

/// A pair with the whitespace around its name and around its value taken off.
pub open spec fn trimmed_pair() -> spec_fn((Seq<char>, Seq<char>)) -> (Seq<char>, Seq<char>) {
    |pair: (Seq<char>, Seq<char>)| (trim(pair.0), trim(pair.1))
}

/// Filtering and mapping a list goes through its parts.
proof fn lemma_filter_map_add<A, B>(a: Seq<A>, b: Seq<A>, f: spec_fn(A) -> Option<B>)
    ensures
        (a + b).filter_map(f) == a.filter_map(f) + b.filter_map(f),
    decreases b.len(),
{
    if b.len() == 0 {
        assert(a + b =~= a);
        assert(b.filter_map(f) =~= Seq::<B>::empty());
        assert(a.filter_map(f) + b.filter_map(f) =~= a.filter_map(f));
    } else {
        lemma_filter_map_add(a, b.drop_last(), f);
        assert((a + b).drop_last() =~= a + b.drop_last());
        assert((a + b).last() == b.last());
        match f(b.last()) {
            Some(x) => {
                assert(a.filter_map(f) + (b.drop_last().filter_map(f) + seq![x]) =~= (a.filter_map(
                    f,
                ) + b.drop_last().filter_map(f)) + seq![x]);
            },
            None => {},
        }
    }
}

/// A line without a colon is no header; a line with a name, a colon and a
/// value is the header of that name and value, each without the whitespace
/// around it.
pub proof fn lemma_header_pair(name: Seq<char>, value: Seq<char>)
    ensures
        !name.contains(':') ==> header_pair(name) is None,
        !name.contains(':') ==> header_pair(header_line_of((name, value))) == Some(
            (trim(name), trim(value)),
        ),
{
    if !name.contains(':') {
        lemma_split_without(name, ':');
        lemma_split_once_joined(name, ':', value);
    }
}

/// Headers come back as they were sent. The headers of a block that holds,
/// after its request line, one line for each of `pairs`, are what the pairs
/// come to once the whitespace around each name and value is taken off: each
/// name once, with its values in the order of the lines.
pub proof fn lemma_header_round_trip(
    request_line: Seq<char>,
    pairs: Seq<(Seq<char>, Seq<char>)>,
    key: Seq<char>,
)
    requires
        forall|i: int| 0 <= i < pairs.len() ==> !(#[trigger] pairs[i]).0.contains(':'),
    ensures
        headers_of(seq![request_line] + pairs.map_values(header_line_fn())) == collect(
            pairs.map_values(trimmed_pair()),
        ),
        lookup(headers_of(seq![request_line] + pairs.map_values(header_line_fn())), key) == if occurs(
            pairs.map_values(trimmed_pair()),
            key,
        ) {
            Some(values_of(pairs.map_values(trimmed_pair()), key))
        } else {
            None
        },
{
    let lines = pairs.map_values(header_line_fn());
    let block = seq![request_line] + lines;
    assert(block.skip(1) =~= lines);
    lemma_header_lines(pairs);
    lemma_collect_lookup(pairs.map_values(trimmed_pair()), key);
}

proof fn lemma_header_lines(pairs: Seq<(Seq<char>, Seq<char>)>)
    requires
        forall|i: int| 0 <= i < pairs.len() ==> !(#[trigger] pairs[i]).0.contains(':'),
    ensures
        pairs.map_values(header_line_fn()).filter_map(header_pair_of()) == pairs.map_values(
            trimmed_pair(),
        ),
    decreases pairs.len(),
{
    let lines = pairs.map_values(header_line_fn());
    if pairs.len() == 0 {
        assert(lines.filter_map(header_pair_of()) =~= pairs.map_values(trimmed_pair()));
    } else {
        let init = pairs.drop_last();
        let last = pairs.last();
        lemma_header_lines(init);
        assert(lines.drop_last() =~= init.map_values(header_line_fn()));
        assert(lines.last() == header_line_of(last));
        lemma_header_pair(last.0, last.1);
        assert(init.map_values(trimmed_pair()) + seq![(trim(last.0), trim(last.1))]
            =~= pairs.map_values(trimmed_pair()));
    }
}

/// A line without a colon is dropped without a trace: a block has the same
/// headers with such a line put anywhere after its request line.
pub proof fn lemma_line_without_colon_is_dropped(lines: Seq<Seq<char>>, junk: Seq<char>, at: int)
    requires
        1 <= at <= lines.len(),
        !junk.contains(':'),
    ensures
        headers_of(lines.insert(at, junk)) == headers_of(lines),
{
    let more = lines.insert(at, junk);
    let f = header_pair_of();
    let before = lines.subrange(1, at);
    let after = lines.subrange(at, lines.len() as int);
    assert(lines.skip(1) =~= before + after);
    assert(more.skip(1) =~= before + (seq![junk] + after));
    lemma_filter_map_add(before, after, f);
    lemma_filter_map_add(before, seq![junk] + after, f);
    lemma_filter_map_add(seq![junk], after, f);
    lemma_header_pair(junk, junk);
    assert(seq![junk].drop_last() =~= Seq::<Seq<char>>::empty());
    assert(seq![junk].last() == junk);
    assert(Seq::<Seq<char>>::empty().filter_map(f) =~= Seq::empty());
    assert(seq![junk].filter_map(f) =~= Seq::empty());
    assert(Seq::<(Seq<char>, Seq<char>)>::empty() + after.filter_map(f) =~= after.filter_map(f));
}

/// What one pair comes to.
proof fn lemma_collect_one(key: Seq<char>, value: Seq<char>)
    ensures
        collect(seq![(key, value)]) == seq![(key, seq![value])],
{
    let none = Seq::<(Seq<char>, Seq<char>)>::empty();
    lemma_collect_empty();
    lemma_collect_push(none, key, value);
    assert(none.push((key, value)) =~= seq![(key, value)]);
    crate::http::multimap::keys(collect(none)).index_of_first_ensures(key);
    assert(crate::http::multimap::put(collect(none), key, value) =~= seq![(key, seq![value])]);
}

/// A target without a question mark is all path and has no parameters.
pub proof fn lemma_no_query(path: Seq<char>)
    requires
        !path.contains('?'),
    ensures
        url_path(path) == path,
        url_params(path) == Seq::<(Seq<char>, Seq<Seq<char>>)>::empty(),
{
    lemma_split_without(path, '?');
}

/// A parameter comes back as it was sent: the target `path?key=value` has the
/// path `path` and the one parameter `key` with the one value `value`.
pub proof fn lemma_query_round_trip(path: Seq<char>, key: Seq<char>, value: Seq<char>)
    requires
        !path.contains('?'),
        !key.contains('&'),
        !key.contains('='),
        !value.contains('&'),
    ensures
        url_path(path + seq!['?'] + (key + seq!['='] + value)) == path,
        url_params(path + seq!['?'] + (key + seq!['='] + value)) == seq![(key, seq![value])],
{
    let query = key + seq!['='] + value;
    lemma_split_once_joined(path, '?', query);
    assert(!query.contains('&')) by {
        if query.contains('&') {
            let i = choose|i: int| 0 <= i < query.len() && query[i] == '&';
            if i < key.len() {
                assert(key[i] == '&');
                assert(key.contains('&'));
            } else if i > key.len() {
                assert(value[i - key.len() - 1] == '&');
                assert(value.contains('&'));
            }
        }
    }
    lemma_split_without(query, '&');
    lemma_split_once_joined(key, '=', value);
    lemma_one_segment(query);
    lemma_collect_one(key, value);
}

/// A parameter without a value counts as `true`: the target `path?key` has the
/// one parameter `key` with the one value `true`.
pub proof fn lemma_key_only_param(path: Seq<char>, key: Seq<char>)
    requires
        !path.contains('?'),
        key.len() > 0,
        !key.contains('&'),
        !key.contains('='),
    ensures
        url_path(path + seq!['?'] + key) == path,
        url_params(path + seq!['?'] + key) == seq![(key, seq!["true"@])],
{
    lemma_split_once_joined(path, '?', key);
    lemma_split_without(key, '&');
    lemma_split_without(key, '=');
    lemma_one_segment(key);
    lemma_collect_one(key, "true"@);
}

proof fn lemma_one_segment(segment: Seq<char>)
    ensures
        seq![segment].filter_map(param_pair_of()) == match param_pair(segment) {
            Some(pair) => seq![pair],
            None => Seq::empty(),
        },
{
    let f = param_pair_of();
    assert(seq![segment].drop_last() =~= Seq::<Seq<char>>::empty());
    assert(seq![segment].last() == segment);
    assert(Seq::<Seq<char>>::empty().filter_map(f) =~= Seq::empty());
    match param_pair(segment) {
        Some(pair) => {
            assert(Seq::<(Seq<char>, Seq<char>)>::empty() + seq![pair] =~= seq![pair]);
        },
        None => {},
    }
}

/// Repeated parameters keep their order: under each name that occurs in a
/// query stand the values that its segments give for the name, in the order of
/// the segments.
pub proof fn lemma_params_keep_order(query: Seq<char>, key: Seq<char>)
    ensures
        lookup(params_of(query), key) == if occurs(
            split(query, '&').filter_map(param_pair_of()),
            key,
        ) {
            Some(values_of(split(query, '&').filter_map(param_pair_of()), key))
        } else {
            None
        },
{
    lemma_collect_lookup(split(query, '&').filter_map(param_pair_of()), key);
}

/// The limit on the header block holds. A line that takes the bytes read over
/// the limit is refused as a bad request, and only such a line is; so a block
/// that is read to its end never has more bytes than the limit.
pub proof fn lemma_header_size_limit(reading: Reading, input: Seq<Seq<char>>, line: Seq<char>)
    requires
        reading.readed <= reading.max,
    ensures
        reading.readed + byte_len(line) > reading.max <==> reading.feed(line) == Fed::Failed(
            Failure::BadRequest(reading.remote, "header size limit exceed"@),
        ),
        reading.read(input) matches Ok((readed, _)) ==> readed <= reading.max,
    decreases input.len(),
{
    reveal_strlit("header size limit exceed");
    reveal_strlit("Invalid heaader ");
    if input.len() > 0 {
        match reading.feed(input[0]) {
            Fed::More(next) => {
                lemma_header_size_limit(next, input.drop_first(), line);
            },
            _ => {},
        }
    }
}

/// A block that could not be read is answered with status 400, whatever the
/// handler is: the reply to it is the same for every server.
pub proof fn lemma_refused_block(reply: Reply, remote: Seq<char>, f: Failure, now: nat)
    requires
        reply.replies_to(remote, Err(f), now),
    ensures
        reply.bytes@ == invalid_request_wire(now),
        reply.result matches Err(e) && e@ == f,
{
}

/// A `HEAD` request is answered with a head and nothing else, whatever the
/// handler wrote: the bytes of the answer are those of the head of the
/// response, with the length that the body would have had.
pub proof fn lemma_head_request_gets_no_body(request: Request, response: Response, now: nat)
    requires
        request.method is Head,
    ensures
        ({
            let sent = (Response {
                version: request.version,
                header_only: true,
                ..response
            }).stamped(now);
            &&& answer_wire(request, response, now) == encode_utf8(sent.head())
            &&& crate::text::ends_with(sent.head(), "\r\n\r\n"@)
            &&& lookup(sent.header, "Content-Length"@) == Some(
                seq![crate::text::decimal(response.body_bytes().len())],
            )
        }),
{
    let sealed = Response { version: request.version, header_only: true, ..response };
    crate::http::response::lemma_stamped(sealed, now, "Date"@);
    crate::http::response::lemma_header_only(sealed.stamped(now));
}

} // verus!
