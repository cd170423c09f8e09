use crate::http::header::{HttpHeader, ToString};
use crate::http::multimap::{
    lemma_put_lookup, lemma_replace_lookup, lookup, put, replace, well_formed, Entries, MultiMap,
};
use crate::http::request::HttpRequest;
use crate::http::value::{HttpMethod, HttpResponseCode, HttpVersion};
use crate::text::{decimal, decimal_string, ends_with, join, lemma_join_push, push_decimal};
use crate::util::date::{date_text, Date};
use vstd::prelude::*;
use vstd::utf8::encode_utf8;

verus! {

/// One header line: the name, a colon and a space, the values of the name with
/// a semicolon between each two, and the line end.
pub open spec fn header_line(entry: (Seq<char>, Seq<Seq<char>>)) -> Seq<char> {
    entry.0 + ": "@ + join(entry.1, ";"@) + "\r\n"@
}

/// The header lines of `entries`, in their order.
pub open spec fn header_lines(entries: Entries) -> Seq<char>
    decreases entries.len(),
{
    if entries.len() == 0 {
        Seq::empty()
    } else {
        header_lines(entries.drop_last()) + header_line(entries.last())
    }
}

/// A response as a mathematical value.
pub struct Response {
    pub version: HttpVersion,
    pub code: HttpResponseCode,
    pub header: Entries,
    pub body: Seq<Seq<u8>>,
    pub header_only: bool,
}

impl Response {
    /// The status line, without its line end.
    pub open spec fn status_line(self) -> Seq<char> {
        self.version.text() + " "@ + decimal(self.code.spec_code() as nat) + " "@
            + self.code.spec_reason()
    }

    /// All that goes before the body: the status line, the header lines, and
    /// the empty line that ends them.
    pub open spec fn head(self) -> Seq<char> {
        self.status_line() + "\r\n"@ + header_lines(self.header) + "\r\n"@
    }

    /// The bytes of the body, chunk after chunk.
    pub open spec fn body_bytes(self) -> Seq<u8> {
        self.body.flatten()
    }

    /// The response with the header `name: value` in the place of whatever
    /// `name` had; unchanged where there is no name.
    pub open spec fn with_header(self, name: Option<Seq<char>>, value: Seq<char>) -> Response {
        match name {
            Some(key) => Response { header: replace(self.header, key, value), ..self },
            None => self,
        }
    }

    /// The response with one more value for the header `name`; unchanged where
    /// there is no name.
    pub open spec fn with_more(self, name: Option<Seq<char>>, value: Seq<char>) -> Response {
        match name {
            Some(key) => Response { header: put(self.header, key, value), ..self },
            None => self,
        }
    }

    /// The response as it is sent at the moment `now`, in seconds since the
    /// start of 1970: `Content-Length` is the number of bytes of the body and
    /// `Date` is the moment, whatever the two were before.
    pub open spec fn stamped(self, now: nat) -> Response {
        self.with_header(Some("Content-Length"@), decimal(self.body_bytes().len())).with_header(
            Some("Date"@),
            date_text(now),
        )
    }

    /// The bytes on the wire: the head, and the body unless the response is
    /// one to a `HEAD` request.
    pub open spec fn wire(self) -> Seq<u8> {
        if self.header_only {
            encode_utf8(self.head())
        } else {
            encode_utf8(self.head()) + self.body_bytes()
        }
    }
}

/// Something on which a header can be set.
pub trait HeaderSetter<T> {
    fn set_header(&mut self, header: T);
}

/// A response in the making: a handler sets its status and headers and writes
/// its body, and `flush` turns it into the bytes to send.
pub struct HttpResponse {
    version: HttpVersion,
    code: HttpResponseCode,
    header: MultiMap,
    buffer: Vec<Vec<u8>>,
    header_only: bool,
}

impl View for HttpResponse {
    type V = Response;

    closed spec fn view(&self) -> Response {
        Response {
            version: self.version,
            code: self.code,
            header: self.header@,
            body: Seq::new(self.buffer.len() as nat, |i: int| self.buffer[i]@),
            header_only: self.header_only,
        }
    }
}

impl HttpResponse {
    pub fn new(version: HttpVersion) -> (r: Self)
        ensures
            r@ == (Response {
                version,
                code: HttpResponseCode::OK,
                header: Seq::empty(),
                body: Seq::empty(),
                header_only: false,
            }),
    {
        let r = Self {
            version: version,
            code: HttpResponseCode::OK,
            header: MultiMap::new(),
            buffer: Vec::new(),
            header_only: false,
        };
        assert(r@.body =~= Seq::<Seq<u8>>::empty());
        r
    }

    pub fn from_request<R>(request: &HttpRequest<R>) -> (r: Self)
        ensures
            r@ == (Response {
                version: request@.version,
                code: HttpResponseCode::OK,
                header: Seq::empty(),
                body: Seq::empty(),
                header_only: request@.method is Head,
            }),
    {
        let header_only = match request.method() {
            HttpMethod::HEAD => true,
            _ => false,
        };
        let r = Self {
            version: request.version(),
            code: HttpResponseCode::OK,
            header: MultiMap::new(),
            buffer: Vec::new(),
            header_only: header_only,
        };
        assert(r@.body =~= Seq::<Seq<u8>>::empty());
        r
    }

    /// Takes `buf` as the next chunk of the body, and says how many bytes it took.
    pub fn write(&mut self, buf: &[u8]) -> (r: usize)
        ensures
            r == buf@.len(),
            final(self)@ == (Response { body: old(self)@.body.push(buf@), ..old(self)@ }),
    {
        self.buffer.push(vstd::slice::slice_to_vec(buf));
        assert(self@.body =~= old(self)@.body.push(buf@));
        buf.len()
    }

    pub fn set_response_code(&mut self, code: HttpResponseCode)
        ensures
            final(self)@ == (Response { code, ..old(self)@ }),
    {
        self.code = code;
    }

    /// Fixes the version and whether the body is left out.
    pub(crate) fn seal(&mut self, version: HttpVersion, header_only: bool)
        ensures
            final(self)@ == (Response { version, header_only, ..old(self)@ }),
    {
        self.version = version;
        self.header_only = header_only;
    }

    /// Adds the value of `header` to the values that its name has already.
    pub fn append_header(&mut self, header: &HttpHeader)
        ensures
            final(self)@ == old(self)@.with_more(header.name(), header.spec_value().text()),
    {
        let value = header.value().to_string();
        if let Some(key) = header.key_str() {
            self.header.append(key.to_owned(), (*value).clone());
        } else if let Some(key) = header.key_string() {
            self.header.append((*key).clone(), (*value).clone());
        }
    }
}

impl HeaderSetter<&HttpHeader> for HttpResponse {
    /// Sets the value of `header` in the place of whatever its name had.
    fn set_header(&mut self, header: &HttpHeader)
        ensures
            final(self)@ == old(self)@.with_header(header.name(), header.spec_value().text()),
    {
        let value = header.value().to_string();
        if let Some(key) = header.key_str() {
            self.header.set(key.to_owned(), (*value).clone());
        } else if let Some(key) = header.key_string() {
            self.header.set((*key).clone(), (*value).clone());
        }
    }
}

impl HttpResponse {
    /// The number of bytes of the body.
    fn body_length(&self) -> (r: u128)
        ensures
            r == self@.body_bytes().len(),
    {
        let mut total: u128 = 0;
        let mut i: usize = 0;
        let ghost chunks = self@.body;
        while i < self.buffer.len()
            invariant
                i <= self.buffer.len(),
                chunks == self@.body,
                chunks.len() == self.buffer.len(),
                total == chunks.take(i as int).flatten().len(),
                total <= i * usize::MAX,
            decreases self.buffer.len() - i,
        {
            proof {
                assert(chunks.take(i + 1) =~= chunks.take(i as int).push(chunks[i as int]));
                chunks.take(i as int).lemma_flatten_push(chunks[i as int]);
                assert((i + 1) * usize::MAX == i * usize::MAX + usize::MAX) by (nonlinear_arith);
                assert(i * usize::MAX <= usize::MAX * usize::MAX) by (nonlinear_arith)
                    requires
                        i <= usize::MAX,
                ;
                assert(usize::MAX * usize::MAX + usize::MAX <= u128::MAX) by (nonlinear_arith)
                    requires
                        usize::MAX <= u64::MAX,
                ;
            }
            total = total + self.buffer[i].len() as u128;
            i = i + 1;
        }
        assert(chunks.take(i as int) == chunks);
        total
    }

    /// The text of the head: the status line, the header lines, and the empty
    /// line that ends them.
    fn head(&self) -> (r: String)
        ensures
            r@ == self@.head(),
    {
        let mut out = String::new();
        out.append(self.version.as_str());
        out.append(" ");
        push_decimal(&mut out, self.code.code() as u128);
        out.append(" ");
        out.append(self.code.reason());
        out.append("\r\n");
        assert(out@ =~= self@.status_line() + "\r\n"@);
        let ghost entries = self.header@;
        let mut i: usize = 0;
        while i < self.header.len()
            invariant
                i <= entries.len(),
                entries == self.header@,
                out@ == self@.status_line() + "\r\n"@ + header_lines(entries.take(i as int)),
            decreases entries.len() - i,
        {
            let ghost before = out@;
            let key = self.header.key_at(i).unwrap();
            let values = self.header.values_at(i).unwrap();
            out.append(key);
            out.append(": ");
            let ghost start = out@;
            let mut j: usize = 0;
            while j < values.len()
                invariant
                    j <= values.len(),
                    out@ == start + join(values.deep_view().take(j as int), ";"@),
                decreases values.len() - j,
            {
                let ghost items = values.deep_view();
                proof {
                    assert(items.take(j + 1).drop_last() =~= items.take(j as int));
                    assert(items.take(j + 1).last() == values[j as int]@);
                }
                if j > 0 {
                    out.append(";");
                }
                out.append(values[j].as_str());
                proof {
                    if j == 0 {
                        assert(join(items.take(0), ";"@) =~= Seq::<char>::empty());
                        assert(out@ =~= start + values[j as int]@);
                    } else {
                        assert(out@ =~= start + (join(items.take(j as int), ";"@) + ";"@
                            + values[j as int]@));
                    }
                }
                j = j + 1;
            }
            out.append("\r\n");
            proof {
                assert(values.deep_view().take(j as int) == values.deep_view());
                assert(entries.take(i + 1).drop_last() =~= entries.take(i as int));
                assert(entries.take(i + 1).last() == entries[i as int]);
                assert(out@ =~= before + header_line(entries[i as int]));
                assert(out@ =~= self@.status_line() + "\r\n"@ + (header_lines(
                    entries.take(i as int),
                ) + header_line(entries[i as int])));
            }
            i = i + 1;
        }
        assert(entries.take(i as int) == entries);
        out.append("\r\n");
        out
    }

    /// The bytes of the head: the status line, the header lines, and the empty
    /// line that ends them.
    pub fn write_header(&self) -> (r: Vec<u8>)
        ensures
            r@ == encode_utf8(self@.head()),
    {
        self.head().as_str().as_bytes_vec()
    }

    /// Ends the response at the moment `now`, in seconds since the start of
    /// 1970, and gives the bytes to send: `Content-Length` and `Date` are set,
    /// then come the head and, unless the request was a `HEAD`, the body.
    pub fn flush(self, now: u64) -> (r: Vec<u8>)
        ensures
            r@ == self@.stamped(now as nat).wire(),
    {
        let mut this = self;
        let total = this.body_length();
        this.header.set("Content-Length".to_owned(), decimal_string(total));
        this.header.set("Date".to_owned(), Date::from_epoch_secs(now).to_rfc1123());
        assert(this@ == self@.stamped(now as nat));
        let mut out = this.write_header();
        if this.header_only {
            return out;
        }
        let ghost chunks = this@.body;
        let ghost head = out@;
        let mut i: usize = 0;
        while i < this.buffer.len()
            invariant
                i <= this.buffer.len(),
                chunks == this@.body,
                chunks.len() == this.buffer.len(),
                out@ == head + chunks.take(i as int).flatten(),
            decreases this.buffer.len() - i,
        {
            proof {
                assert(chunks.take(i + 1) =~= chunks.take(i as int).push(chunks[i as int]));
                chunks.take(i as int).lemma_flatten_push(chunks[i as int]);
            }
            let ghost before = out@;
            out.extend_from_slice(this.buffer[i].as_slice());
            assert(out@ =~= before + chunks[i as int]);
            i = i + 1;
        }
        assert(chunks.take(i as int) == chunks);
        out
    }
}

/// The length and the date that go out are the true ones. Whatever headers a
/// response has, once it is stamped `Content-Length` has one value, the number
/// of bytes of its body in decimal, and `Date` has one value, the moment of
/// sending; every other header, the status and the body are as they were.
pub proof fn lemma_stamped(r: Response, now: nat, other: Seq<char>)
    ensures
        lookup(r.stamped(now).header, "Content-Length"@) == Some(
            seq![decimal(r.body_bytes().len())],
        ),
        lookup(r.stamped(now).header, "Date"@) == Some(seq![date_text(now)]),
        other != "Content-Length"@ && other != "Date"@ ==> lookup(r.stamped(now).header, other)
            == lookup(r.header, other),
        well_formed(r.header) ==> well_formed(r.stamped(now).header),
        r.stamped(now).header.len() > 0,
        r.stamped(now).body == r.body,
        r.stamped(now).code == r.code,
        r.stamped(now).version == r.version,
        r.stamped(now).header_only == r.header_only,
{
    reveal_strlit("Content-Length");
    reveal_strlit("Date");
    let length = decimal(r.body_bytes().len());
    let first = replace(r.header, "Content-Length"@, length);
    assert("Content-Length"@.len() != "Date"@.len());
    lemma_replace_lookup(r.header, "Content-Length"@, length, other);
    lemma_replace_lookup(r.header, "Content-Length"@, length, "Date"@);
    lemma_replace_lookup(first, "Date"@, date_text(now), "Content-Length"@);
    lemma_replace_lookup(first, "Date"@, date_text(now), other);
}

/// The body is counted in bytes, not in chunks: a chunk written adds its
/// bytes behind those that the body has.
pub proof fn lemma_body_grows(r: Response, chunk: Seq<u8>)
    ensures
        (Response { body: r.body.push(chunk), ..r }).body_bytes() == r.body_bytes() + chunk,
        (Response { body: r.body.push(chunk), ..r }).body_bytes().len() == r.body_bytes().len()
            + chunk.len(),
{
    r.body.lemma_flatten_push(chunk);
}

/// The header lines of at least one header end in a line end.
proof fn lemma_header_lines_end(entries: Entries)
    requires
        entries.len() > 0,
    ensures
        ends_with(header_lines(entries), "\r\n"@),
{
    reveal_strlit("\r\n");
    let before = header_lines(entries.drop_last()) + entries.last().0 + ": "@ + join(
        entries.last().1,
        ";"@,
    );
    assert(header_lines(entries) =~= before + "\r\n"@);
    assert((before + "\r\n"@).skip(before.len() as int) =~= "\r\n"@);
}

/// Nothing follows the head of a response to a `HEAD` request. The bytes of a
/// response that leaves its body out are those of its head and no more, and
/// where it has a header the head ends in the empty line; any other response
/// has the bytes of its body behind its head.
pub proof fn lemma_header_only(r: Response)
    ensures
        r.header_only ==> r.wire() == encode_utf8(r.head()),
        !r.header_only ==> r.wire() == encode_utf8(r.head()) + r.body_bytes(),
        r.header.len() > 0 ==> ends_with(r.head(), "\r\n\r\n"@),
{
    if r.header.len() > 0 {
        reveal_strlit("\r\n");
        reveal_strlit("\r\n\r\n");
        lemma_header_lines_end(r.header);
        let lines = header_lines(r.header);
        let start = r.status_line() + "\r\n"@;
        let cut = lines.len() - 2;
        assert(lines.skip(cut) == "\r\n"@);
        assert(lines =~= lines.take(cut) + "\r\n"@) by {
            assert(lines =~= lines.take(cut) + lines.skip(cut));
        }
        let before = start + lines.take(cut);
        assert(r.head() =~= before + "\r\n\r\n"@);
        assert((before + "\r\n\r\n"@).skip(before.len() as int) =~= "\r\n\r\n"@);
    }
}

/// Repeated headers keep their order on the way out. A value added to a name
/// stands behind the values that the name has, and no other name changes; and
/// the line of a name lists its values in their order with a semicolon between
/// each two, so that one more value only adds to the end of the line.
pub proof fn lemma_repeated_header_keeps_order(
    r: Response,
    name: Seq<char>,
    values: Seq<Seq<char>>,
    value: Seq<char>,
    other: Seq<char>,
)
    ensures
        lookup(r.with_more(Some(name), value).header, name) == Some(
            match lookup(r.header, name) {
                Some(before) => before.push(value),
                None => seq![value],
            },
        ),
        other != name ==> lookup(r.with_more(Some(name), value).header, other) == lookup(
            r.header,
            other,
        ),
        values.len() > 0 ==> header_line((name, values.push(value))) == name + ": "@ + join(
            values,
            ";"@,
        ) + ";"@ + value + "\r\n"@,
        values.len() == 0 ==> header_line((name, values.push(value))) == name + ": "@ + value
            + "\r\n"@,
{
    lemma_put_lookup(r.header, name, value, other);
    lemma_join_push(values, ";"@, value);
}

} // verus!
