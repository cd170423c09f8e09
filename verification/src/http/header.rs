use crate::http::value::WeightedValue;
use crate::text::{clipped, decimal, decimal_string, join};
use crate::util::date::{date_text, lemma_date_text, spec_epoch_secs, Date};
use std::rc::Rc;
use std::time::SystemTime;
use vstd::prelude::*;

verus! {

/// A header value that can be written out.
pub trait ToString {
    /// The value as it is sent.
    spec fn text(&self) -> Seq<char>;

    fn to_string(&self) -> (r: Rc<String>)
        ensures
            r@ == self.text(),
    ;
}

/// A value given as text, owned or fixed in the program.
pub enum HttpHeaderValue {
    String(String),
    Str(&'static str),
}

impl HttpHeaderValue {
    pub open spec fn text(&self) -> Seq<char> {
        match self {
            HttpHeaderValue::String(string) => string@,
            HttpHeaderValue::Str(str) => str@,
        }
    }

    pub fn to_value(&self) -> (r: HeaderValue)
        ensures
            r.text() == self.text(),
            self is String ==> r is String,
            self is Str ==> r is Str,
    {
        match self {
            HttpHeaderValue::String(string) => HeaderValue::String(
                HeaderValueString { string: string.clone() },
            ),
            HttpHeaderValue::Str(str) => HeaderValue::Str(HeaderValueStr { str: str }),
        }
    }
}

/// A value that is a text fixed in the program.
#[derive(Debug)]
pub struct HeaderValueStr {
    pub str: &'static str,
}

impl ToString for HeaderValueStr {
    open spec fn text(&self) -> Seq<char> {
        self.str@
    }

    fn to_string(&self) -> (r: Rc<String>) {
        Rc::new(self.str.to_owned())
    }
}

/// A value that is an owned text.
#[derive(Debug)]
pub struct HeaderValueString {
    pub string: String,
}

impl ToString for HeaderValueString {
    open spec fn text(&self) -> Seq<char> {
        self.string@
    }

    fn to_string(&self) -> (r: Rc<String>) {
        Rc::new(self.string.clone())
    }
}

/// The texts of the entries of a weighted list, in their order.
pub open spec fn weighted_texts(weighted: Seq<WeightedValue>) -> Seq<Seq<char>> {
    weighted.map_values(|w: WeightedValue| w.text())
}

/// A value that is a list of entries with weights.
#[derive(Debug)]
pub struct HeaderValueWeighted {
    pub weighted: Vec<WeightedValue>,
}

impl ToString for HeaderValueWeighted {
    /// The entries with a comma between each two, less the last character of
    /// the whole: the list is always sent one character short.
    open spec fn text(&self) -> Seq<char> {
        clipped(join(weighted_texts(self.weighted@), ","@))
    }

    fn to_string(&self) -> (r: Rc<String>) {
        let mut val = String::new();
        let mut i: usize = 0;
        while i < self.weighted.len()
            invariant
                i <= self.weighted.len(),
                val@ == join(weighted_texts(self.weighted@.take(i as int)), ","@),
            decreases self.weighted.len() - i,
        {
            let ghost before = weighted_texts(self.weighted@.take(i as int));
            let ghost now = weighted_texts(self.weighted@.take(i + 1));
            let w = &self.weighted[i];
            proof {
                assert(now.drop_last() =~= before);
                assert(now.last() == w.text());
            }
            if i > 0 {
                val.append(",");
            }
            val.append(w.value().as_str());
            match w.weight() {
                Some(q) => {
                    val.append(";q=");
                    val.append(q.as_str());
                },
                None => {},
            }
            proof {
                if i == 0 {
                    assert(before.len() == 0);
                    assert(val@ =~= w.text());
                } else {
                    assert(val@ =~= join(before, ","@) + ","@ + w.text());
                }
            }
            i = i + 1;
        }
        assert(self.weighted@.take(i as int) == self.weighted@);
        let n = val.as_str().unicode_len();
        if n == 0 {
            Rc::new(val)
        } else {
            Rc::new(val.as_str().substring_char(0, n - 1).to_owned())
        }
    }
}

/// A value that is a moment, sent in the form `Wdy, DD Mon YYYY HH:MM:SS GMT`.
#[derive(Debug)]
pub struct HeaderValueTime {
    pub time: Date,
}

impl HeaderValueTime {
    pub fn from_system_time(time: SystemTime) -> (r: Self)
        ensures
            r.time@.is_time_of(spec_epoch_secs(time)),
    {
        Self { time: Date::from_system_time(time) }
    }

    /// The value for the moment `secs` seconds after the start of 1970.
    pub fn from_epoch_secs(secs: u64) -> (r: Self)
        ensures
            r.time@.is_time_of(secs as nat),
    {
        Self { time: Date::from_epoch_secs(secs) }
    }

    pub fn time_to_header_string(&self) -> (r: String)
        ensures
            r@ == self.time@.rfc1123(),
    {
        self.time.to_rfc1123()
    }
}

impl ToString for HeaderValueTime {
    open spec fn text(&self) -> Seq<char> {
        self.time@.rfc1123()
    }

    fn to_string(&self) -> (r: Rc<String>) {
        Rc::new(self.time_to_header_string())
    }
}

/// A header value of any of the four kinds.
#[derive(Debug)]
pub enum HeaderValue {
    Str(HeaderValueStr),
    String(HeaderValueString),
    Weighted(HeaderValueWeighted),
    Time(HeaderValueTime),
}

impl ToString for HeaderValue {
    open spec fn text(&self) -> Seq<char> {
        match self {
            HeaderValue::Str(v) => v.text(),
            HeaderValue::String(v) => v.text(),
            HeaderValue::Weighted(v) => v.text(),
            HeaderValue::Time(v) => v.text(),
        }
    }

    fn to_string(&self) -> (r: Rc<String>) {
        match self {
            HeaderValue::Str(v) => v.to_string(),
            HeaderValue::String(v) => v.to_string(),
            HeaderValue::Weighted(v) => v.to_string(),
            HeaderValue::Time(v) => v.to_string(),
        }
    }
}

/// A header to set on a response: a name, fixed in the program or owned, and a value.
#[derive(Debug)]
pub struct HttpHeader {
    key_str: Option<&'static str>,
    key_string: Option<String>,
    value: HeaderValue,
}

impl HttpHeader {
    pub closed spec fn spec_key_str(&self) -> Option<Seq<char>> {
        match self.key_str {
            Some(k) => Some(k@),
            None => None,
        }
    }

    pub closed spec fn spec_key_string(&self) -> Option<Seq<char>> {
        match self.key_string {
            Some(k) => Some(k@),
            None => None,
        }
    }

    pub closed spec fn spec_value(&self) -> HeaderValue {
        self.value
    }

    /// The name under which the header is set: the fixed one where there is
    /// one, else the owned one.
    pub open spec fn name(&self) -> Option<Seq<char>> {
        match self.spec_key_str() {
            Some(k) => Some(k),
            None => self.spec_key_string(),
        }
    }

    /// Whether this is the header `name: value`, with the name fixed in the program.
    pub open spec fn holds(&self, name: Seq<char>, value: Seq<char>) -> bool {
        &&& self.spec_key_str() == Some(name)
        &&& self.spec_key_string() is None
        &&& self.spec_value().text() == value
    }

    pub fn key_str(&self) -> (r: Option<&'static str>)
        ensures
            match r {
                Some(k) => self.spec_key_str() == Some(k@),
                None => self.spec_key_str() is None,
            },
    {
        self.key_str
    }

    pub fn key_string(&self) -> (r: Option<Rc<String>>)
        ensures
            match r {
                Some(k) => self.spec_key_string() == Some(k@),
                None => self.spec_key_string() is None,
            },
    {
        match &self.key_string {
            Some(k) => Some(Rc::new(k.clone())),
            None => None,
        }
    }

    pub fn value(&self) -> (r: &HeaderValue)
        ensures
            *r == self.spec_value(),
    {
        &self.value
    }
}

pub fn from_str_key(key: &'static str, value: HeaderValue) -> (r: HttpHeader)
    ensures
        r.spec_key_str() == Some(key@),
        r.spec_key_string() is None,
        r.spec_value() == value,
{
    HttpHeader { key_str: Some(key), key_string: None, value: value }
}

pub fn from_string_key(key: String, value: HeaderValue) -> (r: HttpHeader)
    ensures
        r.spec_key_str() is None,
        r.spec_key_string() == Some(key@),
        r.spec_value() == value,
{
    HttpHeader { key_str: None, key_string: Some(key), value: value }
}

pub fn date(time: SystemTime) -> (r: HttpHeader)
    ensures
        r.holds("Date"@, date_text(spec_epoch_secs(time))),
{
    let value = HeaderValueTime::from_system_time(time);
    proof {
        lemma_date_text(value.time@, spec_epoch_secs(time));
    }
    from_str_key("Date", HeaderValue::Time(value))
}

pub fn allow(values: Vec<WeightedValue>) -> (r: HttpHeader)
    ensures
        r.holds("Allow"@, clipped(join(weighted_texts(values@), ","@))),
{
    from_str_key("Allow", HeaderValue::Weighted(HeaderValueWeighted { weighted: values }))
}

pub fn content_encoding(value: HttpHeaderValue) -> (r: HttpHeader)
    ensures
        r.holds("Content-Encoding"@, value.text()),
{
    from_str_key("Content-Encoding", value.to_value())
}

pub fn content_length(value: usize) -> (r: HttpHeader)
    ensures
        r.holds("Content-Length"@, decimal(value as nat)),
{
    from_str_key(
        "Content-Length",
        HeaderValue::String(HeaderValueString { string: decimal_string(value as u128) }),
    )
}

pub fn content_type(value: HttpHeaderValue) -> (r: HttpHeader)
    ensures
        r.holds("Content-Type"@, value.text()),
{
    from_str_key("Content-Type", value.to_value())
}

pub fn expires(time: SystemTime) -> (r: HttpHeader)
    ensures
        r.holds("Expires"@, date_text(spec_epoch_secs(time))),
{
    let value = HeaderValueTime::from_system_time(time);
    proof {
        lemma_date_text(value.time@, spec_epoch_secs(time));
    }
    from_str_key("Expires", HeaderValue::Time(value))
}

pub fn last_modified(time: SystemTime) -> (r: HttpHeader)
    ensures
        r.holds("Last-Modified"@, date_text(spec_epoch_secs(time))),
{
    let value = HeaderValueTime::from_system_time(time);
    proof {
        lemma_date_text(value.time@, spec_epoch_secs(time));
    }
    from_str_key("Last-Modified", HeaderValue::Time(value))
}

pub fn header(key: &'static str, value: HttpHeaderValue) -> (r: HttpHeader)
    ensures
        r.holds(key@, value.text()),
{
    from_str_key(key, value.to_value())
}

pub fn location(value: HttpHeaderValue) -> (r: HttpHeader)
    ensures
        r.holds("Location"@, value.text()),
{
    from_str_key("Location", value.to_value())
}

pub fn server(value: HttpHeaderValue) -> (r: HttpHeader)
    ensures
        r.holds("Server"@, value.text()),
{
    from_str_key("Server", value.to_value())
}

pub fn www_authenticate(value: HttpHeaderValue) -> (r: HttpHeader)
    ensures
        r.holds("WWW-Authenticate"@, value.text()),
{
    from_str_key("WWW-Authenticate", value.to_value())
}

} // verus!
