use crate::text::{eq_ignore_ascii_case, same_ignoring_ascii_case, str_eq, to_uppercase, uppercase};
use vstd::prelude::*;

verus! {

/// Protocol version named on a request line and echoed on the status line.
#[derive(Copy, Debug, PartialEq, Eq, Structural)]
pub enum HttpVersion {
    Http10,
    Http11,
}

impl HttpVersion {
    /// The literal that stands for this version on the wire.
    pub open spec fn text(self) -> Seq<char> {
        match self {
            HttpVersion::Http10 => "HTTP/1.0"@,
            HttpVersion::Http11 => "HTTP/1.1"@,
        }
    }

    /// The version that a token names, whatever the case of its letters.
    pub open spec fn spec_parse(token: Seq<char>) -> Option<HttpVersion> {
        if same_ignoring_ascii_case(token, "http/1.0"@) {
            Some(HttpVersion::Http10)
        } else if same_ignoring_ascii_case(token, "http/1.1"@) {
            Some(HttpVersion::Http11)
        } else {
            None
        }
    }

    pub fn parse(str: &str) -> (r: Option<Self>)
        ensures
            r == Self::spec_parse(str@),
    {
        if eq_ignore_ascii_case(str, "http/1.0") {
            Some(HttpVersion::Http10)
        } else if eq_ignore_ascii_case(str, "http/1.1") {
            Some(HttpVersion::Http11)
        } else {
            None
        }
    }

    /// The version as it appears on a status line.
    pub fn as_str(&self) -> (r: &'static str)
        ensures
            r@ == self.text(),
    {
        match self {
            HttpVersion::Http10 => "HTTP/1.0",
            HttpVersion::Http11 => "HTTP/1.1",
        }
    }

    pub fn to_string(&self) -> (r: String)
        ensures
            r@ == self.text(),
    {
        self.as_str().to_owned()
    }
}

impl Default for HttpVersion {
    fn default() -> (r: Self)
        ensures
            r == HttpVersion::Http10,
    {
        Self::Http10
    }
}

impl Clone for HttpVersion {
    fn clone(&self) -> (r: Self)
        ensures
            r == *self,
    {
        match self {
            Self::Http10 => Self::Http10,
            Self::Http11 => Self::Http11,
        }
    }
}

/// Request method: one of the three that HTTP/1.0 names, or the token as it was sent.
#[derive(Debug, PartialEq, Eq)]
pub enum HttpMethod {
    GET,
    POST,
    HEAD,
    UNDEFINED(String),
}

/// A request method as a mathematical value.
pub enum Method {
    Get,
    Post,
    Head,
    Undefined(Seq<char>),
}

impl View for HttpMethod {
    type V = Method;

    open spec fn view(&self) -> Method {
        match self {
            HttpMethod::GET => Method::Get,
            HttpMethod::POST => Method::Post,
            HttpMethod::HEAD => Method::Head,
            HttpMethod::UNDEFINED(token) => Method::Undefined(token@),
        }
    }
}

impl HttpMethod {
    /// The method that `token` names, given the upper-case form `upper` of the
    /// token: one of the three names, or else the token itself.
    pub open spec fn classify(upper: Seq<char>, token: Seq<char>) -> Method {
        if upper == "GET"@ {
            Method::Get
        } else if upper == "POST"@ {
            Method::Post
        } else if upper == "HEAD"@ {
            Method::Head
        } else {
            Method::Undefined(token)
        }
    }

    /// The method that `token` names, whatever the case of its letters.
    pub open spec fn spec_parse(token: Seq<char>) -> Method {
        Self::classify(uppercase(token), token)
    }

    /// The text of this method on a request line.
    pub open spec fn text(&self) -> Seq<char> {
        match self {
            HttpMethod::GET => "GET"@,
            HttpMethod::POST => "POST"@,
            HttpMethod::HEAD => "HEAD"@,
            HttpMethod::UNDEFINED(token) => token@,
        }
    }

    /// Tells the method of `token` from its upper-case form `upper`.
    pub fn from_upper(upper: &str, token: &str) -> (r: Self)
        ensures
            r@ == Self::classify(upper@, token@),
    {
        if str_eq(upper, "GET") {
            HttpMethod::GET
        } else if str_eq(upper, "POST") {
            HttpMethod::POST
        } else if str_eq(upper, "HEAD") {
            HttpMethod::HEAD
        } else {
            HttpMethod::UNDEFINED(token.to_owned())
        }
    }

    pub fn parse(str: &str) -> (r: Self)
        ensures
            r@ == Self::spec_parse(str@),
    {
        let upper = to_uppercase(str);
        Self::from_upper(upper.as_str(), str)
    }

    pub fn to_string(&self) -> (r: String)
        ensures
            r@ == self.text(),
    {
        match self {
            HttpMethod::GET => "GET".to_owned(),
            HttpMethod::POST => "POST".to_owned(),
            HttpMethod::HEAD => "HEAD".to_owned(),
            HttpMethod::UNDEFINED(v) => v.clone(),
        }
    }
}

impl Clone for HttpMethod {
    fn clone(&self) -> (r: Self)
        ensures
            r@ == self@,
    {
        match self {
            HttpMethod::GET => HttpMethod::GET,
            HttpMethod::POST => HttpMethod::POST,
            HttpMethod::HEAD => HttpMethod::HEAD,
            HttpMethod::UNDEFINED(v) => HttpMethod::UNDEFINED(v.clone()),
        }
    }
}

/// Status of a response. The names are those of HTTP/1.0; two of the reason
/// phrases are spelled as this server has always sent them.
#[derive(Clone, Copy, Debug, PartialEq, Eq, Structural)]
pub enum HttpResponseCode {
    OK,
    Created,
    Accepted,
    NoContent,
    MovedPermanetly,
    MovedTemporarily,
    NotModified,
    BadRequest,
    Unauthorized,
    Forbidden,
    NotFound,
    InternalServerError,
    NotImplemented,
    BadGateway,
    ServiceUnavailable,
}

impl HttpResponseCode {
    /// The three-digit status code.
    pub open spec fn spec_code(self) -> int {
        match self {
            HttpResponseCode::OK => 200,
            HttpResponseCode::Created => 201,
            HttpResponseCode::Accepted => 202,
            HttpResponseCode::NoContent => 204,
            HttpResponseCode::MovedPermanetly => 301,
            HttpResponseCode::MovedTemporarily => 302,
            HttpResponseCode::NotModified => 304,
            HttpResponseCode::BadRequest => 400,
            HttpResponseCode::Unauthorized => 401,
            HttpResponseCode::Forbidden => 403,
            HttpResponseCode::NotFound => 404,
            HttpResponseCode::InternalServerError => 500,
            HttpResponseCode::NotImplemented => 501,
            HttpResponseCode::BadGateway => 502,
            HttpResponseCode::ServiceUnavailable => 503,
        }
    }

    /// The reason phrase that follows the code on the status line.
    pub open spec fn spec_reason(self) -> Seq<char> {
        match self {
            HttpResponseCode::OK => "OK"@,
            HttpResponseCode::Created => "Created"@,
            HttpResponseCode::Accepted => "Accepted"@,
            HttpResponseCode::NoContent => "No Content"@,
            HttpResponseCode::MovedPermanetly => "Moved Permanently"@,
            HttpResponseCode::MovedTemporarily => "Moved Temporarily"@,
            HttpResponseCode::NotModified => "Not Modified"@,
            HttpResponseCode::BadRequest => "Bad Request"@,
            HttpResponseCode::Unauthorized => "Unauthorized"@,
            HttpResponseCode::Forbidden => "Forbidden"@,
            HttpResponseCode::NotFound => "NotFound"@,
            HttpResponseCode::InternalServerError => "Interna Server Error"@,
            HttpResponseCode::NotImplemented => "Not Implemented"@,
            HttpResponseCode::BadGateway => "Bad Gateway"@,
            HttpResponseCode::ServiceUnavailable => "Service Unavailable"@,
        }
    }

    pub fn code(&self) -> (r: i32)
        ensures
            r == self.spec_code(),
    {
        match self {
            HttpResponseCode::OK => 200,
            HttpResponseCode::Created => 201,
            HttpResponseCode::Accepted => 202,
            HttpResponseCode::NoContent => 204,
            HttpResponseCode::MovedPermanetly => 301,
            HttpResponseCode::MovedTemporarily => 302,
            HttpResponseCode::NotModified => 304,
            HttpResponseCode::BadRequest => 400,
            HttpResponseCode::Unauthorized => 401,
            HttpResponseCode::Forbidden => 403,
            HttpResponseCode::NotFound => 404,
            HttpResponseCode::InternalServerError => 500,
            HttpResponseCode::NotImplemented => 501,
            HttpResponseCode::BadGateway => 502,
            HttpResponseCode::ServiceUnavailable => 503,
        }
    }

    pub fn reason(&self) -> (r: &'static str)
        ensures
            r@ == self.spec_reason(),
    {
        match self {
            HttpResponseCode::OK => "OK",
            HttpResponseCode::Created => "Created",
            HttpResponseCode::Accepted => "Accepted",
            HttpResponseCode::NoContent => "No Content",
            HttpResponseCode::MovedPermanetly => "Moved Permanently",
            HttpResponseCode::MovedTemporarily => "Moved Temporarily",
            HttpResponseCode::NotModified => "Not Modified",
            HttpResponseCode::BadRequest => "Bad Request",
            HttpResponseCode::Unauthorized => "Unauthorized",
            HttpResponseCode::Forbidden => "Forbidden",
            HttpResponseCode::NotFound => "NotFound",
            HttpResponseCode::InternalServerError => "Interna Server Error",
            HttpResponseCode::NotImplemented => "Not Implemented",
            HttpResponseCode::BadGateway => "Bad Gateway",
            HttpResponseCode::ServiceUnavailable => "Service Unavailable",
        }
    }
}

/// One entry of a weighted list: a value, and its weight as it is to be sent
/// (`0.80`), where it has one.
#[derive(Debug, PartialEq, Eq, Hash)]
pub struct WeightedValue {
    value: String,
    weight: Option<String>,
}

impl WeightedValue {
    pub closed spec fn spec_value(&self) -> Seq<char> {
        self.value@
    }

    pub closed spec fn spec_weight(&self) -> Option<Seq<char>> {
        match self.weight {
            Some(w) => Some(w@),
            None => None,
        }
    }

    /// The entry as it stands in a list: the value, then `;q=` and the weight
    /// where there is one.
    pub open spec fn text(&self) -> Seq<char> {
        match self.spec_weight() {
            Some(w) => self.spec_value() + ";q="@ + w,
            None => self.spec_value(),
        }
    }

    pub fn new(value: String, weight: Option<String>) -> (r: Self)
        ensures
            r.spec_value() == value@,
            r.spec_weight() == match weight {
                Some(w) => Some(w@),
                None => None,
            },
    {
        WeightedValue { value, weight }
    }

    pub fn value(&self) -> (r: &String)
        ensures
            r@ == self.spec_value(),
    {
        &self.value
    }

    pub fn weight(&self) -> (r: Option<&String>)
        ensures
            match r {
                Some(w) => self.spec_weight() == Some(w@),
                None => self.spec_weight() is None,
            },
    {
        match &self.weight {
            Some(w) => Some(w),
            None => None,
        }
    }
}

impl Clone for WeightedValue {
    fn clone(&self) -> (r: Self)
        ensures
            r.spec_value() == self.spec_value(),
            r.spec_weight() == self.spec_weight(),
    {
        let weight = match &self.weight {
            Some(w) => Some(w.clone()),
            None => None,
        };
        WeightedValue { value: self.value.clone(), weight }
    }
}

/// Why a connection could not be served, as a mathematical value.
pub enum Failure {
    ParseFail(Seq<char>),
    ReadFail(Seq<char>),
    WriteFail(Seq<char>),
    BadRequest(Seq<char>, Seq<char>),
    IoFail(Seq<char>),
}

impl Failure {
    /// The failure in one line, for a log.
    pub open spec fn text(self) -> Seq<char> {
        match self {
            Failure::ParseFail(m) => "HttpError: [parse fail] "@ + m,
            Failure::ReadFail(m) => "HttpError: [read fail] "@ + m,
            Failure::WriteFail(m) => "HttpError: [write fail] "@ + m,
            Failure::BadRequest(remote, m) => "HttpError: [bad request] "@ + remote + " "@ + m,
            Failure::IoFail(m) => "HttpError: [io fail] "@ + m,
        }
    }
}

/// Why a connection could not be served.
#[derive(Debug, PartialEq, Eq)]
pub enum Error {
    /// The request line or a header line is malformed.
    ParseFail(String),
    /// The header could not be read, or the peer sent nothing.
    ReadFail(String),
    /// Kept for later use.
    WriteFail(String),
    /// The request breaks a rule of this server; holds the peer's address and the rule.
    BadRequest(String, &'static str),
    /// The response could not be written.
    IoFail(String),
}

impl View for Error {
    type V = Failure;

    open spec fn view(&self) -> Failure {
        match self {
            Error::ParseFail(m) => Failure::ParseFail(m@),
            Error::ReadFail(m) => Failure::ReadFail(m@),
            Error::WriteFail(m) => Failure::WriteFail(m@),
            Error::BadRequest(remote, m) => Failure::BadRequest(remote@, m@),
            Error::IoFail(m) => Failure::IoFail(m@),
        }
    }
}

impl Error {
    pub fn to_string(&self) -> (r: String)
        ensures
            r@ == self@.text(),
    {
        let mut out = String::new();
        match self {
            Error::ParseFail(m) => {
                out.append("HttpError: [parse fail] ");
                out.append(m.as_str());
            },
            Error::ReadFail(m) => {
                out.append("HttpError: [read fail] ");
                out.append(m.as_str());
            },
            Error::WriteFail(m) => {
                out.append("HttpError: [write fail] ");
                out.append(m.as_str());
            },
            Error::BadRequest(remote, m) => {
                out.append("HttpError: [bad request] ");
                out.append(remote.as_str());
                out.append(" ");
                out.append(m);
            },
            Error::IoFail(m) => {
                out.append("HttpError: [io fail] ");
                out.append(m.as_str());
            },
        }
        assert(out@ =~= self@.text());
        out
    }
}

impl Clone for Error {
    fn clone(&self) -> (r: Self)
        ensures
            r@ == self@,
    {
        match self {
            Error::ParseFail(m) => Error::ParseFail(m.clone()),
            Error::ReadFail(m) => Error::ReadFail(m.clone()),
            Error::WriteFail(m) => Error::WriteFail(m.clone()),
            Error::BadRequest(remote, m) => Error::BadRequest(remote.clone(), m),
            Error::IoFail(m) => Error::IoFail(m.clone()),
        }
    }
}

} // verus!
