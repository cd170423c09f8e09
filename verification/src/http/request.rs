use crate::http::multimap::{Entries, MultiMap};
use crate::http::value::{HttpMethod, HttpVersion, Method};
use vstd::prelude::*;

verus! {

/// A request as a mathematical value.
pub struct Request {
    pub remote_addr: Seq<char>,
    pub method: Method,
    pub version: HttpVersion,
    pub path: Seq<char>,
    pub header: Entries,
    pub param: Entries,
}

/// A parsed request, as a handler sees it. It carries the reader from which
/// its header block was taken, so that a handler can go on reading where the
/// block ended.
pub struct HttpRequest<R> {
    remote_addr: String,
    method: HttpMethod,
    http_version: HttpVersion,
    path: String,
    header: MultiMap,
    param: MultiMap,
    reader: R,
}

impl<R> View for HttpRequest<R> {
    type V = Request;

    closed spec fn view(&self) -> Request {
        Request {
            remote_addr: self.remote_addr@,
            method: self.method@,
            version: self.http_version,
            path: self.path@,
            header: self.header@,
            param: self.param@,
        }
    }
}

impl<R> HttpRequest<R> {
    pub closed spec fn spec_reader(&self) -> R {
        self.reader
    }

    pub fn new(
        remote_addr: String,
        method: String,
        http_version: HttpVersion,
        path: String,
        header: MultiMap,
        param: MultiMap,
        reader: R,
    ) -> (r: Self)
        ensures
            r@ == (Request {
                remote_addr: remote_addr@,
                method: HttpMethod::spec_parse(method@),
                version: http_version,
                path: path@,
                header: header@,
                param: param@,
            }),
            r.spec_reader() == reader,
    {
        HttpRequest {
            remote_addr,
            method: HttpMethod::parse(method.as_str()),
            http_version,
            path,
            header,
            param,
            reader,
        }
    }

    pub fn version(&self) -> (r: HttpVersion)
        ensures
            r == self@.version,
    {
        self.http_version.clone()
    }

    pub fn method(&self) -> (r: HttpMethod)
        ensures
            r@ == self@.method,
    {
        self.method.clone()
    }

    pub fn remote_addr(&self) -> (r: &str)
        ensures
            r@ == self@.remote_addr,
    {
        self.remote_addr.as_str()
    }

    pub fn path(&self) -> (r: &str)
        ensures
            r@ == self@.path,
    {
        self.path.as_str()
    }

    pub fn header(&self) -> (r: &MultiMap)
        ensures
            r@ == self@.header,
    {
        &self.header
    }

    pub fn param(&self) -> (r: &MultiMap)
        ensures
            r@ == self@.param,
    {
        &self.param
    }

    pub fn reader(&self) -> (r: &R)
        ensures
            *r == self.spec_reader(),
    {
        &self.reader
    }
}

} // verus!
