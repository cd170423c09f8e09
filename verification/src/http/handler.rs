use crate::http::multimap::replace;
use crate::http::request::{HttpRequest, Request};
use crate::http::response::{HttpResponse, Response};
use crate::http::value::HttpResponseCode;
use vstd::prelude::*;

verus! {

/// The response that a handler is given for `request`: the version of the
/// request, status 200, the header `Server: server_rs`, no body yet, and the
/// mark of a `HEAD` request where it is one.
pub open spec fn initial_response(request: Request) -> Response {
    Response {
        version: request.version,
        code: HttpResponseCode::OK,
        header: replace(Seq::empty(), "Server"@, "server_rs"@),
        body: Seq::empty(),
        header_only: request.method is Head,
    }
}

/// What answers a request that came over a reader of type `R`. The handler
/// reads the request and fills in the response that it is given; it may set
/// the status and headers and write the body.
pub trait Handler<R> {
    fn handle(&self, req: &mut HttpRequest<R>, res: &mut HttpResponse)
        requires
            old(res)@ == initial_response(old(req)@),
    ;
}

} // verus!
