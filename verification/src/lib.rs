//! An HTTP/1.1 request reader, router and response writer.
use vstd::prelude::*;
use vstd::string::*;

pub mod config;
pub mod headers;
pub mod request_handler;
pub mod request_reader;
pub mod text;

use crate::headers::HeaderEntries;
pub use crate::headers::Headers;
use crate::text::decimal;
use crate::text::push_decimal;

verus! {

/// A parsed request: its request line, header fields and body.
pub struct HttpRequest {
    pub request_line: RequestLine,
    pub headers: Headers,
    pub body: String,
}

/// The three parts of a request line: method, request target and protocol version.
pub struct RequestLine {
    pub method: String,
    pub target: String,
    pub version: String,
}

/// A response: status line, header fields and body.
pub struct HttpResponse {
    pub version: String,
    pub status_code: u32,
    pub reason_phrase: String,
    pub headers: Headers,
    pub body: String,
}

/// A request line as character sequences.
pub struct RequestLineView {
    pub method: Seq<char>,
    pub target: Seq<char>,
    pub version: Seq<char>,
}

/// A request as character sequences and a header table.
pub struct RequestView {
    pub request_line: RequestLineView,
    pub headers: HeaderEntries,
    pub body: Seq<char>,
}

/// A response as character sequences and a header table.
pub struct ResponseView {
    pub version: Seq<char>,
    pub status_code: u32,
    pub reason_phrase: Seq<char>,
    pub headers: HeaderEntries,
    pub body: Seq<char>,
}

impl View for RequestLine {
    type V = RequestLineView;

    open spec fn view(&self) -> RequestLineView {
        RequestLineView { method: self.method@, target: self.target@, version: self.version@ }
    }
}

impl View for HttpRequest {
    type V = RequestView;

    open spec fn view(&self) -> RequestView {
        RequestView { request_line: self.request_line@, headers: self.headers@, body: self.body@ }
    }
}

impl View for HttpResponse {
    type V = ResponseView;

    open spec fn view(&self) -> ResponseView {
        ResponseView {
            version: self.version@,
            status_code: self.status_code,
            reason_phrase: self.reason_phrase@,
            headers: self.headers@,
            body: self.body@,
        }
    }
}

/// The header section of a response: one `name: value` line per field, in table order.
pub open spec fn header_lines(e: HeaderEntries) -> Seq<char>
    decreases e.len(),
{
    if e.len() == 0 {
        Seq::empty()
    } else {
        header_lines(e.drop_last()) + e.last().0 + ": "@ + e.last().1 + "\r\n"@
    }
}

/// The text of a response on the wire: status line, header lines, an empty line, the body.
pub open spec fn response_text(r: ResponseView) -> Seq<char> {
    r.version + " "@ + decimal(r.status_code as nat) + " "@ + r.reason_phrase + "\r\n"@
        + header_lines(r.headers) + "\r\n"@ + r.body
}

impl HttpResponse {
    /// The response as it is sent on the wire.
    pub fn to_string(&self) -> (r: String)
        ensures
            r@ == response_text(self@),
    {
        let mut out = String::new();
        out.append(self.version.as_str());
        out.append(" ");
        push_decimal(&mut out, self.status_code as u64);
        out.append(" ");
        out.append(self.reason_phrase.as_str());
        out.append("\r\n");
        let ghost status_line = out@;
        let n = self.headers.len();
        let mut i: usize = 0;
        while i < n
            invariant
                n == self.headers@.len(),
                i <= n,
                out@ == status_line + header_lines(self.headers@.take(i as int)),
            decreases n - i,
        {
            let (name, value) = self.headers.entry(i);
            out.append(name.as_str());
            out.append(": ");
            out.append(value.as_str());
            out.append("\r\n");
            proof {
                let e = self.headers@.take(i + 1);
                assert(e.drop_last() =~= self.headers@.take(i as int));
                assert(e.last() == self.headers@[i as int]);
                assert(out@ =~= status_line + header_lines(e));
            }
            i = i + 1;
        }
        assert(self.headers@.take(n as int) =~= self.headers@);
        out.append("\r\n");
        out.append(self.body.as_str());
        out
    }
}

} // verus!
