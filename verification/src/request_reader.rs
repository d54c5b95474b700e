//! The reading of a request from a byte stream, one buffer-full at a time.
//!
//! A reader collects the bytes of the request line, then of the header section,
//! then of the body. It is fed the whole read buffer after each read together with
//! the number of bytes the read delivered; its scans may look at bytes beyond that
//! number, as far as the end of the buffer.
use vstd::prelude::*;
use vstd::string::*;
use vstd::utf8::*;

use crate::request_handler::{
    deserialize_headers, deserialize_requestline, has_three_parts, headers_of, request_line_of,
};
use crate::text::{split_exec, utf8_str};
use crate::{HttpRequest, RequestView};

verus! {

/// Which part of the request the next bytes belong to.
#[derive(Clone, Copy, Debug, PartialEq, Eq, Structural)]
pub enum ReadPhase {
    RequestLine,
    Headers,
    Body,
    Finished,
}

/// Why a request could not be read.
#[derive(Clone, Copy, Debug, PartialEq, Eq, Structural)]
pub enum ReadError {
    /// Bytes arrived after the body was complete.
    TooManyCrlf,
    /// The request line is not valid UTF-8.
    RequestLineNotUtf8,
    /// The header section is not valid UTF-8.
    HeadersNotUtf8,
    /// The body is not valid UTF-8.
    BodyNotUtf8,
}

/// The text that describes each error.
pub open spec fn error_message(e: ReadError) -> Seq<char> {
    match e {
        ReadError::TooManyCrlf => "Too many CRLF!"@,
        ReadError::RequestLineNotUtf8 => "Could not parse request_line into UTF8 string"@,
        ReadError::HeadersNotUtf8 => "Could not parse headers into UTF8 string"@,
        ReadError::BodyNotUtf8 => "Could not parse body into UTF8 string"@,
    }
}

impl ReadError {
    /// The text that describes this error.
    pub fn message(&self) -> (r: String)
        ensures
            r@ == error_message(*self),
    {
        match self {
            ReadError::TooManyCrlf => String::from_str("Too many CRLF!"),
            ReadError::RequestLineNotUtf8 => String::from_str(
                "Could not parse request_line into UTF8 string",
            ),
            ReadError::HeadersNotUtf8 => String::from_str("Could not parse headers into UTF8 string"),
            ReadError::BodyNotUtf8 => String::from_str("Could not parse body into UTF8 string"),
        }
    }
}

/// A reader's state: the bytes collected so far for each part, and the current part.
pub struct ReaderView {
    pub request_line: Seq<u8>,
    pub headers: Seq<u8>,
    pub body: Seq<u8>,
    pub phase: ReadPhase,
}

/// The end of a request line whose scan starts at `j`: the first position in
/// `[j, n)` where CR LF starts, or `n`. `None` when the scan would look past the
/// end of the buffer (a CR in its last byte).
pub open spec fn line_end(buf: Seq<u8>, n: int, j: int) -> Option<int>
    decreases n - j,
{
    if j >= n {
        Some(j)
    } else if buf[j] == 13 {
        if j + 1 >= buf.len() {
            None
        } else if buf[j + 1] == 10 {
            Some(j)
        } else {
            line_end(buf, n, j + 1)
        }
    } else {
        line_end(buf, n, j + 1)
    }
}

/// The end of a header section whose scan starts at `j`: the first position in
/// `[j, n)` where CR LF CR LF starts, or `n`. `None` when the scan would look past
/// the end of the buffer.
pub open spec fn section_end(buf: Seq<u8>, n: int, j: int) -> Option<int>
    decreases n - j,
{
    if j >= n {
        Some(j)
    } else if buf[j] != 13 {
        section_end(buf, n, j + 1)
    } else if j + 1 >= buf.len() {
        None
    } else if buf[j + 1] != 10 {
        section_end(buf, n, j + 1)
    } else if j + 2 >= buf.len() {
        None
    } else if buf[j + 2] != 13 {
        section_end(buf, n, j + 1)
    } else if j + 3 >= buf.len() {
        None
    } else if buf[j + 3] != 10 {
        section_end(buf, n, j + 1)
    } else {
        Some(j)
    }
}

/// The end of a body whose scan starts at `j`: the first zero byte in `[j, n)`, or `n`.
pub open spec fn body_end(buf: Seq<u8>, n: int, j: int) -> int
    decreases n - j,
{
    if j >= n {
        j
    } else if buf[j] == 0 {
        j
    } else {
        body_end(buf, n, j + 1)
    }
}

pub proof fn lemma_ends(buf: Seq<u8>, n: int, j: int)
    requires
        j <= n,
    ensures
        line_end(buf, n, j) matches Some(k) ==> j <= k <= n,
        section_end(buf, n, j) matches Some(k) ==> j <= k <= n,
        j <= body_end(buf, n, j) <= n,
    decreases n - j,
{
    if j < n {
        lemma_ends(buf, n, j + 1);
    }
}

/// `k`, but no further than `n`.
pub open spec fn clamp(k: int, n: int) -> int {
    if k < n {
        k
    } else {
        n
    }
}

/// Feeding the buffer `buf`, of which a read delivered the first `n` bytes, to a
/// reader in state `st`, from position `i` on. `None` when a scan would look past
/// the end of the buffer; otherwise the new state, and `false` when bytes remain
/// after the body is complete.
pub open spec fn scan_from(st: ReaderView, buf: Seq<u8>, n: int, i: int) -> Option<(ReaderView, bool)>
    decreases n - i,
{
    if i < 0 || i >= n {
        Some((st, true))
    } else {
        match st.phase {
            ReadPhase::RequestLine => match line_end(buf, n, i + 1) {
                None => None,
                Some(j) => {
                    proof {
                        lemma_ends(buf, n, i + 1);
                    }
                    scan_from(
                        ReaderView {
                            request_line: st.request_line + buf.subrange(i, j),
                            phase: ReadPhase::Headers,
                            ..st
                        },
                        buf,
                        n,
                        clamp(j + 2, n),
                    )
                },
            },
            ReadPhase::Headers => match section_end(buf, n, i + 1) {
                None => None,
                Some(j) => {
                    proof {
                        lemma_ends(buf, n, i + 1);
                    }
                    scan_from(
                        ReaderView {
                            headers: st.headers + buf.subrange(i, j),
                            phase: ReadPhase::Body,
                            ..st
                        },
                        buf,
                        n,
                        clamp(j + 4, n),
                    )
                },
            },
            ReadPhase::Body => {
                let j = body_end(buf, n, i + 1);
                proof {
                    lemma_ends(buf, n, i + 1);
                }
                scan_from(
                    ReaderView { body: st.body + buf.subrange(i, j), phase: ReadPhase::Finished, ..st },
                    buf,
                    n,
                    j,
                )
            },
            ReadPhase::Finished => Some((st, false)),
        }
    }
}

/// Feeding a whole delivered buffer to a reader in state `st`.
pub open spec fn scan_chunk(st: ReaderView, buf: Seq<u8>, n: int) -> Option<(ReaderView, bool)> {
    scan_from(st, buf, n, 0)
}

proof fn lemma_body_end_found(buf: Seq<u8>, n: int, j: int)
    requires
        0 <= j <= n <= buf.len(),
        forall|k: int| j <= k < n ==> buf[k] != 0,
    ensures
        body_end(buf, n, j) == n,
    decreases n - j,
{
    if j < n {
        lemma_body_end_found(buf, n, j + 1);
    }
}

/// A request whose request line (without CR bytes), non-empty header section
/// (with no blank line inside) and non-empty body without zero bytes arrive in a
/// single read, filling the buffer, is accepted, and collected as exactly that
/// line, that header section and that body: every byte after the CR LF CR LF
/// belongs to the body. Finishing then gives the body's text as the request body.
pub proof fn lemma_whole_request_with_body_in_one_read(line: Seq<u8>, headers: Seq<u8>, body: Seq<u8>)
    requires
        line.len() >= 1,
        forall|k: int| 0 <= k < line.len() ==> line[k] != 13,
        headers.len() >= 1,
        forall|k: int|
            1 <= k < headers.len() ==> !blank_line_at(headers + seq![13u8, 10u8, 13u8, 10u8], k),
        body.len() >= 1,
        forall|k: int| 0 <= k < body.len() ==> body[k] != 0,
    ensures
        scan_chunk(
            ReaderView {
                request_line: Seq::empty(),
                headers: Seq::empty(),
                body: Seq::empty(),
                phase: ReadPhase::RequestLine,
            },
            request_bytes(line, headers) + body,
            (request_bytes(line, headers) + body).len() as int,
        ) == Some(
            (
                ReaderView { request_line: line, headers, body, phase: ReadPhase::Finished },
                true,
            ),
        ),
        valid_utf8(line) && valid_utf8(headers) && valid_utf8(body) ==> (finish_result(
            ReaderView { request_line: line, headers, body, phase: ReadPhase::Finished },
        ) matches Ok(request) && request.body == decode_utf8(body)),
{
    let buf = request_bytes(line, headers) + body;
    let n = buf.len() as int;
    let st0 = ReaderView {
        request_line: Seq::empty(),
        headers: Seq::empty(),
        body: Seq::empty(),
        phase: ReadPhase::RequestLine,
    };
    let p: int = line.len() as int + 2;
    let q: int = p + headers.len() + 4;
    assert(buf.subrange(0, line.len() as int) =~= line);
    assert(buf[line.len() as int] == 13);
    assert(buf[line.len() as int + 1] == 10);
    lemma_line_end_found(buf, n, line, 1);
    let st1 = ReaderView {
        request_line: st0.request_line + buf.subrange(0, line.len() as int),
        phase: ReadPhase::Headers,
        ..st0
    };
    assert(st1.request_line =~= line);
    assert(clamp(line.len() as int + 2, n) == p);
    assert(scan_from(st0, buf, n, 0) == scan_from(st1, buf, n, p));
    assert(buf.subrange(p, p + headers.len() + 4) =~= headers + seq![13u8, 10u8, 13u8, 10u8]);
    lemma_section_end_found(buf, n, p, headers, p + 1);
    let st2 = ReaderView {
        headers: st1.headers + buf.subrange(p, p + headers.len()),
        phase: ReadPhase::Body,
        ..st1
    };
    assert(buf.subrange(p, p + headers.len()) =~= headers);
    assert(st2.headers =~= headers);
    assert(clamp(p + headers.len() + 4, n) == q);
    assert(scan_from(st1, buf, n, p) == scan_from(st2, buf, n, q));
    assert forall|k: int| q + 1 <= k < n implies buf[k] != 0 by {
        assert(buf[k] == body[k - q]);
    }
    lemma_body_end_found(buf, n, q + 1);
    let st3 = ReaderView {
        body: st2.body + buf.subrange(q, n),
        phase: ReadPhase::Finished,
        ..st2
    };
    assert(buf.subrange(q, n) =~= body);
    assert(st3.body =~= body);
    assert(scan_from(st2, buf, n, q) == scan_from(st3, buf, n, n));
}

/// The order of the parts: a reader only moves forward through them.
pub open spec fn phase_rank(p: ReadPhase) -> nat {
    match p {
        ReadPhase::RequestLine => 0,
        ReadPhase::Headers => 1,
        ReadPhase::Body => 2,
        ReadPhase::Finished => 3,
    }
}

/// Feeding a buffer only appends to the collected bytes of each part and never
/// moves back to an earlier part.
pub proof fn lemma_scan_only_appends(st: ReaderView, buf: Seq<u8>, n: int, i: int)
    ensures
        scan_from(st, buf, n, i) matches Some((st2, _)) ==> {
            &&& st2.request_line.subrange(0, st.request_line.len() as int) == st.request_line
            &&& st2.headers.subrange(0, st.headers.len() as int) == st.headers
            &&& st2.body.subrange(0, st.body.len() as int) == st.body
            &&& st.request_line.len() <= st2.request_line.len()
            &&& st.headers.len() <= st2.headers.len()
            &&& st.body.len() <= st2.body.len()
            &&& phase_rank(st.phase) <= phase_rank(st2.phase)
        },
    decreases n - i,
{
    if 0 <= i < n {
        lemma_ends(buf, n, i + 1);
        match st.phase {
            ReadPhase::RequestLine => {
                if let Some(j) = line_end(buf, n, i + 1) {
                    let next = ReaderView {
                        request_line: st.request_line + buf.subrange(i, j),
                        phase: ReadPhase::Headers,
                        ..st
                    };
                    lemma_scan_only_appends(next, buf, n, clamp(j + 2, n));
                    if let Some((st2, _)) = scan_from(st, buf, n, i) {
                        assert(st2.request_line.subrange(0, st.request_line.len() as int)
                            =~= next.request_line.subrange(0, st.request_line.len() as int));
                    }
                }
            },
            ReadPhase::Headers => {
                if let Some(j) = section_end(buf, n, i + 1) {
                    let next = ReaderView {
                        headers: st.headers + buf.subrange(i, j),
                        phase: ReadPhase::Body,
                        ..st
                    };
                    lemma_scan_only_appends(next, buf, n, clamp(j + 4, n));
                    if let Some((st2, _)) = scan_from(st, buf, n, i) {
                        assert(st2.headers.subrange(0, st.headers.len() as int)
                            =~= next.headers.subrange(0, st.headers.len() as int));
                    }
                }
            },
            ReadPhase::Body => {
                let j = body_end(buf, n, i + 1);
                let next = ReaderView {
                    body: st.body + buf.subrange(i, j),
                    phase: ReadPhase::Finished,
                    ..st
                };
                lemma_scan_only_appends(next, buf, n, j);
                if let Some((st2, _)) = scan_from(st, buf, n, i) {
                    assert(st2.body.subrange(0, st.body.len() as int)
                        =~= next.body.subrange(0, st.body.len() as int));
                }
            },
            ReadPhase::Finished => {},
        }
    }
    if let Some((st2, _)) = scan_from(st, buf, n, i) {
        if !(0 <= i < n) || st.phase == ReadPhase::Finished {
            assert(st2 == st);
            assert(st.request_line.subrange(0, st.request_line.len() as int) =~= st.request_line);
            assert(st.headers.subrange(0, st.headers.len() as int) =~= st.headers);
            assert(st.body.subrange(0, st.body.len() as int) =~= st.body);
        }
    }
}

/// The request that collected bytes make, when every part is valid UTF-8.
pub open spec fn request_of(line: Seq<char>, headers: Seq<char>, body: Seq<char>) -> RequestView {
    RequestView { request_line: request_line_of(line), headers: headers_of(headers), body }
}

/// What finishing a reader in state `st` gives: the first part that is not valid
/// UTF-8 as an error, or else the request.
pub open spec fn finish_result(st: ReaderView) -> Result<RequestView, ReadError> {
    if !valid_utf8(st.request_line) {
        Err(ReadError::RequestLineNotUtf8)
    } else if !valid_utf8(st.headers) {
        Err(ReadError::HeadersNotUtf8)
    } else if !valid_utf8(st.body) {
        Err(ReadError::BodyNotUtf8)
    } else {
        Ok(
            request_of(
                decode_utf8(st.request_line),
                decode_utf8(st.headers),
                decode_utf8(st.body),
            ),
        )
    }
}

/// Finishing is defined: when all parts are valid UTF-8, the request line has three parts.
pub open spec fn finishable(st: ReaderView) -> bool {
    valid_utf8(st.request_line) && valid_utf8(st.headers) && valid_utf8(st.body) ==> has_three_parts(
        decode_utf8(st.request_line),
    )
}

/// The bytes of a request whose request line and header section arrive whole:
/// the line, CR LF, the header section, CR LF CR LF.
pub open spec fn request_bytes(line: Seq<u8>, headers: Seq<u8>) -> Seq<u8> {
    line + seq![13u8, 10u8] + headers + seq![13u8, 10u8, 13u8, 10u8]
}

/// CR LF CR LF starts at `j` in `t`.
pub open spec fn blank_line_at(t: Seq<u8>, j: int) -> bool {
    t[j] == 13 && t[j + 1] == 10 && t[j + 2] == 13 && t[j + 3] == 10
}

proof fn lemma_line_end_found(buf: Seq<u8>, n: int, line: Seq<u8>, j: int)
    requires
        n == buf.len(),
        buf.len() >= line.len() + 2,
        buf.subrange(0, line.len() as int) == line,
        buf[line.len() as int] == 13,
        buf[line.len() as int + 1] == 10,
        forall|k: int| 0 <= k < line.len() ==> line[k] != 13,
        0 <= j <= line.len(),
    ensures
        line_end(buf, n, j) == Some(line.len() as int),
    decreases line.len() - j,
{
    if j < line.len() {
        assert(buf[j] == buf.subrange(0, line.len() as int)[j]);
        lemma_line_end_found(buf, n, line, j + 1);
    }
}

proof fn lemma_section_end_found(buf: Seq<u8>, n: int, start: int, headers: Seq<u8>, j: int)
    requires
        n == buf.len(),
        0 <= start,
        buf.len() >= start + headers.len() + 4,
        buf.subrange(start, start + headers.len() + 4) == headers + seq![13u8, 10u8, 13u8, 10u8],
        forall|k: int|
            1 <= k < headers.len() ==> !blank_line_at(headers + seq![13u8, 10u8, 13u8, 10u8], k),
        start + 1 <= j <= start + headers.len(),
    ensures
        section_end(buf, n, j) == Some(start + headers.len()),
    decreases start + headers.len() - j,
{
    let t = headers + seq![13u8, 10u8, 13u8, 10u8];
    let k = j - start;
    assert(buf[j] == t[k]);
    assert(buf[j + 1] == t[k + 1]);
    assert(buf[j + 2] == t[k + 2]);
    assert(buf[j + 3] == t[k + 3]);
    if j < start + headers.len() {
        assert(!blank_line_at(t, k));
        lemma_section_end_found(buf, n, start, headers, j + 1);
    } else {
        assert(blank_line_at(t, k));
    }
}

/// A request whose request line (without CR bytes) and non-empty header section
/// (with no blank line inside) arrive in a single read, filling the buffer, is
/// collected as exactly that line and that header section, with an empty body;
/// and the reader then wants no more bytes.
pub proof fn lemma_whole_request_in_one_read(line: Seq<u8>, headers: Seq<u8>)
    requires
        line.len() >= 1,
        forall|k: int| 0 <= k < line.len() ==> line[k] != 13,
        headers.len() >= 1,
        forall|k: int|
            1 <= k < headers.len() ==> !blank_line_at(headers + seq![13u8, 10u8, 13u8, 10u8], k),
    ensures
        scan_chunk(
            ReaderView {
                request_line: Seq::empty(),
                headers: Seq::empty(),
                body: Seq::empty(),
                phase: ReadPhase::RequestLine,
            },
            request_bytes(line, headers),
            request_bytes(line, headers).len() as int,
        ) == Some(
            (
                ReaderView {
                    request_line: line,
                    headers,
                    body: Seq::empty(),
                    phase: ReadPhase::Body,
                },
                true,
            ),
        ),
{
    let buf = request_bytes(line, headers);
    let n = buf.len() as int;
    let st0 = ReaderView {
        request_line: Seq::empty(),
        headers: Seq::empty(),
        body: Seq::empty(),
        phase: ReadPhase::RequestLine,
    };
    let p: int = line.len() as int + 2;
    assert(buf.subrange(0, line.len() as int) =~= line);
    assert(buf[line.len() as int] == 13);
    assert(buf[line.len() as int + 1] == 10);
    lemma_line_end_found(buf, n, line, 1);
    let st1 = ReaderView {
        request_line: st0.request_line + buf.subrange(0, line.len() as int),
        phase: ReadPhase::Headers,
        ..st0
    };
    assert(st1.request_line =~= line);
    assert(clamp(line.len() as int + 2, n) == p);
    assert(scan_from(st0, buf, n, 0) == scan_from(st1, buf, n, p));
    assert(buf.subrange(p, p + headers.len() + 4) =~= headers + seq![13u8, 10u8, 13u8, 10u8]);
    lemma_section_end_found(buf, n, p, headers, p + 1);
    let st2 = ReaderView {
        headers: st1.headers + buf.subrange(p, p + headers.len()),
        phase: ReadPhase::Body,
        ..st1
    };
    assert(buf.subrange(p, p + headers.len()) =~= headers);
    assert(st2.headers =~= headers);
    assert(clamp(p + headers.len() + 4, n) == n);
    assert(scan_from(st1, buf, n, p) == scan_from(st2, buf, n, n));
}

/// Collects the bytes of a request as buffers arrive.
pub struct RequestReader {
    request_line: Vec<u8>,
    headers: Vec<u8>,
    body: Vec<u8>,
    phase: ReadPhase,
}

impl View for RequestReader {
    type V = ReaderView;

    closed spec fn view(&self) -> ReaderView {
        ReaderView {
            request_line: self.request_line@,
            headers: self.headers@,
            body: self.body@,
            phase: self.phase,
        }
    }
}

/// The end of the request line, scanning from `from`.
fn find_line_end(buf: &[u8], n: usize, from: usize) -> (r: Option<usize>)
    requires
        from <= n <= buf@.len(),
    ensures
        r matches Some(k) ==> line_end(buf@, n as int, from as int) == Some(k as int),
        r is None ==> line_end(buf@, n as int, from as int) is None,
{
    let len = buf.len();
    let mut j = from;
    while j < n
        invariant
            from <= j <= n,
            n <= buf@.len(),
            len == buf@.len(),
            line_end(buf@, n as int, from as int) == line_end(buf@, n as int, j as int),
        decreases n - j,
    {
        if buf[j] == 13 {
            if j + 1 >= len {
                return None;
            } else if buf[j + 1] == 10 {
                return Some(j);
            }
        }
        j = j + 1;
    }
    Some(j)
}

/// The end of the header section, scanning from `from`.
fn find_section_end(buf: &[u8], n: usize, from: usize) -> (r: Option<usize>)
    requires
        from <= n <= buf@.len(),
    ensures
        r matches Some(k) ==> section_end(buf@, n as int, from as int) == Some(k as int),
        r is None ==> section_end(buf@, n as int, from as int) is None,
{
    let len = buf.len();
    let mut j = from;
    while j < n
        invariant
            from <= j <= n,
            n <= buf@.len(),
            len == buf@.len(),
            section_end(buf@, n as int, from as int) == section_end(buf@, n as int, j as int),
        decreases n - j,
    {
        if buf[j] == 13 {
            if j + 1 >= len {
                return None;
            }
            if buf[j + 1] == 10 {
                if j + 2 >= len {
                    return None;
                }
                if buf[j + 2] == 13 {
                    if j + 3 >= len {
                        return None;
                    }
                    if buf[j + 3] == 10 {
                        return Some(j);
                    }
                }
            }
        }
        j = j + 1;
    }
    Some(j)
}

/// The end of the body, scanning from `from`.
fn find_body_end(buf: &[u8], n: usize, from: usize) -> (r: usize)
    requires
        from <= n <= buf@.len(),
    ensures
        r == body_end(buf@, n as int, from as int),
{
    let mut j = from;
    while j < n && buf[j] != 0
        invariant
            from <= j <= n,
            n <= buf@.len(),
            body_end(buf@, n as int, from as int) == body_end(buf@, n as int, j as int),
        decreases n - j,
    {
        j = j + 1;
    }
    j
}

/// Appends `buf[from..to]` to `out`.
fn append_range(out: &mut Vec<u8>, buf: &[u8], from: usize, to: usize)
    requires
        from <= to <= buf@.len(),
    ensures
        final(out)@ == old(out)@ + buf@.subrange(from as int, to as int),
{
    let mut k = from;
    while k < to
        invariant
            from <= k <= to <= buf@.len(),
            out@ == old(out)@ + buf@.subrange(from as int, k as int),
        decreases to - k,
    {
        out.push(buf[k]);
        proof {
            assert(buf@.subrange(from as int, k + 1) =~= buf@.subrange(from as int, k as int).push(
                buf@[k as int],
            ));
        }
        k = k + 1;
    }
}

impl RequestReader {
    /// A reader that has collected nothing and expects the request line.
    pub fn new() -> (r: RequestReader)
        ensures
            r@ == (ReaderView {
                request_line: Seq::empty(),
                headers: Seq::empty(),
                body: Seq::empty(),
                phase: ReadPhase::RequestLine,
            }),
    {
        RequestReader {
            request_line: Vec::new(),
            headers: Vec::new(),
            body: Vec::new(),
            phase: ReadPhase::RequestLine,
        }
    }

    /// Whether to read again: reading stops once the header section is complete.
    pub fn wants_more(&self) -> (r: bool)
        ensures
            r == (self@.phase != ReadPhase::Body),
    {
        match self.phase {
            ReadPhase::Body => false,
            _ => true,
        }
    }

    /// The part that the next bytes belong to.
    pub fn phase(&self) -> (r: ReadPhase)
        ensures
            r == self@.phase,
    {
        self.phase
    }

    /// Whether feeding `buffer` with `bytes_read` delivered bytes would look past the
    /// end of the buffer.
    pub fn chunk_overruns(&self, buffer: &[u8], bytes_read: usize) -> (r: bool)
        requires
            bytes_read <= buffer@.len(),
        ensures
            r == (scan_chunk(self@, buffer@, bytes_read as int) is None),
    {
        let n = bytes_read;
        let ghost buf = buffer@;
        let ghost mut st = self@;
        let mut phase = self.phase;
        let mut i: usize = 0;
        while i < n
            invariant
                n <= buf.len(),
                n == bytes_read,
                buf == buffer@,
                i <= n,
                st.phase == phase,
                scan_chunk(self@, buf, n as int) == scan_from(st, buf, n as int, i as int),
            decreases n - i,
        {
            match phase {
                ReadPhase::RequestLine => match find_line_end(buffer, n, i + 1) {
                    None => {
                        return true;
                    },
                    Some(j) => {
                        proof {
                            lemma_ends(buf, n as int, i + 1);
                            st = ReaderView {
                                request_line: st.request_line + buf.subrange(i as int, j as int),
                                phase: ReadPhase::Headers,
                                ..st
                            };
                        }
                        i = if n - j > 2 {
                            j + 2
                        } else {
                            n
                        };
                        phase = ReadPhase::Headers;
                    },
                },
                ReadPhase::Headers => match find_section_end(buffer, n, i + 1) {
                    None => {
                        return true;
                    },
                    Some(j) => {
                        proof {
                            lemma_ends(buf, n as int, i + 1);
                            st = ReaderView {
                                headers: st.headers + buf.subrange(i as int, j as int),
                                phase: ReadPhase::Body,
                                ..st
                            };
                        }
                        i = if n - j > 4 {
                            j + 4
                        } else {
                            n
                        };
                        phase = ReadPhase::Body;
                    },
                },
                ReadPhase::Body => {
                    let j = find_body_end(buffer, n, i + 1);
                    proof {
                        lemma_ends(buf, n as int, i + 1);
                        st = ReaderView {
                            body: st.body + buf.subrange(i as int, j as int),
                            phase: ReadPhase::Finished,
                            ..st
                        };
                    }
                    i = j;
                    phase = ReadPhase::Finished;
                },
                ReadPhase::Finished => {
                    return false;
                },
            }
        }
        false
    }

    /// Feeds the read buffer `buffer`, of which the read delivered the first
    /// `bytes_read` bytes. Starting at the first byte, and for as long as delivered
    /// bytes remain: the request line takes bytes up to the next CR LF, which is
    /// skipped; the header section takes bytes up to the next CR LF CR LF, which is
    /// skipped; the body takes bytes up to the next zero byte or the end of the
    /// delivered bytes. Each part takes at least its first byte. Bytes that remain
    /// once the body is complete are an error.
    pub fn accept_chunk(&mut self, buffer: &[u8], bytes_read: usize) -> (r: Result<(), ReadError>)
        requires
            bytes_read <= buffer@.len(),
            scan_chunk(old(self)@, buffer@, bytes_read as int) is Some,
        ensures
            scan_chunk(old(self)@, buffer@, bytes_read as int) == Some((final(self)@, r is Ok)),
            r matches Err(e) ==> e == ReadError::TooManyCrlf,
    {
        let n = bytes_read;
        let ghost buf = buffer@;
        let ghost start = *self;
        let mut i: usize = 0;
        while i < n
            invariant
                n <= buf.len(),
                n == bytes_read,
                buf == buffer@,
                start@ == old(self)@,
                i <= n,
                scan_chunk(start@, buf, n as int) is Some,
                scan_chunk(start@, buf, n as int) == scan_from(self@, buf, n as int, i as int),
            decreases n - i,
        {
            match self.phase {
                ReadPhase::RequestLine => {
                    let j = find_line_end(buffer, n, i + 1).unwrap();
                    proof {
                        lemma_ends(buf, n as int, i + 1);
                    }
                    append_range(&mut self.request_line, buffer, i, j);
                    self.phase = ReadPhase::Headers;
                    i = if n - j > 2 {
                        j + 2
                    } else {
                        n
                    };
                },
                ReadPhase::Headers => {
                    let j = find_section_end(buffer, n, i + 1).unwrap();
                    proof {
                        lemma_ends(buf, n as int, i + 1);
                    }
                    append_range(&mut self.headers, buffer, i, j);
                    self.phase = ReadPhase::Body;
                    i = if n - j > 4 {
                        j + 4
                    } else {
                        n
                    };
                },
                ReadPhase::Body => {
                    let j = find_body_end(buffer, n, i + 1);
                    proof {
                        lemma_ends(buf, n as int, i + 1);
                    }
                    append_range(&mut self.body, buffer, i, j);
                    self.phase = ReadPhase::Finished;
                    i = j;
                },
                ReadPhase::Finished => {
                    return Err(ReadError::TooManyCrlf);
                },
            }
        }
        Ok(())
    }

    /// Whether the collected bytes can be finished into a result.
    pub fn can_finish(&self) -> (r: bool)
        ensures
            r == finishable(self@),
    {
        match (
            utf8_str(self.request_line.as_slice()),
            utf8_str(self.headers.as_slice()),
            utf8_str(self.body.as_slice()),
        ) {
            (Some(line), Some(_), Some(_)) => {
                proof {
                    reveal_strlit(" ");
                }
                split_exec(line, " ").len() >= 3
            },
            _ => true,
        }
    }

    /// The request that the collected bytes make.
    pub fn finish(self) -> (r: Result<HttpRequest, ReadError>)
        requires
            finishable(self@),
        ensures
            r matches Ok(request) ==> finish_result(self@) == Ok::<RequestView, ReadError>(
                request@,
            ),
            r matches Err(e) ==> finish_result(self@) == Err::<RequestView, ReadError>(e),
    {
        let line = match utf8_str(self.request_line.as_slice()) {
            Some(s) => String::from_str(s),
            None => {
                return Err(ReadError::RequestLineNotUtf8);
            },
        };
        let headers = match utf8_str(self.headers.as_slice()) {
            Some(s) => String::from_str(s),
            None => {
                return Err(ReadError::HeadersNotUtf8);
            },
        };
        let body = match utf8_str(self.body.as_slice()) {
            Some(s) => String::from_str(s),
            None => {
                return Err(ReadError::BodyNotUtf8);
            },
        };
        let request_line = deserialize_requestline(line);
        let request_headers = deserialize_headers(headers);
        Ok(HttpRequest { request_line, headers: request_headers, body })
    }
}

} // verus!
