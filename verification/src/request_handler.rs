//! Parsing of request lines and header sections, and the routing of requests to responses.
use vstd::prelude::*;
use vstd::string::*;

use crate::headers::{index_of, insert_entry, lookup, HeaderEntries, Headers};
use crate::text::{
    decimal, decimal_string, split, split_exec, split_once, split_once_exec, trim, trim_exec,
};
use crate::{HttpRequest, HttpResponse, RequestLine, RequestLineView, RequestView, ResponseView};

verus! {

/// The request line: the first three space-separated components of `line`.
pub open spec fn request_line_of(line: Seq<char>) -> RequestLineView {
    let parts = split(line, " "@);
    RequestLineView { method: parts[0], target: parts[1], version: parts[2] }
}

/// A request line has at least three space-separated components.
pub open spec fn has_three_parts(line: Seq<char>) -> bool {
    split(line, " "@).len() >= 3
}

/// Parses a request line such as `GET /index.html HTTP/1.1`.
pub fn deserialize_requestline(request_line_string: String) -> (r: RequestLine)
    requires
        has_three_parts(request_line_string@),
    ensures
        r@ == request_line_of(request_line_string@),
{
    proof {
        reveal_strlit(" ");
    }
    let parts = split_exec(request_line_string.as_str(), " ");
    RequestLine {
        method: parts[0].clone(),
        target: parts[1].clone(),
        version: parts[2].clone(),
    }
}

/// The header table that a sequence of header lines describes: each line that holds
/// a `:` stores its trimmed value under its trimmed name, later lines overwriting
/// earlier ones; lines without `:` are skipped.
pub open spec fn header_table(lines: Seq<Seq<char>>) -> HeaderEntries
    decreases lines.len(),
{
    if lines.len() == 0 {
        Seq::empty()
    } else {
        let before = header_table(lines.drop_last());
        match split_once(lines.last(), ":"@) {
            Some((name, value)) => insert_entry(before, trim(name), trim(value)),
            None => before,
        }
    }
}

/// The header table of a header section whose lines are separated by CRLF.
pub open spec fn headers_of(section: Seq<char>) -> HeaderEntries {
    header_table(split(section, "\r\n"@))
}

/// The value that the last of `lines` naming `name` gives it (trimmed), if any line does.
pub open spec fn last_value_for(lines: Seq<Seq<char>>, name: Seq<char>) -> Option<Seq<char>>
    decreases lines.len(),
{
    if lines.len() == 0 {
        None
    } else {
        match split_once(lines.last(), ":"@) {
            Some(p) => if trim(p.0) == name {
                Some(trim(p.1))
            } else {
                last_value_for(lines.drop_last(), name)
            },
            None => last_value_for(lines.drop_last(), name),
        }
    }
}

/// In a parsed header table every name occurs once, and a name's value is the
/// trimmed value of the last header line that names it: a later line with the
/// same name replaces an earlier one.
pub proof fn lemma_header_table_lookup(lines: Seq<Seq<char>>, name: Seq<char>)
    ensures
        crate::headers::names_distinct(header_table(lines)),
        lookup(header_table(lines), name) == last_value_for(lines, name),
    decreases lines.len(),
{
    if lines.len() > 0 {
        let before = header_table(lines.drop_last());
        lemma_header_table_lookup(lines.drop_last(), name);
        if let Some(p) = split_once(lines.last(), ":"@) {
            crate::headers::lemma_insert_then_lookup(before, trim(p.0), trim(p.1), name);
        }
    }
}

/// Parses a header section into a header table.
pub fn deserialize_headers(request_headers_string: String) -> (r: Headers)
    ensures
        r@ == headers_of(request_headers_string@),
{
    proof {
        reveal_strlit("\r\n");
        reveal_strlit(":");
    }
    let mut header_map = Headers::new();
    let header_strings = split_exec(request_headers_string.as_str(), "\r\n");
    let ghost lines = split(request_headers_string@, "\r\n"@);
    let n = header_strings.len();
    let mut i: usize = 0;
    assert(lines.take(0) =~= Seq::<Seq<char>>::empty());
    while i < n
        invariant
            n == header_strings@.len(),
            n == lines.len(),
            i <= n,
            forall|k: int| 0 <= k < n ==> #[trigger] header_strings@[k]@ == lines[k],
            header_map@ == header_table(lines.take(i as int)),
        decreases n - i,
    {
        let line = &header_strings[i];
        proof {
            reveal_strlit(":");
            assert(lines.take(i + 1).drop_last() =~= lines.take(i as int));
            assert(lines.take(i + 1).last() == lines[i as int]);
        }
        if let Some((header_key, header_value)) = split_once_exec(line.as_str(), ":") {
            let key = trim_exec(header_key.as_str());
            let value = trim_exec(header_value.as_str());
            header_map.insert(key, value);
        }
        i = i + 1;
    }
    assert(lines.take(n as int) =~= lines);
    header_map
}

/// A file named by a request for `/files/<name>`, together with the protocol version to answer in.
pub struct FileRequest {
    pub version: String,
    pub file_name: String,
}

/// What reading a requested file gave.
pub enum FileRead {
    /// The file's contents.
    Contents(String),
    /// The file does not exist.
    NotFound,
    /// The file exists but could not be opened.
    OpenFailed,
    /// The file was opened but its contents could not be read as text.
    ReadFailed,
}

/// A file request as character sequences.
pub struct FileRequestView {
    pub version: Seq<char>,
    pub file_name: Seq<char>,
}

impl View for FileRequest {
    type V = FileRequestView;

    open spec fn view(&self) -> FileRequestView {
        FileRequestView { version: self.version@, file_name: self.file_name@ }
    }
}

/// What a request asks for: an immediate response, or the contents of a file first.
pub enum Handling {
    Respond(HttpResponse),
    ReadFile(FileRequest),
}

/// A handling decision as views.
pub enum HandlingView {
    Respond(ResponseView),
    ReadFile(FileRequestView),
}

impl View for Handling {
    type V = HandlingView;

    open spec fn view(&self) -> HandlingView {
        match self {
            Handling::Respond(r) => HandlingView::Respond(r@),
            Handling::ReadFile(f) => HandlingView::ReadFile(f@),
        }
    }
}

/// A response with a status and reason but no header fields and no body.
pub open spec fn bare_response(version: Seq<char>, status_code: u32, reason: Seq<char>) -> ResponseView {
    ResponseView {
        version,
        status_code,
        reason_phrase: reason,
        headers: Seq::empty(),
        body: Seq::empty(),
    }
}

/// The number of bytes in the UTF-8 encoding of `s`, as a machine word (`str::len`).
pub open spec fn byte_count(s: Seq<char>) -> usize {
    vstd::utf8::encode_utf8(s).len() as usize
}

/// A `200 OK` response carrying `body`, with its content type and its length in bytes.
pub open spec fn content_response(version: Seq<char>, content_type: Seq<char>, body: Seq<char>) -> ResponseView {
    ResponseView {
        version,
        status_code: 200,
        reason_phrase: "OK"@,
        headers: seq![
            ("Content-Type"@, content_type),
            ("Content-Length"@, decimal(byte_count(body) as nat)),
        ],
        body,
    }
}

/// The components of a request target's path: the target without its leading
/// character, split at every `/`.
pub open spec fn path_components(target: Seq<char>) -> Seq<Seq<char>> {
    split(target.subrange(1, target.len() as int), "/"@)
}

/// How a request is answered, by the first component of its path:
/// - empty (`/`): `200 OK`;
/// - `echo`: the second component, as `text/plain`;
/// - `user-agent`: the `User-Agent` header's value, as `text/plain`;
/// - `files`: the file named by the second component (`200 OK` when there is none);
/// - anything else: `404 Not Found`.
pub open spec fn handling_of(request: RequestView) -> HandlingView {
    let parts = path_components(request.request_line.target);
    let version = request.request_line.version;
    let second = if parts.len() > 1 {
        parts[1]
    } else {
        Seq::empty()
    };
    if parts[0] == ""@ {
        HandlingView::Respond(bare_response(version, 200, "OK"@))
    } else if parts[0] == "echo"@ {
        HandlingView::Respond(content_response(version, "text/plain"@, second))
    } else if parts[0] == "user-agent"@ {
        let agent = match lookup(request.headers, "User-Agent"@) {
            Some(v) => v,
            None => Seq::empty(),
        };
        HandlingView::Respond(content_response(version, "text/plain"@, agent))
    } else if parts[0] == "files"@ {
        if parts.len() > 1 {
            HandlingView::ReadFile(FileRequestView { version, file_name: parts[1] })
        } else {
            HandlingView::Respond(bare_response(version, 200, "OK"@))
        }
    } else {
        HandlingView::Respond(bare_response(version, 404, "Not Found"@))
    }
}

/// The request target can be cut after its first byte: it is not empty and its
/// first character is ASCII.
pub open spec fn target_is_sliceable(target: Seq<char>) -> bool {
    target.len() >= 1 && (target[0] as u32) < 0x80
}

/// A response without header fields or body.
fn bare(version: String, status_code: u32, reason: &str) -> (r: HttpResponse)
    ensures
        r@ == bare_response(version@, status_code, reason@),
{
    HttpResponse {
        version,
        status_code,
        reason_phrase: String::from_str(reason),
        headers: Headers::new(),
        body: String::new(),
    }
}

/// A `200 OK` response with `body` and its content type and length.
fn with_content(version: String, content_type: &str, body: String) -> (r: HttpResponse)
    ensures
        r@ == content_response(version@, content_type@, body@),
{
    let mut headers = Headers::new();
    proof {
        reveal_strlit("Content-Type");
        reveal_strlit("Content-Length");
        assert("Content-Type"@ != "Content-Length"@) by {
            assert("Content-Type"@[8] != "Content-Length"@[8]);
        }
    }
    headers.insert(String::from_str("Content-Type"), String::from_str(content_type));
    assert(headers@ =~= seq![("Content-Type"@, content_type@)]);
    let length = body.as_str().len();
    let digits = decimal_string(length as u64);
    assert(length == byte_count(body@));
    assert(digits@ == decimal(byte_count(body@) as nat));
    let ghost before = headers@;
    assert(crate::headers::index_from(before, "Content-Length"@, 1) is None);
    assert(index_of(before, "Content-Length"@) is None);
    headers.insert(String::from_str("Content-Length"), digits);
    proof {
        assert(headers@ =~= seq![
            ("Content-Type"@, content_type@),
            ("Content-Length"@, decimal(byte_count(body@) as nat)),
        ]);
    }
    HttpResponse {
        version,
        status_code: 200,
        reason_phrase: String::from_str("OK"),
        headers,
        body,
    }
}

/// Decides how to answer a request: a response, or a file to read first.
pub fn handle_request(request: HttpRequest) -> (r: Handling)
    requires
        target_is_sliceable(request@.request_line.target),
    ensures
        r@ == handling_of(request@),
{
    let target = request.request_line.target.as_str();
    let path = crate::text::substring(target, 1, target.unicode_len());
    proof {
        reveal_strlit("/");
    }
    let path_components = split_exec(path.as_str(), "/");
    let version = request.request_line.version;
    let first = &path_components[0];
    proof {
        crate::text::lemma_split_from_nonempty(path@, "/"@, 0);
    }
    if *first == String::from_str("") {
        Handling::Respond(bare(version, 200, "OK"))
    } else if *first == String::from_str("echo") {
        let body = if path_components.len() > 1 {
            path_components[1].clone()
        } else {
            String::new()
        };
        Handling::Respond(with_content(version, "text/plain", body))
    } else if *first == String::from_str("user-agent") {
        let body = match request.headers.get("User-Agent") {
            Some(value) => value.clone(),
            None => String::new(),
        };
        Handling::Respond(with_content(version, "text/plain", body))
    } else if *first == String::from_str("files") {
        if path_components.len() > 1 {
            Handling::ReadFile(FileRequest { version, file_name: path_components[1].clone() })
        } else {
            Handling::Respond(bare(version, 200, "OK"))
        }
    } else {
        Handling::Respond(bare(version, 404, "Not Found"))
    }
}

/// The answer to a file request, given what reading the file gave.
pub open spec fn file_response(request: FileRequestView, read: FileRead) -> ResponseView {
    match read {
        FileRead::Contents(contents) => content_response(
            request.version,
            "application/octet-stream"@,
            contents@,
        ),
        FileRead::NotFound => bare_response(request.version, 404, "Not Found"@),
        FileRead::OpenFailed => bare_response(
            request.version,
            500,
            "Error opening file: "@ + request.file_name,
        ),
        FileRead::ReadFailed => bare_response(
            request.version,
            500,
            "Error reading contents of "@ + request.file_name,
        ),
    }
}

/// Answers a file request once the file has been read.
pub fn respond_with_file(request: FileRequest, read: FileRead) -> (r: HttpResponse)
    ensures
        r@ == file_response(request@, read),
{
    match read {
        FileRead::Contents(contents) => with_content(
            request.version,
            "application/octet-stream",
            contents,
        ),
        FileRead::NotFound => bare(request.version, 404, "Not Found"),
        FileRead::OpenFailed => {
            let reason = String::from_str("Error opening file: ").concat(request.file_name.as_str());
            let r = HttpResponse {
                version: request.version,
                status_code: 500,
                reason_phrase: reason,
                headers: Headers::new(),
                body: String::new(),
            };
            r
        },
        FileRead::ReadFailed => {
            let reason = String::from_str("Error reading contents of ").concat(
                request.file_name.as_str(),
            );
            let r = HttpResponse {
                version: request.version,
                status_code: 500,
                reason_phrase: reason,
                headers: Headers::new(),
                body: String::new(),
            };
            r
        },
    }
}

impl FileRequest {
    /// The path of the requested file inside `directory` (the two joined as text).
    pub fn path_in(&self, directory: &str) -> (r: String)
        ensures
            r@ == directory@ + self.file_name@,
    {
        String::from_str(directory).concat(self.file_name.as_str())
    }
}

/// The `500` response sent when a request cannot be read: protocol `HTTP/1.1`,
/// the error's message as reason, no header fields and no body.
pub fn error_response(reason: String) -> (r: HttpResponse)
    ensures
        r@ == bare_response("HTTP/1.1"@, 500, reason@),
{
    HttpResponse {
        version: String::from_str("HTTP/1.1"),
        status_code: 500,
        reason_phrase: reason,
        headers: Headers::new(),
        body: String::new(),
    }
}

/// A content response's `Content-Length` field holds its body's length in bytes.
proof fn lemma_content_response_length(version: Seq<char>, content_type: Seq<char>, body: Seq<char>)
    ensures
        lookup(content_response(version, content_type, body).headers, "Content-Length"@) == Some(
            decimal(byte_count(body) as nat),
        ),
{
    reveal_strlit("Content-Type");
    reveal_strlit("Content-Length");
    assert("Content-Type"@[8] != "Content-Length"@[8]);
    let e = content_response(version, content_type, body).headers;
    assert(crate::headers::index_from(e, "Content-Length"@, 1) == Some(1int));
    assert(crate::headers::index_from(e, "Content-Length"@, 0) == Some(1int));
}

/// Every response that carries a body, whether it answers a request directly or
/// answers a file request, states the body's length in bytes, as a decimal
/// numeral, in its `Content-Length` field.
pub proof fn lemma_body_length_is_stated(request: RequestView, file: FileRequestView, read: FileRead)
    ensures
        handling_of(request) matches HandlingView::Respond(r) ==> (r.body.len() > 0 ==> lookup(
            r.headers,
            "Content-Length"@,
        ) == Some(decimal(byte_count(r.body) as nat))),
        file_response(file, read).body.len() > 0 ==> lookup(
            file_response(file, read).headers,
            "Content-Length"@,
        ) == Some(decimal(byte_count(file_response(file, read).body) as nat)),
{
    let parts = path_components(request.request_line.target);
    let version = request.request_line.version;
    let second = if parts.len() > 1 {
        parts[1]
    } else {
        Seq::empty()
    };
    let agent = match lookup(request.headers, "User-Agent"@) {
        Some(v) => v,
        None => Seq::empty(),
    };
    lemma_content_response_length(version, "text/plain"@, second);
    lemma_content_response_length(version, "text/plain"@, agent);
    if let FileRead::Contents(c) = read {
        lemma_content_response_length(file.version, "application/octet-stream"@, c@);
    }
}

/// The value the last of `lines` naming `name` gives it: if line `k` names `name`
/// and no later line does, it is line `k`'s trimmed value; if no line names it, there is none.
proof fn lemma_last_value_for(lines: Seq<Seq<char>>, name: Seq<char>, k: int, value: Seq<char>)
    requires
        0 <= k < lines.len() ==> (split_once(lines[k], ":"@) matches Some(p) && trim(p.0) == name
            && trim(p.1) == value),
        forall|m: int|
            0 <= m < lines.len() && m != k && (k < 0 || k >= lines.len() || m > k) ==> (
            #[trigger] split_once(lines[m], ":"@) matches Some(p) ==> trim(p.0) != name),
    ensures
        last_value_for(lines, name) == (if 0 <= k < lines.len() {
            Some(value)
        } else {
            None
        }),
    decreases lines.len(),
{
    if lines.len() > 0 {
        let last = lines.len() - 1;
        if k != last {
            let shorter = lines.drop_last();
            assert forall|m: int|
                0 <= m < shorter.len() && m != k && (k < 0 || k >= shorter.len() || m > k) implies (
                #[trigger] split_once(shorter[m], ":"@) matches Some(p) ==> trim(p.0) != name) by {
                assert(shorter[m] == lines[m]);
            }
            if 0 <= k < shorter.len() {
                assert(shorter[k] == lines[k]);
            }
            assert(split_once(lines[last], ":"@) matches Some(p) ==> trim(p.0) != name);
            lemma_last_value_for(shorter, name, k, value);
        }
    }
}

/// Parsing a header section reads every line of it: the value of a name is the
/// trimmed value (after the first `:`) of the last line of the section that names
/// it, and a name that no line names is absent.
pub proof fn lemma_header_section_lookup(section: Seq<char>, name: Seq<char>, k: int, value: Seq<char>)
    requires
        0 <= k < split(section, "\r\n"@).len() ==> (split_once(split(section, "\r\n"@)[k], ":"@) matches Some(
            p,
        ) && trim(p.0) == name && trim(p.1) == value),
        forall|m: int|
            0 <= m < split(section, "\r\n"@).len() && m != k && (k < 0 || k >= split(
                section,
                "\r\n"@,
            ).len() || m > k) ==> (#[trigger] split_once(split(section, "\r\n"@)[m], ":"@) matches Some(p)
                ==> trim(p.0) != name),
    ensures
        lookup(headers_of(section), name) == (if 0 <= k < split(section, "\r\n"@).len() {
            Some(value)
        } else {
            None
        }),
        lookup(headers_of(section), name) == last_value_for(split(section, "\r\n"@), name),
{
    let lines = split(section, "\r\n"@);
    lemma_header_table_lookup(lines, name);
    lemma_last_value_for(lines, name, k, value);
}

/// A request for `/user-agent` is answered `200 OK`, as `text/plain`, with the
/// value of its own `User-Agent` field as the body (empty when it has none),
/// whatever other fields it carries.
pub proof fn lemma_user_agent_is_echoed(request: RequestView)
    requires
        path_components(request.request_line.target)[0] == "user-agent"@,
    ensures
        handling_of(request) matches HandlingView::Respond(r) && r.status_code == 200
            && r.version == request.request_line.version && r.body == (match lookup(
            request.headers,
            "User-Agent"@,
        ) {
            Some(v) => v,
            None => Seq::<char>::empty(),
        }) && lookup(r.headers, "Content-Type"@) == Some("text/plain"@),
{
    reveal_strlit("user-agent");
    reveal_strlit("");
    reveal_strlit("echo");
    reveal_strlit("Content-Type");
    let parts = path_components(request.request_line.target);
    assert(parts[0].len() == 10);
    assert(parts[0] != ""@);
    assert(parts[0] != "echo"@);
    let agent = match lookup(request.headers, "User-Agent"@) {
        Some(v) => v,
        None => Seq::<char>::empty(),
    };
    let r = content_response(request.request_line.version, "text/plain"@, agent);
    assert(handling_of(request) == HandlingView::Respond(r));
    assert(r.headers[0].0 == "Content-Type"@);
    assert(crate::headers::index_from(r.headers, "Content-Type"@, 0) == Some(0int));
}

/// How a request is answered depends on its header fields only through the value
/// of `User-Agent`: two requests with the same request line and the same
/// `User-Agent` value (or both without one) are answered alike.
pub proof fn lemma_only_user_agent_matters(a: RequestView, b: RequestView)
    requires
        a.request_line == b.request_line,
        lookup(a.headers, "User-Agent"@) == lookup(b.headers, "User-Agent"@),
    ensures
        handling_of(a) == handling_of(b),
{
}

/// A file that was read is served unchanged: `200 OK`, the file's text as the body
/// byte for byte, `application/octet-stream` as its type and its length in bytes.
pub proof fn lemma_file_served_unchanged(file: FileRequestView, contents: String)
    ensures
        file_response(file, FileRead::Contents(contents)).status_code == 200,
        file_response(file, FileRead::Contents(contents)).version == file.version,
        file_response(file, FileRead::Contents(contents)).body == contents@,
        lookup(file_response(file, FileRead::Contents(contents)).headers, "Content-Type"@) == Some(
            "application/octet-stream"@,
        ),
        lookup(file_response(file, FileRead::Contents(contents)).headers, "Content-Length"@) == Some(
            decimal(byte_count(contents@) as nat),
        ),
{
    lemma_content_response_length(file.version, "application/octet-stream"@, contents@);
    let r = file_response(file, FileRead::Contents(contents));
    assert(crate::headers::index_from(r.headers, "Content-Type"@, 0) == Some(0int));
}

} // verus!
