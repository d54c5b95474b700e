use http_server_starter_rust::config::{AppConfig, ConfigError};
use http_server_starter_rust::request_handler::{
    self, FileRead, FileRequest, Handling,
};
use http_server_starter_rust::request_reader::{ReadError, ReadPhase, RequestReader};
use http_server_starter_rust::{Headers, HttpRequest, HttpResponse, RequestLine};
use std::io::{Cursor, Read};

/// Feeds everything the stream delivers to a reader, as the server does, and finishes it.
fn read_request<S: Read>(stream: &mut S) -> Result<HttpRequest, ReadError> {
    let mut reader = RequestReader::new();
    let mut buffer = [0u8; 1024];
    while reader.wants_more() {
        let n = stream.read(&mut buffer).unwrap();
        if n == 0 {
            break;
        }
        assert!(!reader.chunk_overruns(&buffer, n));
        reader.accept_chunk(&buffer, n)?;
    }
    assert!(reader.can_finish());
    reader.finish()
}

fn request(target: &str, headers: Headers) -> HttpRequest {
    HttpRequest {
        request_line: RequestLine {
            method: "GET".to_string(),
            target: target.to_string(),
            version: "HTTP/1.1".to_string(),
        },
        headers,
        body: String::new(),
    }
}

fn respond(request: HttpRequest) -> HttpResponse {
    match request_handler::handle_request(request) {
        Handling::Respond(response) => response,
        Handling::ReadFile(_) => panic!("unexpected file request"),
    }
}

fn user_agent_foobar() -> Headers {
    let mut headers = Headers::new();
    headers.insert("User-Agent".to_string(), "foobar".to_string());
    headers
}

#[test]
fn init() {
    let report = AppConfig::from_arguments(&vec!["http-server".to_string()]);
    let config = report.config.unwrap();
    assert_eq!(config.serve_directory, "./tmp/");
    assert_eq!(config.port, 4221);
}

#[test]
fn test_deserialize_requestline_returns_requestline() {
    let requestline_string = "GET /abc HTTP/1.1".to_string();

    let result = request_handler::deserialize_requestline(requestline_string);

    assert_eq!(result.method, "GET");
    assert_eq!(result.target, "/abc");
    assert_eq!(result.version, "HTTP/1.1");
}

#[test]
fn test_deserialize_headers_returns_headers_1() {
    let requestheaders_string = "Date: Wed, 15 Aug 2024 12:00:00 GMT\r\nContent-Type: text/html; charset=UTF-8\r\nContent-Length: 138\r\nConnection: keep-alive".to_string();

    let result = request_handler::deserialize_headers(requestheaders_string);

    assert_eq!(result.get("Date").unwrap(), "Wed, 15 Aug 2024 12:00:00 GMT");
    assert_eq!(result.get("Content-Type").unwrap(), "text/html; charset=UTF-8");
    assert_eq!(result.get("Content-Length").unwrap(), "138");
    assert_eq!(result.get("Connection").unwrap(), "keep-alive");
}

#[test]
fn test_deserialize_headers_returns_headers_2() {
    let requestheaders_string = "Host: localhost:4221\r\nUser-Agent: foobar/1.2.3\r\nAccept: */*\r\n\r\n".to_string();

    let result = request_handler::deserialize_headers(requestheaders_string);

    assert_eq!(result.get("Host").unwrap(), "localhost:4221");
    assert_eq!(result.get("User-Agent").unwrap(), "foobar/1.2.3");
    assert_eq!(result.get("Accept").unwrap(), "*/*");
}

#[test]
fn test_read_stream_into_request_1() {
    let request = b"GET /echo/abc HTTP/1.1\r\nHost: localhost:4221\r\nUser-Agent: curl/7.64.1\r\nAccept: */*\r\n\r\n";

    let mut mock_stream = Cursor::new(request.to_vec());

    let request: HttpRequest = read_request(&mut mock_stream).unwrap();

    assert_eq!(request.request_line.method, "GET");
    assert_eq!(request.request_line.target, "/echo/abc");
    assert_eq!(request.request_line.version, "HTTP/1.1");
}

#[test]
fn test_read_stream_into_request_2() {
    let request = b"GET /user-agent HTTP/1.1\r\nHost: localhost:4221\r\nUser-Agent: foobar/1.2.3\r\nAccept: */*\r\n\r\n";

    let mut mock_stream = Cursor::new(request.to_vec());

    let request: HttpRequest = read_request(&mut mock_stream).unwrap();

    assert_eq!(request.request_line.method, "GET");
    assert_eq!(request.request_line.target, "/user-agent");
    assert_eq!(request.request_line.version, "HTTP/1.1");
    assert_eq!(request.headers.get("Host").unwrap(), "localhost:4221");
    assert_eq!(request.headers.get("User-Agent").unwrap(), "foobar/1.2.3");
    assert_eq!(request.headers.get("Accept").unwrap(), "*/*");
}

#[test]
fn test_read_stream_into_request_3() {
    let request = b"GET / HTTP/1.1\r\nHost: localhost:4221\r\nUser-Agent: curl/7.81.0\r\nAccept: */*\r\n\r\n";

    let mut mock_stream = Cursor::new(request.to_vec());

    let request: HttpRequest = read_request(&mut mock_stream).unwrap();

    assert_eq!(request.request_line.method, "GET");
    assert_eq!(request.request_line.target, "/");
    assert_eq!(request.request_line.version, "HTTP/1.1");
    assert_eq!(request.headers.get("Host").unwrap(), "localhost:4221");
    assert_eq!(request.headers.get("User-Agent").unwrap(), "curl/7.81.0");
    assert_eq!(request.headers.get("Accept").unwrap(), "*/*");
}

#[test]
fn test_handle_request_root() {
    let response = respond(request("/", Headers::new()));

    assert_eq!(response.status_code, 200);
    assert_eq!(response.reason_phrase, "OK");
}

#[test]
fn test_handle_request_404() {
    let response = respond(request("/unknown", Headers::new()));

    assert_eq!(response.status_code, 404);
    assert_eq!(response.reason_phrase, "Not Found");
}

#[test]
fn test_echo_path_returns_body_1() {
    let response = respond(request("/echo/abc", Headers::new()));

    assert_eq!(response.status_code, 200);
    assert!(response.headers.contains_key("Content-Type"));
    assert!(response.headers.contains_key("Content-Length"));
    assert_eq!(response.body, "abc")
}

#[test]
fn test_echo_path_returns_body_2() {
    let response = respond(request("/echo/zzzzz_ff", Headers::new()));

    assert_eq!(response.status_code, 200);
    assert!(response.headers.contains_key("Content-Type"));
    assert!(response.headers.contains_key("Content-Length"));
    assert_eq!(response.headers.get("Content-Length"), Some(&"8".to_string()));
    assert_eq!(response.body, "zzzzz_ff")
}

#[test]
fn test_echo_path_returns_body_3() {
    let response = respond(request("/echo/grape", Headers::new()));

    assert_eq!(response.status_code, 200);
    assert!(response.headers.contains_key("Content-Type"));
    assert!(response.headers.contains_key("Content-Length"));
    assert_eq!(response.headers.get("Content-Length"), Some(&"5".to_string()));
    assert_eq!(response.body, "grape")
}

#[test]
fn test_useragent_path_returns_body_1() {
    let response = respond(request("/user-agent", user_agent_foobar()));

    assert_eq!(response.status_code, 200);
}

#[test]
fn test_useragent_path_returns_body_2() {
    let response = respond(request("/user-agent", user_agent_foobar()));

    assert_eq!(response.status_code, 200);
    assert!(response.headers.contains_key("Content-Type"));
    assert!(response.headers.contains_key("Content-Length"));
    assert_eq!(response.headers.get("Content-Length"), Some(&"6".to_string()));
    assert_eq!(response.body, "foobar")
}

#[test]
fn test_files_path_returns_file_content() {
    let file_request = match request_handler::handle_request(request("/files/foo", user_agent_foobar())) {
        Handling::ReadFile(file_request) => file_request,
        Handling::Respond(_) => panic!("expected a file request"),
    };
    assert_eq!(file_request.file_name, "foo");

    let contents = "this is a test file bb. dare to dream and roll the dice, you only get the one.";
    let response = request_handler::respond_with_file(file_request, FileRead::Contents(contents.to_string()));

    assert_eq!(response.status_code, 200);
    assert!(response.headers.contains_key("Content-Type"));
    assert!(response.headers.contains_key("Content-Length"));
    assert_eq!(response.headers.get("Content-Length"), Some(&"78".to_string()));
    assert_eq!(response.body, "this is a test file bb. dare to dream and roll the dice, you only get the one.")
}

#[test]
fn test_files_path_returns_404_for_nonexistant_file() {
    let file_request = match request_handler::handle_request(request(
        "/files/non-existentmango_mango_orange_orange ",
        user_agent_foobar(),
    )) {
        Handling::ReadFile(file_request) => file_request,
        Handling::Respond(_) => panic!("expected a file request"),
    };
    assert_eq!(file_request.file_name, "non-existentmango_mango_orange_orange ");

    let response = request_handler::respond_with_file(file_request, FileRead::NotFound);

    assert_eq!(response.status_code, 404);
    assert_eq!(response.reason_phrase, "Not Found");
}

// Further cases.

#[test]
fn files_without_a_name_is_ok() {
    let response = respond(request("/files", Headers::new()));
    assert_eq!(response.status_code, 200);
    assert_eq!(response.reason_phrase, "OK");
    assert_eq!(response.headers.len(), 0);
    assert_eq!(response.body, "");
}

#[test]
fn file_errors_give_500_with_the_name() {
    let open_failed = request_handler::respond_with_file(
        FileRequest { version: "HTTP/1.1".to_string(), file_name: "a.txt".to_string() },
        FileRead::OpenFailed,
    );
    assert_eq!(open_failed.status_code, 500);
    assert_eq!(open_failed.reason_phrase, "Error opening file: a.txt");
    let read_failed = request_handler::respond_with_file(
        FileRequest { version: "HTTP/1.1".to_string(), file_name: "b.bin".to_string() },
        FileRead::ReadFailed,
    );
    assert_eq!(read_failed.status_code, 500);
    assert_eq!(read_failed.reason_phrase, "Error reading contents of b.bin");
    assert_eq!(read_failed.body, "");
}

#[test]
fn file_request_path_joins_directory_and_name() {
    let file_request = FileRequest { version: "HTTP/1.1".to_string(), file_name: "foo".to_string() };
    assert_eq!(file_request.path_in("./tmp/"), "./tmp/foo");
}

#[test]
fn echo_takes_only_the_second_component_and_counts_bytes() {
    let response = respond(request("/echo/h\u{e9}llo/world", Headers::new()));
    assert_eq!(response.body, "h\u{e9}llo");
    assert_eq!(response.headers.get("Content-Length"), Some(&"6".to_string()));
    assert_eq!(response.headers.get("Content-Type"), Some(&"text/plain".to_string()));
}

#[test]
fn echo_without_text_has_empty_body() {
    let response = respond(request("/echo", Headers::new()));
    assert_eq!(response.status_code, 200);
    assert_eq!(response.body, "");
    assert_eq!(response.headers.get("Content-Length"), Some(&"0".to_string()));
}

#[test]
fn user_agent_missing_gives_empty_body() {
    let response = respond(request("/user-agent", Headers::new()));
    assert_eq!(response.status_code, 200);
    assert_eq!(response.body, "");
}

#[test]
fn response_version_follows_request() {
    let mut req = request("/nowhere", Headers::new());
    req.request_line.version = "HTTP/1.0".to_string();
    let response = respond(req);
    assert_eq!(response.version, "HTTP/1.0");
    assert_eq!(response.status_code, 404);
}

#[test]
fn response_text_has_status_line_headers_and_body() {
    let response = respond(request("/echo/abc", Headers::new()));
    assert_eq!(
        response.to_string(),
        "HTTP/1.1 200 OK\r\nContent-Type: text/plain\r\nContent-Length: 3\r\n\r\nabc"
    );
    let bare = respond(request("/", Headers::new()));
    assert_eq!(bare.to_string(), "HTTP/1.1 200 OK\r\n\r\n");
}

#[test]
fn error_response_is_500_in_http_1_1() {
    let response = request_handler::error_response(ReadError::TooManyCrlf.message());
    assert_eq!(response.to_string(), "HTTP/1.1 500 Too many CRLF!\r\n\r\n");
}

#[test]
fn later_header_line_replaces_earlier_and_lines_without_colon_are_skipped() {
    let result = request_handler::deserialize_headers(
        "A: 1\r\nnot a header\r\n  A :  2  \r\nB:x:y".to_string(),
    );
    assert_eq!(result.len(), 2);
    assert_eq!(result.get("A").unwrap(), "2");
    assert_eq!(result.get("B").unwrap(), "x:y");
    assert_eq!(result.get("C"), None);
}

#[test]
fn header_insert_returns_replaced_value() {
    let mut headers = Headers::new();
    assert_eq!(headers.insert("K".to_string(), "1".to_string()), None);
    assert_eq!(headers.insert("K".to_string(), "2".to_string()), Some("1".to_string()));
    assert_eq!(headers.get("K").unwrap(), "2");
    assert_eq!(headers.len(), 1);
}

#[test]
fn request_line_with_more_parts_keeps_first_three() {
    let result = request_handler::deserialize_requestline("POST /a  HTTP/1.1".to_string());
    assert_eq!(result.method, "POST");
    assert_eq!(result.target, "/a");
    assert_eq!(result.version, "");
}

#[test]
fn body_in_the_same_read_is_collected() {
    let mut stream = Cursor::new(b"POST /x HTTP/1.1\r\nHost: h\r\n\r\nhello".to_vec());
    let request = read_request(&mut stream).unwrap();
    assert_eq!(request.request_line.method, "POST");
    assert_eq!(request.body, "hello");
}

#[test]
fn bytes_after_a_zero_ended_body_are_too_many() {
    let mut reader = RequestReader::new();
    let buffer = b"GET / HTTP/1.1\r\nHost: h\r\n\r\nab\0cd";
    assert_eq!(reader.accept_chunk(buffer, buffer.len()), Err(ReadError::TooManyCrlf));
}

#[test]
fn reading_stops_once_headers_end_at_the_read_end() {
    let mut reader = RequestReader::new();
    let buffer = b"GET / HTTP/1.1\r\nHost: h\r\n\r\n";
    assert!(reader.accept_chunk(buffer, buffer.len()).is_ok());
    assert_eq!(reader.phase(), ReadPhase::Body);
    assert!(!reader.wants_more());
}

#[test]
fn carriage_return_in_last_buffer_byte_overruns() {
    let reader = RequestReader::new();
    let mut buffer = [b'a'; 8];
    buffer[7] = 13;
    assert!(reader.chunk_overruns(&buffer, 8));
    assert!(!reader.chunk_overruns(&buffer, 7));
}

#[test]
fn invalid_utf8_request_line_is_reported() {
    let mut reader = RequestReader::new();
    let buffer = b"\xffGET / HTTP/1.1\r\nHost: h\r\n\r\n";
    reader.accept_chunk(buffer, buffer.len()).unwrap();
    assert!(reader.can_finish());
    match reader.finish() {
        Err(e) => {
            assert_eq!(e, ReadError::RequestLineNotUtf8);
            assert_eq!(e.message(), "Could not parse request_line into UTF8 string");
        }
        Ok(_) => panic!("expected an error"),
    }
}

#[test]
fn short_request_line_cannot_be_finished() {
    let mut reader = RequestReader::new();
    let buffer = b"GET\r\nHost: h\r\n\r\n";
    reader.accept_chunk(buffer, buffer.len()).unwrap();
    assert!(!reader.can_finish());
}

#[test]
fn directory_argument_sets_served_directory() {
    let args: Vec<String> = vec!["server", "--directory", "/srv/", "extra", "--directory", "/data/"]
        .into_iter()
        .map(|s| s.to_string())
        .collect();
    let report = AppConfig::from_arguments(&args);
    let config = report.config.unwrap();
    assert_eq!(config.serve_directory, "/data/");
    assert_eq!(config.port, 4221);
    assert_eq!(report.unsupported, vec!["server", "/srv/", "extra", "/data/"]);
}

#[test]
fn directory_argument_without_value_is_an_error() {
    let args: Vec<String> = vec!["server".to_string(), "--directory".to_string()];
    let report = AppConfig::from_arguments(&args);
    assert!(matches!(report.config, Err(ConfigError::MissingDirectoryValue)));
    assert_eq!(report.unsupported, vec!["server"]);
}

#[test]
fn a_request_line_cut_by_a_read_moves_on_to_the_headers() {
    let mut reader = RequestReader::new();
    let first = b"GET / HT";
    reader.accept_chunk(first, first.len()).unwrap();
    assert_eq!(reader.phase(), ReadPhase::Headers);
    let second = b"TP/1.1\r\n\r\n";
    reader.accept_chunk(second, second.len()).unwrap();
    assert_eq!(reader.phase(), ReadPhase::Body);
    assert!(reader.can_finish());
    let request = reader.finish().unwrap();
    assert_eq!(request.request_line.version, "HT");
    assert_eq!(request.headers.len(), 0);
}
