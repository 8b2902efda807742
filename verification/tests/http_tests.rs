use http_server::cli::{CliError, CliOption};
use http_server::errors::HttpError;
use http_server::request::{HttpRequest, Method};
use http_server::response::{error_response, Body, HttpResponse, StatusCode};
use http_server::routes::{file_response, handle_request, RouteAction};

fn parse(bytes: &[u8]) -> Result<HttpRequest, HttpError> {
    HttpRequest::parse(bytes)
}

fn respond(input: &[u8], options: &Vec<CliOption>) -> HttpResponse {
    let request = parse(input).expect("request should parse");
    match handle_request(&request, options).expect("dispatch should succeed") {
        RouteAction::Respond(response) => response,
        RouteAction::ServeFile(_) => panic!("expected a direct response"),
    }
}

#[test]
fn request_line_tokens_recovered() {
    let req = parse(b"GET /some/path HTTP/1.1\r\n\r\n").unwrap();
    assert_eq!(req.method, Method::GET);
    assert_eq!(req.path, "/some/path");
    assert_eq!(req.http_version, "HTTP/1.1");
    assert!(req.headers.is_empty());
    assert!(req.body.is_none());

    let req = parse(b"POST /x HTTP/1.1\r\n\r\n").unwrap();
    assert_eq!(req.method, Method::POST);
}

#[test]
fn request_line_extra_tokens_ignored() {
    let req = parse(b"GET /a HTTP/1.1 extra tokens\r\n\r\n").unwrap();
    assert_eq!(req.method, Method::GET);
    assert_eq!(req.path, "/a");
    assert_eq!(req.http_version, "HTTP/1.1");
}

#[test]
fn request_line_too_few_tokens() {
    assert_eq!(parse(b"GET /\r\n").unwrap_err(), HttpError::MalformedRequestLine);
    assert_eq!(parse(b"").unwrap_err(), HttpError::MalformedRequestLine);
}

#[test]
fn unknown_method_rejected() {
    assert_eq!(parse(b"PUT / HTTP/1.1\r\n\r\n").unwrap_err(), HttpError::InvalidMethod);
    assert_eq!(parse(b"get / HTTP/1.1\r\n\r\n").unwrap_err(), HttpError::InvalidMethod);
}

#[test]
fn malformed_header_line_skipped() {
    let req = parse(
        b"GET / HTTP/1.1\r\nHost: here\r\nnodelimiter\r\nUser-Agent: ua\r\nA: b: c\r\n\r\n",
    )
    .unwrap();
    assert_eq!(req.headers.len(), 2);
    assert_eq!(req.headers[0].name, "Host");
    assert_eq!(req.headers[0].value, "here");
    assert_eq!(req.headers[1].name, "User-Agent");
    assert_eq!(req.headers[1].value, "ua");
}

#[test]
fn header_lookup_is_case_sensitive() {
    let req = parse(b"GET / HTTP/1.1\r\nHost: here\r\n\r\n").unwrap();
    assert!(req.get_header("Host").is_some());
    assert!(req.get_header("host").is_none());
    assert_eq!(req.get_header("Host").unwrap().value, "here");
}

#[test]
fn content_length_zero_gives_empty_present_body() {
    let with = parse(b"POST /x HTTP/1.1\r\nContent-Length: 0\r\n\r\n").unwrap();
    assert_eq!(with.body, Some(vec![]));
    let without = parse(b"POST /x HTTP/1.1\r\n\r\n").unwrap();
    assert_eq!(without.body, None);
}

#[test]
fn content_length_takes_trailing_bytes() {
    let req = parse(b"POST /x HTTP/1.1\r\nContent-Length: 3\r\n\r\nabcdef").unwrap();
    assert_eq!(req.body, Some(b"def".to_vec()));
}

#[test]
fn content_length_accepts_leading_plus() {
    let req = parse(b"POST /x HTTP/1.1\r\nContent-Length: +2\r\n\r\nhi").unwrap();
    assert_eq!(req.body, Some(b"hi".to_vec()));
}

#[test]
fn content_length_rejects_garbage() {
    assert_eq!(
        parse(b"POST /x HTTP/1.1\r\nContent-Length: abc\r\n\r\n").unwrap_err(),
        HttpError::InvalidContentLength
    );
    assert_eq!(
        parse(b"POST /x HTTP/1.1\r\nContent-Length: -1\r\n\r\n").unwrap_err(),
        HttpError::InvalidContentLength
    );
    assert_eq!(
        parse(b"POST /x HTTP/1.1\r\nContent-Length: \r\n\r\n").unwrap_err(),
        HttpError::InvalidContentLength
    );
    assert_eq!(
        parse(b"POST /x HTTP/1.1\r\nContent-Length: 99999999999999999999999\r\n\r\n")
            .unwrap_err(),
        HttpError::InvalidContentLength
    );
}

#[test]
fn content_length_beyond_buffer_is_truncated_body() {
    assert_eq!(
        parse(b"POST /x HTTP/1.1\r\nContent-Length: 999\r\n\r\nshort").unwrap_err(),
        HttpError::TruncatedBody
    );
}

#[test]
fn bare_line_feeds_are_line_endings_too() {
    let req = parse(b"GET / HTTP/1.1\nHost: x\n\n").unwrap();
    assert_eq!(req.path, "/");
    assert_eq!(req.headers.len(), 1);
    assert_eq!(req.headers[0].name, "Host");
    assert_eq!(req.headers[0].value, "x");
}

#[test]
fn body_bytes_are_taken_raw() {
    let req = parse(b"POST /x HTTP/1.1\r\nContent-Length: 4\r\n\r\na\r\nb").unwrap();
    assert_eq!(req.body, Some(b"a\r\nb".to_vec()));
}

#[test]
fn first_content_length_header_wins() {
    let req = parse(
        b"POST /x HTTP/1.1\r\nContent-Length: 2\r\nContent-Length: 5\r\n\r\nabcde",
    )
    .unwrap();
    assert_eq!(req.body, Some(b"de".to_vec()));
}

#[test]
fn invalid_utf8_is_replaced_not_rejected() {
    let req = parse(b"GET /\xff HTTP/1.1\r\n\r\n").unwrap();
    assert_eq!(req.path, "/\u{fffd}");
}

#[test]
fn serialize_text_body_content_length_matches() {
    let r = HttpResponse::new(StatusCode::Okay, Body::Text(String::from("hello")));
    let bytes = r.to_bytes();
    let expected: &[u8] =
        b"HTTP/1.1 200 OK\r\nContent-Type: text/plain\r\nContent-Length: 5\r\n\r\nhello\r\n\r\n";
    assert_eq!(bytes, expected);
}

#[test]
fn serialize_counts_bytes_not_chars() {
    let r = HttpResponse::new(StatusCode::Okay, Body::Text(String::from("é")));
    let bytes = r.to_bytes();
    let expected: &[u8] =
        b"HTTP/1.1 200 OK\r\nContent-Type: text/plain\r\nContent-Length: 2\r\n\r\n\xc3\xa9\r\n\r\n";
    assert_eq!(bytes, expected);
}

#[test]
fn serialize_binary_body_verbatim() {
    let r = HttpResponse::new(StatusCode::Okay, Body::BinaryData(vec![0, 159, 255, 10]));
    let bytes = r.to_bytes();
    let mut expected = Vec::new();
    expected.extend_from_slice(
        b"HTTP/1.1 200 OK\r\nContent-Type: application/octet-stream\r\nContent-Length: 4\r\n\r\n",
    );
    expected.extend_from_slice(&[0, 159, 255, 10]);
    expected.extend_from_slice(b"\r\n\r\n");
    assert_eq!(bytes, expected);
}

#[test]
fn serialize_empty_body_statuses() {
    assert_eq!(HttpResponse::ok().to_bytes(), b"HTTP/1.1 200 OK\r\n\r\n".to_vec());
    assert_eq!(
        HttpResponse::not_found().to_bytes(),
        b"HTTP/1.1 404 Not Found\r\n\r\n".to_vec()
    );
    assert_eq!(
        HttpResponse::new(StatusCode::Created, Body::Empty).to_bytes(),
        b"HTTP/1.1 201 Created\r\n\r\n".to_vec()
    );
    assert_eq!(
        HttpResponse::new(StatusCode::InternalServerError, Body::Empty).to_bytes(),
        b"HTTP/1.1 500 Internal Server Error\r\n\r\n".to_vec()
    );
}

#[test]
fn serialize_twice_is_identical() {
    let r = HttpResponse::new(StatusCode::Okay, Body::Text(String::from("same")));
    assert_eq!(r.to_bytes(), r.to_bytes());
    let b = HttpResponse::new(StatusCode::NotFound, Body::BinaryData(vec![1, 2, 3]));
    assert_eq!(b.to_bytes(), b.to_bytes());
}

#[test]
fn echo_route_returns_rest_of_path() {
    let response = respond(b"GET /echo/abc/def HTTP/1.1\r\n\r\n", &vec![]);
    let bytes = response.to_bytes();
    let expected: &[u8] =
        b"HTTP/1.1 200 OK\r\nContent-Type: text/plain\r\nContent-Length: 7\r\n\r\nabc/def\r\n\r\n";
    assert_eq!(bytes, expected);
}

#[test]
fn echo_route_with_no_rest_is_empty() {
    let response = respond(b"GET /echo HTTP/1.1\r\n\r\n", &vec![]);
    assert_eq!(
        response.to_bytes(),
        b"HTTP/1.1 200 OK\r\nContent-Type: text/plain\r\nContent-Length: 0\r\n\r\n\r\n\r\n"
            .to_vec()
    );
    let response = respond(b"GET /echo?q=1 HTTP/1.1\r\n\r\n", &vec![]);
    assert!(matches!(response.body, Body::Text(ref s) if s.is_empty()));
}

#[test]
fn user_agent_route_returns_header_value() {
    let response = respond(b"GET /user-agent HTTP/1.1\r\nUser-Agent: test-client\r\n\r\n", &vec![]);
    let expected: &[u8] =
        b"HTTP/1.1 200 OK\r\nContent-Type: text/plain\r\nContent-Length: 11\r\n\r\ntest-client\r\n\r\n";
    assert_eq!(response.to_bytes(), expected);
}

#[test]
fn user_agent_route_without_header_fails_dispatch() {
    let request = parse(b"GET /user-agent HTTP/1.1\r\n\r\n").unwrap();
    let r = handle_request(&request, &vec![]);
    assert!(matches!(r, Err(HttpError::DispatchFailure)));
}

#[test]
fn unknown_route_is_not_found() {
    let response = respond(b"GET /nope HTTP/1.1\r\n\r\n", &vec![]);
    assert_eq!(response.to_bytes(), b"HTTP/1.1 404 Not Found\r\n\r\n".to_vec());
}

#[test]
fn near_miss_prefix_is_not_found() {
    let response = respond(b"GET /echoes HTTP/1.1\r\n\r\n", &vec![]);
    assert_eq!(response.status_code, StatusCode::NotFound);
}

#[test]
fn root_route_is_bare_ok() {
    let response = respond(b"GET / HTTP/1.1\r\n\r\n", &vec![]);
    assert_eq!(response.to_bytes(), b"HTTP/1.1 200 OK\r\n\r\n".to_vec());
}

#[test]
fn post_files_is_bare_ok() {
    let options = vec![CliOption::Directory(String::from("/base"))];
    let response = respond(b"POST /files/a.txt HTTP/1.1\r\n\r\n", &options);
    assert_eq!(response.status_code, StatusCode::Okay);
}

#[test]
fn files_route_names_the_file_to_serve() {
    let options = vec![CliOption::Directory(String::from("/base"))];
    let request = parse(b"GET /files/sub/a.txt HTTP/1.1\r\n\r\n").unwrap();
    match handle_request(&request, &options).unwrap() {
        RouteAction::ServeFile(p) => assert_eq!(p, "/base/sub/a.txt"),
        RouteAction::Respond(_) => panic!("expected a file-serving action"),
    }
}

#[test]
fn files_route_keeps_trailing_separator() {
    let options = vec![CliOption::Directory(String::from("/base/"))];
    let request = parse(b"GET /files/a HTTP/1.1\r\n\r\n").unwrap();
    match handle_request(&request, &options).unwrap() {
        RouteAction::ServeFile(p) => assert_eq!(p, "/base/a"),
        RouteAction::Respond(_) => panic!("expected a file-serving action"),
    }
}

#[test]
fn files_route_without_directory_is_not_found() {
    let response = respond(b"GET /files/a HTTP/1.1\r\n\r\n", &vec![]);
    assert_eq!(response.status_code, StatusCode::NotFound);
}

#[test]
fn files_route_without_filename_is_not_found() {
    let options = vec![CliOption::Directory(String::from("/base"))];
    let response = respond(b"GET /files HTTP/1.1\r\n\r\n", &options);
    assert_eq!(response.status_code, StatusCode::NotFound);
}

#[test]
fn file_response_wraps_read_outcome() {
    let ok = file_response(Some(vec![1, 2]));
    assert_eq!(ok.status_code, StatusCode::Okay);
    assert!(matches!(ok.body, Body::BinaryData(ref d) if d == &vec![1, 2]));
    let missing = file_response(None);
    assert_eq!(missing.status_code, StatusCode::NotFound);
    assert!(matches!(missing.body, Body::Empty));
}

#[test]
fn empty_buffer_earns_a_500_response() {
    let err = parse(b"").unwrap_err();
    assert_eq!(err, HttpError::MalformedRequestLine);
    let response = error_response(&err);
    assert_eq!(response.status_code, StatusCode::InternalServerError);
    let bytes = response.to_bytes();
    assert!(bytes.starts_with(b"HTTP/1.1 500 Internal Server Error\r\n"));
    assert!(matches!(response.body, Body::Text(ref s) if s == "malformed request line"));
}

#[test]
fn cli_options_parse_pairs() {
    let args = vec![String::from("--directory"), String::from("/srv")];
    let opts = CliOption::from_str(&args).unwrap();
    assert_eq!(opts.len(), 1);
    assert!(matches!(opts[0], CliOption::Directory(ref d) if d == "/srv"));
}

#[test]
fn cli_unknown_key_fails() {
    let args = vec![String::from("--nope"), String::from("x")];
    assert!(matches!(CliOption::from_str(&args), Err(CliError::UnknownOption)));
}

#[test]
fn cli_trailing_key_without_value_is_ignored() {
    let args = vec![
        String::from("--directory"),
        String::from("/srv"),
        String::from("--directory"),
    ];
    let opts = CliOption::from_str(&args).unwrap();
    assert_eq!(opts.len(), 1);
    let empty: Vec<String> = vec![];
    assert_eq!(CliOption::from_str(&empty).unwrap().len(), 0);
}
