use socketing::http::RequestError;
use socketing::json::parse_json_object;
use socketing::server::{
    body_length, create_response, login_lookup_panics, parse_body, post_login, request_route,
    serve_request, Route, User,
};

fn users() -> Vec<User> {
    vec![
        User { username: "alice".to_string(), password: "secret".to_string() },
        User { username: "bob".to_string(), password: "hunter2".to_string() },
    ]
}

#[test]
fn response_carries_status_and_json() {
    assert_eq!(
        create_response("200 OK", "[]"),
        "HTTP/1.1 200 OK\r\nContent-Type: applicaiton/json\r\n\r\n[]"
    );
}

#[test]
fn get_requests_have_no_body() {
    let header = vec![b"GET / HTTP/1.1\r\n".to_vec(), b"\r\n".to_vec()];
    assert_eq!(body_length(&header), Ok(None));
    let header = vec![b"  FORGET /x HTTP/1.1\r\n".to_vec()];
    assert_eq!(body_length(&header), Ok(None));
}

#[test]
fn other_requests_announce_their_body() {
    let header = vec![
        b"POST /login HTTP/1.1\r\n".to_vec(),
        b"Content-Length: 12\r\n".to_vec(),
        b"\r\n".to_vec(),
    ];
    assert_eq!(body_length(&header), Ok(Some(12)));
    let squeezed = vec![b"POST /login HTTP/1.1\r\n".to_vec(), b"Content-Length:12\r\n".to_vec()];
    assert_eq!(body_length(&squeezed), Ok(Some(2)));
    let indented = vec![b"POST / HTTP/1.1\r\n".to_vec(), b"   Content-Length: 8 \r\n".to_vec()];
    assert_eq!(body_length(&indented), Ok(Some(8)));
}

#[test]
fn body_length_errors() {
    assert_eq!(body_length(&vec![]), Err(RequestError::NoRequestLine));
    let missing = vec![b"POST /login HTTP/1.1\r\n".to_vec(), b"\r\n".to_vec()];
    assert_eq!(body_length(&missing), Err(RequestError::MissingContentLength));
    let no_colon = vec![b"POST / HTTP/1.1\r\n".to_vec(), b"Content-Length 5\r\n".to_vec()];
    assert_eq!(body_length(&no_colon), Err(RequestError::MissingContentLength));
    let bad = vec![b"POST / HTTP/1.1\r\n".to_vec(), b"Content-Length: 5 bytes\r\n".to_vec()];
    assert_eq!(body_length(&bad), Err(RequestError::BadContentLength));
}

#[test]
fn body_parses_as_json_object() {
    let fields = parse_body(b"{\"username\":\"alice\",\"password\":\"x\"}").ok().unwrap();
    assert_eq!(fields.len(), 2);
    assert_eq!(parse_body(b"[]").err(), Some(RequestError::BadBody));
}

#[test]
fn routes_are_told_apart() {
    let h = |l: &[u8]| vec![l.to_vec()];
    assert_eq!(request_route(&h(b"POST /login HTTP/1.1\r\n")), Ok(Route::Login));
    assert_eq!(request_route(&h(b"  GET / HTTP/1.1\r\n")), Ok(Route::Root));
    assert_eq!(request_route(&h(b"GET /\r\n")), Ok(Route::Root));
    assert_eq!(request_route(&h(b"GET /x HTTP/1.1\r\n")), Ok(Route::Unknown));
    assert_eq!(request_route(&h(b"GET\r\n")), Ok(Route::Unknown));
    assert_eq!(request_route(&vec![]), Err(RequestError::NoRequestLine));
}

#[test]
fn login_finds_user_by_name() {
    let fields = parse_json_object("{\"username\":\"bob\",\"password\":\"wrong\"}").unwrap().fields;
    assert!(!login_lookup_panics(&fields, &users()));
    assert_eq!(post_login(&fields, &users()), Some(()));
    let fields = parse_json_object("{\"username\":\"carol\",\"password\":\"x\"}").unwrap().fields;
    assert_eq!(post_login(&fields, &users()), None);
}

#[test]
fn login_needs_both_fields() {
    let fields = parse_json_object("{\"username\":\"bob\"}").unwrap().fields;
    assert_eq!(post_login(&fields, &users()), None);
    let fields = parse_json_object("{}").unwrap().fields;
    assert_eq!(post_login(&fields, &users()), None);
}

#[test]
fn non_string_username_fails_hard() {
    let fields = parse_json_object("{\"username\":5,\"password\":\"x\"}").unwrap().fields;
    assert!(login_lookup_panics(&fields, &users()));
    assert!(!login_lookup_panics(&fields, &vec![]));
    assert_eq!(post_login(&fields, &vec![]), None);
}

#[test]
fn every_served_request_gets_the_users() {
    let expected = "HTTP/1.1 200 OK\r\nContent-Type: applicaiton/json\r\n\r\n[{\"u\":1}]";
    let get = vec![b"GET / HTTP/1.1\r\n".to_vec(), b"\r\n".to_vec()];
    let s = serve_request(&get, b"", &users(), "[{\"u\":1}]").ok().unwrap();
    assert_eq!(s.route, Route::Root);
    assert_eq!(s.login, None);
    assert_eq!(s.response, expected);
    let login = vec![
        b"POST /login HTTP/1.1\r\n".to_vec(),
        b"Content-Length: 33\r\n".to_vec(),
        b"\r\n".to_vec(),
    ];
    let body = b"{\"username\":\"bob\",\"password\":\"x\"}";
    let s = serve_request(&login, body, &users(), "[{\"u\":1}]").ok().unwrap();
    assert_eq!(s.route, Route::Login);
    assert_eq!(s.login, Some(Some(())));
    assert_eq!(s.response, expected);
    let other = vec![b"PUT /x HTTP/1.1\r\n".to_vec(), b"Content-Length: 2\r\n".to_vec()];
    let s = serve_request(&other, b"{}", &users(), "[{\"u\":1}]").ok().unwrap();
    assert_eq!(s.route, Route::Unknown);
    assert_eq!(s.response, expected);
}

#[test]
fn dropped_requests_get_no_reply() {
    let login = vec![b"POST /login HTTP/1.1\r\n".to_vec(), b"Content-Length: 29\r\n".to_vec()];
    let body = b"{\"username\":5,\"password\":\"x\"}";
    assert_eq!(
        serve_request(&login, body, &users(), "[]").err(),
        Some(RequestError::UsernameNotText)
    );
    assert_eq!(
        serve_request(&login, b"oops", &users(), "[]").err(),
        Some(RequestError::BadBody)
    );
    assert_eq!(serve_request(&vec![], b"", &users(), "[]").err(), Some(RequestError::NoRequestLine));
}
