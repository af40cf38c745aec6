use socketing::http::{
    get_root_route, load_user_data, post_login_route, HttpRequest, HttpResponse, HttpServer,
    RequestError, StoredUser, UserData,
};
use socketing::json::parse_json_object;

#[test]
fn server_keeps_its_address() {
    let server = HttpServer::new("127.0.0.1:7878");
    assert_eq!(server.host_addr, "127.0.0.1:7878");
}

#[test]
fn response_with_json_body() {
    let r = HttpResponse::new("200 Ok", Some("{\"success\":true}"));
    assert_eq!(
        r.response,
        "HTTP/1.1 200 Ok\r\nContent-Type: application/json\r\n\r\n{\"success\":true}"
    );
}

#[test]
fn response_without_body_is_the_status_line() {
    let r = HttpResponse::new("400 Bad Request", None);
    assert_eq!(r.response, "HTTP/1.1 400 Bad Request\r\n");
}

#[test]
fn new_request_is_empty() {
    let req = HttpRequest::new();
    assert!(req.header.is_empty());
    assert!(req.body.is_none());
    assert_eq!(req.content_length(), Ok(None));
    assert_eq!(req.route(), Err(RequestError::NoRequestLine));
}

#[test]
fn content_length_is_read_after_sixteen_bytes() {
    let mut req = HttpRequest::new();
    req.header = vec![
        b"POST /login HTTP/1.1\r\n".to_vec(),
        b"Content-Type: application/json\r\n".to_vec(),
        b"Content-Length: 42\r\n".to_vec(),
        b"\r\n".to_vec(),
    ];
    assert_eq!(req.content_length(), Ok(Some(42)));
    req.header[2] = b"Content-Length:-3\r\n".to_vec();
    assert_eq!(req.content_length(), Ok(Some(3)));
    req.header[2] = b"Content-Length: -3\r\n".to_vec();
    assert_eq!(req.content_length(), Ok(Some(-3)));
    req.header[2] = b"Content-Length: +7 \r\n".to_vec();
    assert_eq!(req.content_length(), Ok(Some(7)));
}

#[test]
fn malformed_content_length_is_refused() {
    let mut req = HttpRequest::new();
    req.header = vec![b"POST / HTTP/1.1\r\n".to_vec(), b"X-Content-Length: 5\r\n".to_vec()];
    assert_eq!(req.content_length(), Err(RequestError::BadContentLength));
    req.header[1] = b"Content-Length: abc\r\n".to_vec();
    assert_eq!(req.content_length(), Err(RequestError::BadContentLength));
    req.header[1] = b"Content-Length\r\n".to_vec();
    assert_eq!(req.content_length(), Err(RequestError::BadContentLength));
    req.header[1] = b"Content-Length: 99999999999\r\n".to_vec();
    assert_eq!(req.content_length(), Err(RequestError::BadContentLength));
}

#[test]
fn wide_characters_shift_the_offset() {
    let mut req = HttpRequest::new();
    // 0xE9 takes two bytes once read as a character, so byte 16 is the colon
    let mut line = vec![0xE9u8];
    line.extend_from_slice(b"Content-Length: 7\r\n");
    req.header = vec![b"POST / HTTP/1.1\r\n".to_vec(), line];
    assert_eq!(req.content_length(), Err(RequestError::BadContentLength));
    // two wide characters from byte 13: byte 16 falls inside the second
    req.header[1] = b"Content-Lengt\xE9\xE9Content-Length: 5\r\n".to_vec();
    assert_eq!(req.content_length(), Err(RequestError::BadContentLength));
}

#[test]
fn body_is_read_as_json_object() {
    let mut req = HttpRequest::new();
    assert_eq!(req.set_body(b"{\"username\":\"bob\",\"password\":\"pw\"}"), Ok(()));
    let fields = req.body.as_ref().unwrap();
    assert_eq!(fields.len(), 2);
    assert_eq!(fields[0].key, "password");
    assert_eq!(fields[1].text, "\"bob\"");
    assert_eq!(req.set_body(b"not json"), Err(RequestError::BadBody));
    assert!(req.body.is_some());
}

#[test]
fn route_is_the_first_two_words() {
    let mut req = HttpRequest::new();
    req.header = vec![b"GET / HTTP/1.1\r\n".to_vec()];
    assert_eq!(req.route(), Ok(b"GET /".to_vec()));
    req.header = vec![b"POST /login HTTP/1.1\r\n".to_vec()];
    assert_eq!(req.route(), Ok(b"POST /login".to_vec()));
    req.header = vec![b"GET /\r\n".to_vec()];
    assert_eq!(req.route(), Ok(b"GET /\r\n".to_vec()));
    req.header = vec![b"GET\r\n".to_vec()];
    assert_eq!(req.route(), Err(RequestError::NoRoute));
}

fn sample_data() -> Option<UserData> {
    load_user_data(
        "{\"users\":[{\"username\":\"alice\",\"password\":\"secret\"},{\"username\":\"bob\",\"password\":\"hunter2\"}]}",
    )
}

fn login_body(text: &str) -> Option<Vec<socketing::json::JsonField>> {
    Some(parse_json_object(text).unwrap().fields)
}

#[test]
fn user_data_is_loaded() {
    let data = sample_data().unwrap();
    assert_eq!(
        data.json,
        "{\"users\":[{\"password\":\"secret\",\"username\":\"alice\"},{\"password\":\"hunter2\",\"username\":\"bob\"}]}"
    );
    let users = data.users.unwrap();
    assert_eq!(users.len(), 2);
    assert_eq!(users[1].username, Some("\"bob\"".to_string()));
    assert_eq!(users[1].password, Some("\"hunter2\"".to_string()));
    assert!(load_user_data("[]").is_none());
    assert!(load_user_data("{\"users\":3}").unwrap().users.is_none());
    let odd = load_user_data("{\"users\":[1,{\"password\":\"x\"}]}").unwrap().users.unwrap();
    assert_eq!(odd[0].username, None);
    assert_eq!(odd[1].username, None);
    assert_eq!(odd[1].password, Some("\"x\"".to_string()));
}

#[test]
fn root_route_answers_with_the_data() {
    let data = sample_data();
    let r = get_root_route(&data).ok().unwrap();
    assert!(r.response.starts_with("HTTP/1.1 200 Ok\r\nContent-Type: application/json\r\n\r\n{\"users\":["));
    assert!(get_root_route(&None).is_err());
}

#[test]
fn login_with_right_password_succeeds() {
    let data = sample_data();
    let r = post_login_route(&login_body("{\"username\":\"bob\",\"password\":\"hunter2\"}"), &data);
    assert_eq!(
        r.ok().unwrap().response,
        "HTTP/1.1 200 Ok\r\nContent-Type: application/json\r\n\r\n{\"success\":true}"
    );
}

#[test]
fn login_with_wrong_password_is_refused() {
    let data = sample_data();
    let r = post_login_route(&login_body("{\"username\":\"bob\",\"password\":\"secret\"}"), &data);
    assert_eq!(
        r.ok().unwrap().response,
        "HTTP/1.1 401 Not Authorized\r\nContent-Type: application/json\r\n\r\n{\"success\":false}"
    );
}

#[test]
fn login_of_unknown_user_is_not_found() {
    let data = sample_data();
    let r = post_login_route(&login_body("{\"username\":\"carol\",\"password\":\"x\"}"), &data);
    assert_eq!(
        r.ok().unwrap().response,
        "HTTP/1.1 404 Not Found\r\nContent-Type: application/json\r\n\r\n{\"success\":false}"
    );
}

#[test]
fn login_without_body_is_a_bad_request() {
    let r = post_login_route(&None, &sample_data());
    assert_eq!(r.ok().unwrap().response, "HTTP/1.1 400 Bad Request\r\n");
}

#[test]
fn login_failures_drop_the_request() {
    let data = sample_data();
    let r = post_login_route(&login_body("{\"username\":\"bob\"}"), &data);
    assert_eq!(r.err(), Some(RequestError::MissingField));
    let r = post_login_route(&login_body("{\"username\":\"bob\",\"password\":\"p\"}"), &None);
    assert_eq!(r.err(), Some(RequestError::DataUnavailable));
    let broken = Some(UserData {
        json: String::new(),
        users: Some(vec![
            StoredUser { username: None, password: None },
            StoredUser { username: Some("\"bob\"".to_string()), password: Some("\"p\"".to_string()) },
        ]),
    });
    let r = post_login_route(&login_body("{\"username\":\"bob\",\"password\":\"p\"}"), &broken);
    assert_eq!(r.err(), Some(RequestError::BadUserRecord));
    let no_password = Some(UserData {
        json: String::new(),
        users: Some(vec![StoredUser { username: Some("\"bob\"".to_string()), password: None }]),
    });
    let r = post_login_route(&login_body("{\"username\":\"bob\",\"password\":\"p\"}"), &no_password);
    assert_eq!(r.err(), Some(RequestError::BadUserRecord));
}

#[test]
fn login_compares_json_values() {
    let data = load_user_data("{\"users\":[{\"username\":1,\"password\":[true]}]}");
    let r = post_login_route(&login_body("{\"username\":1,\"password\":[true]}"), &data);
    assert!(r.ok().unwrap().response.starts_with("HTTP/1.1 200 Ok"));
    let r = post_login_route(&login_body("{\"username\":\"1\",\"password\":[true]}"), &data);
    assert!(r.ok().unwrap().response.starts_with("HTTP/1.1 404 Not Found"));
}

#[test]
fn requests_are_routed() {
    let server = HttpServer::new("127.0.0.1:7878");
    let data = sample_data();
    let mut req = HttpRequest::new();
    req.header = vec![
        b"POST /login HTTP/1.1\r\n".to_vec(),
        b"Content-Length: 40\r\n".to_vec(),
        b"\r\n".to_vec(),
    ];
    let body = b"{\"username\":\"alice\",\"password\":\"secret\"}";
    assert_eq!(req.content_length(), Ok(Some(40)));
    assert_eq!(body.len(), 40);
    req.set_body(body).unwrap();
    let r = server.handle_request(&req, &data).ok().unwrap().unwrap();
    assert!(r.response.ends_with("{\"success\":true}"));

    let mut get = HttpRequest::new();
    get.header = vec![b"GET / HTTP/1.1\r\n".to_vec(), b"\r\n".to_vec()];
    let r = server.handle_request(&get, &data).ok().unwrap().unwrap();
    assert!(r.response.starts_with("HTTP/1.1 200 Ok\r\n"));

    let mut other = HttpRequest::new();
    other.header = vec![b"GET /missing HTTP/1.1\r\n".to_vec()];
    assert!(server.handle_request(&other, &data).ok().unwrap().is_none());

    let empty = HttpRequest::new();
    assert_eq!(server.handle_request(&empty, &data).err(), Some(RequestError::NoRequestLine));
}

#[test]
fn login_compares_negative_zero_as_zero() {
    let data = load_user_data("{\"users\":[{\"username\":0.0,\"password\":1}]}");
    let r = post_login_route(&login_body("{\"username\":-0.0,\"password\":1}"), &data);
    assert_eq!(
        r.ok().unwrap().response,
        "HTTP/1.1 200 Ok\r\nContent-Type: application/json\r\n\r\n{\"success\":true}"
    );
    let r = post_login_route(&login_body("{\"username\":-0,\"password\":2}"), &data);
    assert!(r.ok().unwrap().response.starts_with("HTTP/1.1 401 Not Authorized"));
}

#[test]
fn header_text_joins_the_lines() {
    let mut req = HttpRequest::new();
    req.header = vec![b"GET / HTTP/1.1\r\n".to_vec(), vec![0xE9, b'\n']];
    assert_eq!(req.header_text(), "GET / HTTP/1.1\r\n\u{e9}\n");
}

#[test]
fn only_root_and_login_with_body_read_the_data() {
    let mut req = HttpRequest::new();
    req.header = vec![b"GET / HTTP/1.1\r\n".to_vec()];
    assert!(req.needs_data());
    req.header = vec![b"POST /login HTTP/1.1\r\n".to_vec()];
    assert!(!req.needs_data());
    req.set_body(b"{}").unwrap();
    assert!(req.needs_data());
    req.header = vec![b"GET /other HTTP/1.1\r\n".to_vec()];
    assert!(!req.needs_data());
    let server = HttpServer::new("127.0.0.1:7878");
    let mut login = HttpRequest::new();
    login.header = vec![b"POST /login HTTP/1.1\r\n".to_vec()];
    let r = server.handle_request(&login, &None).ok().unwrap().unwrap();
    assert_eq!(r.response, "HTTP/1.1 400 Bad Request\r\n");
}
