//! Request handling of the plain socket server: every request line other
//! than a `GET` announces a JSON body, `POST /login` looks the submitted
//! username up among the users, and every request that is served at all is
//! answered with the list of users, whatever it asked.

use vstd::prelude::*;
use vstd::string::*;
use crate::http::{body_fields, field_lookup, fields_view, FieldView, RequestError};
use crate::json::{json_object, parse_json_object, JsonField};
use crate::line::{
    bytes_equal, contains_bytes, find_line_containing, first_line_containing, i32_of,
    index_at_offset, index_at_utf8_offset, leading_two_words, leading_words,
    lemma_leading_words_are, lines_view, parse_i32, trim_bytes, trimmed_bounds,
};
use crate::seqs::contains_block;

verus! {

/// A registered user.
pub struct User {
    pub username: String,
    pub password: String,
}

impl View for User {
    type V = (Seq<char>, Seq<char>);

    open spec fn view(&self) -> (Seq<char>, Seq<char>) {
        (self.username@, self.password@)
    }
}

/// Users by their views.
pub open spec fn user_list_view(users: Seq<User>) -> Seq<(Seq<char>, Seq<char>)> {
    users.map_values(|u: User| u@)
}

/// The text of a response: status line, JSON content type, blank line,
/// then the JSON text.
pub open spec fn plain_response_text(status: Seq<char>, json: Seq<char>) -> Seq<char> {
    "HTTP/1.1 "@ + status + "\r\n"@ + "Content-Type: applicaiton/json\r\n\r\n"@ + json
}

/// The response with status `status` and the JSON text `json` as body.
pub fn create_response(status: &str, json: &str) -> (resp: String)
    ensures
        resp@ == plain_response_text(status@, json@),
{
    let mut resp = String::from_str("HTTP/1.1 ");
    resp.append(status);
    resp.append("\r\n");
    resp.append("Content-Type: applicaiton/json\r\n\r\n");
    resp.append(json);
    resp
}

/// A response opens with its status line and ends with its JSON text.
pub proof fn lemma_plain_response_layout(status: Seq<char>, json: Seq<char>)
    ensures
        plain_response_text(status, json).take(("HTTP/1.1 "@ + status + "\r\n"@).len() as int) == "HTTP/1.1 "@
            + status + "\r\n"@,
        plain_response_text(status, json).skip(plain_response_text(status, json).len() - json.len())
            == json,
{
    let t = plain_response_text(status, json);
    assert(t.take(("HTTP/1.1 "@ + status + "\r\n"@).len() as int) =~= "HTTP/1.1 "@ + status + "\r\n"@);
    assert(t.skip(t.len() - json.len()) =~= json);
}

/// `GET` as bytes.
pub open spec fn get_name() -> Seq<u8> {
    seq![71u8, 69, 84]
}

/// `Content-Length:` as bytes.
pub open spec fn content_length_field() -> Seq<u8> {
    seq![67u8, 111, 110, 116, 101, 110, 116, 45, 76, 101, 110, 103, 116, 104, 58]
}

/// The body length a header calls for: none when the trimmed request line
/// mentions `GET`; otherwise the first line mentioning `Content-Length:`
/// gives it, trimmed and then read from UTF-8 byte offset 16.
pub open spec fn required_body_length(header: Seq<Seq<u8>>) -> Result<Option<i32>, RequestError> {
    if header.len() == 0 {
        Err(RequestError::NoRequestLine)
    } else if contains_block(trim_bytes(header[0]), get_name()) {
        Ok(None)
    } else {
        let i = first_line_containing(header, content_length_field());
        if i < 0 {
            Err(RequestError::MissingContentLength)
        } else {
            let t = trim_bytes(header[i]);
            match index_at_utf8_offset(t, 16) {
                None => Err(RequestError::BadContentLength),
                Some(k) => match i32_of(t.skip(k)) {
                    Some(n) => Ok(Some(n)),
                    None => Err(RequestError::BadContentLength),
                },
            }
        }
    }
}

/// The body length the header calls for, `None` when no body is read.
pub fn body_length(header: &Vec<Vec<u8>>) -> (r: Result<Option<i32>, RequestError>)
    ensures
        r == required_body_length(lines_view(header@)),
{
    if header.len() == 0 {
        return Err(RequestError::NoRequestLine);
    }
    let first = &header[0];
    assert(lines_view(header@)[0] == first@);
    assert(first@.subrange(0, first@.len() as int) =~= first@);
    let (a, b) = trimmed_bounds(first, 0, first.len());
    let trimmed = crate::line::copy_range(first, a, b);
    let get: [u8; 3] = [71, 69, 84];
    assert(get@ =~= get_name());
    if contains_bytes(&trimmed, get.as_slice()) {
        return Ok(None);
    }
    let name: [u8; 15] = [67, 111, 110, 116, 101, 110, 116, 45, 76, 101, 110, 103, 116, 104, 58];
    assert(name@ =~= content_length_field());
    let needle = name.as_slice();
    match find_line_containing(header, needle) {
        None => Err(RequestError::MissingContentLength),
        Some(i) => {
            let l = &header[i];
            assert(lines_view(header@)[i as int] == l@);
            assert(l@.subrange(0, l@.len() as int) =~= l@);
            let (lo, hi) = trimmed_bounds(l, 0, l.len());
            match index_at_offset(l, lo, hi, 16) {
                None => Err(RequestError::BadContentLength),
                Some(k) => {
                    assert(l@.subrange(lo as int, hi as int).skip(k - lo) =~= l@.subrange(
                        k as int,
                        hi as int,
                    ));
                    match parse_i32(l, k, hi) {
                        Some(n) => Ok(Some(n)),
                        None => Err(RequestError::BadContentLength),
                    }
                },
            }
        },
    }
}

/// Reads the body bytes, one Latin-1 character per byte, as a JSON object.
pub fn parse_body(body: &[u8]) -> (r: Result<Vec<JsonField>, RequestError>)
    ensures
        match json_object(body@.map_values(|b: u8| b as char)) {
            Some(o) => r matches Ok(fs) && fields_view(fs@) == o.1,
            None => r == Err::<Vec<JsonField>, RequestError>(RequestError::BadBody),
        },
{
    let text = crate::json::latin1_text(body);
    match parse_json_object(text.as_str()) {
        Some(o) => Ok(o.fields),
        None => Err(RequestError::BadBody),
    }
}

/// The routes the server tells apart.
#[derive(Debug, PartialEq, Eq, Structural)]
pub enum Route {
    /// `POST /login`
    Login,
    /// `GET /`
    Root,
    /// Anything else.
    Unknown,
}

/// `GET /` as bytes.
pub open spec fn root_name() -> Seq<u8> {
    seq![71u8, 69, 84, 32, 47]
}

/// `POST /login` as bytes.
pub open spec fn login_name() -> Seq<u8> {
    seq![80u8, 79, 83, 84, 32, 47, 108, 111, 103, 105, 110]
}

/// The route a header names: the first two words of its trimmed first line.
pub open spec fn route_named(header: Seq<Seq<u8>>) -> Result<Route, RequestError> {
    if header.len() == 0 {
        Err(RequestError::NoRequestLine)
    } else {
        let w = leading_two_words(trim_bytes(header[0]));
        if w == login_name() {
            Ok(Route::Login)
        } else if w == root_name() {
            Ok(Route::Root)
        } else {
            Ok(Route::Unknown)
        }
    }
}

/// The route the request line names.
pub fn request_route(header: &Vec<Vec<u8>>) -> (r: Result<Route, RequestError>)
    ensures
        r == route_named(lines_view(header@)),
{
    if header.len() == 0 {
        return Err(RequestError::NoRequestLine);
    }
    let first = &header[0];
    assert(lines_view(header@)[0] == first@);
    assert(first@.subrange(0, first@.len() as int) =~= first@);
    let (a, b) = trimmed_bounds(first, 0, first.len());
    let (w, _) = leading_words(first, a, b);
    let login: [u8; 11] = [80, 79, 83, 84, 32, 47, 108, 111, 103, 105, 110];
    let root: [u8; 5] = [71, 69, 84, 32, 47];
    assert(login@ =~= login_name());
    assert(root@ =~= root_name());
    if bytes_equal(&w, login.as_slice()) {
        Ok(Route::Login)
    } else if bytes_equal(&w, root.as_slice()) {
        Ok(Route::Root)
    } else {
        Ok(Route::Unknown)
    }
}

/// A request goes to the login route exactly when its trimmed request
/// line starts with `POST /login` followed by a space or by its end.
pub proof fn lemma_login_route_exact(header: Seq<Seq<u8>>)
    ensures
        route_named(header) == Ok::<Route, RequestError>(Route::Login) <==> (header.len() > 0 && ({
            let t = trim_bytes(header[0]);
            &&& t.len() >= 11
            &&& t.take(11) == seq![80u8, 79, 83, 84, 32, 47, 108, 111, 103, 105, 110]
            &&& (t.len() == 11 || t[11] == 32)
        })),
{
    if header.len() > 0 {
        let w = seq![80u8, 79, 83, 84, 32, 47, 108, 111, 103, 105, 110];
        assert(w == login_name());
        assert forall|k: int| 0 <= k < 11 && k != 4 implies #[trigger] w[k] != 32 by {
            if k == 0 {
            } else if k == 1 {
            } else if k == 2 {
            } else if k == 3 {
            } else if k == 4 {
            } else if k == 5 {
            } else if k == 6 {
            } else if k == 7 {
            } else if k == 8 {
            } else if k == 9 {
            } else if k == 10 {
            }
        }
        lemma_leading_words_are(trim_bytes(header[0]), w, 4);
    }
}

/// A request goes to the root route exactly when its trimmed request line
/// starts with `GET /` followed by a space or by its end.
pub proof fn lemma_root_route_exact(header: Seq<Seq<u8>>)
    ensures
        route_named(header) == Ok::<Route, RequestError>(Route::Root) <==> (header.len() > 0 && ({
            let t = trim_bytes(header[0]);
            &&& t.len() >= 5
            &&& t.take(5) == seq![71u8, 69, 84, 32, 47]
            &&& (t.len() == 5 || t[5] == 32)
        })),
{
    if header.len() > 0 {
        let w = seq![71u8, 69, 84, 32, 47];
        let l = seq![80u8, 79, 83, 84, 32, 47, 108, 111, 103, 105, 110];
        assert(w == root_name());
        assert(l == login_name());
        assert(w != l) by {
            assert(w.len() != l.len());
        }
        assert forall|k: int| 0 <= k < 5 && k != 3 implies #[trigger] w[k] != 32 by {
            if k == 0 {
            } else if k == 1 {
            } else if k == 2 {
            } else if k == 3 {
            } else if k == 4 {
            }
        }
        lemma_leading_words_are(trim_bytes(header[0]), w, 3);
    }
}

/// Some user is named `name`.
pub open spec fn has_user_named(users: Seq<(Seq<char>, Seq<char>)>, name: Seq<char>) -> bool {
    exists|i: int| 0 <= i < users.len() && #[trigger] users[i].0 == name
}

/// Looking up a login fails hard: both fields are there, the username is no
/// JSON string, and there is a user to compare it with.
pub open spec fn login_lookup_fails(fields: Seq<FieldView>, users: Seq<(Seq<char>, Seq<char>)>) -> bool {
    match (field_lookup(fields, "username"@), field_lookup(fields, "password"@)) {
        (Some(u), Some(_)) => u.2 is None && users.len() > 0,
        _ => false,
    }
}

/// The outcome of a login: found when both fields are there and a user
/// bears the submitted username (the password is not compared).
pub open spec fn login_found(fields: Seq<FieldView>, users: Seq<(Seq<char>, Seq<char>)>) -> bool {
    match (field_lookup(fields, "username"@), field_lookup(fields, "password"@)) {
        (Some(u), Some(_)) => match u.2 {
            Some(name) => has_user_named(users, name),
            None => false,
        },
        _ => false,
    }
}

/// A login is found exactly when it carries a `password` field and a
/// `username` field whose value is a JSON string, and some user, at any
/// position, bears that string as username.
pub proof fn lemma_login_searches_every_user(
    fields: Seq<FieldView>,
    users: Seq<(Seq<char>, Seq<char>)>,
)
    ensures
        login_found(fields, users) <==> {
            &&& field_lookup(fields, "username"@) matches Some(u)
            &&& u.2 matches Some(name)
            &&& field_lookup(fields, "password"@) is Some
            &&& exists|i: int| 0 <= i < users.len() && #[trigger] users[i].0 == name
        },
{
}

/// A login naming the first user finds it, whoever else is listed.
pub proof fn lemma_first_user_found(
    fields: Seq<FieldView>,
    users: Seq<(Seq<char>, Seq<char>)>,
)
    requires
        users.len() > 0,
        field_lookup(fields, "username"@) matches Some(u) && u.2 == Some(users[0].0),
        field_lookup(fields, "password"@) is Some,
    ensures
        login_found(fields, users),
{
    lemma_login_searches_every_user(fields, users);
    assert(users[0].0 == users[0].0);
}

fn lookup_field(fields: &Vec<JsonField>, key: &String) -> (r: Option<usize>)
    ensures
        match r {
            Some(i) => i < fields@.len() && field_lookup(fields_view(fields@), key@) == Some(
                fields@[i as int]@,
            ),
            None => field_lookup(fields_view(fields@), key@) is None,
        },
{
    let ghost fs = fields_view(fields@);
    let mut i: usize = 0;
    assert(fs.skip(0) =~= fs);
    while i < fields.len()
        invariant
            i <= fields@.len(),
            fs == fields_view(fields@),
            field_lookup(fs, key@) == field_lookup(fs.skip(i as int), key@),
        decreases fields@.len() - i,
    {
        assert(fs.skip(i as int)[0] == fields@[i as int]@);
        assert(fs.skip(i as int).drop_first() =~= fs.skip(i + 1));
        if fields[i].key == *key {
            return Some(i);
        }
        i = i + 1;
    }
    None
}

/// Whether looking up this login fails hard.
pub fn login_lookup_panics(hmap: &Vec<JsonField>, users: &Vec<User>) -> (r: bool)
    ensures
        r == login_lookup_fails(fields_view(hmap@), user_list_view(users@)),
{
    let u = lookup_field(hmap, &String::from_str("username"));
    let p = lookup_field(hmap, &String::from_str("password"));
    match (u, p) {
        (Some(i), Some(_)) => hmap[i].str_value.is_none() && users.len() > 0,
        _ => false,
    }
}

/// Looks the submitted username up among the users: `Some(())` when a user
/// bears it.
pub fn post_login(hmap: &Vec<JsonField>, users: &Vec<User>) -> (found: Option<()>)
    requires
        !login_lookup_fails(fields_view(hmap@), user_list_view(users@)),
    ensures
        (found is Some) == login_found(fields_view(hmap@), user_list_view(users@)),
{
    let ghost uv = user_list_view(users@);
    let ui = lookup_field(hmap, &String::from_str("username"))?;
    let _pi = lookup_field(hmap, &String::from_str("password"))?;
    let name = match &hmap[ui].str_value {
        Some(s) => s,
        None => {
            return None;
        },
    };
    assert(hmap@[ui as int]@.2 == Some(name@));
    assert(login_found(fields_view(hmap@), uv) == has_user_named(uv, name@));
    let mut i: usize = 0;
    while i < users.len()
        invariant
            i <= users@.len(),
            uv == user_list_view(users@),
            login_found(fields_view(hmap@), uv) == has_user_named(uv, name@),
            forall|k: int| 0 <= k < i ==> #[trigger] uv[k].0 != name@,
        decreases users@.len() - i,
    {
        assert(uv[i as int] == users@[i as int]@);
        if users[i].username == *name {
            assert(uv[i as int].0 == name@);
            return Some(());
        }
        i = i + 1;
    }
    None
}

/// How a served request went: its route, the outcome of the login lookup
/// for `POST /login`, and the response text.
pub struct ServedRequest {
    pub route: Route,
    pub login: Option<Option<()>>,
    pub response: String,
}

/// The fields a request carries: none without a body, the body's object
/// otherwise.
pub open spec fn request_fields(header: Seq<Seq<u8>>, body: Seq<u8>) -> Result<Seq<FieldView>, RequestError> {
    match required_body_length(header) {
        Err(e) => Err(e),
        Ok(None) => Ok(Seq::empty()),
        Ok(Some(_)) => match body_fields(body) {
            Some(fs) => Ok(fs),
            None => Err(RequestError::BadBody),
        },
    }
}

/// The reply to a request, given the body bytes read after its header and
/// the users with their JSON text: an error where the request is dropped.
pub open spec fn served_reply(
    header: Seq<Seq<u8>>,
    body: Seq<u8>,
    users: Seq<(Seq<char>, Seq<char>)>,
    users_json: Seq<char>,
) -> Result<Seq<char>, RequestError> {
    match request_fields(header, body) {
        Err(e) => Err(e),
        Ok(fields) => match route_named(header) {
            Err(e) => Err(e),
            Ok(route) => if route == Route::Login && login_lookup_fails(fields, users) {
                Err(RequestError::UsernameNotText)
            } else {
                Ok(plain_response_text("200 OK"@, users_json))
            },
        },
    }
}

/// Every request the server answers gets the same reply: the users' JSON
/// with status 200, whatever its method, route, headers, body or submitted
/// credentials.
pub proof fn lemma_reply_ignores_request(
    header1: Seq<Seq<u8>>,
    body1: Seq<u8>,
    header2: Seq<Seq<u8>>,
    body2: Seq<u8>,
    users: Seq<(Seq<char>, Seq<char>)>,
    users_json: Seq<char>,
)
    requires
        served_reply(header1, body1, users, users_json) is Ok,
        served_reply(header2, body2, users, users_json) is Ok,
    ensures
        served_reply(header1, body1, users, users_json) == served_reply(
            header2,
            body2,
            users,
            users_json,
        ),
        served_reply(header1, body1, users, users_json) == Ok::<Seq<char>, RequestError>(
            plain_response_text("200 OK"@, users_json),
        ),
{
}

/// Serves a request whose header has been read, given the body bytes read
/// after it (nothing for a request without body), the users and their JSON
/// text.
pub fn serve_request(header: &Vec<Vec<u8>>, body: &[u8], users: &Vec<User>, users_json: &str) -> (r:
    Result<ServedRequest, RequestError>)
    ensures
        match served_reply(lines_view(header@), body@, user_list_view(users@), users_json@) {
            Ok(text) => r matches Ok(s) && s.response@ == text && route_named(lines_view(header@))
                == Ok::<Route, RequestError>(s.route) && match request_fields(lines_view(header@), body@) {
                Ok(fields) => s.login == if s.route == Route::Login {
                    Some(if login_found(fields, user_list_view(users@)) { Some(()) } else { None })
                } else {
                    None::<Option<()>>
                },
                Err(_) => false,
            },
            Err(e) => r matches Err(e2) && e2 == e,
        },
{
    let fields = match body_length(header) {
        Err(e) => return Err(e),
        Ok(None) => Vec::new(),
        Ok(Some(_)) => match parse_body(body) {
            Ok(fs) => fs,
            Err(e) => return Err(e),
        },
    };
    assert(fields_view(fields@) =~= match request_fields(lines_view(header@), body@) {
        Ok(fs) => fs,
        Err(_) => fields_view(fields@),
    });
    let route = match request_route(header) {
        Ok(r) => r,
        Err(e) => return Err(e),
    };
    let login = match route {
        Route::Login => {
            if login_lookup_panics(&fields, users) {
                return Err(RequestError::UsernameNotText);
            }
            Some(post_login(&fields, users))
        },
        _ => None,
    };
    Ok(ServedRequest { route, login, response: create_response("200 OK", users_json) })
}

} // verus!
