//! Request handling of the routed HTTP server: the request line picks a
//! route, a JSON body is read when a `Content-Length` line announces one,
//! and the login route checks the submitted credentials against the user
//! records.

use vstd::prelude::*;
use vstd::string::*;
use crate::header::join_lines;
use crate::seqs::{contains_block, lemma_trim_bounds};
use crate::json::{
    bool_object_text, is_plain_key, json_array, json_bool_object, json_object, json_value_eq,
    json_values_equal, latin1_text, parse_json_array, parse_json_object, JsonField, JsonObject,
};
use crate::line::{
    bytes_equal, digit_run_value, find_line_containing, first_line_containing, i32_of,
    index_at_offset, index_at_utf8_offset, is_digit_byte, is_digit_run, is_space_byte,
    lemma_ascii_offset, lemma_digit_run_value_nonneg, lemma_leading_words_are,
    lemma_leading_words_span, leading_two_words, leading_words, lines_view,
    parse_i32, trim_bytes, trimmed_bounds, words,
};

verus! {

/// The start of every response: the status line.
pub open spec fn status_line(status: Seq<char>) -> Seq<char> {
    "HTTP/1.1 "@ + status + "\r\n"@
}

/// The full text of a response with the given status and, if any, JSON body.
pub open spec fn response_text(status: Seq<char>, json: Option<Seq<char>>) -> Seq<char> {
    match json {
        Some(j) => status_line(status) + "Content-Type: application/json\r\n\r\n"@ + j,
        None => status_line(status),
    }
}

/// A response ready to be sent.
pub struct HttpResponse {
    pub response: String,
}

impl HttpResponse {
    /// The response with status `status` and, if given, the JSON text `json`
    /// as its body.
    pub fn new(status: &str, json: Option<&str>) -> (r: Self)
        ensures
            r.response@ == response_text(
                status@,
                match json {
                    Some(j) => Some(j@),
                    None => None,
                },
            ),
    {
        let mut resp = String::from_str("HTTP/1.1 ");
        resp.append(status);
        resp.append("\r\n");
        match json {
            Some(j) => {
                resp.append("Content-Type: application/json\r\n\r\n");
                resp.append(j);
            },
            None => {},
        }
        HttpResponse { response: resp }
    }
}

/// Why a request gets no answer.
#[derive(Debug, PartialEq, Eq, Structural)]
pub enum RequestError {
    /// The request has no header line at all.
    NoRequestLine,
    /// The request line has no space, so names no route.
    NoRoute,
    /// A `Content-Length` line does not carry a number where it should.
    BadContentLength,
    /// A request with a body must announce its length, and this one does not.
    MissingContentLength,
    /// The body is not a JSON object.
    BadBody,
    /// The login body lacks the username or the password.
    MissingField,
    /// The user data is not a JSON object, or holds no array of users.
    DataUnavailable,
    /// A user record met on the way is not an object with the needed field.
    BadUserRecord,
    /// The submitted username is no JSON string, yet has users to be
    /// compared with.
    UsernameNotText,
}

/// The view of a JSON field: key, value text, string contents.
pub type FieldView = (Seq<char>, Seq<char>, Option<Seq<char>>);

/// The view of a user record: the texts of its username and password, each
/// absent where the record lacks it.
pub type UserView = (Option<Seq<char>>, Option<Seq<char>>);

/// Fields by their views.
pub open spec fn fields_view(fields: Seq<JsonField>) -> Seq<FieldView> {
    fields.map_values(|f: JsonField| f@)
}

/// The first field under `key`.
pub open spec fn field_lookup(fields: Seq<FieldView>, key: Seq<char>) -> Option<FieldView>
    decreases fields.len(),
{
    if fields.len() == 0 {
        None
    } else if fields[0].0 == key {
        Some(fields[0])
    } else {
        field_lookup(fields.drop_first(), key)
    }
}

/// The text of the value of the first field under `key`.
fn lookup_text(fields: &Vec<JsonField>, key: &String) -> (r: Option<String>)
    ensures
        match r {
            Some(t) => field_lookup(fields_view(fields@), key@) matches Some(f) && f.1 == t@,
            None => field_lookup(fields_view(fields@), key@) is None,
        },
{
    let ghost fs = fields_view(fields@);
    let mut i: usize = 0;
    assert(fs.skip(0) =~= fs);
    while i < fields.len()
        invariant
            i <= fields@.len(),
            fs == fields_view(fields@),
            field_lookup(fs, key@) == field_lookup(fs.skip(i as int), key@),
        decreases fields@.len() - i,
    {
        assert(fs.skip(i as int)[0] == fields@[i as int]@);
        assert(fs.skip(i as int).drop_first() =~= fs.skip(i + 1));
        if fields[i].key == *key {
            return Some(fields[i].text.clone());
        }
        i = i + 1;
    }
    None
}

/// `"Content-Length"` as bytes.
pub open spec fn content_length_name() -> Seq<u8> {
    seq![67u8, 111, 110, 116, 101, 110, 116, 45, 76, 101, 110, 103, 116, 104]
}

/// The body length a header announces: the first line that mentions
/// `Content-Length` gives it, read from UTF-8 byte offset 16 of that line,
/// trimmed; no body is announced when no line mentions it.
pub open spec fn announced_length(header: Seq<Seq<u8>>) -> Result<Option<i32>, RequestError> {
    let i = first_line_containing(header, content_length_name());
    if i < 0 {
        Ok(None)
    } else {
        let l = header[i];
        match index_at_utf8_offset(l, 16) {
            None => Err(RequestError::BadContentLength),
            Some(k) => match i32_of(trim_bytes(l.skip(k))) {
                Some(n) => Ok(Some(n)),
                None => Err(RequestError::BadContentLength),
            },
        }
    }
}

/// The route a header names: the first two words of its first line.
pub open spec fn route_of(header: Seq<Seq<u8>>) -> Result<Seq<u8>, RequestError> {
    if header.len() == 0 {
        Err(RequestError::NoRequestLine)
    } else if words(header[0]).len() < 2 {
        Err(RequestError::NoRoute)
    } else {
        Ok(leading_two_words(header[0]))
    }
}

/// The fields of a body, read as Latin-1 text holding a JSON object.
pub open spec fn body_fields(body: Seq<u8>) -> Option<Seq<FieldView>> {
    match json_object(body.map_values(|b: u8| b as char)) {
        Some(o) => Some(o.1),
        None => None,
    }
}

/// The standard line announcing a body of `digits` bytes.
pub open spec fn content_length_line(digits: Seq<u8>) -> Seq<u8> {
    content_length_name() + seq![58u8, 32] + digits + seq![13u8, 10]
}

proof fn lemma_standard_line_found(digits: Seq<u8>)
    ensures
        first_line_containing(seq![content_length_line(digits)], content_length_name()) == 0,
{
    let name = content_length_name();
    let line = content_length_line(digits);
    assert(name.len() == 14);
    assert(line.subrange(0, 0 + name.len() as int) =~= name);
    assert(contains_block(line, name));
    assert(seq![line][0] == line);
}

proof fn lemma_standard_line_offset(digits: Seq<u8>)
    ensures
        index_at_utf8_offset(content_length_line(digits), 16) == Some(16int),
        content_length_line(digits).skip(16) == digits + seq![13u8, 10],
{
    let name = content_length_name();
    let line = content_length_line(digits);
    assert forall|k: int| 0 <= k < 16 implies #[trigger] line[k] < 128 by {
        if k < 14 {
            assert(line[k] == name[k]);
        }
    }
    lemma_ascii_offset(line, 16);
    assert(line.skip(16) =~= digits + seq![13u8, 10]);
}

proof fn lemma_digits_trimmed(digits: Seq<u8>)
    requires
        is_digit_run(digits),
    ensures
        trim_bytes(digits + seq![13u8, 10]) == digits,
{
    let rest = digits + seq![13u8, 10];
    let p = |b: u8| is_space_byte(b);
    assert forall|k: int| digits.len() <= k < rest.len() implies p(#[trigger] rest[k]) by {
        assert(rest[k] == 13 || rest[k] == 10);
    }
    assert(rest[0] == digits[0]);
    assert(rest[digits.len() - 1] == digits[digits.len() - 1]);
    lemma_trim_bounds(rest, p, 0, digits.len() as int);
    assert(rest.subrange(0, digits.len() as int) =~= digits);
}

/// A standard `Content-Length: <digits>\r\n` line announces the length its
/// digits write.
pub proof fn lemma_content_length_read_back(digits: Seq<u8>)
    requires
        is_digit_run(digits),
        digit_run_value(digits) <= i32::MAX,
    ensures
        announced_length(seq![content_length_line(digits)]) == Ok::<Option<i32>, RequestError>(
            Some(digit_run_value(digits) as i32),
        ),
{
    lemma_standard_line_found(digits);
    lemma_standard_line_offset(digits);
    lemma_digits_trimmed(digits);
    assert(is_digit_byte(digits[0]));
    lemma_digit_run_value_nonneg(digits);
    assert(seq![content_length_line(digits)][0] == content_length_line(digits));
}

/// A request: its header lines (each with its `\n`) and its body's fields.
pub struct HttpRequest {
    pub header: Vec<Vec<u8>>,
    pub body: Option<Vec<JsonField>>,
}

impl HttpRequest {
    /// The body's fields, if it has a body.
    pub open spec fn body_view(&self) -> Option<Seq<FieldView>> {
        match self.body {
            Some(fs) => Some(fields_view(fs@)),
            None => None,
        }
    }

    /// A request with no header lines and no body.
    pub fn new() -> (r: Self)
        ensures
            r.header@.len() == 0,
            r.body is None,
    {
        HttpRequest { header: Vec::new(), body: None }
    }

    /// The body length the header announces.
    pub fn content_length(&self) -> (r: Result<Option<i32>, RequestError>)
        ensures
            r == announced_length(lines_view(self.header@)),
    {
        // "Content-Length"
        let name: [u8; 14] = [67, 111, 110, 116, 101, 110, 116, 45, 76, 101, 110, 103, 116, 104];
        assert(name@ =~= content_length_name());
        let needle = name.as_slice();
        assert(needle@ == content_length_name());
        let found = find_line_containing(&self.header, needle);
        match found {
            None => Ok(None),
            Some(i) => {
                let l = &self.header[i];
                assert(lines_view(self.header@)[i as int] == l@);
                assert(l@.subrange(0, l@.len() as int) =~= l@);
                match index_at_offset(l, 0, l.len(), 16) {
                    None => Err(RequestError::BadContentLength),
                    Some(k) => {
                        assert(l@.subrange(k as int, l@.len() as int) =~= l@.skip(k as int));
                        let (a, b) = trimmed_bounds(l, k, l.len());
                        match parse_i32(l, a, b) {
                            Some(n) => Ok(Some(n)),
                            None => Err(RequestError::BadContentLength),
                        }
                    },
                }
            },
        }
    }

    /// Reads the body bytes, one Latin-1 character per byte, as a JSON
    /// object and keeps its fields.
    pub fn set_body(&mut self, body: &[u8]) -> (r: Result<(), RequestError>)
        ensures
            final(self).header == old(self).header,
            match body_fields(body@) {
                Some(fs) => r is Ok && final(self).body_view() == Some(fs),
                None => r == Err::<(), RequestError>(RequestError::BadBody) && final(self).body
                    == old(self).body,
            },
    {
        let text = latin1_text(body);
        match parse_json_object(text.as_str()) {
            Some(o) => {
                self.body = Some(o.fields);
                Ok(())
            },
            None => Err(RequestError::BadBody),
        }
    }

    /// The header as text, one Latin-1 character per byte.
    pub fn header_text(&self) -> (s: String)
        ensures
            s@ == join_lines(lines_view(self.header@)).map_values(|b: u8| b as char),
    {
        let ghost lv = lines_view(self.header@);
        let mut s = String::new();
        let mut i: usize = 0;
        assert(lv.take(0) =~= Seq::<Seq<u8>>::empty());
        while i < self.header.len()
            invariant
                i <= self.header@.len(),
                lv == lines_view(self.header@),
                s@ == join_lines(lv.take(i as int)).map_values(|b: u8| b as char),
            decreases self.header@.len() - i,
        {
            let line = latin1_text(self.header[i].as_slice());
            let ghost before = s@;
            s.append(line.as_str());
            assert(lv.take(i + 1).drop_last() =~= lv.take(i as int));
            assert(lv.take(i + 1).last() == self.header@[i as int]@);
            let ghost a = join_lines(lv.take(i as int));
            let ghost b = self.header@[i as int]@;
            assert((a + b).map_values(|c: u8| c as char) =~= a.map_values(|c: u8| c as char)
                + b.map_values(|c: u8| c as char));
            i = i + 1;
        }
        assert(lv.take(i as int) =~= lv);
        s
    }

    /// Whether answering the request reads the user data: `GET /`, and
    /// `POST /login` with a body.
    pub fn needs_data(&self) -> (r: bool)
        ensures
            r == uses_data(lines_view(self.header@), self.body_view()),
    {
        let get_root: [u8; 5] = [71, 69, 84, 32, 47];
        let post_login: [u8; 11] = [80, 79, 83, 84, 32, 47, 108, 111, 103, 105, 110];
        assert(get_root@ =~= get_root_name());
        assert(post_login@ =~= post_login_name());
        match self.route() {
            Err(_) => false,
            Ok(route) => bytes_equal(&route, get_root.as_slice()) || (bytes_equal(
                &route,
                post_login.as_slice(),
            ) && self.body.is_some()),
        }
    }

    /// The route the request line names.
    pub fn route(&self) -> (r: Result<Vec<u8>, RequestError>)
        ensures
            match route_of(lines_view(self.header@)) {
                Ok(route) => r matches Ok(v) && v@ == route,
                Err(e) => r == Err::<Vec<u8>, RequestError>(e),
            },
    {
        if self.header.len() == 0 {
            return Err(RequestError::NoRequestLine);
        }
        let first = &self.header[0];
        assert(lines_view(self.header@)[0] == first@);
        assert(first@.subrange(0, first@.len() as int) =~= first@);
        let (w, two) = leading_words(first, 0, first.len());
        if !two {
            return Err(RequestError::NoRoute);
        }
        Ok(w)
    }
}

/// A user record: the texts of its `username` and `password` values, each
/// absent where the record is no object or lacks the field.
pub struct StoredUser {
    pub username: Option<String>,
    pub password: Option<String>,
}

impl View for StoredUser {
    type V = UserView;

    open spec fn view(&self) -> UserView {
        (
            match self.username {
                Some(u) => Some(u@),
                None => None,
            },
            match self.password {
                Some(p) => Some(p@),
                None => None,
            },
        )
    }
}

/// Records by their views.
pub open spec fn users_view(users: Seq<StoredUser>) -> Seq<UserView> {
    users.map_values(|u: StoredUser| u@)
}

/// The user data a server answers with: the document as compact JSON, and
/// the records of its `users` array (absent where there is no such array).
pub struct UserData {
    pub json: String,
    pub users: Option<Vec<StoredUser>>,
}

/// The view of the user data: its text and its records.
pub type UserDataView = (Seq<char>, Option<Seq<UserView>>);

impl View for UserData {
    type V = UserDataView;

    open spec fn view(&self) -> UserDataView {
        (
            self.json@,
            match self.users {
                Some(us) => Some(users_view(us@)),
                None => None,
            },
        )
    }
}

/// The record a JSON value gives: its `username` and `password` texts when
/// it is an object, nothing when it is not.
pub open spec fn user_from_object(o: Option<(Seq<char>, Seq<FieldView>)>) -> UserView {
    match o {
        None => (None, None),
        Some(o) => (
            match field_lookup(o.1, "username"@) {
                Some(f) => Some(f.1),
                None => None,
            },
            match field_lookup(o.1, "password"@) {
                Some(f) => Some(f.1),
                None => None,
            },
        ),
    }
}

/// The record an item of the `users` array gives.
pub open spec fn stored_user_of(item: Seq<char>) -> UserView {
    user_from_object(json_object(item))
}

/// The user data a document gives; `None` where it is not a JSON object.
pub open spec fn user_data_of(text: Seq<char>) -> Option<UserDataView> {
    match json_object(text) {
        None => None,
        Some(o) => Some(
            (
                o.0,
                match field_lookup(o.1, "users"@) {
                    None => None,
                    Some(f) => match json_array(f.1) {
                        None => None,
                        Some(items) => Some(items.map_values(|t: Seq<char>| stored_user_of(t))),
                    },
                },
            ),
        ),
    }
}

/// The record a JSON value read as an object gives.
pub fn stored_user_from(obj: &Option<JsonObject>) -> (u: StoredUser)
    ensures
        u@ == user_from_object(
            match obj {
                Some(o) => Some(o@),
                None => None,
            },
        ),
{
    match obj {
        None => StoredUser { username: None, password: None },
        Some(o) => {
            let username = lookup_text(&o.fields, &String::from_str("username"));
            let password = lookup_text(&o.fields, &String::from_str("password"));
            StoredUser { username, password }
        },
    }
}

/// Reads the user data from the text of a JSON document.
pub fn load_user_data(text: &str) -> (r: Option<UserData>)
    ensures
        match r {
            Some(d) => user_data_of(text@) == Some(d@),
            None => user_data_of(text@) is None,
        },
{
    let doc = match parse_json_object(text) {
        Some(o) => o,
        None => return None,
    };
    let users = match lookup_text(&doc.fields, &String::from_str("users")) {
        None => None,
        Some(t) => match parse_json_array(t.as_str()) {
            None => None,
            Some(items) => {
                let ghost iv = items@.map_values(|t: String| t@);
                let mut us: Vec<StoredUser> = Vec::new();
                let mut i: usize = 0;
                while i < items.len()
                    invariant
                        i <= items@.len(),
                        iv == items@.map_values(|t: String| t@),
                        users_view(us@) == iv.take(i as int).map_values(
                            |t: Seq<char>| stored_user_of(t),
                        ),
                    decreases items@.len() - i,
                {
                    let ghost before = us@;
                    let u = stored_user_from(&parse_json_object(items[i].as_str()));
                    us.push(u);
                    assert(iv.take(i + 1) =~= iv.take(i as int).push(iv[i as int]));
                    assert(us@ =~= before.push(u));
                    assert(users_view(us@) =~= users_view(before).push(u@));
                    assert(users_view(us@) =~= iv.take(i + 1).map_values(
                        |t: Seq<char>| stored_user_of(t),
                    ));
                    i = i + 1;
                }
                assert(iv.take(i as int) =~= iv);
                Some(us)
            },
        },
    };
    Some(UserData { json: doc.text, users })
}

/// The record bears the name: its username is, as a JSON value, equal to
/// `name`.
pub open spec fn bears_name(user: UserView, name: Seq<char>) -> bool {
    user.0 matches Some(u) && json_value_eq(u, name)
}

/// Where the first record named `name` stands (names compared as JSON
/// values); a record without a username met before it spoils the search.
pub open spec fn find_user(users: Seq<UserView>, name: Seq<char>) -> Result<Option<int>, RequestError>
    decreases users.len(),
{
    if users.len() == 0 {
        Ok(None)
    } else {
        match users[0].0 {
            None => Err(RequestError::BadUserRecord),
            Some(u) => if json_value_eq(u, name) {
                Ok(Some(0))
            } else {
                match find_user(users.drop_first(), name) {
                    Ok(Some(k)) => Ok(Some(k + 1)),
                    other => other,
                }
            },
        }
    }
}

/// The reply to a login: a status and, if any, the `success` flag of the
/// JSON body.
pub open spec fn login_reply(body: Option<Seq<FieldView>>, data: Option<UserDataView>) -> Result<
    (Seq<char>, Option<bool>),
    RequestError,
> {
    match body {
        None => Ok(("400 Bad Request"@, None)),
        Some(fields) => match (field_lookup(fields, "username"@), field_lookup(fields, "password"@)) {
            (Some(u), Some(p)) => match data {
                Some((_, Some(users))) => match find_user(users, u.1) {
                    Err(e) => Err(e),
                    Ok(None) => Ok(("404 Not Found"@, Some(false))),
                    Ok(Some(k)) => match users[k].1 {
                        None => Err(RequestError::BadUserRecord),
                        Some(pw) => if json_value_eq(pw, p.1) {
                            Ok(("200 Ok"@, Some(true)))
                        } else {
                            Ok(("401 Not Authorized"@, Some(false)))
                        },
                    },
                },
                _ => Err(RequestError::DataUnavailable),
            },
            _ => Err(RequestError::MissingField),
        },
    }
}

/// A login is granted exactly when the submitted password equals, as a
/// JSON value, the password of the first record bearing the submitted
/// username.
pub proof fn lemma_login_granted(fields: Seq<FieldView>, data: Option<UserDataView>)
    ensures
        login_reply(Some(fields), data) == Ok::<(Seq<char>, Option<bool>), RequestError>(
            ("200 Ok"@, Some(true)),
        ) <==> {
            &&& field_lookup(fields, "username"@) matches Some(u)
            &&& field_lookup(fields, "password"@) matches Some(p)
            &&& data matches Some((_, Some(users)))
            &&& find_user(users, u.1) matches Ok(Some(k))
            &&& users[k].1 matches Some(pw)
            &&& json_value_eq(pw, p.1)
        },
{
    reveal_strlit("200 Ok");
    reveal_strlit("401 Not Authorized");
    reveal_strlit("404 Not Found");
    reveal_strlit("400 Bad Request");
}

/// A login reply carries a `true` flag exactly with status 200, and no body
/// exactly with status 400; 400 answers exactly a login without a body.
pub proof fn lemma_login_flag_matches_status(body: Option<Seq<FieldView>>, data: Option<UserDataView>)
    ensures
        login_reply(body, data) matches Ok((status, flag)) ==> {
            &&& (flag == Some(true) <==> status == "200 Ok"@)
            &&& (flag is None <==> status == "400 Bad Request"@)
            &&& (body is None <==> status == "400 Bad Request"@)
        },
{
    reveal_strlit("200 Ok");
    reveal_strlit("401 Not Authorized");
    reveal_strlit("404 Not Found");
    reveal_strlit("400 Bad Request");
    assert("200 Ok"@ != "400 Bad Request"@) by {
        assert("200 Ok"@.len() != "400 Bad Request"@.len());
    }
    assert("401 Not Authorized"@ != "400 Bad Request"@) by {
        assert("401 Not Authorized"@.len() != "400 Bad Request"@.len());
    }
    assert("404 Not Found"@ != "400 Bad Request"@) by {
        assert("404 Not Found"@.len() != "400 Bad Request"@.len());
    }
    assert("401 Not Authorized"@ != "200 Ok"@) by {
        assert("401 Not Authorized"@.len() != "200 Ok"@.len());
    }
    assert("404 Not Found"@ != "200 Ok"@) by {
        assert("404 Not Found"@.len() != "200 Ok"@.len());
    }
}

/// Every response opens with its status line, and one with a JSON body ends
/// with that body.
pub proof fn lemma_response_layout(status: Seq<char>, json: Option<Seq<char>>)
    ensures
        response_text(status, json).take(status_line(status).len() as int) == status_line(status),
        json matches Some(j) ==> response_text(status, json).skip(
            response_text(status, json).len() - j.len(),
        ) == j,
{
    let t = response_text(status, json);
    assert(t.take(status_line(status).len() as int) =~= status_line(status));
    if let Some(j) = json {
        assert(t.skip(t.len() - j.len()) =~= j);
    }
}

/// The response text for a status and optional `success` flag.
pub open spec fn reply_text(status: Seq<char>, flag: Option<bool>) -> Seq<char> {
    response_text(
        status,
        match flag {
            Some(b) => Some(bool_object_text("success"@, b)),
            None => None,
        },
    )
}

fn find_user_index(users: &Vec<StoredUser>, name: &String) -> (r: Result<Option<usize>, RequestError>)
    ensures
        match r {
            Ok(Some(i)) => i < users@.len() && find_user(users_view(users@), name@) == Ok::<
                Option<int>,
                RequestError,
            >(Some(i as int)),
            Ok(None) => find_user(users_view(users@), name@) == Ok::<Option<int>, RequestError>(None),
            Err(e) => find_user(users_view(users@), name@) == Err::<Option<int>, RequestError>(e),
        },
{
    let ghost uv = users_view(users@);
    let mut i: usize = 0;
    assert(uv.skip(0) =~= uv);
    while i < users.len()
        invariant
            i <= users@.len(),
            uv == users_view(users@),
            find_user(uv, name@) == match find_user(uv.skip(i as int), name@) {
                Ok(Some(k)) => Ok(Some(k + i)),
                other => other,
            },
        decreases users@.len() - i,
    {
        assert(uv.skip(i as int)[0] == users@[i as int]@);
        assert(uv.skip(i as int).drop_first() =~= uv.skip(i + 1));
        match &users[i].username {
            None => return Err(RequestError::BadUserRecord),
            Some(u) => {
                if json_values_equal(u.as_str(), name.as_str()) {
                    return Ok(Some(i));
                }
            },
        }
        i = i + 1;
    }
    assert(uv.skip(i as int) =~= Seq::<UserView>::empty());
    Ok(None)
}

/// The search finds the first record bearing the name, and fails only on a
/// record without a username that stands before any such record.
pub proof fn lemma_find_user_first(users: Seq<UserView>, name: Seq<char>)
    ensures
        find_user(users, name) matches Ok(Some(k)) ==> {
            &&& 0 <= k < users.len()
            &&& bears_name(users[k], name)
            &&& forall|j: int| 0 <= j < k ==> #[trigger] users[j].0 is Some && !bears_name(users[j], name)
        },
        find_user(users, name) is Ok && find_user(users, name) != Ok::<Option<int>, RequestError>(None)
            <==> exists|k: int|
            0 <= k < users.len() && #[trigger] bears_name(users[k], name) && forall|j: int|
                0 <= j < k ==> #[trigger] users[j].0 is Some,
        find_user(users, name) == Ok::<Option<int>, RequestError>(None) <==> forall|j: int|
            0 <= j < users.len() ==> #[trigger] users[j].0 is Some && !bears_name(users[j], name),
    decreases users.len(),
{
    if users.len() > 0 {
        let rest = users.drop_first();
        lemma_find_user_first(rest, name);
        assert forall|j: int| 0 < j < users.len() implies #[trigger] users[j] == rest[j - 1] by {}
        if let Ok(Some(k)) = find_user(users, name) {
            if k > 0 {
                assert forall|j: int| 0 <= j < k implies #[trigger] users[j].0 is Some && !bears_name(
                    users[j],
                    name,
                ) by {
                    if j > 0 {
                        assert(rest[j - 1] == users[j]);
                    }
                }
            }
        }
        if exists|k: int|
            0 <= k < users.len() && #[trigger] bears_name(users[k], name) && forall|j: int|
                0 <= j < k ==> #[trigger] users[j].0 is Some {
            let k = choose|k: int|
                0 <= k < users.len() && #[trigger] bears_name(users[k], name) && forall|j: int|
                    0 <= j < k ==> #[trigger] users[j].0 is Some;
            if k > 0 && !bears_name(users[0], name) {
                assert(bears_name(rest[k - 1], name));
                assert forall|j: int| 0 <= j < k - 1 implies #[trigger] rest[j].0 is Some by {
                    assert(rest[j] == users[j + 1]);
                }
            }
        }
        if find_user(users, name) is Ok && find_user(users, name) != Ok::<Option<int>, RequestError>(None) {
            if !bears_name(users[0], name) {
                let k = choose|k: int|
                    0 <= k < rest.len() && #[trigger] bears_name(rest[k], name) && forall|j: int|
                        0 <= j < k ==> #[trigger] rest[j].0 is Some;
                assert(bears_name(users[k + 1], name));
                assert forall|j: int| 0 <= j < k + 1 implies #[trigger] users[j].0 is Some by {
                    if j > 0 {
                        assert(users[j] == rest[j - 1]);
                    }
                }
            }
        }
        if forall|j: int| 0 <= j < users.len() ==> #[trigger] users[j].0 is Some && !bears_name(users[j], name) {
            assert forall|j: int| 0 <= j < rest.len() implies #[trigger] rest[j].0 is Some && !bears_name(rest[j], name) by {
                assert(rest[j] == users[j + 1]);
            }
        }
    }
}

/// Answers a login: checks the submitted `username` and `password` against
/// the user records.
pub fn post_login_route(body: &Option<Vec<JsonField>>, data: &Option<UserData>) -> (r: Result<
    HttpResponse,
    RequestError,
>)
    ensures
        match login_reply(
            match body {
                Some(fs) => Some(fields_view(fs@)),
                None => None,
            },
            match data {
                Some(d) => Some(d@),
                None => None,
            },
        ) {
            Ok((status, flag)) => r matches Ok(resp) && resp.response@ == reply_text(status, flag),
            Err(e) => r == Err::<HttpResponse, RequestError>(e),
        },
{
    proof {
        reveal_strlit("success");
        assert(is_plain_key("success"@));
    }
    let fields = match body {
        None => return Ok(HttpResponse::new("400 Bad Request", None)),
        Some(fs) => fs,
    };
    let username = match lookup_text(fields, &String::from_str("username")) {
        None => return Err(RequestError::MissingField),
        Some(u) => u,
    };
    let password = match lookup_text(fields, &String::from_str("password")) {
        None => return Err(RequestError::MissingField),
        Some(p) => p,
    };
    let users = match data {
        Some(d) => match &d.users {
            Some(us) => us,
            None => return Err(RequestError::DataUnavailable),
        },
        None => return Err(RequestError::DataUnavailable),
    };
    let search = find_user_index(users, &username);
    let found = match search {
        Err(e) => return Err(e),
        Ok(None) => {
            let json = json_bool_object("success", false);
            return Ok(HttpResponse::new("404 Not Found", Some(json.as_str())));
        },
        Ok(Some(k)) => k,
    };
    assert(users_view(users@)[found as int] == users@[found as int]@);
    match &users[found].password {
        None => Err(RequestError::BadUserRecord),
        Some(pw) => {
            if !json_values_equal(pw.as_str(), password.as_str()) {
                let json = json_bool_object("success", false);
                Ok(HttpResponse::new("401 Not Authorized", Some(json.as_str())))
            } else {
                let json = json_bool_object("success", true);
                Ok(HttpResponse::new("200 Ok", Some(json.as_str())))
            }
        },
    }
}

/// `GET /` as bytes.
pub open spec fn get_root_name() -> Seq<u8> {
    seq![71u8, 69, 84, 32, 47]
}

/// `POST /login` as bytes.
pub open spec fn post_login_name() -> Seq<u8> {
    seq![80u8, 79, 83, 84, 32, 47, 108, 111, 103, 105, 110]
}

/// Answers `GET /` with the user data.
pub fn get_root_route(data: &Option<UserData>) -> (r: Result<HttpResponse, RequestError>)
    ensures
        match data {
            Some(d) => r matches Ok(resp) && resp.response@ == response_text("200 Ok"@, Some(d.json@)),
            None => r == Err::<HttpResponse, RequestError>(RequestError::DataUnavailable),
        },
{
    match data {
        Some(d) => Ok(HttpResponse::new("200 Ok", Some(d.json.as_str()))),
        None => Err(RequestError::DataUnavailable),
    }
}

/// What the server sends back for a request: an error where it sends
/// nothing and drops the request, `None` for a route it does not serve.
pub open spec fn routed_reply(
    header: Seq<Seq<u8>>,
    body: Option<Seq<FieldView>>,
    data: Option<UserDataView>,
) -> Result<Option<Seq<char>>, RequestError> {
    match route_of(header) {
        Err(e) => Err(e),
        Ok(route) => if route == get_root_name() {
            match data {
                Some(d) => Ok(Some(response_text("200 Ok"@, Some(d.0)))),
                None => Err(RequestError::DataUnavailable),
            }
        } else if route == post_login_name() {
            match login_reply(body, data) {
                Ok((status, flag)) => Ok(Some(reply_text(status, flag))),
                Err(e) => Err(e),
            }
        } else {
            Ok(None)
        },
    }
}

/// Answering the request reads the user data: `GET /`, and `POST /login`
/// with a body.
pub open spec fn uses_data(header: Seq<Seq<u8>>, body: Option<Seq<FieldView>>) -> bool {
    match route_of(header) {
        Ok(route) => route == get_root_name() || (route == post_login_name() && body is Some),
        Err(_) => false,
    }
}

/// A request that does not read the user data gets the same reply whatever
/// the data.
pub proof fn lemma_data_unread(
    header: Seq<Seq<u8>>,
    body: Option<Seq<FieldView>>,
    data1: Option<UserDataView>,
    data2: Option<UserDataView>,
)
    requires
        !uses_data(header, body),
    ensures
        routed_reply(header, body, data1) == routed_reply(header, body, data2),
{
}

/// A request whose line starts with `GET /` followed by a space or its end
/// is answered, when the user data was read, with status 200 and the data's
/// JSON text as body; without the data it is dropped.
pub proof fn lemma_root_serves_data(
    header: Seq<Seq<u8>>,
    body: Option<Seq<FieldView>>,
    d: UserDataView,
)
    requires
        header.len() > 0,
        header[0].len() >= 5,
        header[0].take(5) == seq![71u8, 69, 84, 32, 47],
        header[0].len() == 5 || header[0][5] == 32,
    ensures
        routed_reply(header, body, Some(d)) == Ok::<Option<Seq<char>>, RequestError>(
            Some("HTTP/1.1 200 Ok\r\nContent-Type: application/json\r\n\r\n"@ + d.0),
        ),
        routed_reply(header, body, None) == Err::<Option<Seq<char>>, RequestError>(
            RequestError::DataUnavailable,
        ),
{
    let w = seq![71u8, 69, 84, 32, 47];
    assert(w == get_root_name());
    assert forall|k: int| 0 <= k < 5 && k != 3 implies #[trigger] w[k] != 32 by {
        if k == 0 {
        } else if k == 1 {
        } else if k == 2 {
        } else {
        }
    }
    lemma_leading_words_are(header[0], w, 3);
    let (a, b) = lemma_leading_words_span(header[0]);
    assert(header[0][3] == header[0].take(5)[3]);
    assert(a != -1);
    reveal_strlit("HTTP/1.1 ");
    reveal_strlit("200 Ok");
    reveal_strlit("\r\n");
    reveal_strlit("Content-Type: application/json\r\n\r\n");
    reveal_strlit("HTTP/1.1 200 Ok\r\nContent-Type: application/json\r\n\r\n");
    assert("HTTP/1.1 "@ + "200 Ok"@ + "\r\n"@ + "Content-Type: application/json\r\n\r\n"@ =~= "HTTP/1.1 200 Ok\r\nContent-Type: application/json\r\n\r\n"@);
    assert(response_text("200 Ok"@, Some(d.0)) =~= "HTTP/1.1 200 Ok\r\nContent-Type: application/json\r\n\r\n"@ + d.0);
}

/// The lookup finds the first field under the key, and finds none exactly
/// when no field bears the key.
pub proof fn lemma_field_lookup_first(fields: Seq<FieldView>, key: Seq<char>)
    ensures
        field_lookup(fields, key) matches Some(f) ==> exists|i: int|
            0 <= i < fields.len() && #[trigger] fields[i] == f && f.0 == key && forall|j: int|
                0 <= j < i ==> #[trigger] fields[j].0 != key,
        field_lookup(fields, key) is None <==> forall|i: int|
            0 <= i < fields.len() ==> #[trigger] fields[i].0 != key,
    decreases fields.len(),
{
    if fields.len() > 0 {
        let rest = fields.drop_first();
        lemma_field_lookup_first(rest, key);
        assert forall|i: int| 0 < i < fields.len() implies #[trigger] fields[i] == rest[i - 1] by {}
        if fields[0].0 != key {
            if let Some(f) = field_lookup(fields, key) {
                let i = choose|i: int|
                    0 <= i < rest.len() && #[trigger] rest[i] == f && f.0 == key && forall|j: int|
                        0 <= j < i ==> #[trigger] rest[j].0 != key;
                assert(fields[i + 1] == f);
                assert forall|j: int| 0 <= j < i + 1 implies #[trigger] fields[j].0 != key by {
                    if j > 0 {
                        assert(fields[j] == rest[j - 1]);
                    }
                }
            }
            if forall|i: int| 0 <= i < fields.len() ==> #[trigger] fields[i].0 != key {
                assert forall|i: int| 0 <= i < rest.len() implies #[trigger] rest[i].0 != key by {
                    assert(rest[i] == fields[i + 1]);
                }
            }
        } else {
            assert(fields[0] == fields[0]);
        }
    }
}

/// When the document's `users` field is an array, the loaded data holds one
/// record per item, in order, each read from its item; the data is absent
/// exactly when the document is not a JSON object, and its text is the
/// document's compact text.
pub proof fn lemma_users_array_loaded(text: Seq<char>)
    ensures
        (user_data_of(text) is None) == (json_object(text) is None),
        json_object(text) matches Some(o) ==> {
            &&& user_data_of(text) matches Some(d)
            &&& d.0 == o.0
            &&& field_lookup(o.1, "users"@) matches Some(f) ==> (json_array(f.1) matches Some(items)
                ==> (d.1 matches Some(us) && us.len() == items.len() && forall|i: int|
                0 <= i < items.len() ==> #[trigger] us[i] == stored_user_of(items[i])))
        },
{
}

/// Against no user records, every login that carries both fields is
/// answered 404 with a `false` flag.
pub proof fn lemma_no_users_not_found(fields: Seq<FieldView>, json: Seq<char>)
    requires
        field_lookup(fields, "username"@) is Some,
        field_lookup(fields, "password"@) is Some,
    ensures
        login_reply(Some(fields), Some((json, Some(Seq::<UserView>::empty())))) == Ok::<
            (Seq<char>, Option<bool>),
            RequestError,
        >(("404 Not Found"@, Some(false))),
{
}

/// The server: the address it listens on.
pub struct HttpServer {
    pub host_addr: String,
}

impl HttpServer {
    /// A server for the address `host_addr`.
    pub fn new(host_addr: &str) -> (s: Self)
        ensures
            s.host_addr@ == host_addr@,
    {
        HttpServer { host_addr: String::from_str(host_addr) }
    }

    /// Routes a request that has been read and answers it.
    pub fn handle_request(&self, req: &HttpRequest, data: &Option<UserData>) -> (r: Result<
        Option<HttpResponse>,
        RequestError,
    >)
        ensures
            match routed_reply(
                lines_view(req.header@),
                req.body_view(),
                match data {
                    Some(d) => Some(d@),
                    None => None,
                },
            ) {
                Ok(Some(text)) => r matches Ok(Some(resp)) && resp.response@ == text,
                Ok(None) => r matches Ok(None),
                Err(e) => r == Err::<Option<HttpResponse>, RequestError>(e),
            },
    {
        let route = match req.route() {
            Ok(v) => v,
            Err(e) => return Err(e),
        };
        let get_root: [u8; 5] = [71, 69, 84, 32, 47];
        let post_login: [u8; 11] = [80, 79, 83, 84, 32, 47, 108, 111, 103, 105, 110];
        assert(get_root@ =~= get_root_name());
        assert(post_login@ =~= post_login_name());
        if bytes_equal(&route, get_root.as_slice()) {
            match get_root_route(data) {
                Ok(resp) => Ok(Some(resp)),
                Err(e) => Err(e),
            }
        } else if bytes_equal(&route, post_login.as_slice()) {
            match post_login_route(&req.body, data) {
                Ok(resp) => Ok(Some(resp)),
                Err(e) => Err(e),
            }
        } else {
            Ok(None)
        }
    }
}

} // verus!
