//! JSON documents as the request logic sees them: an object is its compact
//! text and its fields, each field its key, the compact text of its value,
//! and the string it holds when the value is a string.  Reading and writing
//! JSON is left to `serde_json`.

use vstd::prelude::*;

verus! {

/// A field of a JSON object.
pub struct JsonField {
    pub key: String,
    /// The value written as compact JSON.
    pub text: String,
    /// The value's contents when it is a JSON string.
    pub str_value: Option<String>,
}

impl View for JsonField {
    type V = (Seq<char>, Seq<char>, Option<Seq<char>>);

    open spec fn view(&self) -> (Seq<char>, Seq<char>, Option<Seq<char>>) {
        (
            self.key@,
            self.text@,
            match self.str_value {
                Some(s) => Some(s@),
                None => None,
            },
        )
    }
}

/// A JSON object.
pub struct JsonObject {
    /// The whole object written as compact JSON, keys in ascending order.
    pub text: String,
    /// Its fields, keys in ascending order.
    pub fields: Vec<JsonField>,
}

impl View for JsonObject {
    type V = (Seq<char>, Seq<(Seq<char>, Seq<char>, Option<Seq<char>>)>);

    open spec fn view(&self) -> (Seq<char>, Seq<(Seq<char>, Seq<char>, Option<Seq<char>>)>) {
        (self.text@, self.fields@.map_values(|f: JsonField| f@))
    }
}

/// The object that `serde_json` reads from a text, as compact text and
/// fields; `None` where the text is not a JSON object.
pub uninterp spec fn json_object(text: Seq<char>) -> Option<
    (Seq<char>, Seq<(Seq<char>, Seq<char>, Option<Seq<char>>)>),
>;

/// The items that `serde_json` reads from a text, each as compact text;
/// `None` where the text is not a JSON array.
pub uninterp spec fn json_array(text: Seq<char>) -> Option<Seq<Seq<char>>>;

/// Whether `serde_json` reads the two texts as equal values (`Value`'s
/// `==`: numbers compare as numbers, so `0.0` equals `-0.0`).
pub uninterp spec fn json_value_eq(a: Seq<char>, b: Seq<char>) -> bool;

/// No two fields share a key.
pub open spec fn keys_distinct(fields: Seq<(Seq<char>, Seq<char>, Option<Seq<char>>)>) -> bool {
    forall|i: int, j: int|
        0 <= i < fields.len() && 0 <= j < fields.len() && i != j ==> #[trigger] fields[i].0
            != #[trigger] fields[j].0
}

/// Reads `text` with `serde_json::from_str` as a `serde_json::Map` (an
/// object; with the crate's default features its keys are kept in ascending
/// order, and a key that occurs twice keeps its last value).  Claimed: the
/// result is a function of the text alone, and no two fields share a key.
#[verifier::external_body]
pub fn parse_json_object(text: &str) -> (res: Option<JsonObject>)
    ensures
        match res {
            Some(o) => json_object(text@) == Some(o@) && keys_distinct(o@.1),
            None => json_object(text@) is None,
        },
{
    let map: serde_json::Map<String, serde_json::Value> = serde_json::from_str(text).ok()?;
    let fields = map.iter().map(|(k, v)| JsonField {
        key: k.clone(),
        text: v.to_string(),
        str_value: v.as_str().map(|s| s.to_string()),
    }).collect();
    Some(JsonObject { text: serde_json::Value::Object(map).to_string(), fields })
}

/// Reads `text` with `serde_json::from_str` as a `Vec<serde_json::Value>`
/// (an array) and writes each item back as compact JSON.  Claimed: the
/// result is a function of the text alone.
#[verifier::external_body]
pub fn parse_json_array(text: &str) -> (res: Option<Vec<String>>)
    ensures
        match res {
            Some(items) => json_array(text@) == Some(items@.map_values(|t: String| t@)),
            None => json_array(text@) is None,
        },
{
    let items: Vec<serde_json::Value> = serde_json::from_str(text).ok()?;
    Some(items.iter().map(|v| v.to_string()).collect())
}

/// Reads both texts with `serde_json::from_str` as `serde_json::Value`s and
/// compares them with `Value`'s `==`; a text that is not JSON compares
/// unequal.  Claimed: the answer is a function of the two texts alone.
#[verifier::external_body]
pub fn json_values_equal(a: &str, b: &str) -> (r: bool)
    ensures
        r == json_value_eq(a@, b@),
{
    match (serde_json::from_str::<serde_json::Value>(a), serde_json::from_str::<serde_json::Value>(b)) {
        (Ok(x), Ok(y)) => x == y,
        _ => false,
    }
}

/// A key that `serde_json` writes without escapes: no `"`, no `\`, no
/// control character below U+0020.
pub open spec fn is_plain_key(key: Seq<char>) -> bool {
    forall|k: int| 0 <= k < key.len() ==> #[trigger] key[k] != '"' && key[k] != '\\' && key[k] as u32 >= 32
}

/// Compact JSON text of an object with the single field `key: flag`.
pub open spec fn bool_object_text(key: Seq<char>, flag: bool) -> Seq<char> {
    seq!['{', '"'] + key + seq!['"', ':'] + (if flag {
        seq!['t', 'r', 'u', 'e']
    } else {
        seq!['f', 'a', 'l', 's', 'e']
    }) + seq!['}']
}

/// Writes the one-entry map `{key: flag}` (a `HashMap<String, Value>`) with
/// `serde_json::to_string`.  Claimed: for a key that needs no escaping, the
/// text is `{"key":true}` or `{"key":false}`; for other keys nothing is
/// claimed.
#[verifier::external_body]
pub fn json_bool_object(key: &str, flag: bool) -> (res: String)
    ensures
        is_plain_key(key@) ==> res@ == bool_object_text(key@, flag),
{
    let map = std::collections::HashMap::from([(key.to_string(), serde_json::Value::Bool(flag))]);
    serde_json::to_string(&map).unwrap_or_default()
}

/// `String::push` appends the character.
pub assume_specification[ String::push ](s: &mut String, ch: char)
    ensures
        final(s)@ == old(s)@.push(ch),
;

/// The text whose characters are the Latin-1 characters of the bytes, one
/// per byte.
pub fn latin1_text(bytes: &[u8]) -> (s: String)
    ensures
        s@ == bytes@.map_values(|b: u8| b as char),
{
    let mut s = String::new();
    let mut i: usize = 0;
    while i < bytes.len()
        invariant
            i <= bytes@.len(),
            s@ == bytes@.take(i as int).map_values(|b: u8| b as char),
        decreases bytes@.len() - i,
    {
        s.push(bytes[i] as char);
        assert(bytes@.take(i + 1) =~= bytes@.take(i as int).push(bytes@[i as int]));
        i = i + 1;
    }
    assert(bytes@.take(i as int) =~= bytes@);
    s
}

} // verus!
