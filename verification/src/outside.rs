use sha2::Digest;
use vstd::prelude::*;
use vstd::utf8::{decode_utf8, valid_utf8};
use crate::text::{all_ascii, ascii_lower, ascii_upper};

verus! {

/// What `str::to_lowercase` returns for a string: its full Unicode lowercase
/// mapping.
pub uninterp spec fn unicode_lowercase(s: Seq<char>) -> Seq<char>;

/// `str::to_lowercase` (std). The contract claims that the result is a
/// function of the characters of `s` and, on ASCII text, that `A`-`Z` become
/// `a`-`z` and every other character stays; the Unicode case tables beyond
/// ASCII are not stated.
#[verifier::external_body]
pub(crate) fn to_lowercase(s: &str) -> (r: String)
    ensures
        r@ == unicode_lowercase(s@),
        all_ascii(s@) ==> r@ == s@.map_values(|c: char| ascii_lower(c)),
{
    s.to_lowercase()
}


/// What `str::to_uppercase` returns for a string: its full Unicode
/// uppercase mapping.
pub uninterp spec fn unicode_uppercase(s: Seq<char>) -> Seq<char>;

/// `str::to_uppercase` (std). The contract claims that the result is a
/// function of the characters of `s` and, on ASCII text, that `a`-`z` become
/// `A`-`Z` and every other character stays; the Unicode case tables beyond
/// ASCII are not stated.
#[verifier::external_body]
pub(crate) fn to_uppercase(s: &str) -> (r: String)
    ensures
        r@ == unicode_uppercase(s@),
        all_ascii(s@) ==> r@ == s@.map_values(|c: char| ascii_upper(c)),
{
    s.to_uppercase()
}

/// What `char::to_uppercase` yields for a character.
pub uninterp spec fn char_uppercase(c: char) -> Seq<char>;

/// `char::to_uppercase` (std), collected. The contract claims that the
/// result is a function of `c` and, for an ASCII `c`, that it is the single
/// character `ascii_upper(c)`; the case tables beyond ASCII are not stated.
#[verifier::external_body]
pub(crate) fn upper_char(c: char) -> (r: String)
    ensures
        r@ == char_uppercase(c),
        (c as u32) < 128 ==> r@ == seq![ascii_upper(c)],
{
    c.to_uppercase().collect()
}

/// Whether a character has the Unicode `Alphabetic` property.
pub uninterp spec fn alphabetic(c: char) -> bool;

/// `char::is_alphabetic` (std). The contract claims that the result is a
/// function of `c` and, for an ASCII `c`, that it holds exactly of the
/// letters `a`-`z` and `A`-`Z`; the property tables beyond ASCII are not
/// stated.
#[verifier::external_body]
pub(crate) fn is_alphabetic(c: char) -> (r: bool)
    ensures
        r == alphabetic(c),
        (c as u32) < 128 ==> (r <==> (('a' <= c && c <= 'z') || ('A' <= c && c <= 'Z'))),
{
    c.is_alphabetic()
}

/// What `sha2::Sha256::digest` returns for `data`.
pub uninterp spec fn sha256_of(data: Seq<u8>) -> Seq<u8>;

/// What `sha1::Sha1::digest` returns for `data`.
pub uninterp spec fn sha1_of(data: Seq<u8>) -> Seq<u8>;

/// What `md5::Md5::digest` (the `md-5` crate) returns for `data`.
pub uninterp spec fn md5_of(data: Seq<u8>) -> Seq<u8>;

/// `sha2::Sha256::digest`: the 32-byte SHA-256 digest of `data`, a function
/// of `data` alone; the algorithm itself is not stated.
#[verifier::external_body]
pub(crate) fn sha256_digest(data: &[u8]) -> (r: Vec<u8>)
    ensures
        r@ == sha256_of(data@),
        r@.len() == 32,
{
    sha2::Sha256::digest(data).to_vec()
}

/// `sha1::Sha1::digest`: the 20-byte SHA-1 digest of `data`, a function of
/// `data` alone; the algorithm itself is not stated.
#[verifier::external_body]
pub(crate) fn sha1_digest(data: &[u8]) -> (r: Vec<u8>)
    ensures
        r@ == sha1_of(data@),
        r@.len() == 20,
{
    sha1::Sha1::digest(data).to_vec()
}

/// `md5::Md5::digest`: the 16-byte MD5 digest of `data`, a function of
/// `data` alone; the algorithm itself is not stated.
#[verifier::external_body]
pub(crate) fn md5_digest(data: &[u8]) -> (r: Vec<u8>)
    ensures
        r@ == md5_of(data@),
        r@.len() == 16,
{
    md5::Md5::digest(data).to_vec()
}


/// `std::str::from_utf8` (std), taken as an owned `String`: it succeeds
/// exactly on valid UTF-8, and then holds the decoded characters.
#[verifier::external_body]
pub(crate) fn utf8_to_string(bytes: &[u8]) -> (r: Option<String>)
    ensures
        r is Some <==> valid_utf8(bytes@),
        r matches Some(s) ==> s@ == decode_utf8(bytes@),
{
    std::str::from_utf8(bytes).ok().map(|s| s.to_string())
}


/// The capture groups of every match of a regular expression, as
/// `regex::Regex::captures_iter` yields them: for each match, in order, the
/// text of each group (group 0 first), `None` for a group that took no part.
pub uninterp spec fn regex_captures_of(pattern: Seq<char>, text: Seq<char>) -> Seq<Seq<Option<Seq<char>>>>;

pub open spec fn groups_view(g: Seq<Option<String>>) -> Seq<Option<Seq<char>>> {
    g.map_values(|o: Option<String>| match o {
        Some(s) => Some(s@),
        None => None,
    })
}

pub open spec fn captures_view(c: Seq<Vec<Option<String>>>) -> Seq<Seq<Option<Seq<char>>>> {
    c.map_values(|g: Vec<Option<String>>| groups_view(g@))
}

/// `regex::Regex::new(pattern)` then `captures_iter(text)` (regex crate):
/// all matches with their groups. The result is claimed to be a function of
/// `pattern` and `text`; the matching rules are not stated.
#[verifier::external_body]
pub(crate) fn regex_captures(pattern: &str, text: &str) -> (r: Vec<Vec<Option<String>>>)
    ensures
        captures_view(r@) == regex_captures_of(pattern@, text@),
{
    match regex::Regex::new(pattern) {
        Ok(re) => re
            .captures_iter(text)
            .map(|c| c.iter().map(|m| m.map(|m| m.as_str().to_string())).collect())
            .collect(),
        Err(_) => Vec::new(),
    }
}

/// The keys of the table found under `section` of the TOML document
/// `content`, or `None` when the document does not parse or no table is
/// there.
pub uninterp spec fn toml_table_keys_of(content: Seq<char>, section: Seq<char>) -> Option<Seq<Seq<char>>>;

/// `content.parse::<toml::Value>()`, then `get(section)` and `as_table`,
/// then the table's keys (toml crate). The result is claimed to be a
/// function of the arguments; TOML syntax is not stated.
#[verifier::external_body]
pub(crate) fn toml_table_keys(content: &str, section: &str) -> (r: Option<Vec<String>>)
    ensures
        match r {
            Some(v) => toml_table_keys_of(content@, section@) == Some(v@.map_values(|k: String| k@)),
            None => toml_table_keys_of(content@, section@) is None,
        },
{
    let value = content.parse::<toml::Value>().ok()?;
    value.get(section)?.as_table().map(|t| t.keys().cloned().collect())
}

/// The keys of the table found under `section`, then `sub`, of the TOML
/// document `content`, or `None` when the document does not parse or no
/// table is there.
pub uninterp spec fn toml_nested_table_keys_of(content: Seq<char>, section: Seq<char>, sub: Seq<char>) -> Option<Seq<Seq<char>>>;

/// `content.parse::<toml::Value>()`, then `get(section)`, `as_table`,
/// `get(sub)` and `as_table`, then the table's keys (toml crate). The result
/// is claimed to be a function of the arguments; TOML syntax is not stated.
#[verifier::external_body]
pub(crate) fn toml_nested_table_keys(content: &str, section: &str, sub: &str) -> (r: Option<Vec<String>>)
    ensures
        match r {
            Some(v) => toml_nested_table_keys_of(content@, section@, sub@) == Some(v@.map_values(|k: String| k@)),
            None => toml_nested_table_keys_of(content@, section@, sub@) is None,
        },
{
    let value = content.parse::<toml::Value>().ok()?;
    value.get(section)?.as_table()?.get(sub)?.as_table().map(|t| t.keys().cloned().collect())
}

/// The keys of the object under `key` in the JSON document `content`, or
/// `None` when the document does not parse or no object is there.
pub uninterp spec fn json_object_keys_of(content: Seq<char>, key: Seq<char>) -> Option<Seq<Seq<char>>>;

/// `serde_json::from_str::<serde_json::Value>(content)`, then `get(key)`,
/// `as_object` and the object's keys (serde_json crate). The result is
/// claimed to be a function of the arguments; JSON syntax is not stated.
#[verifier::external_body]
pub(crate) fn json_object_keys(content: &str, key: &str) -> (r: Option<Vec<String>>)
    ensures
        match r {
            Some(v) => json_object_keys_of(content@, key@) == Some(v@.map_values(|k: String| k@)),
            None => json_object_keys_of(content@, key@) is None,
        },
{
    let value = serde_json::from_str::<serde_json::Value>(content).ok()?;
    value.get(key)?.as_object().map(|o| o.keys().cloned().collect())
}

/// A field of an event message: a name and a text or a number.
pub struct EventField {
    pub key: String,
    pub value: EventValue,
}

pub enum EventValue {
    Text(String),
    Number(u64),
}

/// The fields of an event as plain values: the name, whether the value is
/// text, the text, the number.
pub open spec fn fields_view(data: Option<Seq<EventField>>) -> Option<Seq<(Seq<char>, bool, Seq<char>, u64)>> {
    match data {
        Some(fs) => Some(fs.map_values(|f: EventField| match f.value {
            EventValue::Text(t) => (f.key@, true, t@, 0u64),
            EventValue::Number(n) => (f.key@, false, Seq::<char>::empty(), n),
        })),
        None => None,
    }
}

/// The text `serde_json` writes for an object of two members: `first_key`
/// with the text `first`, and `second_key` with an object of the given
/// fields (`null` for none).
pub uninterp spec fn json_object_text_of(
    first_key: Seq<char>,
    first: Seq<char>,
    second_key: Seq<char>,
    second: Option<Seq<(Seq<char>, bool, Seq<char>, u64)>>,
) -> Seq<char>;

/// `serde_json::Value::to_string` of an object built with
/// `serde_json::Map` from the given keys and values (serde_json crate).
/// The text is claimed to be a function of the keys and values; the JSON
/// syntax is not stated.
#[verifier::external_body]
pub(crate) fn json_object_text(first_key: &str, first: &str, second_key: &str, second: Option<&Vec<EventField>>) -> (r: String)
    ensures
        r@ == json_object_text_of(first_key@, first@, second_key@, fields_view(match second { Some(d) => Some(d@), None => None })),
{
    let data = match second {
        None => serde_json::Value::Null,
        Some(fs) => serde_json::Value::Object(fs.iter().map(|f| (f.key.clone(), match &f.value {
            EventValue::Text(t) => serde_json::Value::from(t.as_str()),
            EventValue::Number(n) => serde_json::Value::from(*n),
        })).collect()),
    };
    let mut m = serde_json::Map::new();
    m.insert(first_key.to_string(), serde_json::Value::from(first));
    m.insert(second_key.to_string(), data);
    serde_json::Value::Object(m).to_string()
}

} // verus!
