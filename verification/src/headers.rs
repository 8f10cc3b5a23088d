//! HTTP header maps of the `http` crate: what the limiter reads from them
//! and writes into them.

use vstd::prelude::*;
use vstd::string::*;

verus! {

#[verifier::external_type_specification]
#[verifier::external_body]
#[verifier::reject_recursive_types(T)]
pub struct ExHeaderMap<T>(http::HeaderMap<T>);

#[verifier::external_type_specification]
#[verifier::external_body]
pub struct ExHeaderValue(http::HeaderValue);

/// What a header map holds: for each header name, in lower case, its values
/// in the order they were added, each as its bytes.
pub uninterp spec fn header_map_fields(headers: http::HeaderMap) -> Map<Seq<char>, Seq<Seq<u8>>>;

/// A header name as the lookups here write it: lower-case letters and `-`.
pub open spec fn is_lowercase_header_name(name: Seq<char>) -> bool {
    &&& name.len() > 0
    &&& forall|i: int|
        0 <= i < name.len() ==> ('a' <= #[trigger] name[i] && name[i] <= 'z') || name[i] == '-'
}

/// A byte that `HeaderValue::to_str` accepts: visible ASCII or a tab.
pub open spec fn is_visible_ascii(b: u8) -> bool {
    (32 <= b && b < 127) || b == 9
}

/// The text of a header value: its bytes as characters, when every byte is
/// visible ASCII or a tab.
pub open spec fn visible_text(bytes: Seq<u8>) -> Option<Seq<char>> {
    if forall|i: int| 0 <= i < bytes.len() ==> is_visible_ascii(#[trigger] bytes[i]) {
        Some(Seq::new(bytes.len(), |i: int| bytes[i] as char))
    } else {
        None
    }
}

/// The text of the first value of the header `name`, if the header is
/// present and that value is text.
pub open spec fn header_text_of(fields: Map<Seq<char>, Seq<Seq<u8>>>, name: Seq<char>) -> Option<
    Seq<char>,
> {
    if fields.contains_key(name) && fields[name].len() > 0 {
        visible_text(fields[name][0])
    } else {
        None
    }
}

/// Reads the first value of the header `name` with `http::HeaderMap::get`
/// and turns it into text with `HeaderValue::to_str`.
///
/// Trusted: `get` finds the header by its (lower-case) name and gives its
/// first value; `to_str` succeeds exactly when every byte of the value is
/// visible ASCII or a tab, and the text is then those bytes.
#[verifier::external_body]
pub(crate) fn header_text<'a>(headers: &'a http::HeaderMap, name: &str) -> (text: Option<&'a str>)
    requires
        is_lowercase_header_name(name@),
    ensures
        text is None ==> header_text_of(header_map_fields(*headers), name@) is None,
        text matches Some(t) ==> header_text_of(header_map_fields(*headers), name@) == Some(t@),
{
    headers.get(name).and_then(|v| v.to_str().ok())
}


/// What a header value holds: its bytes.
pub uninterp spec fn header_value_bytes(value: http::HeaderValue) -> Seq<u8>;

/// A byte that `HeaderValue::from_str` accepts: anything from 32 up but
/// 127, or a tab.
pub open spec fn is_header_value_byte(b: u8) -> bool {
    (b >= 32 && b != 127) || b == 9
}

/// Every byte is one that a header value may hold.
pub open spec fn is_header_value_text(bytes: Seq<u8>) -> bool {
    forall|i: int| 0 <= i < bytes.len() ==> is_header_value_byte(#[trigger] bytes[i])
}

/// A header name as a static name is written here: ASCII letters of either
/// case and `-`, at most 65535 of them (the longest name `http` accepts).
pub open spec fn is_header_name_text(name: Seq<char>) -> bool {
    &&& 0 < name.len() <= 65535
    &&& forall|i: int|
        0 <= i < name.len() ==> ('a' <= #[trigger] name[i] && name[i] <= 'z') || ('A' <= name[i]
            && name[i] <= 'Z') || name[i] == '-'
}

/// A character in lower case (ASCII letters only).
pub open spec fn lower_char(c: char) -> char {
    if 'A' <= c && c <= 'Z' {
        ((c as u32) + 32) as char
    } else {
        c
    }
}

/// The name as a header map stores it: in lower case.
pub open spec fn lower_header_name(name: Seq<char>) -> Seq<char> {
    name.map_values(|c: char| lower_char(c))
}

/// The most distinct header names that a map may hold before an insert:
/// from this many on, `HeaderMap::insert` may fail to grow its table and
/// panic.
pub open spec fn insert_name_limit() -> nat {
    6554
}

/// Makes a header value of `text` with `http::HeaderValue::from_str`.
///
/// Trusted: `from_str` succeeds exactly when every byte of the text is at
/// least 32 and not 127, or is a tab, and the value then holds those bytes.
#[verifier::external_body]
pub(crate) fn header_value_from_str(text: &str) -> (value: Option<http::HeaderValue>)
    ensures
        value is Some <==> is_header_value_text(text.spec_bytes()),
        value matches Some(v) ==> header_value_bytes(v) == text.spec_bytes(),
{
    http::HeaderValue::from_str(text).ok()
}

/// Sets the header `name` to the one value `value` with
/// `http::HeaderMap::insert`.
///
/// Trusted: `insert` stores the name in lower case, replaces every earlier
/// value of that name and leaves the other headers as they were. It panics
/// when the name is no valid header name (a character other than a letter
/// or `-`, or longer than 65535 bytes), and when its table cannot grow,
/// which takes at least [`insert_name_limit`] distinct names in the map;
/// `requires` leaves both out.
#[verifier::external_body]
pub(crate) fn header_insert(headers: &mut http::HeaderMap, name: &'static str, value: http::HeaderValue)
    requires
        is_header_name_text(name@),
        header_map_fields(*old(headers)).dom().finite(),
        header_map_fields(*old(headers)).dom().len() < insert_name_limit(),
    ensures
        header_map_fields(*final(headers)) == header_map_fields(*old(headers)).insert(
            lower_header_name(name@),
            seq![header_value_bytes(value)],
        ),
{
    headers.insert(name, value);
}

/// How many distinct names a header map holds, where that is finite.
pub open spec fn finite_name_count(fields: Map<Seq<char>, Seq<Seq<u8>>>) -> Option<nat> {
    if fields.dom().finite() {
        Some(fields.dom().len())
    } else {
        None
    }
}

/// The number of distinct header names in `headers`, by
/// `http::HeaderMap::keys_len`.
///
/// Trusted: `keys_len` counts the map's entries, one per distinct name, so
/// it is the size of the (finite) set of names.
#[verifier::external_body]
pub(crate) fn header_name_count(headers: &http::HeaderMap) -> (n: usize)
    ensures
        finite_name_count(header_map_fields(*headers)) == Some(n as nat),
{
    headers.keys_len()
}

} // verus!
