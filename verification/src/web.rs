//! URLs and JSON, by way of the crates that know them.
use crate::graph;
use crate::text;
use vstd::prelude::*;

verus! {

/// The reason a text is not a URL, as the `url` crate gives it.
#[verifier::external_type_specification]
#[verifier::external_body]
pub struct ExUrlParseError(url::ParseError);

/// The reason a text is not JSON, as the `serde_json` crate gives it.
#[verifier::external_type_specification]
#[verifier::external_body]
pub struct ExJsonError(serde_json::Error);

/// The parts of a URL.
#[verifier::ext_equal]
pub struct UrlModel {
    pub scheme: Seq<char>,
    pub username: Seq<char>,
    pub password: Option<Seq<char>>,
    pub port: Option<u16>,
    pub host: Option<Seq<char>>,
    pub segments: Option<Seq<Seq<char>>>,
}

/// The parts of a URL.
pub struct UrlParts {
    pub scheme: String,
    /// Empty where there is none.
    pub username: String,
    pub password: Option<String>,
    /// The port, where it is given and not the one the scheme implies.
    pub port: Option<u16>,
    pub host: Option<String>,
    /// The parts of the path between slashes, where the path starts with one.
    pub segments: Option<Vec<String>>,
}

impl View for UrlParts {
    type V = UrlModel;

    open spec fn view(&self) -> UrlModel {
        UrlModel {
            scheme: self.scheme@,
            username: self.username@,
            password: match self.password {
                Some(password) => Some(password@),
                None => None,
            },
            port: self.port,
            host: match self.host {
                Some(host) => Some(host@),
                None => None,
            },
            segments: match self.segments {
                Some(segments) => Some(graph::texts(segments@)),
                None => None,
            },
        }
    }
}

/// The parts of the URL that a text is, where it is one.
pub uninterp spec fn parsed_url(text: Seq<char>) -> Option<UrlModel>;

/// Takes a URL apart with `url::Url::parse`. The result is a function of the text
/// alone; which texts are URLs, and what their parts are, is what the WHATWG URL
/// standard says, and is not stated here.
#[verifier::external_body]
pub(crate) fn parse_url(text: &str) -> (res: Result<UrlParts, url::ParseError>)
    ensures
        match res {
            Ok(parts) => parsed_url(text@) == Some(parts@),
            Err(_) => parsed_url(text@) is None,
        },
{
    let url = url::Url::parse(text)?;
    Ok(UrlParts {
        scheme: url.scheme().to_owned(),
        username: url.username().to_owned(),
        password: url.password().map(str::to_owned),
        port: url.port(),
        host: url.host_str().map(str::to_owned),
        segments: url.path_segments().map(|parts| parts.map(str::to_owned).collect()),
    })
}

/// How much room a base and path segments take, at most, before encoding.
pub open spec fn path_weight(base: Seq<char>, segments: Seq<Seq<char>>) -> nat
    decreases segments.len(),
{
    if segments.len() == 0 {
        base.len()
    } else {
        path_weight(base, segments.drop_last()) + segments.last().len() + 1
    }
}

/// The most characters that are put into a URL: encoded, they take far fewer bytes than
/// a URL can hold.
pub const MAX_URL_WEIGHT: usize = 0x00ff_ffff;

/// A URL with more path segments, where the base is a URL that can have them.
pub uninterp spec fn extended_url(base: Seq<char>, segments: Seq<Seq<char>>) -> Option<Seq<char>>;

/// Appends path segments to a URL with `url::PathSegmentsMut::extend`, which
/// percent-encodes each of them. The result is a function of the base and the
/// segments; the encoding is not stated here. The `url` crate panics on a URL of
/// four gigabytes or more, so longer texts are left out.
#[verifier::external_body]
pub(crate) fn extend_url(base: &str, segments: &Vec<String>) -> (res: Option<String>)
    requires
        path_weight(base@, graph::texts(segments@)) <= MAX_URL_WEIGHT,
    ensures
        match res {
            Some(text) => extended_url(base@, graph::texts(segments@)) == Some(text@),
            None => extended_url(base@, graph::texts(segments@)) is None,
        },
{
    let mut url = url::Url::parse(base).ok()?;
    url.path_segments_mut().ok()?.extend(segments);
    Some(url.as_str().to_owned())
}

/// A URL with one more pair in its query, where the text is a URL.
pub uninterp spec fn queried_url(url: Seq<char>, name: Seq<char>, value: Seq<char>) -> Option<
    Seq<char>,
>;

/// Appends a pair to the query of a URL with `form_urlencoded::Serializer::append_pair`,
/// as `url::Url::query_pairs_mut` offers it. The result is a function of the three
/// texts; the encoding is not stated here. The `url` crate panics on a URL of four
/// gigabytes or more, so longer texts are left out.
#[verifier::external_body]
pub(crate) fn query_url(text: &str, name: &str, value: &str) -> (res: Option<String>)
    requires
        text@.len() + name@.len() + value@.len() <= MAX_URL_WEIGHT,
    ensures
        match res {
            Some(url) => queried_url(text@, name@, value@) == Some(url@),
            None => queried_url(text@, name@, value@) is None,
        },
{
    let mut url = url::Url::parse(text).ok()?;
    url.query_pairs_mut().append_pair(name, value);
    Some(url.as_str().to_owned())
}

/// Whether bytes are a JSON document.
pub uninterp spec fn is_json(document: Seq<u8>) -> bool;

/// Tells whether bytes are a JSON document, by `serde_json::from_slice`. The result is
/// a function of the bytes; which bytes are JSON is not stated here.
#[verifier::external_body]
pub(crate) fn check_json(document: &[u8]) -> (res: bool)
    ensures
        res == is_json(document@),
{
    serde_json::from_slice::<serde_json::Value>(document).is_ok()
}

/// The text at a place in a JSON document, where there is one: the place is given by a
/// JSON pointer.
pub uninterp spec fn json_text_at(document: Seq<u8>, pointer: Seq<char>) -> Option<Seq<char>>;

/// Reads the text at a place in a JSON document with `serde_json::from_slice`,
/// `serde_json::Value::pointer` and `serde_json::Value::as_str`. The result is a
/// function of the bytes and the pointer; it fails on bytes that are not JSON.
#[verifier::external_body]
pub(crate) fn read_json_text(document: &[u8], pointer: &str) -> (res: Result<
    Option<String>,
    serde_json::Error,
>)
    ensures
        match res {
            Ok(Some(found)) => is_json(document@) && json_text_at(document@, pointer@) == Some(
                found@,
            ),
            Ok(None) => is_json(document@) && json_text_at(document@, pointer@) is None,
            Err(_) => !is_json(document@),
        },
{
    let value = serde_json::from_slice::<serde_json::Value>(document)?;
    let found = value.pointer(pointer).and_then(serde_json::Value::as_str);
    Ok(found.map(str::to_owned))
}

/// A digit in base sixteen.
pub open spec fn hex_digit(n: int) -> char {
    "0123456789abcdef"@[n]
}

/// A character as it stands in a JSON string: quotes, backslashes and control characters
/// are escaped.
pub open spec fn escaped(c: char) -> Seq<char> {
    if c == '"' {
        "\\\""@
    } else if c == '\\' {
        "\\\\"@
    } else if c == '\u{8}' {
        "\\b"@
    } else if c == '\t' {
        "\\t"@
    } else if c == '\n' {
        "\\n"@
    } else if c == '\u{c}' {
        "\\f"@
    } else if c == '\r' {
        "\\r"@
    } else if c as int <= 31 {
        "\\u00"@ + seq![hex_digit(c as int / 16), hex_digit(c as int % 16)]
    } else {
        seq![c]
    }
}

/// A text as a JSON string, quotes included.
pub open spec fn json_quoted(text: Seq<char>) -> Seq<char> {
    "\""@ + text::flat(text.map_values(|c: char| escaped(c))) + "\""@
}

/// An object that says what went wrong, around a JSON string.
pub open spec fn error_object(quoted: Seq<char>) -> Seq<char> {
    "{\"error\":"@ + quoted + "}"@
}

/// Writes a text as a JSON string by way of `serde_json::Value`: between quotes, with
/// quotes, backslashes and control characters escaped and everything else as it is. What
/// is written is JSON, by itself and as the one member of an object.
#[verifier::external_body]
pub(crate) fn quote_json(text: &str) -> (res: String)
    ensures
        res@ == json_quoted(text@),
        is_json(vstd::utf8::encode_utf8(res@)),
        is_json(vstd::utf8::encode_utf8(error_object(res@))),
{
    serde_json::Value::from(text).to_string()
}

/// Whether no path leads through the place of another.
pub open spec fn apart(paths: Seq<Seq<Seq<char>>>) -> bool {
    forall|i: int, j: int|
        #![trigger paths[i], paths[j]]
        0 <= i < paths.len() && 0 <= j < paths.len() && paths[i].len() < paths[j].len()
            ==> paths[j].take(paths[i].len() as int) != paths[i]
}

/// Lists of texts as mathematical values.
pub open spec fn text_lists(v: Seq<Vec<String>>) -> Seq<Seq<Seq<char>>> {
    v.map_values(|list: Vec<String>| graph::texts(list@))
}

/// Lists of bytes as mathematical values.
pub open spec fn byte_lists(v: Seq<Vec<u8>>) -> Seq<Seq<u8>> {
    v.map_values(|list: Vec<u8>| list@)
}

/// A JSON object with a document at the end of each of some paths, laid out for
/// reading.
pub uninterp spec fn members_laid_out(
    paths: Seq<Seq<Seq<char>>>,
    documents: Seq<Seq<u8>>,
) -> Option<Seq<char>>;

/// Puts documents into a JSON object, each at the end of its path, and lays the object
/// out for reading: `serde_json::from_slice`, the `IndexMut` of `serde_json::Value` and
/// `serde_json::to_string_pretty`. The result is a function of the paths and the
/// documents; the layout is not stated here. It fails only on a document that is not
/// JSON. `serde_json` panics where a path leads through the place of another, so such
/// paths are left out.
#[verifier::external_body]
pub(crate) fn lay_out_members(paths: &Vec<Vec<String>>, documents: &Vec<Vec<u8>>) -> (res: Result<
    String,
    serde_json::Error,
>)
    requires
        paths@.len() == documents@.len(),
        apart(text_lists(paths@)),
    ensures
        match res {
            Ok(text) => members_laid_out(text_lists(paths@), byte_lists(documents@)) == Some(text@),
            Err(_) => members_laid_out(text_lists(paths@), byte_lists(documents@)) is None,
        },
        (forall|i: int| 0 <= i < documents@.len() ==> is_json(#[trigger] documents@[i]@))
            ==> res is Ok,
{
    let mut root = serde_json::Value::Null;
    for (path, document) in paths.iter().zip(documents) {
        let slot = path.iter().fold(&mut root, |slot, name| &mut slot[name.as_str()]);
        *slot = serde_json::from_slice(document)?;
    }
    serde_json::to_string_pretty(&root)
}

/// Bytes as text, with a replacement character for what is not UTF-8.
pub uninterp spec fn lossy_text(bytes: Seq<u8>) -> Seq<char>;

/// Reads bytes as text with `String::from_utf8_lossy`, which puts a replacement
/// character in place of what is not UTF-8. The result is a function of the bytes.
#[verifier::external_body]
pub(crate) fn read_lossily(bytes: &[u8]) -> (res: String)
    ensures
        res@ == lossy_text(bytes@),
{
    String::from_utf8_lossy(bytes).into_owned()
}

} // verus!
