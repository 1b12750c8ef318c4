//! The items that call the `url` and `regex` crates and std: URL parsing and
//! joining, regular-expression escaping, compiling and matching, path
//! joining and UTF-8 decoding.
//!
//! What a few lines can say of a result is stated here as a spec function
//! (the scheme of a URL, whether it can serve as a base, an escaped
//! pattern). A result that takes pages to state gets a name (an
//! uninterpreted spec function) of the values it depends on, and the
//! wrappers below say that each call returns that name applied to its
//! arguments. Every wrapper's contract is believed, not proved.
use vstd::prelude::*;

verus! {

#[verifier::external_type_specification]
#[verifier::external_body]
pub struct ExUrl(url::Url);

#[verifier::external_type_specification]
#[verifier::external_body]
pub struct ExUrlParseError(url::ParseError);

#[verifier::external_type_specification]
#[verifier::external_body]
pub struct ExRegex(regex::Regex);

#[verifier::external_type_specification]
#[verifier::external_body]
pub struct ExRegexError(regex::Error);

#[verifier::external_type_specification]
#[verifier::external_body]
pub struct ExUtf8Error(std::str::Utf8Error);

/// `url::Url` derives `Clone`; nothing is claimed of the copy.
pub assume_specification[ <url::Url as Clone>::clone ](u: &url::Url) -> url::Url;

/// `regex::Regex` derives `Clone`; nothing is claimed of the copy.
pub assume_specification[ <regex::Regex as Clone>::clone ](r: &regex::Regex) -> regex::Regex;

/// The serialization of the URL that `url::Url::parse` makes of `input`,
/// or `None` where it fails.
pub uninterp spec fn url_parse(input: Seq<char>) -> Option<Seq<char>>;

/// The position of the first `:` in `s`, or its length if it has none.
pub open spec fn first_colon(s: Seq<char>) -> int
    decreases s.len(),
{
    if s.len() == 0 || s[0] == ':' {
        0
    } else {
        1 + first_colon(s.drop_first())
    }
}

/// `url::Url::scheme` of the URL whose serialization is `serialization`:
/// the serialization up to its first `:`, which ends the scheme.
pub open spec fn url_scheme(serialization: Seq<char>) -> Seq<char> {
    serialization.take(first_colon(serialization))
}

/// `url::Url::host_str` of the URL whose serialization is `serialization`.
pub uninterp spec fn url_host(serialization: Seq<char>) -> Option<Seq<char>>;

/// `url::Url::cannot_be_a_base` of the URL whose serialization is
/// `serialization`: what follows the `:` that ends the scheme does not start
/// with `/`.
pub open spec fn url_cannot_be_a_base(serialization: Seq<char>) -> bool {
    let i = first_colon(serialization) + 1;
    !(i < serialization.len() && serialization[i] == '/')
}

/// Where `input` parses by itself as a URL that cannot serve as a base,
/// that URL's serialization.
pub open spec fn non_base_url(input: Seq<char>) -> Option<Seq<char>> {
    match url_parse(input) {
        Some(t) => if url_cannot_be_a_base(t) {
            Some(t)
        } else {
            None
        },
        None => None,
    }
}

/// An ASCII letter.
pub open spec fn is_ascii_letter(c: char) -> bool {
    ('a' <= c && c <= 'z') || ('A' <= c && c <= 'Z')
}

/// A serialization as the `url` crate keeps it: it starts with an ASCII
/// letter (the first of the scheme), and parsing it gives it back.
pub open spec fn url_serialization(s: Seq<char>) -> bool {
    &&& s.len() > 0
    &&& is_ascii_letter(s[0])
    &&& url_parse(s) == Some(s)
}

/// The serialization of `url::Url::join(base, input)` for the URL whose
/// serialization is `base`, or `None` where it fails.
pub uninterp spec fn url_join(base: Seq<char>, input: Seq<char>) -> Option<Seq<char>>;

/// A character with a meaning in a regular expression, as
/// `regex_syntax::is_meta_character` lists them.
pub open spec fn is_regex_meta(c: char) -> bool {
    c == '\\' || c == '.' || c == '+' || c == '*' || c == '?' || c == '(' || c == ')' || c == '|'
        || c == '[' || c == ']' || c == '{' || c == '}' || c == '^' || c == '$' || c == '#' || c
        == '&' || c == '-' || c == '~'
}

/// `regex::escape(text)`: each character of `text`, with a backslash
/// before each one that has a meaning in a regular expression.
pub open spec fn regex_escape(text: Seq<char>) -> Seq<char>
    decreases text.len(),
{
    if text.len() == 0 {
        Seq::empty()
    } else {
        regex_escape(text.drop_last()) + if is_regex_meta(text.last()) {
            seq!['\\', text.last()]
        } else {
            seq![text.last()]
        }
    }
}

/// Whether `regex::Regex::new(pattern)` succeeds.
pub uninterp spec fn regex_compiles(pattern: Seq<char>) -> bool;

/// The matches of `pattern` in `haystack`, leftmost first and without
/// overlap, as `regex::Regex::captures_iter` finds them; of each match, the
/// texts of groups `0` to `groups`, with the empty text for a group that did
/// not take part in the match.
pub uninterp spec fn regex_captures(pattern: Seq<char>, haystack: Seq<char>, groups: nat) -> Seq<
    Seq<Seq<char>>,
>;

/// The path that `std::path::PathBuf::push` makes of `dir` and `name`.
pub uninterp spec fn path_push(dir: Seq<char>, name: Seq<char>) -> Seq<char>;

/// The text of an optional string.
pub open spec fn opt_view(o: Option<String>) -> Option<Seq<char>> {
    match o {
        Some(s) => Some(s@),
        None => None,
    }
}

/// An absolute URL, as the `url` crate parses it, with the parts of it that
/// this library reads: its serialization, scheme and host, and whether it
/// can serve as a base. Its value is its serialization.
#[derive(Debug)]
pub struct SiteUrl {
    url: url::Url,
    serialization: String,
    scheme: String,
    host: Option<String>,
    cannot_be_a_base: bool,
}

impl View for SiteUrl {
    type V = Seq<char>;

    closed spec fn view(&self) -> Seq<char> {
        self.serialization@
    }
}

impl Clone for SiteUrl {
    /// A copy of the same URL.
    fn clone(&self) -> (r: Self)
        ensures
            r@ == self@,
    {
        proof {
            use_type_invariant(self);
        }
        SiteUrl {
            url: self.url.clone(),
            serialization: self.serialization.clone(),
            scheme: self.scheme.clone(),
            host: match &self.host {
                Some(h) => Some(h.clone()),
                None => None,
            },
            cannot_be_a_base: self.cannot_be_a_base,
        }
    }
}

impl SiteUrl {
    /// The parts agree with the serialization as the `url` crate reads it.
    #[verifier::type_invariant]
    closed spec fn parts_agree(self) -> bool {
        &&& self.scheme@ == url_scheme(self.serialization@)
        &&& opt_view(self.host) == url_host(self.serialization@)
        &&& self.cannot_be_a_base == url_cannot_be_a_base(self.serialization@)
    }

    /// Parses `input` as an absolute URL.
    pub fn parse(input: &str) -> (r: Result<SiteUrl, url::ParseError>)
        ensures
            r is Ok <==> url_parse(input@) is Some,
            r matches Ok(u) ==> url_parse(input@) == Some(u@) && url_serialization(u@),
    {
        parse_url(input)
    }

    /// Resolves `input` against this URL, as `url::Url::join` does. An
    /// input that parses by itself as a URL that cannot serve as a base
    /// resolves to that URL, whatever the base.
    pub fn join(&self, input: &str) -> (r: Result<SiteUrl, url::ParseError>)
        ensures
            r is Ok <==> url_join(self@, input@) is Some,
            r matches Ok(u) ==> url_join(self@, input@) == Some(u@),
            non_base_url(input@) matches Some(t) ==> (r matches Ok(u) && u@ == t),
    {
        join_url(self, input)
    }

    /// The serialization of the URL.
    pub fn as_str(&self) -> (s: &str)
        ensures
            s@ == self@,
    {
        self.serialization.as_str()
    }

    /// The scheme of the URL.
    pub fn scheme(&self) -> (s: &str)
        ensures
            s@ == url_scheme(self@),
    {
        proof {
            use_type_invariant(self);
        }
        self.scheme.as_str()
    }

    /// The host of the URL, where it has one.
    pub fn host_str(&self) -> (h: Option<&str>)
        ensures
            match h {
                Some(s) => url_host(self@) == Some(s@),
                None => url_host(self@) is None,
            },
    {
        proof {
            use_type_invariant(self);
        }
        match &self.host {
            Some(s) => Some(s.as_str()),
            None => None,
        }
    }

    /// Whether the URL cannot serve as a base for relative URLs.
    pub fn cannot_be_a_base(&self) -> (b: bool)
        ensures
            b == url_cannot_be_a_base(self@),
    {
        proof {
            use_type_invariant(self);
        }
        self.cannot_be_a_base
    }
}

/// Calls `url::Url::parse(input)` and, on success, reads the serialization
/// (`Display`), `scheme`, `host_str` and `cannot_be_a_base` of the URL.
/// Claims: success exactly where the name `url_parse` of `input` is some
/// serialization, which is then the URL's; the parts are those of that
/// serialization (`scheme` is `serialization[..scheme_end]`, the `:` at
/// `scheme_end` being the first, and `cannot_be_a_base` tests the character
/// after it). The serialization starts with an ASCII letter and parses back
/// to itself: `Url::check_invariants` (url lib.rs:687) asserts both of
/// every URL. The error value is not described.
#[verifier::external_body]
fn parse_url(input: &str) -> (r: Result<SiteUrl, url::ParseError>)
    ensures
        r is Ok <==> url_parse(input@) is Some,
        r matches Ok(u) ==> {
            &&& url_parse(input@) == Some(u.serialization@)
            &&& url_serialization(u.serialization@)
            &&& u.scheme@ == url_scheme(u.serialization@)
            &&& opt_view(u.host) == url_host(u.serialization@)
            &&& u.cannot_be_a_base == url_cannot_be_a_base(u.serialization@)
        },
{
    match url::Url::parse(input) {
        Ok(u) => Ok(SiteUrl {
            serialization: u.to_string(),
            scheme: u.scheme().to_string(),
            host: u.host_str().map(|h| h.to_string()),
            cannot_be_a_base: u.cannot_be_a_base(),
            url: u,
        }),
        Err(e) => Err(e),
    }
}

/// Calls `url::Url::join(&base.url, input)` and reads the parts of the
/// result as `parse_url` does. Claims: success exactly where the name
/// `url_join` of the base's serialization and `input` is some
/// serialization, which is then the result's. Where `input` parses by
/// itself as a URL that cannot serve as a base, the join gives that URL:
/// such a URL has a scheme that is not special (url parser.rs:455), and an
/// input with a scheme that is not special is parsed without looking at the
/// base (parser.rs:381 and :471, `parse_non_special`). The error value is
/// not described.
#[verifier::external_body]
fn join_url(base: &SiteUrl, input: &str) -> (r: Result<SiteUrl, url::ParseError>)
    ensures
        r is Ok <==> url_join(base.serialization@, input@) is Some,
        r is Ok <== non_base_url(input@) is Some,
        r matches Ok(u) ==> (non_base_url(input@) is None || non_base_url(input@) == Some(
            u.serialization@,
        )),
        r matches Ok(u) ==> {
            &&& url_join(base.serialization@, input@) == Some(u.serialization@)
            &&& u.scheme@ == url_scheme(u.serialization@)
            &&& opt_view(u.host) == url_host(u.serialization@)
            &&& u.cannot_be_a_base == url_cannot_be_a_base(u.serialization@)
        },
{
    match base.url.join(input) {
        Ok(u) => Ok(SiteUrl {
            serialization: u.to_string(),
            scheme: u.scheme().to_string(),
            host: u.host_str().map(|h| h.to_string()),
            cannot_be_a_base: u.cannot_be_a_base(),
            url: u,
        }),
        Err(e) => Err(e),
    }
}

/// Calls `regex::escape(text)`. Claims, as regex-syntax lib.rs:213 writes
/// it: each character of `text`, with a backslash before each meta
/// character (lib.rs:264).
#[verifier::external_body]
pub(crate) fn escape_regex(text: &str) -> (r: String)
    ensures
        r@ == regex_escape(text@),
{
    regex::escape(text)
}

/// A compiled regular expression together with the pattern it was compiled
/// from. Its value is the pattern.
#[derive(Debug)]
pub struct Pattern {
    regex: regex::Regex,
    source: String,
}

impl View for Pattern {
    type V = Seq<char>;

    closed spec fn view(&self) -> Seq<char> {
        self.source@
    }
}

impl Clone for Pattern {
    /// A copy of the same compiled pattern.
    fn clone(&self) -> (r: Self)
        ensures
            r@ == self@,
    {
        Pattern { regex: self.regex.clone(), source: self.source.clone() }
    }
}

impl Pattern {
    /// Compiles `pattern`.
    pub fn new(pattern: &str) -> (r: Result<Pattern, regex::Error>)
        ensures
            r is Ok <==> regex_compiles(pattern@),
            r matches Ok(p) ==> p@ == pattern@,
    {
        compile_regex(pattern)
    }

    /// The matches of the pattern in `haystack`, each with the texts of its
    /// groups `0` to `groups`.
    pub fn captures(&self, haystack: &str, groups: usize) -> (r: Vec<Vec<String>>)
        ensures
            r.deep_view() == regex_captures(self@, haystack@, groups as nat),
            forall|i: int| 0 <= i < r@.len() ==> #[trigger] r@[i]@.len() == groups + 1,
    {
        captures_of(self, haystack, groups)
    }
}

/// Calls `regex::Regex::new(pattern)` and keeps the pattern beside the
/// compiled expression. Claims: success exactly where the name
/// `regex_compiles` holds of `pattern`. The error value is not described.
#[verifier::external_body]
fn compile_regex(pattern: &str) -> (r: Result<Pattern, regex::Error>)
    ensures
        r is Ok <==> regex_compiles(pattern@),
        r matches Ok(p) ==> p.source@ == pattern@,
{
    match regex::Regex::new(pattern) {
        Ok(regex) => Ok(Pattern { regex, source: pattern.to_string() }),
        Err(e) => Err(e),
    }
}

/// Calls `regex::Regex::captures_iter(&p.regex, haystack)` and, of each
/// match, `Captures::get(i)` for `i` from `0` to `groups`, with the empty
/// text where a group did not take part. Claims: the result is the name
/// `regex_captures` of the pattern that `p.regex` was compiled from, the
/// haystack and `groups`; each match yields `groups + 1` texts.
#[verifier::external_body]
fn captures_of(p: &Pattern, haystack: &str, groups: usize) -> (r: Vec<Vec<String>>)
    ensures
        r.deep_view() == regex_captures(p.source@, haystack@, groups as nat),
        forall|i: int| 0 <= i < r@.len() ==> #[trigger] r@[i]@.len() == groups + 1,
{
    p.regex.captures_iter(haystack).map(
        |c| (0..=groups).map(|i| c.get(i).map_or("", |m| m.as_str()).to_string()).collect(),
    ).collect()
}

/// Calls `std::path::PathBuf::push` on the path `dir` with `name` and
/// returns the path as text. Claims: the result is the name `path_push` of
/// `dir` and `name`.
#[verifier::external_body]
pub(crate) fn push_path(dir: &str, name: &str) -> (r: String)
    ensures
        r@ == path_push(dir@, name@),
{
    let mut p = std::path::PathBuf::from(dir);
    p.push(name);
    p.to_string_lossy().into_owned()
}

/// Calls `std::str::from_utf8(bytes)`. Claims, as its documentation says:
/// success exactly where the bytes are valid UTF-8, and then the text is
/// the one they encode. The error value is not described.
#[verifier::external_body]
pub(crate) fn utf8_text(bytes: &[u8]) -> (r: Result<String, std::str::Utf8Error>)
    ensures
        r is Ok <==> vstd::utf8::valid_utf8(bytes@),
        r matches Ok(s) ==> s@ == vstd::utf8::decode_utf8(bytes@),
{
    match std::str::from_utf8(bytes) {
        Ok(s) => Ok(s.to_string()),
        Err(e) => Err(e),
    }
}

} // verus!
