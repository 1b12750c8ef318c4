//! What a scrape decides: how a link of a page resolves against the base
//! URL, which image links a page holds and where each image is to be saved,
//! which HTTP responses are taken, and which image URLs were already
//! downloaded.
use vstd::prelude::*;

use crate::text::{has_prefix, str_eq, str_starts_with};
use crate::web::{
    first_colon, path_push, push_path, regex_captures, url_host, url_parse, url_scheme,
    url_serialization, utf8_text, Pattern, SiteUrl,
};

verus! {

/// The regular expression that finds image links in a page: group 1 is the
/// link, group 2 its file name.
pub const IMG_PATTERN: &'static str = r#"([^"(\s]*/([^"(]+\.(?:png|jpe?g|gif|bmp)))"#;

/// A link that could not be resolved to an absolute URL.
#[derive(Debug)]
pub enum LinkError {
    /// The `url` crate refused the text to parse.
    Url(url::ParseError),
}

/// The scraping operations.
pub struct Scraper {}

/// An image link found in a page.
#[derive(Debug)]
pub struct ImageLink {
    /// The whole text that matched.
    pub matched: String,
    /// The link as written in the page.
    pub url: String,
    /// The file name of the image.
    pub name: String,
    /// The absolute URL of the image and the path to save it to, or why the
    /// link could not be resolved.
    pub target: Result<ImageTarget, LinkError>,
}

/// Where an image is fetched from and saved to.
#[derive(Debug)]
pub struct ImageTarget {
    pub url: String,
    pub path: String,
}

/// Why an HTTP response was not taken.
#[derive(Debug, Clone, Copy, PartialEq, Eq)]
pub enum FetchError {
    /// An image response with a status of 300 or more, or whose body is
    /// text.
    BadRequest,
    /// A page whose body is not valid UTF-8, with the decoding error.
    InvalidUtf8(std::str::Utf8Error),
}

impl FetchError {
    /// The message that reports the error: "Bad request", or the text of
    /// the decoding error.
    pub fn message(&self) -> (m: String)
        ensures
            match *self {
                FetchError::InvalidUtf8(e) => vstd::string::to_string_from_display_ensures(&e, m),
                FetchError::BadRequest => m@ == "Bad request"@,
            },
    {
        match self {
            FetchError::BadRequest => String::from_str("Bad request"),
            FetchError::InvalidUtf8(e) => e.to_string(),
        }
    }
}

/// The URL that the link `url`, found on a page of the site `base`,
/// resolves to:
/// - a link that starts with `//` takes the base's scheme;
/// - a link that starts with `/` is appended to the base's scheme and host;
/// - any other link must parse as an absolute URL by itself, and resolves
///   to that URL (one that cannot serve as a base is joined to the base,
///   which gives it back unchanged).
pub open spec fn spec_add_base_url(base: Seq<char>, url: Seq<char>) -> Option<Seq<char>> {
    if has_prefix(url, seq!['/', '/']) {
        url_parse(url_scheme(base) + seq![':'] + url)
    } else if has_prefix(url, seq!['/']) {
        let host = match url_host(base) {
            Some(h) => h,
            None => Seq::empty(),
        };
        match url_parse(url_scheme(base) + seq![':', '/', '/'] + host) {
            Some(root) => Some(root + url.skip(1)),
            None => None,
        }
    } else {
        url_parse(url)
    }
}

/// A link resolves alike on any two pages whose URLs share scheme and host:
/// the port, path, query and fragment of the base play no part.
pub proof fn lemma_add_base_url_reads_scheme_and_host(
    base1: Seq<char>,
    base2: Seq<char>,
    url: Seq<char>,
)
    requires
        url_scheme(base1) == url_scheme(base2),
        url_host(base1) == url_host(base2),
    ensures
        spec_add_base_url(base1, url) == spec_add_base_url(base2, url),
{
}

/// A URL as the `url` crate serializes it resolves to itself, on any page.
pub proof fn lemma_serialization_resolves_to_itself(base: Seq<char>, s: Seq<char>)
    requires
        url_serialization(s),
    ensures
        spec_add_base_url(base, s) == Some(s),
{
    assert(s.subrange(0, 1)[0] == s[0]);
    assert(!has_prefix(s, seq!['/']));
    assert(!has_prefix(s, seq!['/', '/'])) by {
        if has_prefix(s, seq!['/', '/']) {
            assert(s.subrange(0, 2)[0] == s[0]);
        }
    }
}

/// The image link that the captures `m` of one match describe, on a page of
/// `base`, with images saved under `path`.
pub open spec fn image_link_agrees(
    link: ImageLink,
    m: Seq<Seq<char>>,
    base: Seq<char>,
    path: Seq<char>,
) -> bool {
    &&& link.matched@ == m[0]
    &&& link.url@ == m[1]
    &&& link.name@ == m[2]
    &&& (link.target is Ok <==> spec_add_base_url(base, m[1]) is Some)
    &&& link.target matches Ok(t) ==> {
        &&& spec_add_base_url(base, m[1]) == Some(t.url@)
        &&& t.path@ == path_push(path, m[2])
    }
}

/// An image response is taken when its status is below 300 and its body is
/// not valid UTF-8 text.
pub open spec fn image_response_taken(status_code: i32, body: Seq<u8>) -> bool {
    status_code < 300 && !vstd::utf8::valid_utf8(body)
}

/// The scheme of a serialization holds no `:`, and ends before the first
/// one.
proof fn lemma_first_colon(s: Seq<char>)
    ensures
        0 <= first_colon(s) <= s.len(),
        forall|j: int| 0 <= j < first_colon(s) ==> s[j] != ':',
        first_colon(s) < s.len() ==> s[first_colon(s)] == ':',
    decreases s.len(),
{
    if s.len() > 0 && s[0] != ':' {
        lemma_first_colon(s.drop_first());
        assert forall|j: int| 0 <= j < first_colon(s) implies s[j] != ':' by {
            if j > 0 {
                assert(s[j] == s.drop_first()[j - 1]);
            }
        }
    }
}

/// A text made of a part without `:`, then `:`, then anything, has that
/// part for its scheme.
proof fn lemma_scheme_of_text(a: Seq<char>, rest: Seq<char>)
    requires
        forall|j: int| 0 <= j < a.len() ==> a[j] != ':',
    ensures
        first_colon(a + seq![':'] + rest) == a.len(),
        url_scheme(a + seq![':'] + rest) == a,
    decreases a.len(),
{
    let t = a + seq![':'] + rest;
    if a.len() == 0 {
        assert(t[0] == ':');
        assert(t.take(0) =~= a);
    } else {
        assert(t[0] == a[0]);
        let a2 = a.drop_first();
        assert forall|j: int| 0 <= j < a2.len() implies a2[j] != ':' by {
            assert(a2[j] == a[j + 1]);
        }
        lemma_scheme_of_text(a2, rest);
        assert(t.drop_first() =~= a2 + seq![':'] + rest);
        assert(first_colon(t) == 1 + first_colon(t.drop_first()));
        assert(t.take(first_colon(t)) =~= a);
    }
}

/// A link relative to the protocol (`//...`) or to the root (`/...`)
/// resolves to the URL parsed from a text whose scheme is the base's own:
/// the base's scheme, then `:` and the link for the first; the base's
/// scheme, `://` and the base's host, followed by the link without its
/// `/`, for the second. An `http` page gives `http` links.
pub proof fn lemma_relative_links_keep_base_scheme(base: Seq<char>, url: Seq<char>)
    ensures
        has_prefix(url, seq!['/', '/']) ==> {
            let t = url_scheme(base) + seq![':'] + url;
            &&& url_scheme(t) == url_scheme(base)
            &&& spec_add_base_url(base, url) == url_parse(t)
        },
        has_prefix(url, seq!['/']) && !has_prefix(url, seq!['/', '/']) ==> {
            let host = match url_host(base) {
                Some(h) => h,
                None => Seq::empty(),
            };
            let t = url_scheme(base) + seq![':'] + (seq!['/', '/'] + host);
            &&& url_scheme(t) == url_scheme(base)
            &&& spec_add_base_url(base, url) == match url_parse(t) {
                Some(root) => Some(root + url.skip(1)),
                None => None,
            }
        },
{
    lemma_first_colon(base);
    let sch = url_scheme(base);
    assert forall|j: int| 0 <= j < sch.len() implies sch[j] != ':' by {
        assert(sch[j] == base[j]);
    }
    lemma_scheme_of_text(sch, url);
    let host = match url_host(base) {
        Some(h) => h,
        None => Seq::empty(),
    };
    lemma_scheme_of_text(sch, seq!['/', '/'] + host);
    assert(sch + seq![':'] + (seq!['/', '/'] + host) =~= sch + seq![':', '/', '/'] + host);
}

/// A byte sequence that holds the byte `0xFF` anywhere is not UTF-8 text:
/// no byte of an encoded scalar is `0xFF`.
proof fn lemma_ff_byte_not_utf8(bytes: Seq<u8>, i: int)
    requires
        0 <= i < bytes.len(),
        bytes[i] == 0xFF,
    ensures
        !vstd::utf8::valid_utf8(bytes),
    decreases bytes.len(),
{
    if vstd::utf8::valid_utf8(bytes) {
        let n = vstd::utf8::length_of_first_scalar(bytes);
        assert(1 <= n <= 4);
        if i < n {
            assert(bytes[i] != 0xFF);
        } else {
            let rest = vstd::utf8::pop_first_scalar(bytes);
            assert(rest[i - n] == bytes[i]);
            lemma_ff_byte_not_utf8(rest, i - n);
        }
    }
}

/// An image response with a status below 300 is taken whenever its body
/// holds a byte that text never holds, wherever that byte stands: the whole
/// body is tested, not some first part of it.
pub proof fn lemma_binary_image_taken(status_code: i32, body: Seq<u8>, i: int)
    requires
        status_code < 300,
        0 <= i < body.len(),
        body[i] == 0xFF,
    ensures
        image_response_taken(status_code, body),
{
    lemma_ff_byte_not_utf8(body, i);
}

/// An image response whose body is UTF-8 text is refused, and one with a
/// status of 300 or more is refused whatever its body.
pub proof fn lemma_text_or_failed_response_refused(status_code: i32, body: Seq<u8>)
    ensures
        vstd::utf8::valid_utf8(body) ==> !image_response_taken(status_code, body),
        status_code >= 300 ==> !image_response_taken(status_code, body),
{
}

impl Scraper {
    /// Resolves the link `url`, found on a page of the site `base_url`, to
    /// an absolute URL.
    pub fn add_base_url(base_url: &SiteUrl, url: &str) -> (r: Result<String, LinkError>)
        ensures
            r is Ok <==> spec_add_base_url(base_url@, url@) is Some,
            r matches Ok(s) ==> spec_add_base_url(base_url@, url@) == Some(s@),
            r matches Ok(s) ==> ((has_prefix(url@, seq!['/', '/']) || !has_prefix(url@, seq!['/']))
                ==> spec_add_base_url(base_url@, s@) == Some(s@)),
    {
        proof {
            reveal_strlit("//");
            reveal_strlit("/");
            reveal_strlit(":");
            reveal_strlit("://");
            reveal_strlit("");
            assert("//"@ =~= seq!['/', '/']);
            assert("/"@ =~= seq!['/']);
            assert(":"@ =~= seq![':']);
            assert("://"@ =~= seq![':', '/', '/']);
        }
        if str_starts_with(url, "//") {
            let text = String::from_str(base_url.scheme()).concat(":").concat(url);
            assert(text@ == url_scheme(base_url@) + seq![':'] + url@);
            match SiteUrl::parse(text.as_str()) {
                Ok(u) => {
                    proof {
                        lemma_serialization_resolves_to_itself(base_url@, u@);
                    }
                    Ok(String::from_str(u.as_str()))
                },
                Err(e) => Err(LinkError::Url(e)),
            }
        } else if str_starts_with(url, "/") {
            let host = match base_url.host_str() {
                Some(h) => h,
                None => "",
            };
            let text = String::from_str(base_url.scheme()).concat("://").concat(host);
            assert(text@ == url_scheme(base_url@) + seq![':', '/', '/'] + host@);
            match SiteUrl::parse(text.as_str()) {
                Ok(u) => {
                    let n = url.unicode_len();
                    let tail = url.substring_char(1, n);
                    assert(tail@ == url@.skip(1));
                    Ok(String::from_str(u.as_str()).concat(tail))
                },
                Err(e) => Err(LinkError::Url(e)),
            }
        } else {
            let checked = match SiteUrl::parse(url) {
                Ok(u) => u,
                Err(e) => {
                    return Err(LinkError::Url(e));
                },
            };
            proof {
                lemma_serialization_resolves_to_itself(base_url@, checked@);
            }
            if checked.cannot_be_a_base() {
                match base_url.join(url) {
                    Ok(j) => Ok(String::from_str(j.as_str())),
                    Err(e) => Err(LinkError::Url(e)),
                }
            } else {
                Ok(String::from_str(checked.as_str()))
            }
        }
    }

    /// The image links of `body`, a page of the site `base_url`, found with
    /// `img_pattern` (group 1: the link, group 2: the file name), each
    /// resolved against the base and given a path under `path`.
    pub fn image_links(base_url: &SiteUrl, img_pattern: &Pattern, body: &str, path: &str) -> (r:
        Vec<ImageLink>)
        ensures
            r@.len() == regex_captures(img_pattern@, body@, 2).len(),
            forall|i: int|
                0 <= i < r@.len() ==> image_link_agrees(
                    #[trigger] r@[i],
                    regex_captures(img_pattern@, body@, 2)[i],
                    base_url@,
                    path@,
                ),
    {
        let caps = img_pattern.captures(body, 2);
        let ghost spec_caps = regex_captures(img_pattern@, body@, 2);
        let mut links: Vec<ImageLink> = Vec::new();
        let mut i: usize = 0;
        while i < caps.len()
            invariant
                caps.deep_view() == spec_caps,
                forall|k: int| 0 <= k < caps@.len() ==> #[trigger] caps@[k]@.len() == 3,
                i <= caps@.len(),
                links@.len() == i,
                forall|k: int|
                    0 <= k < i ==> image_link_agrees(
                        #[trigger] links@[k],
                        spec_caps[k],
                        base_url@,
                        path@,
                    ),
            decreases caps@.len() - i,
        {
            let m = &caps[i];
            assert(m@.len() == 3);
            assert(m.deep_view() == spec_caps[i as int]);
            let matched = m[0].clone();
            let url = m[1].clone();
            let name = m[2].clone();
            let target = match Scraper::add_base_url(base_url, url.as_str()) {
                Ok(full) => Ok(ImageTarget { url: full, path: push_path(path, name.as_str()) }),
                Err(e) => Err(e),
            };
            links.push(ImageLink { matched, url, name, target });
            i = i + 1;
        }
        links
    }

    /// The bytes of an image response: taken when the status is below 300
    /// and the body is not UTF-8 text.
    pub fn image_bytes(status_code: i32, body: Vec<u8>) -> (r: Result<Vec<u8>, FetchError>)
        ensures
            image_response_taken(status_code, body@) ==> r == Ok::<Vec<u8>, FetchError>(body),
            !image_response_taken(status_code, body@) ==> r == Err::<Vec<u8>, FetchError>(
                FetchError::BadRequest,
            ),
    {
        if status_code >= 300 {
            return Err(FetchError::BadRequest);
        }
        match utf8_text(body.as_slice()) {
            Ok(_) => Err(FetchError::BadRequest),
            Err(_) => Ok(body),
        }
    }

    /// The text of a page response: its body, where it is valid UTF-8.
    pub fn body_text(body: &[u8]) -> (r: Result<String, FetchError>)
        ensures
            vstd::utf8::valid_utf8(body@) ==> (r matches Ok(s) && s@ == vstd::utf8::decode_utf8(
                body@,
            )),
            !vstd::utf8::valid_utf8(body@) ==> r matches Err(FetchError::InvalidUtf8(_)),
    {
        match utf8_text(body) {
            Ok(s) => Ok(s),
            Err(e) => Err(FetchError::InvalidUtf8(e)),
        }
    }
}

/// The image URLs downloaded so far, in the order they were, each once.
#[derive(Debug)]
pub struct DownloadLog {
    urls: Vec<String>,
}

impl View for DownloadLog {
    type V = Seq<Seq<char>>;

    closed spec fn view(&self) -> Seq<Seq<char>> {
        self.urls.deep_view()
    }
}

impl DownloadLog {
    /// No URL is recorded twice.
    #[verifier::type_invariant]
    closed spec fn each_once(self) -> bool {
        self.urls.deep_view().no_duplicates()
    }

    /// An empty log.
    pub fn new() -> (r: DownloadLog)
        ensures
            r@ == Seq::<Seq<char>>::empty(),
    {
        let r = DownloadLog { urls: Vec::new() };
        assert(r.urls.deep_view() =~= Seq::<Seq<char>>::empty());
        r
    }

    /// Whether `url` was downloaded already.
    pub fn contains(&self, url: &str) -> (b: bool)
        ensures
            b == self@.contains(url@),
            self@.no_duplicates(),
    {
        proof {
            use_type_invariant(self);
        }
        let mut i: usize = 0;
        while i < self.urls.len()
            invariant
                self@.no_duplicates(),
                i <= self.urls@.len(),
                forall|k: int| 0 <= k < i ==> self@[k] != url@,
            decreases self.urls@.len() - i,
        {
            assert(self@[i as int] == self.urls@[i as int]@);
            if str_eq(self.urls[i].as_str(), url) {
                return true;
            }
            i = i + 1;
        }
        false
    }

    /// Records that `url`, not downloaded before, was downloaded.
    pub fn record(&mut self, url: String)
        requires
            !old(self)@.contains(url@),
        ensures
            final(self)@ == old(self)@.push(url@),
            final(self)@.no_duplicates(),
    {
        proof {
            use_type_invariant(&*self);
        }
        let ghost before = self@;
        let ghost u = url@;
        let mut urls: Vec<String> = Vec::new();
        std::mem::swap(&mut urls, &mut self.urls);
        urls.push(url);
        proof {
            assert(urls.deep_view() =~= before.push(u));
            assert forall|i: int, j: int|
                0 <= i < urls.deep_view().len() && 0 <= j < urls.deep_view().len() && i != j
                    implies urls.deep_view()[i] != urls.deep_view()[j] by {
                if i < before.len() && j < before.len() {
                } else if i == before.len() {
                    assert(urls.deep_view()[j] == before[j]);
                } else {
                    assert(urls.deep_view()[i] == before[i]);
                }
            }
        }
        self.urls = urls;
    }
}

} // verus!
