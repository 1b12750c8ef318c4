//! A spider over one site: the images it has collected, the pattern by
//! which it finds links in a page, and its crawl, a state machine that asks
//! for pages one at a time and decides, depth first, which link to follow
//! next.
use vstd::prelude::*;

use crate::scraper::{spec_add_base_url, DownloadLog, Scraper};
use crate::text::{has_infix, str_contains};
use crate::web::{escape_regex, regex_captures, regex_compiles, regex_escape, Pattern, SiteUrl};

verus! {

/// The map that `entries` describe, a later entry for a key replacing an
/// earlier one.
pub open spec fn map_of(entries: Seq<(Seq<u8>, Seq<char>)>) -> Map<Seq<u8>, Seq<char>>
    decreases entries.len(),
{
    if entries.len() == 0 {
        Map::empty()
    } else {
        map_of(entries.drop_last()).insert(entries.last().0, entries.last().1)
    }
}

/// The keys of `entries`.
pub open spec fn keys_of<K, V>(entries: Seq<(K, V)>) -> Seq<K> {
    entries.map_values(|e: (K, V)| e.0)
}

/// The images collected: from the bytes of an image to the path it is to be
/// saved to. An image met again under another path takes the later path.
#[derive(Debug)]
pub struct ImageMap {
    entries: Vec<(Vec<u8>, String)>,
}

impl ImageMap {
    /// The entries, in the order their keys first came.
    pub closed spec fn entries_view(&self) -> Seq<(Seq<u8>, Seq<char>)> {
        Seq::new(self.entries@.len(), |i: int| (self.entries@[i].0@, self.entries@[i].1@))
    }

    /// No two entries share their bytes.
    #[verifier::type_invariant]
    closed spec fn keys_distinct(self) -> bool {
        keys_of(self.entries_view()).no_duplicates()
    }
}

impl Clone for ImageMap {
    /// A copy with the same entries.
    fn clone(&self) -> (r: Self)
        ensures
            r.entries_view() == self.entries_view(),
            r@ == self@,
    {
        proof {
            use_type_invariant(self);
        }
        let mut entries: Vec<(Vec<u8>, String)> = Vec::new();
        let mut i: usize = 0;
        while i < self.entries.len()
            invariant
                i <= self.entries@.len(),
                entries@.len() == i,
                forall|k: int|
                    0 <= k < i ==> (#[trigger] entries@[k]).0@ == self.entries@[k].0@
                        && entries@[k].1@ == self.entries@[k].1@,
            decreases self.entries@.len() - i,
        {
            let e = &self.entries[i];
            let bytes = e.0.clone();
            assert(bytes@ =~= e.0@);
            entries.push((bytes, e.1.clone()));
            i = i + 1;
        }
        assert(Seq::new(entries@.len(), |k: int| (entries@[k].0@, entries@[k].1@))
            =~= self.entries_view());
        ImageMap { entries }
    }
}

impl View for ImageMap {
    type V = Map<Seq<u8>, Seq<char>>;

    closed spec fn view(&self) -> Map<Seq<u8>, Seq<char>> {
        map_of(self.entries_view())
    }
}

/// Replacing the value of the only entry with key `k` inserts into the map.
proof fn lemma_map_of_update(entries: Seq<(Seq<u8>, Seq<char>)>, i: int, v: Seq<char>)
    requires
        0 <= i < entries.len(),
        keys_of(entries).no_duplicates(),
    ensures
        map_of(entries.update(i, (entries[i].0, v))) == map_of(entries).insert(entries[i].0, v),
    decreases entries.len(),
{
    let k = entries[i].0;
    let upd = entries.update(i, (k, v));
    if i == entries.len() - 1 {
        assert(upd.drop_last() =~= entries.drop_last());
        assert(map_of(upd) =~= map_of(entries).insert(k, v));
    } else {
        let prev = entries.drop_last();
        assert(keys_of(prev) =~= keys_of(entries).drop_last());
        assert(keys_of(prev).no_duplicates());
        lemma_map_of_update(prev, i, v);
        assert(upd.drop_last() =~= prev.update(i, (k, v)));
        assert(keys_of(entries)[i] == k);
        assert(keys_of(entries)[entries.len() - 1] == entries.last().0);
        assert(entries.last().0 != k);
        assert(map_of(upd) =~= map_of(entries).insert(k, v));
    }
}

/// A key absent from `entries` is absent from their map.
proof fn lemma_map_of_absent(entries: Seq<(Seq<u8>, Seq<char>)>, k: Seq<u8>)
    requires
        !keys_of(entries).contains(k),
    ensures
        !map_of(entries).contains_key(k),
    decreases entries.len(),
{
    if entries.len() > 0 {
        let prev = entries.drop_last();
        assert(keys_of(entries)[entries.len() - 1] == entries.last().0);
        assert forall|j: int| 0 <= j < keys_of(prev).len() implies keys_of(prev)[j] != k by {
            assert(keys_of(prev)[j] == keys_of(entries)[j]);
        }
        lemma_map_of_absent(prev, k);
    }
}

/// Whether two byte strings are equal.
fn bytes_eq(a: &[u8], b: &[u8]) -> (r: bool)
    ensures
        r == (a@ == b@),
{
    if a.len() != b.len() {
        return false;
    }
    let mut i: usize = 0;
    while i < a.len()
        invariant
            a@.len() == b@.len(),
            i <= a@.len(),
            forall|k: int| 0 <= k < i ==> a@[k] == b@[k],
        decreases a@.len() - i,
    {
        if a[i] != b[i] {
            return false;
        }
        i = i + 1;
    }
    assert(a@ =~= b@);
    true
}

impl ImageMap {
    /// An empty map.
    pub fn new() -> (r: ImageMap)
        ensures
            r@ == Map::<Seq<u8>, Seq<char>>::empty(),
    {
        let r = ImageMap { entries: Vec::new() };
        assert(keys_of(r.entries_view()) =~= Seq::<Seq<u8>>::empty());
        r
    }

    /// Maps `bytes` to `path`, replacing the path of an equal image.
    pub fn insert(&mut self, bytes: Vec<u8>, path: String)
        ensures
            final(self)@ == old(self)@.insert(bytes@, path@),
    {
        proof {
            use_type_invariant(&*self);
        }
        let ghost before = self.entries_view();
        let mut i: usize = 0;
        while i < self.entries.len()
            invariant
                self.entries_view() == before,
                old(self)@ == map_of(before),
                keys_of(before).no_duplicates(),
                i <= self.entries@.len(),
                forall|k: int| 0 <= k < i ==> before[k].0 != bytes@,
            decreases self.entries@.len() - i,
        {
            if bytes_eq(self.entries[i].0.as_slice(), bytes.as_slice()) {
                let ghost key = before[i as int].0;
                let mut entries: Vec<(Vec<u8>, String)> = Vec::new();
                std::mem::swap(&mut entries, &mut self.entries);
                let ghost vec_before = entries@;
                let old_entry = entries.remove(i);
                assert(old_entry.0@ == key);
                entries.insert(i, (old_entry.0, path));
                proof {
                    assert(entries@ =~= vec_before.update(i as int, entries@[i as int]));
                    lemma_map_of_update(before, i as int, path@);
                    assert(Seq::new(entries@.len(), |j: int| (entries@[j].0@, entries@[j].1@))
                        =~= before.update(i as int, (key, path@)));
                    assert(keys_of(before.update(i as int, (key, path@))) =~= keys_of(before));
                }
                self.entries = entries;
                assert(self.entries_view() =~= before.update(i as int, (key, path@)));
                return;
            }
            i = i + 1;
        }
        let ghost key = bytes@;
        proof {
            assert forall|j: int| 0 <= j < keys_of(before).len() implies keys_of(before)[j]
                != key by {}
            lemma_map_of_absent(before, key);
        }
        let mut entries: Vec<(Vec<u8>, String)> = Vec::new();
                std::mem::swap(&mut entries, &mut self.entries);
        entries.push((bytes, path));
        proof {
            let after = Seq::new(entries@.len(), |j: int| (entries@[j].0@, entries@[j].1@));
            assert(after =~= before.push((key, path@)));
            assert(after.drop_last() =~= before);
            assert(keys_of(after) =~= keys_of(before).push(key));
        }
        self.entries = entries;
    }

    /// The number of images.
    pub fn len(&self) -> (n: usize)
        ensures
            n == self@.dom().len(),
    {
        proof {
            use_type_invariant(self);
            lemma_map_of_len(self.entries_view());
        }
        self.entries.len()
    }

    /// The images and their paths, each image once.
    pub fn into_entries(self) -> (r: Vec<(Vec<u8>, String)>)
        ensures
            map_of(Seq::new(r@.len(), |i: int| (r@[i].0@, r@[i].1@))) == self@,
            keys_of(Seq::new(r@.len(), |i: int| (r@[i].0@, r@[i].1@))).no_duplicates(),
    {
        proof {
            use_type_invariant(&self);
        }
        let ghost v = self.entries_view();
        let r = self.entries;
        assert(Seq::new(r@.len(), |i: int| (r@[i].0@, r@[i].1@)) =~= v);
        r
    }
}

/// With distinct keys, the map has one key per entry.
proof fn lemma_map_of_len(entries: Seq<(Seq<u8>, Seq<char>)>)
    requires
        keys_of(entries).no_duplicates(),
    ensures
        map_of(entries).dom().finite(),
        map_of(entries).dom().len() == entries.len(),
    decreases entries.len(),
{
    if entries.len() > 0 {
        let prev = entries.drop_last();
        assert(keys_of(prev) =~= keys_of(entries).drop_last());
        lemma_map_of_len(prev);
        assert(!keys_of(prev).contains(entries.last().0)) by {
            if keys_of(prev).contains(entries.last().0) {
                let j = choose|j: int| 0 <= j < keys_of(prev).len() && keys_of(prev)[j]
                    == entries.last().0;
                assert(keys_of(entries)[j] == keys_of(entries)[entries.len() - 1]);
            }
        }
        lemma_map_of_absent(prev, entries.last().0);
    }
}

/// The pattern that finds the links of a page of the site `site`: the
/// target of an `href` that starts with the site's URL, with `.` or with
/// `/` (group 1).
pub open spec fn link_pattern(site: Seq<char>) -> Seq<char> {
    "href=[\"']("@ + regex_escape(site) + ".*?|\\..*?|/.*?)['\"\\?]"@
}

/// The link pattern of any site opens an `href=` with either quote, `"` or
/// `'`, takes as group 1 a target that starts with the site's URL (matched
/// as plain text), with `.` or with `/`, and ends it at either quote or at
/// `?`.
pub proof fn lemma_link_pattern_takes_either_quote(site: Seq<char>)
    ensures
        ({
            let p = link_pattern(site);
            let n = regex_escape(site).len() as int;
            &&& p.len() == 10 + n + 21
            &&& p.take(5) == seq!['h', 'r', 'e', 'f', '=']
            &&& p.subrange(5, 9) == seq!['[', '"', '\'', ']']
            &&& p[9] == '('
            &&& p.subrange(10, 10 + n) == regex_escape(site)
            &&& p.subrange(10 + n, 24 + n) == seq![
                '.',
                '*',
                '?',
                '|',
                '\\',
                '.',
                '.',
                '*',
                '?',
                '|',
                '/',
                '.',
                '*',
                '?',
            ]
            &&& p[24 + n] == ')'
            &&& p.subrange(25 + n, 30 + n) == seq!['[', '\'', '"', '\\', '?']
            &&& p.last() == ']'
        }),
{
    reveal_strlit("href=[\"'](");
    reveal_strlit(".*?|\\..*?|/.*?)['\"\\?]");
    let a = "href=[\"']("@;
    let b = ".*?|\\..*?|/.*?)['\"\\?]"@;
    let e = regex_escape(site);
    let n = e.len() as int;
    let p = link_pattern(site);
    assert(p == a + e + b);
    assert(p.take(5) =~= seq!['h', 'r', 'e', 'f', '=']);
    assert(p.subrange(5, 9) =~= seq!['[', '"', '\'', ']']);
    assert(p.subrange(10, 10 + n) =~= e);
    assert(p.subrange(10 + n, 24 + n) =~= b.take(14));
    assert(p.subrange(25 + n, 30 + n) =~= b.subrange(15, 20));
    assert(p[9] == a[9]);
    assert(p[24 + n] == b[14]);
    assert(p.last() == b[20]);
}

/// The links to follow that the matches `caps` of the link pattern give:
/// each link (group 1) resolved against the site, kept where it resolves
/// and its URL contains the site's URL.
pub open spec fn follow_links(caps: Seq<Seq<Seq<char>>>, site: Seq<char>) -> Seq<Seq<char>>
    decreases caps.len(),
{
    if caps.len() == 0 {
        Seq::empty()
    } else {
        let prev = follow_links(caps.drop_last(), site);
        match spec_add_base_url(site, caps.last()[1]) {
            Some(full) => if has_infix(full, site) {
                prev.push(full)
            } else {
                prev
            },
            None => prev,
        }
    }
}

/// The links to follow from the page `body` of the site `site`, in the
/// order they stand in the page.
pub open spec fn page_links(site: Seq<char>, body: Seq<char>) -> Seq<Seq<char>> {
    follow_links(regex_captures(link_pattern(site), body, 1), site)
}

/// Every link to follow contains the site's URL.
pub proof fn lemma_follow_links_stay_on_site(caps: Seq<Seq<Seq<char>>>, site: Seq<char>)
    ensures
        forall|i: int|
            0 <= i < follow_links(caps, site).len() ==> has_infix(
                #[trigger] follow_links(caps, site)[i],
                site,
            ),
    decreases caps.len(),
{
    if caps.len() > 0 {
        lemma_follow_links_stay_on_site(caps.drop_last(), site);
        let prev = follow_links(caps.drop_last(), site);
        let all = follow_links(caps, site);
        assert forall|i: int| 0 <= i < all.len() implies has_infix(#[trigger] all[i], site) by {
            if i < prev.len() {
                assert(all[i] == prev[i]);
            }
        }
    }
}

/// A site to crawl: its URL, that URL as text, and the compiled pattern
/// that finds the links of its pages.
#[derive(Debug)]
struct Site {
    base_url: SiteUrl,
    base_url_str: String,
    url_pattern: Pattern,
}

impl Site {
    /// The URL as text, and the link pattern, are those of the site.
    #[verifier::type_invariant]
    closed spec fn consistent(self) -> bool {
        &&& self.base_url_str@ == self.base_url@
        &&& self.url_pattern@ == link_pattern(self.base_url@)
    }
}

/// A spider over one site: the site, the directory images are saved under,
/// the depth to which links are followed, and the images collected.
#[derive(Debug)]
pub struct Spider {
    site: Site,
    path: String,
    recursive: u8,
    images_to_download: ImageMap,
}

impl Clone for Spider {
    /// A copy of the spider: the same site, directory, depth and images.
    fn clone(&self) -> (r: Self)
        ensures
            r.site() == self.site(),
            r.spec_path() == self.spec_path(),
            r.depth_limit() == self.depth_limit(),
            r.images() == self.images(),
    {
        proof {
            use_type_invariant(&self.site);
        }
        let site = Site {
            base_url: self.site.base_url.clone(),
            base_url_str: self.site.base_url_str.clone(),
            url_pattern: self.site.url_pattern.clone(),
        };
        Spider {
            site,
            path: self.path.clone(),
            recursive: self.recursive,
            images_to_download: self.images_to_download.clone(),
        }
    }
}

impl Spider {
    /// The serialization of the site's URL.
    pub closed spec fn site(&self) -> Seq<char> {
        self.site.base_url@
    }

    /// The directory images are saved under.
    pub closed spec fn spec_path(&self) -> Seq<char> {
        self.path@
    }

    /// The depth to which links are followed.
    pub closed spec fn depth_limit(&self) -> u8 {
        self.recursive
    }

    /// The images collected.
    pub closed spec fn images(&self) -> Map<Seq<u8>, Seq<char>> {
        self.images_to_download@
    }

    /// The text of the link pattern of `base_url`.
    fn link_pattern_text(base_url: &SiteUrl) -> (r: String)
        ensures
            r@ == link_pattern(base_url@),
    {
        let escaped = escape_regex(base_url.as_str());
        String::from_str("href=[\"'](").concat(escaped.as_str()).concat(
            ".*?|\\..*?|/.*?)['\"\\?]",
        )
    }

    /// A spider over the site `base_url` that saves images under `path` and
    /// follows links `recursive` levels deep. The link pattern of the site
    /// must compile.
    pub fn new(base_url: SiteUrl, path: &str, recursive: u8) -> (s: Spider)
        requires
            regex_compiles(link_pattern(base_url@)),
        ensures
            s.site() == base_url@,
            s.spec_path() == path@,
            s.depth_limit() == recursive,
            s.images() == Map::<Seq<u8>, Seq<char>>::empty(),
    {
        let pattern = Self::link_pattern_text(&base_url);
        let url_pattern = match Pattern::new(pattern.as_str()) {
            Ok(p) => p,
            Err(_) => {
                proof {
                    assert(false);
                }
                vstd::pervasive::unreached()
            },
        };
        let base_url_str = String::from_str(base_url.as_str());
        Spider {
            site: Site { base_url, base_url_str, url_pattern },
            path: String::from_str(path),
            recursive,
            images_to_download: ImageMap::new(),
        }
    }

    /// A spider as [`Spider::new`] makes it, where the link pattern of the
    /// site compiles; `None` where it does not.
    pub fn try_new(base_url: SiteUrl, path: &str, recursive: u8) -> (r: Option<Spider>)
        ensures
            r is Some <==> regex_compiles(link_pattern(base_url@)),
            r matches Some(s) ==> {
                &&& s.site() == base_url@
                &&& s.spec_path() == path@
                &&& s.depth_limit() == recursive
                &&& s.images() == Map::<Seq<u8>, Seq<char>>::empty()
            },
    {
        let pattern = Self::link_pattern_text(&base_url);
        match Pattern::new(pattern.as_str()) {
            Ok(_) => Some(Self::new(base_url, path, recursive)),
            Err(_) => None,
        }
    }

    /// The site's URL.
    pub fn base_url(&self) -> (u: &SiteUrl)
        ensures
            u@ == self.site(),
    {
        &self.site.base_url
    }

    /// The directory images are saved under.
    pub fn path(&self) -> (p: &str)
        ensures
            p@ == self.spec_path(),
    {
        self.path.as_str()
    }

    /// The depth to which links are followed.
    pub fn recursive(&self) -> (d: u8)
        ensures
            d == self.depth_limit(),
    {
        self.recursive
    }

    /// The images collected.
    pub fn images_to_download(&self) -> (m: &ImageMap)
        ensures
            m@ == self.images(),
    {
        &self.images_to_download
    }

    /// Adds an image, as an insertion into a map keyed by the image's bytes.
    pub fn add_image(&mut self, bytes: Vec<u8>, path: String)
        ensures
            final(self).images() == old(self).images().insert(bytes@, path@),
            final(self).site() == old(self).site(),
            final(self).spec_path() == old(self).spec_path(),
            final(self).depth_limit() == old(self).depth_limit(),
    {
        self.images_to_download.insert(bytes, path);
    }

    /// Takes what fetching the image at `url`, not downloaded before, gave:
    /// where it gave bytes, `url` is logged as downloaded and the image is
    /// kept under `path`; where it failed, nothing changes. Returns whether
    /// the image was kept.
    pub fn take_image(
        &mut self,
        log: &mut DownloadLog,
        url: String,
        path: String,
        fetched: Option<Vec<u8>>,
    ) -> (kept: bool)
        requires
            !old(log)@.contains(url@),
        ensures
            kept == fetched is Some,
            fetched matches Some(b) ==> final(log)@ == old(log)@.push(url@) && final(self).images()
                == old(self).images().insert(b@, path@),
            fetched is None ==> final(log)@ == old(log)@ && final(self).images()
                == old(self).images(),
            final(self).site() == old(self).site(),
            final(self).spec_path() == old(self).spec_path(),
            final(self).depth_limit() == old(self).depth_limit(),
    {
        match fetched {
            Some(bytes) => {
                log.record(url);
                self.add_image(bytes, path);
                true
            },
            None => false,
        }
    }

    /// Gives up the spider for its images.
    pub fn into_images(self) -> (m: ImageMap)
        ensures
            m@ == self.images(),
    {
        self.images_to_download
    }

    /// The links to follow from the page `body` of the site.
    pub fn links_to_follow(&self, body: &str) -> (r: Vec<String>)
        ensures
            r.deep_view() == page_links(self.site(), body@),
    {
        proof {
            use_type_invariant(&self.site);
        }
        let caps = self.site.url_pattern.captures(body, 1);
        let ghost spec_caps = regex_captures(link_pattern(self.site()), body@, 1);
        let mut links: Vec<String> = Vec::new();
        let mut i: usize = 0;
        while i < caps.len()
            invariant
                caps.deep_view() == spec_caps,
                forall|k: int| 0 <= k < caps@.len() ==> #[trigger] caps@[k]@.len() == 2,
                i <= caps@.len(),
                links.deep_view() == follow_links(spec_caps.take(i as int), self.site()),
                self.site.base_url_str@ == self.site(),
            decreases caps@.len() - i,
        {
            let m = &caps[i];
            assert(m@.len() == 2);
            assert(m.deep_view() == spec_caps[i as int]);
            assert(spec_caps.take(i + 1).drop_last() =~= spec_caps.take(i as int));
            let ghost before = links.deep_view();
            match Scraper::add_base_url(&self.site.base_url, m[1].as_str()) {
                Ok(full) => {
                    if str_contains(full.as_str(), self.site.base_url_str.as_str()) {
                        links.push(full);
                        assert(links.deep_view() =~= before.push(full@));
                    }
                },
                Err(_) => {},
            }
            i = i + 1;
        }
        assert(spec_caps.take(caps@.len() as int) =~= spec_caps);
        links
    }
}

} // verus!
