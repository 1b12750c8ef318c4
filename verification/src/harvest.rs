//! Choosing which images of the pages received to fetch, as a state
//! machine.
//!
//! The image links of the pages, page after page and in the order each
//! page holds them, form a list of targets: the absolute URL of the image
//! and the path to save it to, or nothing where the link did not resolve.
//! The machine goes down the list and asks for the first target whose URL
//! is not in the log of downloaded images; it passes over the others
//! without a request. The party that runs the machine performs each fetch
//! and hands back the bytes, or nothing where the fetch failed; fetched
//! bytes are kept under the target's path and their URL is logged. A URL in
//! the log is never asked for.
use vstd::prelude::*;

use crate::scraper::{image_link_agrees, DownloadLog, ImageLink, Scraper};
use crate::spider::Spider;
use crate::web::{regex_captures, Pattern};

verus! {

/// A target: the URL of an image and the path to save it to, or nothing
/// where the link did not resolve.
pub type TargetView = Option<(Seq<char>, Seq<char>)>;

/// What the image selection asks for next.
#[derive(Debug)]
pub enum ImageAction {
    /// Fetch the image at this URL and hand its bytes, or the failure, to
    /// the next step.
    Fetch(String),
    /// Every target was taken or passed over.
    Done,
}

/// The URL of a target.
pub open spec fn target_url(t: TargetView) -> Seq<char> {
    match t {
        Some(p) => p.0,
        None => Seq::empty(),
    }
}

/// The path of a target.
pub open spec fn target_path(t: TargetView) -> Seq<char> {
    match t {
        Some(p) => p.1,
        None => Seq::empty(),
    }
}

/// The target of an image link.
pub open spec fn link_target(l: ImageLink) -> TargetView {
    match l.target {
        Ok(t) => Some((t.url@, t.path@)),
        Err(_) => None,
    }
}

/// The targets of the image links of one page, in order.
pub open spec fn page_targets(links: Seq<ImageLink>) -> Seq<TargetView> {
    links.map_values(|l: ImageLink| link_target(l))
}

/// The targets of the image links of several pages, page after page.
pub open spec fn pages_targets(pages: Seq<Seq<ImageLink>>) -> Seq<TargetView>
    decreases pages.len(),
{
    if pages.len() == 0 {
        Seq::empty()
    } else {
        pages_targets(pages.drop_last()) + page_targets(pages.last())
    }
}

/// The image links of the pages, as values.
pub open spec fn pages_view(pages: Seq<Vec<ImageLink>>) -> Seq<Seq<ImageLink>> {
    pages.map_values(|v: Vec<ImageLink>| v@)
}

/// The target is to be fetched: it resolved, and its URL is not in `log`.
pub open spec fn wanted(t: TargetView, log: Seq<Seq<char>>) -> bool {
    t is Some && !log.contains(target_url(t))
}

/// The log and the images after the target `t` was dealt with, where
/// fetching it gave `got`: a wanted target whose fetch gave bytes has its
/// URL logged and its bytes kept under its path (a later path replaces an
/// earlier one for the same bytes); otherwise nothing changes.
pub open spec fn kept(
    t: TargetView,
    log: Seq<Seq<char>>,
    images: Map<Seq<u8>, Seq<char>>,
    got: Option<Seq<u8>>,
) -> (Seq<Seq<char>>, Map<Seq<u8>, Seq<char>>) {
    if wanted(t, log) {
        match got {
            Some(b) => (log.push(target_url(t)), images.insert(b, target_path(t))),
            None => (log, images),
        }
    } else {
        (log, images)
    }
}

/// The log and the images after the targets from position `k` on were
/// dealt with in order, where fetching the target at position `i` gives
/// `got(i)`.
pub open spec fn harvest(
    targets: Seq<TargetView>,
    k: int,
    log: Seq<Seq<char>>,
    images: Map<Seq<u8>, Seq<char>>,
    got: spec_fn(int) -> Option<Seq<u8>>,
) -> (Seq<Seq<char>>, Map<Seq<u8>, Seq<char>>)
    decreases targets.len() - k,
{
    if 0 <= k < targets.len() {
        let s = kept(targets[k], log, images, got(k));
        harvest(targets, k + 1, s.0, s.1, got)
    } else {
        (log, images)
    }
}

/// The position of the first target from `from` on that is to be fetched.
pub open spec fn first_wanted(targets: Seq<TargetView>, log: Seq<Seq<char>>, from: int) -> Option<
    int,
>
    decreases targets.len() - from,
{
    if 0 <= from < targets.len() {
        if wanted(targets[from], log) {
            Some(from)
        } else {
            first_wanted(targets, log, from + 1)
        }
    } else {
        None
    }
}

/// What the selection ends with, from a state that awaits the fetch of the
/// target at `awaiting` (or awaits nothing, and is over).
pub open spec fn harvest_outcome(
    targets: Seq<TargetView>,
    awaiting: Option<int>,
    log: Seq<Seq<char>>,
    images: Map<Seq<u8>, Seq<char>>,
    got: spec_fn(int) -> Option<Seq<u8>>,
) -> (Seq<Seq<char>>, Map<Seq<u8>, Seq<char>>) {
    match awaiting {
        Some(k) => harvest(targets, k, log, images, got),
        None => (log, images),
    }
}

/// The action asks for the target at `awaiting`, or ends the selection.
pub open spec fn asked(targets: Seq<TargetView>, awaiting: Option<int>, a: ImageAction) -> bool {
    match awaiting {
        Some(k) => a matches ImageAction::Fetch(u) && u@ == target_url(targets[k]),
        None => a is Done,
    }
}

/// The first target to be fetched is a wanted one, and none before it is.
proof fn lemma_first_wanted_bounds(targets: Seq<TargetView>, log: Seq<Seq<char>>, from: int)
    requires
        0 <= from,
    ensures
        first_wanted(targets, log, from) matches Some(k) ==> from <= k < targets.len() && wanted(
            targets[k],
            log,
        ),
    decreases targets.len() - from,
{
    if 0 <= from < targets.len() && !wanted(targets[from], log) {
        lemma_first_wanted_bounds(targets, log, from + 1);
    }
}

/// Where the targets from `from` up to `k` are not to be fetched, the first
/// one to be fetched is at `k`, or there is none where `k` is the end.
proof fn lemma_first_wanted_at(targets: Seq<TargetView>, log: Seq<Seq<char>>, from: int, k: int)
    requires
        0 <= from <= k <= targets.len(),
        forall|j: int| from <= j < k ==> !wanted(#[trigger] targets[j], log),
    ensures
        k < targets.len() && wanted(targets[k], log) ==> first_wanted(targets, log, from) == Some(
            k,
        ),
        k == targets.len() ==> first_wanted(targets, log, from) is None,
    decreases k - from,
{
    if from < k {
        lemma_first_wanted_at(targets, log, from + 1, k);
    }
}

/// Passing over the targets that are not to be fetched changes nothing.
proof fn lemma_skip_unwanted(
    targets: Seq<TargetView>,
    log: Seq<Seq<char>>,
    images: Map<Seq<u8>, Seq<char>>,
    got: spec_fn(int) -> Option<Seq<u8>>,
    from: int,
)
    requires
        0 <= from <= targets.len(),
    ensures
        harvest_outcome(targets, first_wanted(targets, log, from), log, images, got) == harvest(
            targets,
            from,
            log,
            images,
            got,
        ),
    decreases targets.len() - from,
{
    if from < targets.len() && !wanted(targets[from], log) {
        lemma_skip_unwanted(targets, log, images, got, from + 1);
    }
}

/// The first step of a selection: a machine that asks for the first target
/// to be fetched ends with the log and images of dealing with every target
/// in order.
pub proof fn lemma_harvest_start_outcome(
    targets: Seq<TargetView>,
    log: Seq<Seq<char>>,
    images: Map<Seq<u8>, Seq<char>>,
    got: spec_fn(int) -> Option<Seq<u8>>,
)
    ensures
        harvest_outcome(targets, first_wanted(targets, log, 0), log, images, got) == harvest(
            targets,
            0,
            log,
            images,
            got,
        ),
{
    lemma_skip_unwanted(targets, log, images, got, 0);
}

/// A step of the selection, where what is handed to it is what fetching the
/// awaited target gives, keeps what the selection ends with.
pub proof fn lemma_harvest_step_keeps_outcome(
    targets: Seq<TargetView>,
    k: int,
    log: Seq<Seq<char>>,
    images: Map<Seq<u8>, Seq<char>>,
    got: spec_fn(int) -> Option<Seq<u8>>,
)
    requires
        0 <= k < targets.len(),
    ensures
        ({
            let s = kept(targets[k], log, images, got(k));
            harvest_outcome(targets, first_wanted(targets, s.0, k + 1), s.0, s.1, got)
        }) == harvest_outcome(targets, Some(k), log, images, got),
{
    let s = kept(targets[k], log, images, got(k));
    lemma_skip_unwanted(targets, s.0, s.1, got, k + 1);
}

/// A selection that is over holds what it ends with.
pub proof fn lemma_harvest_done_outcome(
    targets: Seq<TargetView>,
    log: Seq<Seq<char>>,
    images: Map<Seq<u8>, Seq<char>>,
    got: spec_fn(int) -> Option<Seq<u8>>,
)
    ensures
        harvest_outcome(targets, None, log, images, got) == (log, images),
{
}

/// The log only grows, and never holds a URL twice: the URLs logged by a
/// selection are pairwise distinct, none of them was logged before, and
/// each is the URL of a target.
pub proof fn lemma_harvest_log_grows_without_repeats(
    targets: Seq<TargetView>,
    k: int,
    log: Seq<Seq<char>>,
    images: Map<Seq<u8>, Seq<char>>,
    got: spec_fn(int) -> Option<Seq<u8>>,
)
    requires
        0 <= k,
        log.no_duplicates(),
    ensures
        ({
            let r = harvest(targets, k, log, images, got).0;
            &&& r.no_duplicates()
            &&& log.len() <= r.len()
            &&& r.subrange(0, log.len() as int) == log
            &&& forall|i: int|
                #![trigger r[i]]
                log.len() <= i < r.len() ==> exists|j: int|
                    k <= j < targets.len() && #[trigger] targets[j] is Some && target_url(targets[j])
                        == r[i]
        }),
    decreases targets.len() - k,
{
    if k < targets.len() {
        let s = kept(targets[k], log, images, got(k));
        let t = targets[k];
        assert(s.0.no_duplicates()) by {
            if wanted(t, log) && got(k) is Some {
                assert forall|a: int, b: int|
                    0 <= a < s.0.len() && 0 <= b < s.0.len() && a != b implies s.0[a] != s.0[b] by {
                    if a == log.len() {
                        assert(s.0[b] == log[b]);
                    } else if b == log.len() {
                        assert(s.0[a] == log[a]);
                    }
                }
            }
        }
        lemma_harvest_log_grows_without_repeats(targets, k + 1, s.0, s.1, got);
        let r = harvest(targets, k, log, images, got).0;
        assert(r == harvest(targets, k + 1, s.0, s.1, got).0);
        assert(r.subrange(0, s.0.len() as int) == s.0);
        assert(r.subrange(0, log.len() as int) =~= log) by {
            assert forall|i: int| 0 <= i < log.len() implies r[i] == log[i] by {
                assert(r.subrange(0, s.0.len() as int)[i] == r[i]);
            }
        }
        assert forall|i: int| #![trigger r[i]] log.len() <= i < r.len() implies exists|j: int|
            k <= j < targets.len() && #[trigger] targets[j] is Some && target_url(targets[j]) == r[i] by {
            if i < s.0.len() {
                assert(r.subrange(0, s.0.len() as int)[i] == r[i]);
                assert(targets[k] is Some && target_url(targets[k]) == r[i]);
            } else {
                let j = choose|j: int|
                    k + 1 <= j < targets.len() && #[trigger] targets[j] is Some && target_url(
                        targets[j],
                    ) == r[i];
                assert(k <= j < targets.len());
            }
        }
    } else {
        assert(log.subrange(0, log.len() as int) =~= log);
    }
}

/// The image links of one page, as `Scraper::image_links` finds them from
/// the captures `caps` of the image pattern in its text.
pub open spec fn links_of_page(
    links: Seq<ImageLink>,
    caps: Seq<Seq<Seq<char>>>,
    base: Seq<char>,
    path: Seq<char>,
) -> bool {
    &&& links.len() == caps.len()
    &&& forall|i: int|
        0 <= i < links.len() ==> image_link_agrees(#[trigger] links[i], caps[i], base, path)
}

/// The targets a machine holds, as values.
pub open spec fn targets_of(v: Seq<Option<(String, String)>>) -> Seq<TargetView> {
    v.map_values(
        |o: Option<(String, String)>|
            match o {
                Some(p) => Some((p.0@, p.1@)),
                None => None,
            },
    )
}

/// The bytes a fetch gave, as values.
pub open spec fn bytes_of(o: Option<Vec<u8>>) -> Option<Seq<u8>> {
    match o {
        Some(b) => Some(b@),
        None => None,
    }
}

/// The state of an image selection: the targets, the position of the next
/// one to look at, the log of downloaded image URLs, and whether the target
/// just before that position is being fetched.
#[derive(Debug)]
pub struct ImageHarvest {
    targets: Vec<Option<(String, String)>>,
    next: usize,
    log: DownloadLog,
    fetching: bool,
}

impl ImageHarvest {
    /// The targets, in the order they are dealt with.
    pub closed spec fn targets(&self) -> Seq<TargetView> {
        targets_of(self.targets@)
    }

    /// The image URLs downloaded so far, in order.
    pub closed spec fn log(&self) -> Seq<Seq<char>> {
        self.log@
    }

    /// The position of the target being fetched, if one is; none once the
    /// selection is over.
    pub closed spec fn awaiting(&self) -> Option<int> {
        if self.fetching {
            Some(self.next - 1)
        } else {
            None
        }
    }

    /// The target being fetched is one to be fetched; a selection that
    /// fetches nothing has looked at every target.
    #[verifier::type_invariant]
    closed spec fn consistent(self) -> bool {
        &&& self.next <= self.targets@.len()
        &&& self.fetching ==> self.next >= 1 && wanted(self.targets()[self.next - 1], self.log@)
        &&& !self.fetching ==> self.next == self.targets@.len()
    }

    /// Looks at the targets from `from` on, passes over those not to be
    /// fetched, and asks for the first one to be fetched; ends the
    /// selection when none is left.
    fn advance(targets: Vec<Option<(String, String)>>, from: usize, log: DownloadLog) -> (r: (
        ImageHarvest,
        ImageAction,
    ))
        requires
            from <= targets@.len(),
        ensures
            r.0.targets() == targets_of(targets@),
            r.0.log() == log@,
            r.0.awaiting() == first_wanted(targets_of(targets@), log@, from as int),
            asked(r.0.targets(), r.0.awaiting(), r.1),
    {
        let ghost tv = targets_of(targets@);
        let mut i: usize = from;
        while i < targets.len()
            invariant
                from <= i <= targets@.len(),
                tv == targets_of(targets@),
                forall|j: int| from <= j < i ==> !wanted(#[trigger] tv[j], log@),
            decreases targets@.len() - i,
        {
            let found = match &targets[i] {
                Some(t) => !log.contains(t.0.as_str()),
                None => false,
            };
            assert(found == wanted(tv[i as int], log@));
            if found {
                let url = match &targets[i] {
                    Some(t) => t.0.clone(),
                    None => {
                        proof {
                            assert(false);
                        }
                        vstd::pervasive::unreached()
                    },
                };
                proof {
                    lemma_first_wanted_at(tv, log@, from as int, i as int);
                }
                let h = ImageHarvest { targets, next: i + 1, log, fetching: true };
                return (h, ImageAction::Fetch(url));
            }
            i = i + 1;
        }
        proof {
            lemma_first_wanted_at(tv, log@, from as int, i as int);
        }
        let n = targets.len();
        (ImageHarvest { targets, next: n, log, fetching: false }, ImageAction::Done)
    }

    /// Starts a selection over the image links of the pages, page after
    /// page, with the log of the images downloaded before: it asks for the
    /// first target to be fetched, or ends at once.
    pub fn start(pages: &Vec<Vec<ImageLink>>, log: DownloadLog) -> (r: (ImageHarvest, ImageAction))
        ensures
            r.0.targets() == pages_targets(pages_view(pages@)),
            r.0.log() == log@,
            r.0.awaiting() == first_wanted(r.0.targets(), log@, 0),
            asked(r.0.targets(), r.0.awaiting(), r.1),
    {
        let ghost pv = pages_view(pages@);
        let mut targets: Vec<Option<(String, String)>> = Vec::new();
        let mut p: usize = 0;
        assert(pv.take(0) =~= Seq::<Seq<ImageLink>>::empty());
        assert(targets_of(targets@) =~= Seq::<TargetView>::empty());
        while p < pages.len()
            invariant
                p <= pages@.len(),
                pv == pages_view(pages@),
                targets_of(targets@) == pages_targets(pv.take(p as int)),
            decreases pages@.len() - p,
        {
            let page = &pages[p];
            let ghost before = targets_of(targets@);
            let mut j: usize = 0;
            assert(page@.take(0) =~= Seq::<ImageLink>::empty());
            assert(before + page_targets(page@.take(0)) =~= before);
            while j < page.len()
                invariant
                    j <= page@.len(),
                    targets_of(targets@) == before + page_targets(page@.take(j as int)),
                decreases page@.len() - j,
            {
                let t = match &page[j].target {
                    Ok(t) => Some((t.url.clone(), t.path.clone())),
                    Err(_) => None,
                };
                let ghost old_t = targets@;
                targets.push(t);
                proof {
                    assert(page@.take(j as int + 1) =~= page@.take(j as int).push(page@[j as int]));
                    assert(page_targets(page@.take(j as int + 1)) =~= page_targets(
                        page@.take(j as int),
                    ).push(link_target(page@[j as int])));
                    assert(targets_of(targets@) =~= targets_of(old_t).push(link_target(page@[j as int])));
                }
                j = j + 1;
            }
            proof {
                assert(page@.take(page@.len() as int) =~= page@);
                assert(pv.take(p as int + 1).drop_last() =~= pv.take(p as int));
                assert(pv[p as int] == page@);
            }
            p = p + 1;
        }
        assert(pv.take(pages@.len() as int) =~= pv);
        ImageHarvest::advance(targets, 0, log)
    }

    /// Gives up the selection for its log of downloaded image URLs.
    pub fn into_log(self) -> (r: DownloadLog)
        ensures
            r@ == self.log(),
    {
        self.log
    }
}

impl Spider {
    /// The image links of each page received, found with `img_pattern` and
    /// resolved against the site, with paths under the spider's directory.
    pub fn page_image_links(&self, img_pattern: &Pattern, pages: &Vec<(String, String)>) -> (r: Vec<
        Vec<ImageLink>,
    >)
        ensures
            r@.len() == pages@.len(),
            forall|i: int|
                0 <= i < pages@.len() ==> links_of_page(
                    #[trigger] r@[i]@,
                    regex_captures(img_pattern@, pages@[i].1@, 2),
                    self.site(),
                    self.spec_path(),
                ),
    {
        let mut r: Vec<Vec<ImageLink>> = Vec::new();
        let mut i: usize = 0;
        while i < pages.len()
            invariant
                i <= pages@.len(),
                r@.len() == i,
                forall|k: int|
                    0 <= k < i ==> links_of_page(
                        #[trigger] r@[k]@,
                        regex_captures(img_pattern@, pages@[k].1@, 2),
                        self.site(),
                        self.spec_path(),
                    ),
            decreases pages@.len() - i,
        {
            let links = Scraper::image_links(
                self.base_url(),
                img_pattern,
                pages[i].1.as_str(),
                self.path(),
            );
            r.push(links);
            i = i + 1;
        }
        r
    }

    /// Hands the selection what fetching the target it asked for gave: the
    /// bytes, or nothing where the fetch failed. Fetched bytes are kept
    /// under the target's path and its URL is logged; the selection then
    /// asks for the next target to be fetched, or ends. A selection that is
    /// over stays over. A URL in the log is never asked for.
    pub fn harvest_step(&mut self, h: &mut ImageHarvest, fetched: Option<Vec<u8>>) -> (a:
        ImageAction)
        ensures
            final(h).targets() == old(h).targets(),
            final(self).site() == old(self).site(),
            final(self).spec_path() == old(self).spec_path(),
            final(self).depth_limit() == old(self).depth_limit(),
            match old(h).awaiting() {
                Some(k) => {
                    let s = kept(old(h).targets()[k], old(h).log(), old(self).images(), bytes_of(fetched));
                    &&& final(h).log() == s.0
                    &&& final(self).images() == s.1
                    &&& final(h).awaiting() == first_wanted(old(h).targets(), s.0, k + 1)
                },
                None => {
                    &&& final(h).log() == old(h).log()
                    &&& final(self).images() == old(self).images()
                    &&& final(h).awaiting() is None
                },
            },
            asked(final(h).targets(), final(h).awaiting(), a),
            a matches ImageAction::Fetch(u) ==> !final(h).log().contains(u@),
    {
        proof {
            use_type_invariant(&*h);
        }
        if !h.fetching {
            return ImageAction::Done;
        }
        let mut taken = ImageHarvest {
            targets: Vec::new(),
            next: 0,
            log: DownloadLog::new(),
            fetching: false,
        };
        std::mem::swap(&mut taken, h);
        proof {
            use_type_invariant(&taken);
        }
        let ImageHarvest { targets, next, mut log, fetching: _ } = taken;
        let ghost tv = targets_of(targets@);
        let k = next - 1;
        let (url, path) = match &targets[k] {
            Some(t) => (t.0.clone(), t.1.clone()),
            None => {
                proof {
                    assert(tv[k as int] is None);
                    assert(false);
                }
                vstd::pervasive::unreached()
            },
        };
        assert(tv[k as int] == Some((url@, path@)));
        self.take_image(&mut log, url, path, fetched);
        let (nh, a) = ImageHarvest::advance(targets, next, log);
        proof {
            lemma_first_wanted_bounds(tv, nh.log(), next as int);
        }
        *h = nh;
        a
    }
}

} // verus!
