//! The crawl of a site, depth first, as a state machine.
//!
//! The crawl starts at the site's URL at depth 0. Each page it receives is
//! recorded with its text, and the links to follow from it are queued at
//! the next depth, ahead of every link queued before. The crawl then takes
//! queued links in order and asks for the first one that is no deeper than
//! the spider's limit and whose page it does not hold yet; when no such link
//! is left it is done. The pages thus come in the order in which a
//! recursive, depth-first visit of the links would fetch them, and the
//! party that runs the machine performs each fetch.
use vstd::prelude::*;

use crate::spider::{keys_of, lemma_follow_links_stay_on_site, link_pattern, page_links, Spider};
use crate::text::has_infix;
use crate::web::regex_captures;

verus! {

/// What the crawl asks for next.
#[derive(Debug)]
pub enum CrawlAction {
    /// Fetch the page at this URL and hand its text to the next step.
    Fetch(String),
    /// The crawl is over.
    Done,
}

/// Links of one page still to be taken, all at one depth.
#[derive(Debug)]
struct Frame {
    depth: u16,
    links: Vec<String>,
    next: usize,
}

/// The value of a queued group of links.
pub struct FrameView {
    pub depth: int,
    pub links: Seq<Seq<char>>,
    pub next: int,
}

/// The links of a group still to be taken, each with its depth.
pub open spec fn frame_pending(f: FrameView) -> Seq<(Seq<char>, int)> {
    Seq::new((f.links.len() - f.next) as nat, |i: int| (f.links[f.next + i], f.depth))
}

/// The queued links, the most recent group first.
pub open spec fn pending_of(frames: Seq<FrameView>) -> Seq<(Seq<char>, int)>
    decreases frames.len(),
{
    if frames.len() == 0 {
        Seq::empty()
    } else {
        frame_pending(frames.last()) + pending_of(frames.drop_last())
    }
}

/// A queued link is to be fetched: it is no deeper than `limit` and its
/// page is not among `keys`.
pub open spec fn eligible(keys: Seq<Seq<char>>, limit: int, e: (Seq<char>, int)) -> bool {
    e.1 <= limit && !keys.contains(e.0)
}

/// The position of the first queued link to be fetched.
pub open spec fn first_eligible(p: Seq<(Seq<char>, int)>, keys: Seq<Seq<char>>, limit: int) -> Option<
    int,
>
    decreases p.len(),
{
    if p.len() == 0 {
        None
    } else if eligible(keys, limit, p[0]) {
        Some(0)
    } else {
        match first_eligible(p.drop_first(), keys, limit) {
            Some(j) => Some(j + 1),
            None => None,
        }
    }
}

/// The crawl took the first link of `queue` that is to be fetched, or ended
/// when there was none: `pending` is what is left of the queue, `awaiting`
/// the page asked for, `a` the action.
pub open spec fn took_next(
    queue: Seq<(Seq<char>, int)>,
    keys: Seq<Seq<char>>,
    limit: int,
    pending: Seq<(Seq<char>, int)>,
    awaiting: Option<(Seq<char>, int)>,
    a: CrawlAction,
) -> bool {
    match first_eligible(queue, keys, limit) {
        Some(j) => {
            &&& pending == queue.skip(j + 1)
            &&& awaiting == Some(queue[j])
            &&& a matches CrawlAction::Fetch(u) && u@ == queue[j].0
        },
        None => {
            &&& pending.len() == 0
            &&& awaiting is None
            &&& a is Done
        },
    }
}

/// The first `k` queued links are not to be fetched and the next one is.
proof fn lemma_first_eligible_at(
    p: Seq<(Seq<char>, int)>,
    keys: Seq<Seq<char>>,
    limit: int,
    k: int,
)
    requires
        0 <= k <= p.len(),
        forall|i: int| 0 <= i < k ==> !eligible(keys, limit, #[trigger] p[i]),
    ensures
        k < p.len() && eligible(keys, limit, p[k]) ==> first_eligible(p, keys, limit) == Some(k),
        k == p.len() ==> first_eligible(p, keys, limit) is None,
    decreases k,
{
    if k > 0 {
        assert(!eligible(keys, limit, p[0]));
        assert forall|i: int| 0 <= i < k - 1 implies !eligible(
            keys,
            limit,
            #[trigger] p.drop_first()[i],
        ) by {
            assert(p.drop_first()[i] == p[i + 1]);
        }
        lemma_first_eligible_at(p.drop_first(), keys, limit, k - 1);
    }
}

/// The link taken is one of the queue.
proof fn lemma_first_eligible_bounds(p: Seq<(Seq<char>, int)>, keys: Seq<Seq<char>>, limit: int)
    ensures
        first_eligible(p, keys, limit) matches Some(j) ==> 0 <= j < p.len() && eligible(
            keys,
            limit,
            p[j],
        ),
    decreases p.len(),
{
    if p.len() > 0 && !eligible(keys, limit, p[0]) {
        lemma_first_eligible_bounds(p.drop_first(), keys, limit);
    }
}

/// The state of a crawl: the site and depth limit it runs under, the pages
/// received so far with their text, the queue of links, and the page asked
/// for and not yet received.
#[derive(Debug)]
pub struct Crawl {
    site: String,
    limit: u8,
    done: Vec<(String, String)>,
    frames: Vec<Frame>,
    current: Option<(String, u16)>,
}

impl Crawl {
    closed spec fn frames_view(&self) -> Seq<FrameView> {
        Seq::new(
            self.frames@.len(),
            |i: int|
                FrameView {
                    depth: self.frames@[i].depth as int,
                    links: self.frames@[i].links.deep_view(),
                    next: self.frames@[i].next as int,
                },
        )
    }

    /// Each group of links has a valid position.
    pub closed spec fn frames_ok(&self) -> bool {
        forall|i: int|
            0 <= i < self.frames@.len() ==> #[trigger] self.frames@[i].next <= self.frames@[i].links@.len()
    }

    /// The site's URL.
    pub closed spec fn site(&self) -> Seq<char> {
        self.site@
    }

    /// The depth limit.
    pub closed spec fn limit(&self) -> u8 {
        self.limit
    }

    /// The pages received, in order, each with its text.
    pub closed spec fn pages(&self) -> Seq<(Seq<char>, Seq<char>)> {
        Seq::new(self.done@.len(), |i: int| (self.done@[i].0@, self.done@[i].1@))
    }

    /// The queued links, each with its depth, in the order they are taken.
    pub closed spec fn pending(&self) -> Seq<(Seq<char>, int)> {
        pending_of(self.frames_view())
    }

    /// The page asked for, with its depth, if one is.
    pub closed spec fn awaiting(&self) -> Option<(Seq<char>, int)> {
        match self.current {
            Some((u, d)) => Some((u@, d as int)),
            None => None,
        }
    }

    /// The invariant of a crawl:
    /// - no page is received twice;
    /// - the first page received is the site's URL, and every later one
    ///   contains it;
    /// - every queued link contains the site's URL;
    /// - the page asked for is no deeper than the limit, not received yet,
    ///   and is the site's URL at depth 0 when nothing was received yet.
    pub open spec fn wf(&self) -> bool {
        &&& self.frames_ok()
        &&& keys_of(self.pages()).no_duplicates()
        &&& self.pages().len() > 0 ==> self.pages()[0].0 == self.site()
        &&& forall|i: int|
            1 <= i < self.pages().len() ==> has_infix(#[trigger] self.pages()[i].0, self.site())
        &&& forall|i: int|
            0 <= i < self.pending().len() ==> has_infix(#[trigger] self.pending()[i].0, self.site())
        &&& match self.awaiting() {
            Some((u, d)) => {
                &&& d <= self.limit()
                &&& !keys_of(self.pages()).contains(u)
                &&& self.pages().len() == 0 ==> u == self.site() && d == 0
                &&& self.pages().len() > 0 ==> has_infix(u, self.site())
            },
            None => true,
        }
    }

    /// Whether the page `url` was received.
    fn has_page(&self, url: &String) -> (b: bool)
        ensures
            b == keys_of(self.pages()).contains(url@),
    {
        let mut i: usize = 0;
        while i < self.done.len()
            invariant
                i <= self.done@.len(),
                forall|k: int| 0 <= k < i ==> keys_of(self.pages())[k] != url@,
            decreases self.done@.len() - i,
        {
            if self.done[i].0 == *url {
                assert(keys_of(self.pages())[i as int] == url@);
                return true;
            }
            i = i + 1;
        }
        false
    }

    /// Takes queued links until one is to be fetched and asks for it; ends
    /// the crawl when none is left.
    fn advance(&mut self) -> (a: CrawlAction)
        requires
            old(self).frames_ok(),
        ensures
            final(self).frames_ok(),
            final(self).pages() == old(self).pages(),
            final(self).site() == old(self).site(),
            final(self).limit() == old(self).limit(),
            took_next(
                old(self).pending(),
                keys_of(old(self).pages()),
                old(self).limit() as int,
                final(self).pending(),
                final(self).awaiting(),
                a,
            ),
    {
        let ghost queue = self.pending();
        let ghost keys = keys_of(self.pages());
        let ghost limit = self.limit as int;
        let ghost mut k: int = 0;
        loop
            invariant
                self.frames_ok(),
                self.pages() == old(self).pages(),
                self.site() == old(self).site(),
                self.limit() == old(self).limit(),
                queue == old(self).pending(),
                keys == keys_of(old(self).pages()),
                limit == old(self).limit() as int,
                0 <= k <= queue.len(),
                self.pending() == queue.skip(k),
                forall|i: int| 0 <= i < k ==> !eligible(keys, limit, #[trigger] queue[i]),
            decreases self.pending().len(), self.frames@.len(),
        {
            let ghost fv = self.frames_view();
            let ghost old_frames = self.frames@;
            match self.frames.pop() {
                None => {
                    proof {
                        assert(self.pending().len() == 0);
                        lemma_first_eligible_at(queue, keys, limit, k);
                    }
                    self.current = None;
                    return CrawlAction::Done;
                },
                Some(f) => {
                    assert(self.frames_view() =~= fv.drop_last());
                    let ghost top = fv.last();
                    assert(self.frames_ok());
                    if f.next < f.links.len() {
                        let link = f.links[f.next].clone();
                        let depth = f.depth;
                        let ghost f_links = f.links@;
                        let f2 = Frame { depth: f.depth, links: f.links, next: f.next + 1 };
                        self.frames.push(f2);
                        proof {
                            let top2 = FrameView { depth: top.depth, links: top.links, next: top.next + 1 };
                            assert(self.frames_view() =~= fv.drop_last().push(top2));
                            assert(self.frames_view().drop_last() =~= fv.drop_last());
                            assert(frame_pending(top2) =~= frame_pending(top).drop_first());
                            assert(f == old_frames.last());
                            assert(top.next == f.next as int);
                            assert(top.links == f.links.deep_view());
                            assert(top.links[top.next] == link@);
                            assert(frame_pending(top).len() > 0);
                            assert(frame_pending(top)[0] == (link@, depth as int));
                            let rest = pending_of(fv.drop_last());
                            assert(queue.skip(k) =~= frame_pending(top) + rest);
                            assert(queue.skip(k)[0] == queue[k]);
                            assert(queue[k] == (link@, depth as int));
                            assert(self.pending() =~= frame_pending(top2) + rest);
                            assert(queue.skip(k + 1) =~= queue.skip(k).drop_first());
                            assert(self.pending() =~= queue.skip(k + 1));
                            assert(self.frames@ =~= old_frames.drop_last().push(f2));
                            assert forall|i: int|
                                0 <= i < self.frames@.len() implies #[trigger] self.frames@[i].next
                                <= self.frames@[i].links@.len() by {
                                if i < self.frames@.len() - 1 {
                                    assert(self.frames@[i] == old_frames[i]);
                                }
                            }
                        }
                        if depth <= self.limit as u16 && !self.has_page(&link) {
                            proof {
                                lemma_first_eligible_at(queue, keys, limit, k);
                            }
                            self.current = Some((link.clone(), depth));
                            return CrawlAction::Fetch(link);
                        }
                        proof {
                            k = k + 1;
                        }
                    } else {
                        proof {
                            assert(frame_pending(top).len() == 0);
                            assert(pending_of(fv) =~= pending_of(fv.drop_last()));
                        }
                    }
                },
            }
        }
    }

    /// Gives up the crawl for its pages, each with its text.
    pub fn into_pages(self) -> (r: Vec<(String, String)>)
        ensures
            Seq::new(r@.len(), |i: int| (r@[i].0@, r@[i].1@)) == self.pages(),
    {
        let r = self.done;
        assert(Seq::new(r@.len(), |i: int| (r@[i].0@, r@[i].1@)) =~= self.pages());
        r
    }
}

/// Links queued at depth `d`.
pub open spec fn at_depth(links: Seq<Seq<char>>, d: int) -> Seq<(Seq<char>, int)> {
    links.map_values(|l: Seq<char>| (l, d))
}

/// The URL of the page asked for.
pub open spec fn awaited_url(c: Crawl) -> Seq<char> {
    (c.awaiting()->0).0
}

/// The depth of the page asked for.
pub open spec fn awaited_depth(c: Crawl) -> int {
    (c.awaiting()->0).1
}

impl Spider {
    /// Starts a crawl of the site: it asks for the site's URL, at depth 0.
    pub fn start_crawl(&self) -> (r: (Crawl, CrawlAction))
        ensures
            r.0.wf(),
            r.0.site() == self.site(),
            r.0.limit() == self.depth_limit(),
            r.0.pages().len() == 0,
            r.0.pending().len() == 0,
            r.0.awaiting() == Some((self.site(), 0int)),
            r.1 matches CrawlAction::Fetch(u) && u@ == self.site(),
    {
        let site = String::from_str(self.base_url().as_str());
        let c = Crawl {
            site: site.clone(),
            limit: self.recursive(),
            done: Vec::new(),
            frames: Vec::new(),
            current: Some((site.clone(), 0)),
        };
        proof {
            assert(c.pages() =~= Seq::<(Seq<char>, Seq<char>)>::empty());
            assert(c.frames_view() =~= Seq::<FrameView>::empty());
            assert(keys_of(c.pages()) =~= Seq::<Seq<char>>::empty());
        }
        (c, CrawlAction::Fetch(site))
    }

    /// Hands the crawl the text of the page it asked for: the page is
    /// recorded, the links to follow from it are queued one level deeper
    /// ahead of the links queued before, and the crawl asks for the next
    /// link to fetch, or ends.
    pub fn crawl_step(&self, crawl: &mut Crawl, body: String) -> (a: CrawlAction)
        requires
            old(crawl).wf(),
            old(crawl).awaiting() is Some,
            old(crawl).site() == self.site(),
            old(crawl).limit() == self.depth_limit(),
        ensures
            final(crawl).wf(),
            final(crawl).site() == old(crawl).site(),
            final(crawl).limit() == old(crawl).limit(),
            final(crawl).pages() == old(crawl).pages().push((awaited_url(*old(crawl)), body@)),
            took_next(
                at_depth(page_links(self.site(), body@), awaited_depth(*old(crawl)) + 1) + old(
                    crawl,
                ).pending(),
                keys_of(final(crawl).pages()),
                self.depth_limit() as int,
                final(crawl).pending(),
                final(crawl).awaiting(),
                a,
            ),
    {
        let ghost old_pages = crawl.pages();
        let ghost old_pending = crawl.pending();
        let ghost old_fv = crawl.frames_view();
        let ghost old_frames = crawl.frames@;
        let cur = crawl.current.take();
        let (url, depth) = match cur {
            Some(p) => p,
            None => {
                proof {
                    assert(false);
                }
                vstd::pervasive::unreached()
            },
        };
        let links = self.links_to_follow(body.as_str());
        let ghost url_v = url@;
        let ghost body_v = body@;
        let ghost links_v = links.deep_view();
        crawl.done.push((url, body));
        let nf = Frame { depth: depth + 1, links, next: 0 };
        crawl.frames.push(nf);
        let ghost queue = crawl.pending();
        proof {
            assert(crawl.pages() =~= old_pages.push((url_v, body_v)));
            let nfv = FrameView { depth: depth + 1, links: links_v, next: 0 };
            assert(crawl.frames_view() =~= old_fv.push(nfv));
            assert(crawl.frames_view().drop_last() =~= old_fv);
            assert(frame_pending(nfv) =~= at_depth(links_v, depth + 1));
            assert(queue =~= at_depth(links_v, depth + 1) + old_pending);
            assert(crawl.frames@ =~= old_frames.push(nf));
            assert forall|i: int|
                0 <= i < crawl.frames@.len() implies #[trigger] crawl.frames@[i].next
                <= crawl.frames@[i].links@.len() by {
                if i < crawl.frames@.len() - 1 {
                    assert(crawl.frames@[i] == old_frames[i]);
                }
            }
            assert(crawl.frames_ok());
        }
        let a = crawl.advance();
        proof {
            let pages = crawl.pages();
            let keys = keys_of(pages);
            assert(keys =~= keys_of(old_pages).push(url_v));
            assert(keys.no_duplicates()) by {
                assert forall|i: int, j: int|
                    0 <= i < keys.len() && 0 <= j < keys.len() && i != j implies keys[i]
                    != keys[j] by {
                    if i < keys.len() - 1 && j < keys.len() - 1 {
                        assert(keys[i] == keys_of(old_pages)[i]);
                        assert(keys[j] == keys_of(old_pages)[j]);
                    } else if i == keys.len() - 1 {
                        assert(keys[j] == keys_of(old_pages)[j]);
                    } else {
                        assert(keys[i] == keys_of(old_pages)[i]);
                    }
                }
            }
            assert forall|i: int| 1 <= i < pages.len() implies has_infix(
                #[trigger] pages[i].0,
                self.site(),
            ) by {
                if i < pages.len() - 1 {
                    assert(pages[i] == old_pages[i]);
                }
            }
            if old_pages.len() > 0 {
                assert(pages[0] == old_pages[0]);
            }
            lemma_follow_links_stay_on_site(
                regex_captures(link_pattern(self.site()), body_v, 1),
                self.site(),
            );
            assert forall|i: int| 0 <= i < queue.len() implies has_infix(
                #[trigger] queue[i].0,
                self.site(),
            ) by {
                if i < links_v.len() {
                    assert(queue[i] == (links_v[i], depth + 1));
                } else {
                    assert(queue[i] == old_pending[i - links_v.len()]);
                }
            }
            lemma_first_eligible_bounds(queue, keys, self.depth_limit() as int);
            match first_eligible(queue, keys, self.depth_limit() as int) {
                Some(j) => {
                    assert forall|i: int| 0 <= i < crawl.pending().len() implies has_infix(
                        #[trigger] crawl.pending()[i].0,
                        self.site(),
                    ) by {
                        assert(crawl.pending()[i] == queue[j + 1 + i]);
                    }
                },
                None => {},
            }
        }
        a
    }
}

/// The pages that a recursive, depth-first visit of the link `url` at depth
/// `d` adds to `done`, where `web` gives the text of each page: nothing if
/// the link is deeper than `limit` or its page is in `done`; else the page
/// with its text, then the visits, one level deeper and in order, of the
/// links to follow from it.
pub open spec fn visit(
    web: spec_fn(Seq<char>) -> Seq<char>,
    site: Seq<char>,
    limit: int,
    url: Seq<char>,
    d: int,
    done: Seq<(Seq<char>, Seq<char>)>,
) -> Seq<(Seq<char>, Seq<char>)>
    decreases (if d <= limit + 1 { limit + 1 - d } else { 0 }), 0int,
{
    if !eligible(keys_of(done), limit, (url, d)) {
        done
    } else {
        visit_links(
            web,
            site,
            limit,
            page_links(site, web(url)),
            d + 1,
            done.push((url, web(url))),
        )
    }
}

/// The pages that visits of `links`, in order and all at depth `d`, add to
/// `done`.
pub open spec fn visit_links(
    web: spec_fn(Seq<char>) -> Seq<char>,
    site: Seq<char>,
    limit: int,
    links: Seq<Seq<char>>,
    d: int,
    done: Seq<(Seq<char>, Seq<char>)>,
) -> Seq<(Seq<char>, Seq<char>)>
    decreases (if d <= limit + 1 { limit + 1 - d } else { 0 }), links.len(),
{
    if links.len() == 0 {
        done
    } else {
        visit_links(
            web,
            site,
            limit,
            links.drop_first(),
            d,
            visit(web, site, limit, links[0], d, done),
        )
    }
}

/// The pages that visits of the queued links `q`, in order, add to `done`.
pub open spec fn visit_queue(
    web: spec_fn(Seq<char>) -> Seq<char>,
    site: Seq<char>,
    limit: int,
    q: Seq<(Seq<char>, int)>,
    done: Seq<(Seq<char>, Seq<char>)>,
) -> Seq<(Seq<char>, Seq<char>)>
    decreases q.len(),
{
    if q.len() == 0 {
        done
    } else {
        visit_queue(web, site, limit, q.drop_first(), visit(web, site, limit, q[0].0, q[0].1, done))
    }
}

/// The pages a crawl in the given state ends with, where `web` gives the
/// text of each page it asks for: the page asked for, if any, is received
/// with its text and the links to follow from it are visited; then the
/// queued links are.
pub open spec fn outcome(
    web: spec_fn(Seq<char>) -> Seq<char>,
    site: Seq<char>,
    limit: int,
    pages: Seq<(Seq<char>, Seq<char>)>,
    pending: Seq<(Seq<char>, int)>,
    awaiting: Option<(Seq<char>, int)>,
) -> Seq<(Seq<char>, Seq<char>)> {
    match awaiting {
        Some((u, d)) => visit_queue(
            web,
            site,
            limit,
            pending,
            visit_links(
                web,
                site,
                limit,
                page_links(site, web(u)),
                d + 1,
                pages.push((u, web(u))),
            ),
        ),
        None => visit_queue(web, site, limit, pending, pages),
    }
}

/// Queued links at one depth are visited as a visit of those links.
proof fn lemma_queue_of_links(
    web: spec_fn(Seq<char>) -> Seq<char>,
    site: Seq<char>,
    limit: int,
    links: Seq<Seq<char>>,
    d: int,
    rest: Seq<(Seq<char>, int)>,
    done: Seq<(Seq<char>, Seq<char>)>,
)
    ensures
        visit_queue(web, site, limit, at_depth(links, d) + rest, done) == visit_queue(
            web,
            site,
            limit,
            rest,
            visit_links(web, site, limit, links, d, done),
        ),
    decreases links.len(),
{
    if links.len() == 0 {
        assert(at_depth(links, d) + rest =~= rest);
    } else {
        let q = at_depth(links, d) + rest;
        assert(q[0] == (links[0], d));
        assert(q.drop_first() =~= at_depth(links.drop_first(), d) + rest);
        lemma_queue_of_links(
            web,
            site,
            limit,
            links.drop_first(),
            d,
            rest,
            visit(web, site, limit, links[0], d, done),
        );
    }
}

/// Queued links that are not to be fetched add nothing.
proof fn lemma_queue_skips(
    web: spec_fn(Seq<char>) -> Seq<char>,
    site: Seq<char>,
    limit: int,
    q: Seq<(Seq<char>, int)>,
    done: Seq<(Seq<char>, Seq<char>)>,
    k: int,
)
    requires
        0 <= k <= q.len(),
        forall|i: int| 0 <= i < k ==> !eligible(keys_of(done), limit, #[trigger] q[i]),
    ensures
        visit_queue(web, site, limit, q, done) == visit_queue(web, site, limit, q.skip(k), done),
    decreases k,
{
    if k > 0 {
        assert(!eligible(keys_of(done), limit, q[0]));
        assert forall|i: int| 0 <= i < k - 1 implies !eligible(
            keys_of(done),
            limit,
            #[trigger] q.drop_first()[i],
        ) by {
            assert(q.drop_first()[i] == q[i + 1]);
        }
        lemma_queue_skips(web, site, limit, q.drop_first(), done, k - 1);
        assert(q.drop_first().skip(k - 1) =~= q.skip(k));
    } else {
        assert(q.skip(0) =~= q);
    }
}

/// The first step of a crawl: a crawl that asks for the site's URL at depth
/// 0, with nothing received or queued, ends with the pages of a recursive,
/// depth-first visit of the site.
pub proof fn lemma_start_outcome(
    web: spec_fn(Seq<char>) -> Seq<char>,
    site: Seq<char>,
    limit: u8,
)
    ensures
        outcome(web, site, limit as int, Seq::empty(), Seq::empty(), Some((site, 0int))) == visit(
            web,
            site,
            limit as int,
            site,
            0,
            Seq::empty(),
        ),
{
    assert(keys_of(Seq::<(Seq<char>, Seq<char>)>::empty()) =~= Seq::<Seq<char>>::empty());
}

/// A step of the crawl, where the text handed to it is the text `web` gives
/// for the page asked for, keeps the pages the crawl ends with.
pub proof fn lemma_step_keeps_outcome(
    web: spec_fn(Seq<char>) -> Seq<char>,
    site: Seq<char>,
    limit: int,
    pages: Seq<(Seq<char>, Seq<char>)>,
    pending: Seq<(Seq<char>, int)>,
    u: Seq<char>,
    d: int,
    new_pending: Seq<(Seq<char>, int)>,
    new_awaiting: Option<(Seq<char>, int)>,
    a: CrawlAction,
)
    requires
        took_next(
            at_depth(page_links(site, web(u)), d + 1) + pending,
            keys_of(pages.push((u, web(u)))),
            limit,
            new_pending,
            new_awaiting,
            a,
        ),
    ensures
        outcome(web, site, limit, pages.push((u, web(u))), new_pending, new_awaiting) == outcome(
            web,
            site,
            limit,
            pages,
            pending,
            Some((u, d)),
        ),
{
    let links = page_links(site, web(u));
    let p = pages.push((u, web(u)));
    let q = at_depth(links, d + 1) + pending;
    lemma_queue_of_links(web, site, limit, links, d + 1, pending, p);
    lemma_first_eligible_bounds(q, keys_of(p), limit);
    match first_eligible(q, keys_of(p), limit) {
        Some(j) => {
            assert forall|i: int| 0 <= i < j implies !eligible(keys_of(p), limit, #[trigger] q[i]) by {
                lemma_first_eligible_prefix(q, keys_of(p), limit, i);
            }
            lemma_queue_skips(web, site, limit, q, p, j);
            assert(q.skip(j)[0] == q[j]);
            assert(q.skip(j).drop_first() =~= q.skip(j + 1));
        },
        None => {
            assert forall|i: int| 0 <= i < q.len() implies !eligible(
                keys_of(p),
                limit,
                #[trigger] q[i],
            ) by {
                lemma_first_eligible_prefix(q, keys_of(p), limit, i);
            }
            lemma_queue_skips(web, site, limit, q, p, q.len() as int);
            assert(q.skip(q.len() as int) =~= Seq::<(Seq<char>, int)>::empty());
        },
    }
}

/// A link before the first one to be fetched is not to be fetched.
proof fn lemma_first_eligible_prefix(
    p: Seq<(Seq<char>, int)>,
    keys: Seq<Seq<char>>,
    limit: int,
    i: int,
)
    requires
        0 <= i < p.len(),
        match first_eligible(p, keys, limit) {
            Some(j) => i < j,
            None => true,
        },
    ensures
        !eligible(keys, limit, p[i]),
    decreases i,
{
    if i > 0 {
        if !eligible(keys, limit, p[0]) {
            assert(p.drop_first()[i - 1] == p[i]);
            lemma_first_eligible_prefix(p.drop_first(), keys, limit, i - 1);
        }
    }
}

/// A crawl that is over holds the pages it ends with.
pub proof fn lemma_done_outcome(
    web: spec_fn(Seq<char>) -> Seq<char>,
    site: Seq<char>,
    limit: int,
    pages: Seq<(Seq<char>, Seq<char>)>,
)
    ensures
        outcome(web, site, limit, pages, Seq::empty(), None) == pages,
{
}

/// A prefix of a prefix is a prefix.
proof fn lemma_prefix_trans(
    a: Seq<(Seq<char>, Seq<char>)>,
    b: Seq<(Seq<char>, Seq<char>)>,
    c: Seq<(Seq<char>, Seq<char>)>,
)
    requires
        a.is_prefix_of(b),
        b.is_prefix_of(c),
    ensures
        a.is_prefix_of(c),
{
    assert forall|i: int| 0 <= i < a.len() implies a[i] == c.subrange(0, a.len() as int)[i] by {
        assert(a[i] == b.subrange(0, a.len() as int)[i]);
        assert(b[i] == c.subrange(0, b.len() as int)[i]);
    }
    assert(a =~= c.subrange(0, a.len() as int));
}

/// A visit only adds pages after those received.
proof fn lemma_visit_extends(
    web: spec_fn(Seq<char>) -> Seq<char>,
    site: Seq<char>,
    limit: int,
    url: Seq<char>,
    d: int,
    done: Seq<(Seq<char>, Seq<char>)>,
)
    ensures
        done.is_prefix_of(visit(web, site, limit, url, d, done)),
    decreases (if d <= limit + 1 { limit + 1 - d } else { 0 }), 0int,
{
    assert(done =~= done.subrange(0, done.len() as int));
    if eligible(keys_of(done), limit, (url, d)) {
        let next = done.push((url, web(url)));
        lemma_visit_links_extends(web, site, limit, page_links(site, web(url)), d + 1, next);
        assert(done =~= next.subrange(0, done.len() as int));
        lemma_prefix_trans(
            done,
            next,
            visit_links(web, site, limit, page_links(site, web(url)), d + 1, next),
        );
    }
}

/// Visits of links only add pages after those received.
proof fn lemma_visit_links_extends(
    web: spec_fn(Seq<char>) -> Seq<char>,
    site: Seq<char>,
    limit: int,
    links: Seq<Seq<char>>,
    d: int,
    done: Seq<(Seq<char>, Seq<char>)>,
)
    ensures
        done.is_prefix_of(visit_links(web, site, limit, links, d, done)),
    decreases (if d <= limit + 1 { limit + 1 - d } else { 0 }), links.len(),
{
    if links.len() == 0 {
        assert(done =~= done.subrange(0, done.len() as int));
    } else {
        let mid = visit(web, site, limit, links[0], d, done);
        lemma_visit_extends(web, site, limit, links[0], d, done);
        lemma_visit_links_extends(web, site, limit, links.drop_first(), d, mid);
        lemma_prefix_trans(
            done,
            mid,
            visit_links(web, site, limit, links.drop_first(), d, mid),
        );
    }
}

/// Visits of queued links only add pages after those received.
proof fn lemma_visit_queue_extends(
    web: spec_fn(Seq<char>) -> Seq<char>,
    site: Seq<char>,
    limit: int,
    q: Seq<(Seq<char>, int)>,
    done: Seq<(Seq<char>, Seq<char>)>,
)
    ensures
        done.is_prefix_of(visit_queue(web, site, limit, q, done)),
    decreases q.len(),
{
    if q.len() == 0 {
        assert(done =~= done.subrange(0, done.len() as int));
    } else {
        let mid = visit(web, site, limit, q[0].0, q[0].1, done);
        lemma_visit_extends(web, site, limit, q[0].0, q[0].1, done);
        lemma_visit_queue_extends(web, site, limit, q.drop_first(), mid);
        lemma_prefix_trans(done, mid, visit_queue(web, site, limit, q.drop_first(), mid));
    }
}

/// A crawl holds the first of the pages it ends with, and while it asks for
/// a page it ends with more pages than it holds. Since each step adds one
/// page and keeps what the crawl ends with, a crawl takes no more steps than
/// the number of pages it ends with.
pub proof fn lemma_outcome_extends_pages(
    web: spec_fn(Seq<char>) -> Seq<char>,
    site: Seq<char>,
    limit: int,
    pages: Seq<(Seq<char>, Seq<char>)>,
    pending: Seq<(Seq<char>, int)>,
    awaiting: Option<(Seq<char>, int)>,
)
    ensures
        pages.is_prefix_of(outcome(web, site, limit, pages, pending, awaiting)),
        awaiting is Some ==> pages.len() < outcome(web, site, limit, pages, pending, awaiting).len(),
{
    match awaiting {
        Some((u, d)) => {
            let next = pages.push((u, web(u)));
            let mid = visit_links(web, site, limit, page_links(site, web(u)), d + 1, next);
            lemma_visit_links_extends(web, site, limit, page_links(site, web(u)), d + 1, next);
            lemma_visit_queue_extends(web, site, limit, pending, mid);
            lemma_prefix_trans(next, mid, visit_queue(web, site, limit, pending, mid));
            assert(pages =~= next.subrange(0, pages.len() as int));
            lemma_prefix_trans(pages, next, visit_queue(web, site, limit, pending, mid));
        },
        None => {
            lemma_visit_queue_extends(web, site, limit, pending, pages);
        },
    }
}

/// A queued link is taken exactly when it is no deeper than the limit and
/// its page was not received, whatever the limit.
pub proof fn lemma_taken_within_limit(keys: Seq<Seq<char>>, limit: int, url: Seq<char>, d: int)
    ensures
        eligible(keys, limit, (url, d)) <==> d <= limit && !keys.contains(url),
{
}

/// A visit of a link no deeper than the limit, whose page was not received,
/// fetches that page next, whatever the limit; a visit of a link deeper than
/// the limit, or of a page received, fetches nothing.
pub proof fn lemma_visit_fetches_within_limit(
    web: spec_fn(Seq<char>) -> Seq<char>,
    site: Seq<char>,
    limit: int,
    url: Seq<char>,
    d: int,
    done: Seq<(Seq<char>, Seq<char>)>,
)
    ensures
        d <= limit && !keys_of(done).contains(url) ==> {
            let r = visit(web, site, limit, url, d, done);
            &&& done.len() < r.len()
            &&& r.subrange(0, done.len() as int) == done
            &&& r[done.len() as int] == (url, web(url))
        },
        d > limit || keys_of(done).contains(url) ==> visit(web, site, limit, url, d, done) == done,
{
    if d <= limit && !keys_of(done).contains(url) {
        let next = done.push((url, web(url)));
        let r = visit(web, site, limit, url, d, done);
        lemma_visit_links_extends(web, site, limit, page_links(site, web(url)), d + 1, next);
        assert(r == visit_links(web, site, limit, page_links(site, web(url)), d + 1, next));
        assert(next.len() <= r.len());
        assert(r[done.len() as int] == r.subrange(0, next.len() as int)[done.len() as int]);
        assert(r.subrange(0, done.len() as int) =~= done) by {
            assert forall|i: int| 0 <= i < done.len() implies r[i] == done[i] by {
                assert(r[i] == r.subrange(0, next.len() as int)[i]);
            }
        }
    }
}

} // verus!
