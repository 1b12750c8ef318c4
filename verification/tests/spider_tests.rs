use arachnida::crawl::CrawlAction;
use arachnida::harvest::{ImageAction, ImageHarvest};
use arachnida::scraper::{DownloadLog, FetchError, Scraper, IMG_PATTERN};
use arachnida::spider::{ImageMap, Spider};
use arachnida::web::{Pattern, SiteUrl};

fn base() -> SiteUrl {
    SiteUrl::parse("https://example.com/gallery/index.html").unwrap()
}

fn fetched(a: &CrawlAction) -> Option<String> {
    match a {
        CrawlAction::Fetch(u) => Some(u.clone()),
        CrawlAction::Done => None,
    }
}

#[test]
fn site_url_parts() {
    let u = base();
    assert_eq!(u.as_str(), "https://example.com/gallery/index.html");
    assert_eq!(u.scheme(), "https");
    assert_eq!(u.host_str(), Some("example.com"));
    assert!(!u.cannot_be_a_base());
    let d = SiteUrl::parse("data:text/plain,hi").unwrap();
    assert!(d.cannot_be_a_base());
    assert_eq!(d.host_str(), None);
    assert!(SiteUrl::parse("not a url").is_err());
}

#[test]
fn site_url_join() {
    let j = base().join("../pics/cat.png").unwrap();
    assert_eq!(j.as_str(), "https://example.com/pics/cat.png");
}

#[test]
fn protocol_relative_link_takes_the_scheme() {
    let r = Scraper::add_base_url(&base(), "//cdn.example.org/a.png").unwrap();
    assert_eq!(r, "https://cdn.example.org/a.png");
}

#[test]
fn root_relative_link_takes_scheme_and_host() {
    let r = Scraper::add_base_url(&base(), "/img/a.png").unwrap();
    assert_eq!(r, "https://example.com/img/a.png");
}

#[test]
fn absolute_link_is_kept() {
    let r = Scraper::add_base_url(&base(), "http://other.org/p.jpg").unwrap();
    assert_eq!(r, "http://other.org/p.jpg");
}

#[test]
fn relative_link_without_slash_is_refused() {
    assert!(Scraper::add_base_url(&base(), "img/a.png").is_err());
}

#[test]
fn cannot_be_a_base_link_is_joined() {
    let r = Scraper::add_base_url(&base(), "mailto:someone@example.com").unwrap();
    assert_eq!(r, "mailto:someone@example.com");
}

#[test]
fn image_links_of_a_page() {
    let p = Pattern::new(IMG_PATTERN).unwrap();
    let body = r#"<img src="/pics/cat.png"> <img src="//cdn.example.org/d/dog.jpg"> <img src="rel/x.gif">"#;
    let links = Scraper::image_links(&base(), &p, body, "./data");
    assert_eq!(links.len(), 3);
    assert_eq!(links[0].matched, "/pics/cat.png");
    assert_eq!(links[0].url, "/pics/cat.png");
    assert_eq!(links[0].name, "cat.png");
    let t0 = links[0].target.as_ref().unwrap();
    assert_eq!(t0.url, "https://example.com/pics/cat.png");
    assert_eq!(t0.path, "./data/cat.png");
    let t1 = links[1].target.as_ref().unwrap();
    assert_eq!(t1.url, "https://cdn.example.org/d/dog.jpg");
    assert_eq!(t1.path, "./data/dog.jpg");
    assert_eq!(links[2].url, "rel/x.gif");
    assert!(links[2].target.is_err());
}

#[test]
fn image_response_decisions() {
    assert_eq!(Scraper::image_bytes(200, vec![0xFF, 0xD8, 0xFF]), Ok(vec![0xFF, 0xD8, 0xFF]));
    assert_eq!(Scraper::image_bytes(200, b"<html>".to_vec()), Err(FetchError::BadRequest));
    assert_eq!(Scraper::image_bytes(404, vec![0xFF]), Err(FetchError::BadRequest));
    assert_eq!(Scraper::image_bytes(299, vec![0xC3]), Ok(vec![0xC3]));
    assert_eq!(Scraper::image_bytes(300, vec![0xC3]), Err(FetchError::BadRequest));
    assert_eq!(FetchError::BadRequest.message(), "Bad request");
}

#[test]
fn page_text_decisions() {
    assert_eq!(Scraper::body_text("héllo".as_bytes()), Ok("héllo".to_string()));
    let decoding = std::str::from_utf8(&[0xFF, 0xFE]).unwrap_err();
    assert_eq!(Scraper::body_text(&[0xFF, 0xFE]), Err(FetchError::InvalidUtf8(decoding)));
    assert!(matches!(Scraper::body_text(&[0xFF, 0xFE]), Err(FetchError::InvalidUtf8(_))));
}

#[test]
fn invalid_page_reports_decoding_error() {
    let decoding = std::str::from_utf8(&[b'a', 0xFF, 0xFE]).unwrap_err();
    match Scraper::body_text(&[b'a', 0xFF, 0xFE]) {
        Err(e) => assert_eq!(e.message(), decoding.to_string()),
        Ok(_) => panic!("invalid UTF-8 was taken as text"),
    }
    assert_eq!(
        decoding.to_string(),
        "invalid utf-8 sequence of 1 bytes from index 1"
    );
}

#[test]
fn download_log() {
    let mut log = DownloadLog::new();
    assert!(!log.contains("https://a/x.png"));
    log.record("https://a/x.png".to_string());
    assert!(log.contains("https://a/x.png"));
    assert!(!log.contains("https://a/y.png"));
}

#[test]
fn image_map_keeps_one_entry_per_image() {
    let mut m = ImageMap::new();
    m.insert(b"abc".to_vec(), "p1".to_string());
    m.insert(b"xyz".to_vec(), "p3".to_string());
    m.insert(b"abc".to_vec(), "p2".to_string());
    assert_eq!(m.len(), 2);
    let e = m.into_entries();
    assert_eq!(e, vec![(b"abc".to_vec(), "p2".to_string()), (b"xyz".to_vec(), "p3".to_string())]);
}

fn spider(depth: u8) -> Spider {
    let site = SiteUrl::parse("https://example.com/").unwrap();
    Spider::try_new(site, "./data", depth).unwrap()
}

#[test]
fn spider_fields() {
    let s = spider(2);
    assert_eq!(s.base_url().as_str(), "https://example.com/");
    assert_eq!(s.path(), "./data");
    assert_eq!(s.recursive(), 2);
    assert_eq!(s.images_to_download().len(), 0);
}

#[test]
fn links_to_follow_stay_on_site() {
    let s = spider(1);
    let body = r#"<a href="https://example.com/about">a</a> <a href="/contact?x=1">c</a> <a href='https://evil.org/'>e</a> <a href="./rel">r</a>"#;
    let links = s.links_to_follow(body);
    assert_eq!(links, vec!["https://example.com/about".to_string(), "https://example.com/contact".to_string()]);
}

#[test]
fn spider_adds_images() {
    let mut s = spider(1);
    s.add_image(vec![1, 2], "./data/a.png".to_string());
    s.add_image(vec![1, 2], "./data/b.png".to_string());
    let m = s.into_images();
    assert_eq!(m.into_entries(), vec![(vec![1, 2], "./data/b.png".to_string())]);
}

#[test]
fn crawl_depth_first_without_revisits() {
    let s = spider(2);
    let (mut c, a) = s.start_crawl();
    assert_eq!(fetched(&a).as_deref(), Some("https://example.com/"));
    let home = r#"<a href="/a">a</a><a href="/b">b</a><a href="/">home</a>"#;
    let a = s.crawl_step(&mut c, home.to_string());
    assert_eq!(fetched(&a).as_deref(), Some("https://example.com/a"));
    let page_a = r#"<a href="/c">c</a><a href="/b">b</a>"#;
    let a = s.crawl_step(&mut c, page_a.to_string());
    assert_eq!(fetched(&a).as_deref(), Some("https://example.com/c"));
    let page_c = r#"<a href="/d">d</a>"#;
    let a = s.crawl_step(&mut c, page_c.to_string());
    assert_eq!(fetched(&a).as_deref(), Some("https://example.com/b"));
    let a = s.crawl_step(&mut c, String::new());
    assert!(fetched(&a).is_none());
    let pages: Vec<String> = c.into_pages().into_iter().map(|(u, _)| u).collect();
    assert_eq!(
        pages,
        vec![
            "https://example.com/".to_string(),
            "https://example.com/a".to_string(),
            "https://example.com/c".to_string(),
            "https://example.com/b".to_string(),
        ]
    );
}

#[test]
fn crawl_at_depth_zero_takes_only_the_site() {
    let s = spider(0);
    let (mut c, a) = s.start_crawl();
    assert!(fetched(&a).is_some());
    let a = s.crawl_step(&mut c, r#"<a href="/a">a</a>"#.to_string());
    assert!(fetched(&a).is_none());
    let pages = c.into_pages();
    assert_eq!(pages, vec![("https://example.com/".to_string(), r#"<a href="/a">a</a>"#.to_string())]);
}


#[test]
fn site_url_with_pattern_characters_is_escaped() {
    let site = SiteUrl::parse("https://example.com/a(b)/").unwrap();
    let s = Spider::try_new(site, "./data", 1).unwrap();
    let links = s.links_to_follow(r#"<a href="https://example.com/a(b)/page">p</a>"#);
    assert_eq!(links, vec!["https://example.com/a(b)/page".to_string()]);
}

#[test]
fn bad_pattern_is_refused() {
    assert!(Pattern::new("(").is_err());
    let p = Pattern::new("a(b)?").unwrap();
    let caps = p.captures("ab a", 1);
    assert_eq!(caps, vec![vec!["ab".to_string(), "b".to_string()], vec!["a".to_string(), String::new()]]);
}

#[test]
fn resolving_a_resolved_link_gives_it_back() {
    let b = base();
    for link in ["//cdn.example.org/a.png", "http://other.org/p.jpg", "mailto:someone@example.com"] {
        let once = Scraper::add_base_url(&b, link).unwrap();
        let twice = Scraper::add_base_url(&b, &once).unwrap();
        assert_eq!(twice, once);
    }
}

#[test]
fn base_port_path_query_do_not_matter() {
    let b1 = SiteUrl::parse("https://example.com:8443/a/b?q=1#top").unwrap();
    let b2 = SiteUrl::parse("https://example.com/").unwrap();
    for link in ["/img/a.png", "//cdn.example.org/a.png", "mailto:x@y.z", "http://o.org/p.gif"] {
        assert_eq!(
            Scraper::add_base_url(&b1, link).unwrap(),
            Scraper::add_base_url(&b2, link).unwrap()
        );
    }
    assert_eq!(Scraper::add_base_url(&b1, "/img/a.png").unwrap(), "https://example.com/img/a.png");
}

#[test]
fn take_image_logs_and_keeps_only_fetched_images() {
    let mut s = spider(0);
    let mut log = DownloadLog::new();
    assert!(!s.take_image(&mut log, "https://example.com/x.png".to_string(), "./data/x.png".to_string(), None));
    assert!(!log.contains("https://example.com/x.png"));
    assert_eq!(s.images_to_download().len(), 0);
    assert!(s.take_image(
        &mut log,
        "https://example.com/x.png".to_string(),
        "./data/x.png".to_string(),
        Some(vec![9, 8, 7])
    ));
    assert!(log.contains("https://example.com/x.png"));
    assert_eq!(s.into_images().into_entries(), vec![(vec![9, 8, 7], "./data/x.png".to_string())]);
}

#[test]
fn spider_clone_is_the_same_spider() {
    let mut s = spider(3);
    s.add_image(vec![1], "./data/one.png".to_string());
    let c = s.clone();
    assert_eq!(c.base_url().as_str(), s.base_url().as_str());
    assert_eq!(c.path(), s.path());
    assert_eq!(c.recursive(), 3);
    assert_eq!(c.into_images().into_entries(), vec![(vec![1], "./data/one.png".to_string())]);
    assert_eq!(s.links_to_follow(r#"<a href="/p">"#), vec!["https://example.com/p".to_string()]);
}

fn asked_for(a: &ImageAction) -> Option<String> {
    match a {
        ImageAction::Fetch(u) => Some(u.clone()),
        ImageAction::Done => None,
    }
}

#[test]
fn harvest_skips_logged_and_unresolved_and_keeps_in_order() {
    let mut s = spider(1);
    let pages = vec![
        (
            "https://example.com/".to_string(),
            r#"<img src="/a.png"> <img src="/b.png"> <img src="rel/c.png">"#.to_string(),
        ),
        ("https://example.com/p".to_string(), r#"<img src="/a.png"> <img src="/d.gif">"#.to_string()),
    ];
    let img_pattern = Pattern::new(IMG_PATTERN).unwrap();
    let links = s.page_image_links(&img_pattern, &pages);
    assert_eq!(links.len(), 2);
    assert_eq!(links[0].len(), 3);
    assert_eq!(links[1].len(), 2);
    let mut log = DownloadLog::new();
    log.record("https://example.com/b.png".to_string());
    let (mut h, a) = ImageHarvest::start(&links, log);
    assert_eq!(asked_for(&a).as_deref(), Some("https://example.com/a.png"));
    let a = s.harvest_step(&mut h, None);
    assert_eq!(asked_for(&a).as_deref(), Some("https://example.com/a.png"));
    let a = s.harvest_step(&mut h, Some(vec![1]));
    assert_eq!(asked_for(&a).as_deref(), Some("https://example.com/d.gif"));
    let a = s.harvest_step(&mut h, Some(vec![1]));
    assert_eq!(asked_for(&a), None);
    let a = s.harvest_step(&mut h, Some(vec![2]));
    assert_eq!(asked_for(&a), None);
    let log = h.into_log();
    assert!(log.contains("https://example.com/a.png"));
    assert!(log.contains("https://example.com/b.png"));
    assert!(log.contains("https://example.com/d.gif"));
    assert_eq!(s.into_images().into_entries(), vec![(vec![1], "./data/d.gif".to_string())]);
}

#[test]
fn harvest_never_asks_for_a_logged_url() {
    let mut s = spider(0);
    let pages = vec![(
        "https://example.com/".to_string(),
        r#"<img src="/a.png"> <img src="/a.png"> <img src="/a.png">"#.to_string(),
    )];
    let img_pattern = Pattern::new(IMG_PATTERN).unwrap();
    let links = s.page_image_links(&img_pattern, &pages);
    let (mut h, a) = ImageHarvest::start(&links, DownloadLog::new());
    assert_eq!(asked_for(&a).as_deref(), Some("https://example.com/a.png"));
    let a = s.harvest_step(&mut h, Some(vec![7, 7]));
    assert_eq!(asked_for(&a), None);
    assert_eq!(s.images_to_download().len(), 1);
}

#[test]
fn harvest_over_no_pages_is_done_at_once() {
    let (_, a) = ImageHarvest::start(&Vec::new(), DownloadLog::new());
    assert_eq!(asked_for(&a), None);
}
