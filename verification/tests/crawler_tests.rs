use scrapper::extract_urls_from_content;
use scrapper::strutil::format_count;
use scrapper::urldata::canonical_key;
use scrapper::urldata::get_base_url_checked;
use scrapper::urldata::normalize_url_checked;
use scrapper::urldata::resolve;
use scrapper::urldata::validate_initial_url;
use scrapper::accept;
use scrapper::Analiser;
use scrapper::Options;
use scrapper::Step;
use scrapper::Verbosity;

fn plain_options(max_depth: usize, max_urls: usize) -> Options {
    Options::new(
        max_depth,
        max_urls,
        String::new(),
        Vec::new(),
        1,
        Verbosity::Quiet,
    )
}

/// Pops the next task, expecting one ready to fetch.
fn pop_fetch(an: &mut Analiser, opts: &Options) -> scrapper::UrlQueue {
    match an.next_step(opts) {
        Step::Fetch(t) => t,
        _ => panic!("expected a task to fetch"),
    }
}

#[test]
fn canonical_key_is_stable() {
    let first = canonical_key("https://www.site.com/a/b?q=1#frag");
    let second = canonical_key("https://www.site.com/a/b?q=1#frag");
    assert_eq!(first, second);
    assert!(first.is_some());
}

#[test]
fn canonical_key_collapses_www_and_trailing_slash() {
    let a = canonical_key("https://www.site.com/a");
    let b = canonical_key("https://site.com/a");
    let c = canonical_key("https://site.com/a/");
    assert_eq!(a, Some("site.com/a".to_string()));
    assert_eq!(a, b);
    assert_eq!(b, c);
}

#[test]
fn canonical_key_drops_query_and_fragment() {
    assert_eq!(
        canonical_key("https://site.com/a?q=2"),
        Some("site.com/a".to_string())
    );
    assert_eq!(
        canonical_key("https://site.com/a#anchor"),
        Some("site.com/a".to_string())
    );
    assert_eq!(canonical_key("https://site.com"), Some("site.com".to_string()));
    assert_eq!(canonical_key("not a url"), None);
}

#[test]
fn resolve_relative_and_absolute() {
    assert_eq!(
        resolve("/b", "https://site.com"),
        Some("https://site.com/b".to_string())
    );
    assert_eq!(
        resolve("https://other.com/x", "https://site.com"),
        Some("https://other.com/x".to_string())
    );
    assert_eq!(resolve("b.html", "https://site.com/dir/page"), Some("https://site.com/dir/b.html".to_string()));
    assert_eq!(resolve("/b", "not a url"), None);
}

#[test]
fn accept_filters_candidates() {
    let opts = plain_options(3, 100);
    assert!(accept("https://site.com/page", &opts));
    assert!(!accept("https://site.com/image.png", &opts));
    assert!(!accept("https://site.com/page#anchor", &opts));
    assert!(!accept("ftp://site.com/page", &opts));
    assert!(!accept("/relative/only", &opts));

    let matching = Options::new(
        3,
        100,
        "blog".to_string(),
        Vec::new(),
        1,
        Verbosity::Quiet,
    );
    assert!(accept("https://site.com/blog/post", &matching));
    assert!(!accept("https://site.com/shop/item", &matching));

    let ignoring = Options::new(
        3,
        100,
        String::new(),
        vec!["/admin".to_string()],
        1,
        Verbosity::Quiet,
    );
    assert!(accept("https://site.com/public", &ignoring));
    assert!(!accept("https://site.com/admin/x", &ignoring));
}

#[test]
fn seed_page_children_are_deduplicated() {
    // The page of https://a.com mentions the same resource three ways; the
    // graph must hold one child node and one edge.
    let mut an = Analiser::new("https://a.com");
    let opts = plain_options(1, 100);
    let task = pop_fetch(&mut an, &opts);
    let content = "x '/b' y \"https://a.com/b\" z 'https://a.com/b/' w";
    let n = an.record_page(&task, content, &opts);
    assert_eq!(n, 3);
    assert_eq!(an.graph.size(), 2);
    assert_eq!(an.graph.urls[0].url, "a.com");
    assert_eq!(an.graph.urls[1].url, "a.com/b");
    assert_eq!(an.graph.urls[0].point_to, vec![1]);
    assert!(an.graph.urls[1].point_to.is_empty());
}

#[test]
fn depth_zero_keeps_only_the_seed() {
    let mut an = Analiser::new("https://a.com");
    let opts = plain_options(0, 100);
    let task = pop_fetch(&mut an, &opts);
    let content = "'/b' 'https://a.com/c'";
    let n = an.record_page(&task, content, &opts);
    assert_eq!(n, 0);
    assert_eq!(an.graph.size(), 1);
    assert_eq!(an.graph.urls[0].url, "a.com");
    assert!(an.graph.urls[0].point_to.is_empty());
    assert!(matches!(an.next_step(&opts), Step::Idle));
}

#[test]
fn ignored_link_is_never_recorded() {
    let mut an = Analiser::new("https://a.com");
    let opts = Options::new(
        2,
        100,
        String::new(),
        vec!["/admin".to_string()],
        1,
        Verbosity::Quiet,
    );
    let task = pop_fetch(&mut an, &opts);
    let content = "'https://a.com/admin/x' 'https://a.com/open'";
    an.record_page(&task, content, &opts);
    assert!(!an.graph.seen("a.com/admin/x"));
    assert!(an.graph.seen("a.com/open"));
    // The only pending task is the open page, not the ignored one.
    let next = pop_fetch(&mut an, &opts);
    assert_eq!(next.url, "https://a.com/open");
    assert_eq!(next.depth, 1);
    assert_eq!(next.parent, "https://a.com");
    assert!(matches!(an.next_step(&opts), Step::Idle));
}

#[test]
fn excluded_extension_never_becomes_a_node() {
    let mut an = Analiser::new("https://a.com");
    let opts = plain_options(2, 100);
    let task = pop_fetch(&mut an, &opts);
    let content = "'https://a.com/image.png' 'https://a.com/art.svg' 'https://a.com/page'";
    an.record_page(&task, content, &opts);
    assert_eq!(an.graph.size(), 2);
    assert!(!an.graph.seen("a.com/image.png"));
    assert!(!an.graph.seen("a.com/art.svg"));
    assert!(an.graph.seen("a.com/page"));
}

#[test]
fn node_cap_stops_the_crawl() {
    let mut an = Analiser::new("https://a.com");
    let opts = plain_options(3, 2);
    let task = pop_fetch(&mut an, &opts);
    let content = "'https://a.com/one' 'https://a.com/two' 'https://a.com/three'";
    an.record_page(&task, content, &opts);
    // Seed plus one child fill the cap; the rest create nothing.
    assert_eq!(an.graph.size(), 2);
    assert!(an.graph.seen("a.com"));
    assert!(an.graph.seen("a.com/one"));
    assert!(!an.graph.seen("a.com/two"));
    assert!(!an.graph.seen("a.com/three"));
    assert!(matches!(an.next_step(&opts), Step::Stop));
}

#[test]
fn deep_task_is_skipped_without_fetching() {
    let mut an = Analiser::new("https://a.com");
    let opts = plain_options(2, 100);
    let task = pop_fetch(&mut an, &opts);
    an.record_page(&task, "'https://a.com/b'", &opts);
    // The queued child sits at depth 1; under a stricter limit it is
    // discarded without ever reaching the fetch stage.
    let strict = plain_options(0, 100);
    match an.next_step(&strict) {
        Step::Skip(t) => {
            assert_eq!(t.url, "https://a.com/b");
            assert_eq!(t.depth, 1);
        }
        _ => panic!("expected the deep task to be discarded"),
    }
    assert!(matches!(an.next_step(&strict), Step::Idle));
}

#[test]
fn pages_at_the_depth_limit_spawn_nothing() {
    let mut an = Analiser::new("https://a.com");
    let opts = plain_options(2, 100);
    let task = pop_fetch(&mut an, &opts);
    an.record_page(&task, "'https://a.com/b'", &opts);
    let task = pop_fetch(&mut an, &opts);
    assert_eq!(task.depth, 1);
    an.record_page(&task, "'https://a.com/c'", &opts);
    let task = pop_fetch(&mut an, &opts);
    assert_eq!(task.depth, 2);
    an.record_page(&task, "'https://a.com/d'", &opts);
    // The page at the depth limit spawned no children, so nothing is left.
    assert!(matches!(an.next_step(&opts), Step::Idle));
    assert!(!an.graph.seen("a.com/d"));
}

#[test]
fn crawl_is_deterministic_over_a_fixture() {
    let pages: &[(&str, &str)] = &[
        ("https://a.com", "'/b' '/c'"),
        ("https://a.com/b", "'/c' '/d'"),
        ("https://a.com/c", "'/b'"),
        ("https://a.com/d", ""),
    ];
    let run = || {
        let mut an = Analiser::new("https://a.com");
        let opts = plain_options(5, 100);
        loop {
            match an.next_step(&opts) {
                Step::Fetch(t) => {
                    let content = pages
                        .iter()
                        .find(|(u, _)| *u == t.url)
                        .map(|(_, c)| *c)
                        .unwrap_or("");
                    an.record_page(&t, content, &opts);
                }
                Step::Skip(_) => {}
                Step::Idle => break,
                Step::Stop => break,
            }
        }
        let keys: Vec<String> = an.graph.urls.iter().map(|u| u.url.clone()).collect();
        let edges: Vec<Vec<usize>> = an.graph.urls.iter().map(|u| u.point_to.clone()).collect();
        (keys, edges)
    };
    let first = run();
    let second = run();
    assert_eq!(first, second);
    let (keys, edges) = first;
    assert_eq!(
        keys,
        vec!["a.com", "a.com/b", "a.com/c", "a.com/d"]
    );
    // a.com -> b, c; b -> c, d; c -> b; d -> nothing.
    assert_eq!(edges, vec![vec![1, 2], vec![2, 3], vec![1], vec![]]);
}

#[test]
fn extract_urls_validates_quoted_candidates() {
    let content =
        "<a href=\"/docs\"> 'https://www.site.com/x' `ftp://no` 'https://site.com/pic.png'";
    let urls = extract_urls_from_content(content, "https://site.com");
    assert_eq!(
        urls,
        vec![
            "https://site.com/docs".to_string(),
            "https://site.com/x".to_string()
        ]
    );
}

#[test]
fn count_column_is_padded_to_three_characters() {
    assert_eq!(format_count(0), "  0");
    assert_eq!(format_count(7), "  7");
    assert_eq!(format_count(42), " 42");
    assert_eq!(format_count(100), "100");
    assert_eq!(format_count(12345), "12345");
}

#[test]
fn seed_validation_reports_bad_seeds() {
    assert_eq!(
        validate_initial_url("https://site.com"),
        Ok("https://site.com".to_string())
    );
    assert!(validate_initial_url("obviously not a url").is_err());
    assert!(validate_initial_url("ftp://site.com").is_err());
    assert!(validate_initial_url("/relative").is_err());
}

#[test]
fn checked_helpers_reject_hostless_strings() {
    assert_eq!(
        normalize_url_checked("https://www.site.com/a"),
        Some("site.com/a".to_string())
    );
    assert_eq!(normalize_url_checked("not a url"), None);
    assert_eq!(normalize_url_checked("data:text/plain,hi"), None);
    assert_eq!(
        get_base_url_checked("https://www.site.com/a"),
        Some("site.com".to_string())
    );
    assert_eq!(get_base_url_checked("not a url"), None);
}
