use scrapper::graph::urldata::normalize_url;

#[test]
fn normalize_https_and_www() {
    let sites = ["site.com", "othersite.com", "moreonesite.com"];
    for site in sites {
        assert_eq!(normalize_url(format!("https://{site}")), site.to_string());
        assert_eq!(normalize_url(format!("https://www.{site}")), site.to_string());
    }
}

#[test]
fn normalize_http_and_www() {
    let sites = ["site.com", "othersite.com", "moreonesite.com"];
    for site in sites {
        assert_eq!(normalize_url(format!("http://{site}")), site.to_string());
        assert_eq!(normalize_url(format!("http://www.{site}")), site.to_string());
    }
}

#[test]
fn normalize_end_slash() {
    let sites = ["site.com", "othersite.com", "moreonesite.com"];
    for site in sites {
        assert_eq!(normalize_url(format!("http://{site}/")), site.to_string());
        assert_eq!(normalize_url(format!("{site}//////////////")), site.to_string());
    }
}

#[test]
fn normalize_multiple_slash() {
    // Consecutive separators may name distinct resources and are kept;
    // only trailing slashes carry no identity and are dropped.
    let sites = ["site.com", "othersite.com", "moreonesite.com"];
    for site in sites {
        assert_eq!(
            normalize_url(format!("http://{site}/////mypath////lastpath///")),
            format!("{site}/////mypath////lastpath")
        );
        assert_eq!(
            normalize_url(format!("http://{site}/mypath/lastpath")),
            format!("{site}/mypath/lastpath")
        );
    }
}

#[test]
fn normalize_preserves_inner_separators() {
    assert_eq!(
        normalize_url("http://site.com/a//b".to_string()),
        "site.com/a//b"
    );
}

#[test]
fn normalize_drops_query_and_fragment() {
    assert_eq!(
        normalize_url("https://www.site.com?q=20".to_string()),
        "site.com"
    );
    assert_eq!(
        normalize_url("https://site.com/#div_to".to_string()),
        "site.com"
    );
}

#[test]
fn normalize_lowercases_the_host_only() {
    assert_eq!(
        normalize_url("https://SITE.com/Path".to_string()),
        "site.com/Path"
    );
    assert_eq!(
        normalize_url("HTTPS://WWW.SITE.com/Path".to_string()),
        "site.com/Path"
    );
}
