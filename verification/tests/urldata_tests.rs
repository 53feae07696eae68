use scrapper::urldata::get_base_url;
use scrapper::urldata::normalize_url;
use scrapper::urldata::validate_url;

#[test]
fn invalid_urls() {
    assert_eq!(validate_url("https://my_ url.com", ""), None);
    assert_eq!(validate_url("htts://invalid.co", ""), None);
    assert_eq!(validate_url("obiously", ""), None);
    assert_eq!(validate_url("ftp::asd", ""), None);
    assert_eq!(validate_url("/valid_path", ""), None);
}

#[test]
fn valid_urls() {
    assert_eq!(
        validate_url("https://site.com", ""),
        Some("https://site.com".to_string())
    );
    assert_eq!(
        validate_url("https://site", ""),
        Some("https://site".to_string())
    );
    assert_eq!(
        validate_url("http://www.site.com", ""),
        Some("http://site.com".to_string())
    );
    assert_eq!(
        validate_url("http://site.com/path1?q=10", ""),
        Some("http://site.com/path1?q=10".to_string())
    );
    assert_eq!(
        validate_url("http://www.site.com/valid_path/again", ""),
        Some("http://site.com/valid_path/again".to_string())
    );
}

#[test]
fn concat_relative_path() {
    assert_eq!(
        validate_url("https://site.com", "https://site.com"),
        Some("https://site.com".to_string())
    );
    assert_eq!(
        validate_url("/path1", "https://site.com"),
        Some("https://site.com/path1".to_string())
    );
    assert_eq!(
        validate_url("/path1/path2", "http://www.site.com"),
        Some("http://site.com/path1/path2".to_string())
    );
}

#[test]
fn ignore_file_type() {
    assert_eq!(
        validate_url("https://mysite.com/index.html", ""),
        Some("https://mysite.com/index.html".to_string())
    );
    assert_eq!(validate_url("https://mysite.com/image.png", ""), None);
    assert_eq!(validate_url("https://mysite.com/image.gif", ""), None);
    assert_eq!(validate_url("https://mysite.com/image.svg", ""), None);
}

#[test]
fn with_http() {
    let base_site = "site.com.br";
    assert_eq!(
        get_base_url(&format!("https://{base_site}/test1/test2")),
        base_site.to_string()
    );
    assert_eq!(
        get_base_url(&format!("https://{base_site}/test1/test2")),
        base_site.to_string()
    );
    assert_eq!(
        get_base_url(&format!("https://{base_site}/test1/test2/test4#?41223")),
        base_site.to_string()
    );
}

#[test]
fn without_http() {
    let base_site = "site.com.br";
    assert_eq!(
        get_base_url(&format!("https://{base_site}/test1")),
        base_site.to_string()
    );
    assert_eq!(
        get_base_url(&format!("https://{base_site}/test1/test2")),
        base_site.to_string()
    );
    assert_eq!(
        get_base_url(&format!("https://{base_site}/test1/test2/test4#?41223")),
        base_site.to_string()
    );
}

#[test]
fn query_params() {
    let base_site = "site.com.br";
    assert_eq!(
        get_base_url(&format!("https://{base_site}?test1")),
        base_site.to_string()
    );
    assert_eq!(
        get_base_url(&format!("https://{base_site}/test1?test=2")),
        base_site.to_string()
    );
    assert_eq!(
        get_base_url(&format!("https://{base_site}/?other_test=2")),
        base_site.to_string()
    );
}

#[test]
fn complex_urls() {
    let base_site = "site.com.br";
    assert_eq!(
        get_base_url(&format!("https://{base_site}?test1")),
        base_site.to_string()
    );
    assert_eq!(
        get_base_url(&format!("https://{base_site}/test1?test=2")),
        base_site.to_string()
    );
    assert_eq!(
        get_base_url(&format!("https://{base_site}/?other_test=2")),
        base_site.to_string()
    );
}

#[test]
fn urldata_normalize_https_and_www() {
    let sites = ["site.com", "othersite.com", "moreonesite.com"];
    for site in sites {
        assert_eq!(
            normalize_url(format!("https://{site}")),
            format!("{}/", site.to_string())
        );
        assert_eq!(
            normalize_url(format!("https://www.{site}")),
            format!("{}/", site.to_string())
        );
    }
}

#[test]
fn normalize_query_params() {
    let sites = ["site.com", "othersite.com", "moreonesite.com"];
    for site in sites {
        assert_eq!(
            normalize_url(format!("https://{site}/#div_to")),
            format!("{}/", site.to_string())
        );
        assert_eq!(
            normalize_url(format!("https://www.{site}?q=20")),
            format!("{}/", site.to_string())
        );
    }
}

#[test]
fn urldata_normalize_multiple_slash() {
    // Multiple inner slashes are legal and, depending on the server, name
    // distinct resources:
    // - site.com/path1 != site.com////path1
    // But a path with and without one trailing slash is equivalent:
    // - site.com/path1 == site.com/path1/
    let sites = ["site.com/", "othersite.com/", "moreonesite.com/"];
    for site in sites {
        assert_eq!(
            normalize_url(format!("http://{site}/////mypath////lastpath///")),
            format!("{site}/////mypath////lastpath///")
        );
        assert_eq!(
            normalize_url(format!("http://{site}/mypath/lastpath")),
            format!("{site}/mypath/lastpath")
        );
    }
}
