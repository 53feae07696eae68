//! URL data: the graph node record, parsing and reference resolution through
//! the `url` crate behind trusted wrappers, and the verified validation and
//! canonicalization built on them.

use vstd::pervasive::unreached;
use vstd::prelude::*;

use crate::graph::urldata::strip_leading_www_spec;
use crate::strutil::ends_with;
use crate::strutil::starts_with;
use crate::strutil::str_ends_with;
use crate::strutil::str_eq;
use crate::strutil::str_starts_with;
use crate::strutil::strip_trailing_slashes;
use crate::strutil::strip_trailing_slashes_spec;

verus! {

/// One node of the link graph: its URL key and the indices of the nodes it
/// links to.
#[derive(Debug)]
pub struct UrlData {
    pub point_to: Vec<usize>,
    pub url: String,
}

/// The mathematical model of a graph node: its key and its outgoing edges.
#[verifier::ext_equal]
pub struct NodeModel {
    pub key: Seq<char>,
    pub edges: Seq<usize>,
}

impl View for UrlData {
    type V = NodeModel;

    open spec fn view(&self) -> NodeModel {
        NodeModel { key: self.url@, edges: self.point_to@ }
    }
}

impl UrlData {
    /// A node for `url` with no outgoing edges yet.
    pub fn new(url: String) -> (r: UrlData)
        ensures
            r@.key == url@,
            r@.edges.len() == 0,
    {
        UrlData { point_to: Vec::new(), url }
    }
}

/// Whether `url::Url::parse` accepts the string as an absolute URL.
pub uninterp spec fn parse_ok(s: Seq<char>) -> bool;

/// The scheme that `url::Url::scheme` reports for a string that parses.
pub uninterp spec fn parse_scheme(s: Seq<char>) -> Seq<char>;

/// The host that `url::Url::host_str` reports for a string that parses, if
/// the URL has one.
pub uninterp spec fn parse_host(s: Seq<char>) -> Option<Seq<char>>;

/// The path that `url::Url::path` reports for a string that parses; it
/// carries no query and no fragment.
pub uninterp spec fn parse_path(s: Seq<char>) -> Seq<char>;

/// The serialization of `rel` resolved against the absolute URL `base`, as
/// `url::Url::join` computes it; `None` when `base` does not parse or the
/// join fails.
pub uninterp spec fn join_of(base: Seq<char>, rel: Seq<char>) -> Option<Seq<char>>;

/// The components of a parsed absolute URL, held as plain strings.
pub struct UrlParts {
    pub scheme: String,
    pub host: Option<String>,
    pub path: String,
}

/// Relies on `url::Url::parse` and the accessors `Url::scheme`,
/// `Url::host_str` and `Url::path`: parsing is deterministic in the input
/// string alone; `scheme` is the parsed scheme, `host_str` the host when the
/// URL has one, and `path` the serialized path without query or fragment.
#[verifier::external_body]
pub(crate) fn parse_url_parts(s: &str) -> (r: Option<UrlParts>)
    ensures
        r is Some <==> parse_ok(s@),
        (r matches Some(p) ==> p.scheme@ == parse_scheme(s@) && p.path@ == parse_path(s@) && (
        p.host matches Some(h) ==> parse_host(s@) == Some(h@)) && (p.host is None
            ==> parse_host(s@) is None)),
{
    match url::Url::parse(s) {
        Err(_) => None,
        Ok(u) => Some(
            UrlParts {
                scheme: u.scheme().to_string(),
                host: u.host_str().map(|h| h.to_string()),
                path: u.path().to_string(),
            },
        ),
    }
}

/// Relies on `url::Url::parse` on the base and `url::Url::join` for
/// reference resolution, read back with `Url::as_str`: the outcome is
/// deterministic in the two strings alone, and `None` exactly when the base
/// does not parse or the join fails.
#[verifier::external_body]
fn join_url(base: &str, rel: &str) -> (r: Option<String>)
    ensures
        r is Some <==> join_of(base@, rel@) is Some,
        (r matches Some(j) ==> join_of(base@, rel@) == Some(j@)),
{
    match url::Url::parse(base) {
        Err(_) => None,
        Ok(b) => match b.join(rel) {
            Err(_) => None,
            Ok(j) => Some(j.as_str().to_string()),
        },
    }
}

/// `s` with one `www.` removed where it opens the host, right after a
/// lowercase `http://` or `https://` scheme; any other `www.` — deeper in
/// the host, or in the path — is no prefix and stays.
pub open spec fn strip_www_spec(s: Seq<char>) -> Seq<char> {
    if starts_with(s, "https://www."@) {
        "https://"@ + s.skip("https://www."@.len() as int)
    } else if starts_with(s, "http://www."@) {
        "http://"@ + s.skip("http://www."@.len() as int)
    } else {
        s
    }
}

/// Removes a leading `www.` of the host from an absolute URL string.
fn strip_www(s: &str) -> (r: String)
    ensures
        r@ == strip_www_spec(s@),
{
    let slen = s.unicode_len();
    if str_starts_with(s, "https://www.") {
        proof {
            reveal_strlit("https://www.");
            reveal_strlit("https://");
            assert(s@.skip(12) =~= s@.subrange(12, s@.len() as int));
        }
        let mut out = String::from_str("https://");
        out.append(s.substring_char(12, slen));
        out
    } else if str_starts_with(s, "http://www.") {
        proof {
            reveal_strlit("https://www.");
            reveal_strlit("http://www.");
            reveal_strlit("http://");
            assert(s@.skip(11) =~= s@.subrange(11, s@.len() as int));
        }
        let mut out = String::from_str("http://");
        out.append(s.substring_char(11, slen));
        out
    } else {
        proof {
            reveal_strlit("https://www.");
            reveal_strlit("http://www.");
        }
        String::from_str(s)
    }
}

/// A host without its leading `www.`.
fn strip_host_www(h: &str) -> (r: String)
    ensures
        r@ == strip_leading_www_spec(h@),
{
    let hlen = h.unicode_len();
    if str_starts_with(h, "www.") {
        proof {
            reveal_strlit("www.");
            assert(h@.skip(4) =~= h@.subrange(4, h@.len() as int));
        }
        String::from_str(h.substring_char(4, hlen))
    } else {
        proof {
            reveal_strlit("www.");
        }
        String::from_str(h)
    }
}

/// The file-name endings that never name a crawlable page: images,
/// stylesheets and icons.
pub open spec fn excluded_extensions() -> Seq<Seq<char>> {
    seq![".png"@, ".gif"@, ".jpeg"@, ".webp"@, ".svg"@, ".css"@, ".ico"@, ".jpg"@]
}

/// `s` ends with one of the excluded file-name endings.
pub open spec fn has_excluded_extension(s: Seq<char>) -> bool {
    exists|i: int|
        0 <= i < excluded_extensions().len() && ends_with(s, excluded_extensions()[i])
}

/// Whether `url` ends with an excluded file-name ending.
pub fn url_has_excluded_extension(url: &str) -> (r: bool)
    ensures
        r == has_excluded_extension(url@),
{
    let r = str_ends_with(url, ".png") || str_ends_with(url, ".gif") || str_ends_with(
        url,
        ".jpeg",
    ) || str_ends_with(url, ".webp") || str_ends_with(url, ".svg") || str_ends_with(url, ".css")
        || str_ends_with(url, ".ico") || str_ends_with(url, ".jpg");
    proof {
        if r {
            assert(has_excluded_extension(url@)) by {
                if ends_with(url@, ".png"@) {
                    assert(excluded_extensions()[0] == ".png"@);
                } else if ends_with(url@, ".gif"@) {
                    assert(excluded_extensions()[1] == ".gif"@);
                } else if ends_with(url@, ".jpeg"@) {
                    assert(excluded_extensions()[2] == ".jpeg"@);
                } else if ends_with(url@, ".webp"@) {
                    assert(excluded_extensions()[3] == ".webp"@);
                } else if ends_with(url@, ".svg"@) {
                    assert(excluded_extensions()[4] == ".svg"@);
                } else if ends_with(url@, ".css"@) {
                    assert(excluded_extensions()[5] == ".css"@);
                } else {
                    assert(excluded_extensions()[6] == ".ico"@);
                    assert(excluded_extensions()[7] == ".jpg"@);
                }
            }
        } else {
            assert forall|i: int| 0 <= i < excluded_extensions().len() implies !ends_with(
                url@,
                excluded_extensions()[i],
            ) by {
                assert(excluded_extensions()[0] == ".png"@);
                assert(excluded_extensions()[1] == ".gif"@);
                assert(excluded_extensions()[2] == ".jpeg"@);
                assert(excluded_extensions()[3] == ".webp"@);
                assert(excluded_extensions()[4] == ".svg"@);
                assert(excluded_extensions()[5] == ".css"@);
                assert(excluded_extensions()[6] == ".ico"@);
                assert(excluded_extensions()[7] == ".jpg"@);
            }
        }
    }
    r
}

/// The scheme names a crawlable protocol.
pub open spec fn is_http_scheme(s: Seq<char>) -> bool {
    s == "http"@ || s == "https"@
}

/// What `validate_url` returns: `None` for an excluded file type, for an
/// absolute URL of a foreign scheme, and for a relative reference whose
/// parent cannot resolve it; otherwise the absolute URL with the host's
/// leading `www.` removed.
pub open spec fn validate_url_spec(u: Seq<char>, parent: Seq<char>) -> Option<Seq<char>> {
    if has_excluded_extension(u) {
        None
    } else if parse_ok(u) {
        if is_http_scheme(parse_scheme(u)) {
            Some(strip_www_spec(u))
        } else {
            None
        }
    } else {
        match join_of(parent, u) {
            Some(j) => Some(strip_www_spec(j)),
            None => None,
        }
    }
}

/// Checks a candidate link: rejects excluded file types and foreign schemes,
/// resolves a relative reference against `parent_url`, and strips the
/// host's leading `www.` from the accepted URL.
pub fn validate_url(url: &str, parent_url: &str) -> (r: Option<String>)
    ensures
        r is Some <==> validate_url_spec(url@, parent_url@) is Some,
        (r matches Some(s) ==> validate_url_spec(url@, parent_url@) == Some(s@)),
{
    if url_has_excluded_extension(url) {
        return None;
    }
    match parse_url_parts(url) {
        Some(p) => {
            if str_eq(p.scheme.as_str(), "http") || str_eq(p.scheme.as_str(), "https") {
                Some(strip_www(url))
            } else {
                None
            }
        },
        None => match join_url(parent_url, url) {
            Some(j) => Some(strip_www(j.as_str())),
            None => None,
        },
    }
}

/// What `resolve` returns: an absolute `http`/`https` candidate unchanged,
/// anything else joined against the parent.
pub open spec fn resolve_spec(c: Seq<char>, parent: Seq<char>) -> Option<Seq<char>> {
    if parse_ok(c) && is_http_scheme(parse_scheme(c)) {
        Some(c)
    } else {
        join_of(parent, c)
    }
}

/// Resolves a candidate link against the page it was found on: an absolute
/// `http`/`https` URL is kept unchanged, anything else is joined against
/// `parent` as a relative reference.
pub fn resolve(candidate: &str, parent: &str) -> (r: Option<String>)
    ensures
        r is Some <==> resolve_spec(candidate@, parent@) is Some,
        (r matches Some(s) ==> resolve_spec(candidate@, parent@) == Some(s@)),
{
    match parse_url_parts(candidate) {
        Some(p) => {
            if str_eq(p.scheme.as_str(), "http") || str_eq(p.scheme.as_str(), "https") {
                return Some(String::from_str(candidate));
            }
            join_url(parent, candidate)
        },
        None => join_url(parent, candidate),
    }
}

/// The canonical identity of an absolute URL: its host without a leading
/// `www.`, then its path without query, fragment or trailing slashes.
pub open spec fn canonical_key_of(u: Seq<char>) -> Option<Seq<char>> {
    if parse_ok(u) && parse_host(u) is Some {
        Some(
            strip_leading_www_spec(parse_host(u)->Some_0) + strip_trailing_slashes_spec(
                parse_path(u),
            ),
        )
    } else {
        None
    }
}

/// Computes the canonical key that decides whether two URL strings name the
/// same resource; `None` when the URL does not parse or has no host.
pub fn canonical_key(url: &str) -> (r: Option<String>)
    ensures
        r is Some <==> canonical_key_of(url@) is Some,
        (r matches Some(k) ==> canonical_key_of(url@) == Some(k@)),
{
    match parse_url_parts(url) {
        Some(p) => match p.host {
            Some(h) => {
                let hs: &str = h.as_str();
                let hlen = hs.unicode_len();
                let stripped: &str = if str_starts_with(hs, "www.") {
                    proof {
                        reveal_strlit("www.");
                        assert(hs@.skip(4) =~= hs@.subrange(4, hs@.len() as int));
                    }
                    hs.substring_char(4, hlen)
                } else {
                    hs
                };
                proof {
                    assert(stripped@ == strip_leading_www_spec(parse_host(url@)->Some_0));
                }
                let mut out = String::from_str(stripped);
                let tail = strip_trailing_slashes(p.path.as_str());
                out.append(tail.as_str());
                Some(out)
            },
            None => None,
        },
        None => None,
    }
}

/// Normalizes an absolute URL to `host + path`, the host without its
/// leading `www.`.
pub fn normalize_url(url: String) -> (r: String)
    requires
        parse_ok(url@),
        parse_host(url@) is Some,
    ensures
        r@ == strip_leading_www_spec(parse_host(url@)->Some_0) + parse_path(url@),
{
    match parse_url_parts(url.as_str()) {
        Some(p) => match p.host {
            Some(h) => {
                let mut out = strip_host_www(h.as_str());
                out.append(p.path.as_str());
                out
            },
            None => {
                proof {
                    assert(false);
                }
                unreached()
            },
        },
        None => {
            proof {
                assert(false);
            }
            unreached()
        },
    }
}

/// Like `normalize_url`, for a string not yet known to parse: `None` when
/// the URL does not parse or has no host.
pub fn normalize_url_checked(url: &str) -> (r: Option<String>)
    ensures
        r is Some <==> (parse_ok(url@) && parse_host(url@) is Some),
        (r matches Some(s) ==> s@ == strip_leading_www_spec(parse_host(url@)->Some_0)
            + parse_path(url@)),
{
    match parse_url_parts(url) {
        Some(p) => match p.host {
            Some(_) => Some(normalize_url(String::from_str(url))),
            None => None,
        },
        None => None,
    }
}

/// The host of an absolute URL, without its leading `www.`.
pub fn get_base_url(url: &str) -> (r: String)
    requires
        parse_ok(url@),
        parse_host(url@) is Some,
    ensures
        r@ == strip_leading_www_spec(parse_host(url@)->Some_0),
{
    match parse_url_parts(url) {
        Some(p) => match p.host {
            Some(h) => {
                strip_host_www(h.as_str())
            },
            None => {
                proof {
                    assert(false);
                }
                unreached()
            },
        },
        None => {
            proof {
                assert(false);
            }
            unreached()
        },
    }
}

/// Like `get_base_url`, for a string not yet known to parse: `None` when the
/// URL does not parse or has no host.
pub fn get_base_url_checked(url: &str) -> (r: Option<String>)
    ensures
        r is Some <==> (parse_ok(url@) && parse_host(url@) is Some),
        (r matches Some(s) ==> s@ == strip_leading_www_spec(parse_host(url@)->Some_0)),
{
    match parse_url_parts(url) {
        Some(p) => match p.host {
            Some(_) => Some(get_base_url(url)),
            None => None,
        },
        None => None,
    }
}

/// Checks the seed URL before a crawl starts: it must parse as an absolute
/// `http` or `https` URL; anything else is the fatal invalid-seed error.
pub fn validate_initial_url(url: &str) -> (r: Result<String, String>)
    ensures
        r is Ok <==> (parse_ok(url@) && is_http_scheme(parse_scheme(url@))),
        (r matches Ok(s) ==> s@ == url@),
{
    match parse_url_parts(url) {
        Some(p) => {
            if str_eq(p.scheme.as_str(), "http") || str_eq(p.scheme.as_str(), "https") {
                Ok(String::from_str(url))
            } else {
                let mut msg = String::from_str("not an absolute http or https URL: ");
                msg.append(url);
                Err(msg)
            }
        },
        None => {
            let mut msg = String::from_str("not an absolute http or https URL: ");
            msg.append(url);
            Err(msg)
        },
    }
}

} // verus!
