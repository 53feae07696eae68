//! Purely textual URL normalization: the `http://` or `https://` scheme
//! prefix is dropped (whatever its case), query and fragment are cut off,
//! the host is ASCII-lowercased and loses one leading `www.`, trailing
//! slashes are dropped — and consecutive path separators are preserved,
//! since they may name distinct resources. This is the shape of the
//! canonical key for plain surface strings; the crawler itself keys graph
//! nodes by `crate::urldata::canonical_key`, which derives the same form
//! from the parsed host and path.

use vstd::prelude::*;

use crate::strutil::append_lower;
use crate::strutil::lower_seq;
use crate::strutil::starts_with;
use crate::strutil::str_starts_with;
use crate::strutil::str_starts_with_ci;
use crate::strutil::strip_trailing_slashes;
use crate::strutil::strip_trailing_slashes_spec;

verus! {

/// `s` without a leading `https://` or `http://`, matched up to ASCII case.
pub open spec fn strip_scheme_spec(s: Seq<char>) -> Seq<char> {
    if "https://"@.len() <= s.len() && lower_seq(s.subrange(0, "https://"@.len() as int))
        == "https://"@ {
        s.skip("https://"@.len() as int)
    } else if "http://"@.len() <= s.len() && lower_seq(s.subrange(0, "http://"@.len() as int))
        == "http://"@ {
        s.skip("http://"@.len() as int)
    } else {
        s
    }
}

/// `s` without a leading `www.`.
pub open spec fn strip_leading_www_spec(s: Seq<char>) -> Seq<char> {
    if starts_with(s, "www."@) {
        s.skip("www."@.len() as int)
    } else {
        s
    }
}

/// `s` cut off at its first `?` or `#`: the query and the fragment are no
/// part of a resource's identity.
pub open spec fn cut_mark_spec(s: Seq<char>) -> Seq<char>
    decreases s.len(),
{
    if s.len() == 0 {
        s
    } else if s[0] == '?' || s[0] == '#' {
        Seq::empty()
    } else {
        seq![s[0]] + cut_mark_spec(s.skip(1))
    }
}

/// The length of the host part of `s`: everything before the first `/`.
pub open spec fn host_len_spec(s: Seq<char>) -> int
    decreases s.len(),
{
    if s.len() == 0 {
        0
    } else if s[0] == '/' {
        0
    } else {
        1 + host_len_spec(s.skip(1))
    }
}

/// The normalized form of a URL string: scheme prefix dropped, query and
/// fragment cut off, the host lowercased and without a leading `www.`, the
/// path's case and its interior slashes kept, trailing slashes dropped.
pub open spec fn normalize_url_spec(s: Seq<char>) -> Seq<char> {
    let u = cut_mark_spec(strip_scheme_spec(s));
    let hl = host_len_spec(u);
    let host = strip_leading_www_spec(lower_seq(u.take(hl)));
    let path = u.skip(hl);
    strip_trailing_slashes_spec(host + path)
}

proof fn lemma_cut_mark_at(s: Seq<char>, i: int)
    requires
        0 <= i <= s.len(),
        forall|j: int| 0 <= j < i ==> s[j] != '?' && s[j] != '#',
        i < s.len() ==> (s[i] == '?' || s[i] == '#'),
    ensures
        cut_mark_spec(s) == s.take(i),
    decreases i,
{
    if i == 0 {
        assert(s.take(0) =~= Seq::<char>::empty());
        if s.len() > 0 {
            assert(s[0] == '?' || s[0] == '#');
        }
    } else {
        let rest = s.skip(1);
        assert(forall|j: int| 0 <= j < i - 1 ==> #[trigger] rest[j] == s[j + 1]);
        lemma_cut_mark_at(rest, i - 1);
        assert(seq![s[0]] + rest.take(i - 1) =~= s.take(i));
    }
}

proof fn lemma_host_len_at(s: Seq<char>, i: int)
    requires
        0 <= i <= s.len(),
        forall|j: int| 0 <= j < i ==> s[j] != '/',
        i < s.len() ==> s[i] == '/',
    ensures
        host_len_spec(s) == i,
    decreases i,
{
    if i == 0 {
    } else {
        let rest = s.skip(1);
        assert(forall|j: int| 0 <= j < i - 1 ==> #[trigger] rest[j] == s[j + 1]);
        lemma_host_len_at(rest, i - 1);
    }
}

/// Cuts `s` at its first `?` or `#`.
fn cut_at_mark(s: &str) -> (r: &str)
    ensures
        r@ == cut_mark_spec(s@),
{
    let slen = s.unicode_len();
    let mut i: usize = 0;
    while i < slen && s.get_char(i) != '?' && s.get_char(i) != '#'
        invariant
            slen == s@.len(),
            i <= slen,
            forall|j: int| 0 <= j < i ==> s@[j] != '?' && s@[j] != '#',
        decreases slen - i,
    {
        i = i + 1;
    }
    proof {
        lemma_cut_mark_at(s@, i as int);
        assert(s@.subrange(0, i as int) =~= s@.take(i as int));
    }
    s.substring_char(0, i)
}

/// The length of everything before the first `/` of `s`.
fn host_len(s: &str) -> (r: usize)
    ensures
        r == host_len_spec(s@),
        r <= s@.len(),
{
    let slen = s.unicode_len();
    let mut i: usize = 0;
    while i < slen && s.get_char(i) != '/'
        invariant
            slen == s@.len(),
            i <= slen,
            forall|j: int| 0 <= j < i ==> s@[j] != '/',
        decreases slen - i,
    {
        i = i + 1;
    }
    proof {
        lemma_host_len_at(s@, i as int);
    }
    i
}

/// Normalizes a URL string to the canonical form that names its resource:
/// two surface strings with the same normal form refer to the same page.
pub fn normalize_url(url: String) -> (r: String)
    ensures
        r@ == normalize_url_spec(url@),
{
    let s: &str = url.as_str();
    let slen = s.unicode_len();
    let rest: &str = if str_starts_with_ci(s, "https://") {
        proof {
            reveal_strlit("https://");
            assert(s@.skip(8) =~= s@.subrange(8, s@.len() as int));
        }
        s.substring_char(8, slen)
    } else if str_starts_with_ci(s, "http://") {
        proof {
            reveal_strlit("https://");
            reveal_strlit("http://");
            assert(s@.skip(7) =~= s@.subrange(7, s@.len() as int));
        }
        s.substring_char(7, slen)
    } else {
        proof {
            reveal_strlit("https://");
            reveal_strlit("http://");
        }
        s
    };
    proof {
        assert(rest@ == strip_scheme_spec(url@));
    }
    let cut = cut_at_mark(rest);
    let clen = cut.unicode_len();
    let hl = host_len(cut);
    // The host, lowercased character by character.
    let mut lowered = String::new();
    let mut i: usize = 0;
    while i < hl
        invariant
            hl <= cut@.len(),
            i <= hl,
            lowered@.len() == i,
            forall|j: int| 0 <= j < i ==> lowered@[j] == crate::strutil::lower_char(cut@[j]),
        decreases hl - i,
    {
        append_lower(&mut lowered, cut, i);
        i = i + 1;
    }
    proof {
        assert(lowered@ =~= lower_seq(cut@.take(hl as int)));
    }
    let llen = lowered.unicode_len();
    let host: &str = if str_starts_with(lowered.as_str(), "www.") {
        proof {
            reveal_strlit("www.");
            assert(lowered@.skip(4) =~= lowered@.subrange(4, lowered@.len() as int));
        }
        lowered.as_str().substring_char(4, llen)
    } else {
        lowered.as_str()
    };
    let mut out = String::from_str(host);
    out.append(cut.substring_char(hl, clen));
    proof {
        assert(cut@.subrange(hl as int, clen as int) =~= cut@.skip(hl as int));
    }
    strip_trailing_slashes(out.as_str())
}

} // verus!
