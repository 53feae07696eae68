//! Verified string primitives over `Seq<char>` views: prefix/suffix tests,
//! substring containment, ASCII lowercasing, trailing-slash stripping, and
//! decimal formatting.

use vstd::prelude::*;

verus! {

/// `p` is a prefix of `s`.
pub open spec fn starts_with(s: Seq<char>, p: Seq<char>) -> bool {
    p.len() <= s.len() && s.subrange(0, p.len() as int) == p
}

/// `p` is a suffix of `s`.
pub open spec fn ends_with(s: Seq<char>, p: Seq<char>) -> bool {
    p.len() <= s.len() && s.subrange(s.len() - p.len(), s.len() as int) == p
}

/// `p` occurs in `s` at position `i`.
pub open spec fn matches_at(s: Seq<char>, i: int, p: Seq<char>) -> bool {
    0 <= i && i + p.len() <= s.len() && s.subrange(i, i + p.len()) == p
}

/// `p` occurs somewhere in `s`.
pub open spec fn contains_seq(s: Seq<char>, p: Seq<char>) -> bool {
    exists|i: int| matches_at(s, i, p)
}

/// `s` with every trailing `/` removed.
pub open spec fn strip_trailing_slashes_spec(s: Seq<char>) -> Seq<char>
    decreases s.len(),
{
    if s.len() > 0 && s[s.len() - 1] == '/' {
        strip_trailing_slashes_spec(s.drop_last())
    } else {
        s
    }
}

/// Whether the characters of `a` and `b` agree.
pub fn str_eq(a: &str, b: &str) -> (r: bool)
    ensures
        r == (a@ == b@),
{
    let alen = a.unicode_len();
    let blen = b.unicode_len();
    if alen != blen {
        proof {
            assert(a@ != b@) by {
                assert(a@.len() != b@.len());
            }
        }
        return false;
    }
    let mut i: usize = 0;
    while i < alen
        invariant
            alen == a@.len(),
            alen == b@.len(),
            i <= alen,
            forall|j: int| 0 <= j < i ==> a@[j] == b@[j],
        decreases alen - i,
    {
        if a.get_char(i) != b.get_char(i) {
            return false;
        }
        i = i + 1;
    }
    proof {
        assert(a@ =~= b@);
    }
    true
}

/// Whether `p` occurs in `s` at position `i`.
pub fn str_matches_at(s: &str, i: usize, p: &str) -> (r: bool)
    requires
        i + p@.len() <= s@.len(),
    ensures
        r == matches_at(s@, i as int, p@),
{
    let slen = s.unicode_len();
    let plen = p.unicode_len();
    let mut j: usize = 0;
    while j < plen
        invariant
            slen == s@.len(),
            plen == p@.len(),
            i + plen <= slen,
            j <= plen,
            forall|k: int| 0 <= k < j ==> s@[i + k] == p@[k],
        decreases plen - j,
    {
        if s.get_char(i + j) != p.get_char(j) {
            proof {
                assert(s@.subrange(i as int, i + p@.len())[j as int] != p@[j as int]);
            }
            return false;
        }
        j = j + 1;
    }
    proof {
        assert(s@.subrange(i as int, i + p@.len()) =~= p@);
    }
    true
}

/// Whether `p` is a prefix of `s`.
pub fn str_starts_with(s: &str, p: &str) -> (r: bool)
    ensures
        r == starts_with(s@, p@),
{
    let plen = p.unicode_len();
    if plen > s.unicode_len() {
        return false;
    }
    str_matches_at(s, 0, p)
}

/// Whether `p` is a suffix of `s`.
pub fn str_ends_with(s: &str, p: &str) -> (r: bool)
    ensures
        r == ends_with(s@, p@),
{
    let slen = s.unicode_len();
    let plen = p.unicode_len();
    if plen > slen {
        return false;
    }
    str_matches_at(s, slen - plen, p)
}

/// Whether `p` occurs somewhere in `s`.
pub fn str_contains(s: &str, p: &str) -> (r: bool)
    ensures
        r == contains_seq(s@, p@),
{
    let slen = s.unicode_len();
    let plen = p.unicode_len();
    if plen > slen {
        proof {
            assert(forall|i: int| !matches_at(s@, i, p@));
        }
        return false;
    }
    if plen == 0 {
        proof {
            assert(s@.subrange(0, 0) =~= p@);
            assert(matches_at(s@, 0, p@));
        }
        return true;
    }
    let mut i: usize = 0;
    while i <= slen - plen
        invariant
            slen == s@.len(),
            plen == p@.len(),
            1 <= plen <= slen,
            i <= slen - plen + 1,
            forall|k: int| 0 <= k < i ==> !matches_at(s@, k, p@),
        decreases slen - i,
    {
        if str_matches_at(s, i, p) {
            return true;
        }
        i = i + 1;
    }
    proof {
        assert(forall|k: int| matches_at(s@, k, p@) ==> 0 <= k <= slen - plen);
    }
    false
}

/// The ASCII lowercase of `c`: letters `A` to `Z` map to their lowercase
/// forms, every other character stays as it is.
pub open spec fn lower_char(c: char) -> char {
    if 'A' <= c && c <= 'Z' {
        "abcdefghijklmnopqrstuvwxyz"@[c as int - 'A' as int]
    } else {
        c
    }
}

/// `s` with every ASCII letter lowercased.
pub open spec fn lower_seq(s: Seq<char>) -> Seq<char> {
    s.map_values(|c: char| lower_char(c))
}

/// The ASCII lowercase of one character.
pub fn to_lower_char(c: char) -> (r: char)
    ensures
        r == lower_char(c),
{
    let cu = c as u32;
    if 65 <= cu && cu <= 90 {
        let letters = "abcdefghijklmnopqrstuvwxyz";
        proof {
            reveal_strlit("abcdefghijklmnopqrstuvwxyz");
        }
        letters.get_char((cu - 65) as usize)
    } else {
        c
    }
}

/// Appends the ASCII lowercase of `s`'s character at `i` to `out`.
pub fn append_lower(out: &mut String, s: &str, i: usize)
    requires
        i < s@.len(),
    ensures
        final(out)@ == old(out)@ + seq![lower_char(s@[i as int])],
{
    let slen = s.unicode_len();
    let c = s.get_char(i);
    let cu = c as u32;
    if 65 <= cu && cu <= 90 {
        let letters = "abcdefghijklmnopqrstuvwxyz";
        proof {
            reveal_strlit("abcdefghijklmnopqrstuvwxyz");
        }
        let k = (cu - 65) as usize;
        out.append(letters.substring_char(k, k + 1));
        proof {
            assert(letters@.subrange(k as int, k + 1) =~= seq![lower_char(c)]);
        }
    } else {
        out.append(s.substring_char(i, i + 1));
        proof {
            assert(s@.subrange(i as int, i + 1) =~= seq![s@[i as int]]);
            assert(seq![s@[i as int]] =~= seq![lower_char(c)]);
        }
    }
}

/// Whether `s` starts with `p` up to ASCII case, for a lowercase `p`.
pub fn str_starts_with_ci(s: &str, p: &str) -> (r: bool)
    ensures
        r == (p@.len() <= s@.len() && lower_seq(s@.subrange(0, p@.len() as int)) == p@),
{
    let slen = s.unicode_len();
    let plen = p.unicode_len();
    if plen > slen {
        return false;
    }
    let mut i: usize = 0;
    while i < plen
        invariant
            slen == s@.len(),
            plen == p@.len(),
            plen <= slen,
            i <= plen,
            forall|j: int| 0 <= j < i ==> lower_char(s@[j]) == p@[j],
        decreases plen - i,
    {
        if to_lower_char(s.get_char(i)) != p.get_char(i) {
            proof {
                let j = i as int;
                assert(lower_seq(s@.subrange(0, plen as int))[j] == lower_char(s@[j]));
            }
            return false;
        }
        i = i + 1;
    }
    proof {
        assert(lower_seq(s@.subrange(0, plen as int)) =~= p@);
    }
    true
}

proof fn lemma_strip_trailing_at(s: Seq<char>, j: int)
    requires
        0 <= j <= s.len(),
        forall|k: int| j <= k < s.len() ==> s[k] == '/',
        j > 0 ==> s[j - 1] != '/',
    ensures
        strip_trailing_slashes_spec(s) == s.subrange(0, j),
    decreases s.len() - j,
{
    if j == s.len() {
        assert(s.subrange(0, j) =~= s);
    } else {
        assert(s[s.len() - 1] == '/');
        let d = s.drop_last();
        assert(forall|k: int| j <= k < d.len() ==> d[k] == '/');
        lemma_strip_trailing_at(d, j);
        assert(d.subrange(0, j) =~= s.subrange(0, j));
    }
}

/// The character of the decimal digit `d`.
pub open spec fn digit_char(d: nat) -> char
    recommends
        d < 10,
{
    "0123456789"@[d as int]
}

/// The decimal digits of `n`, most significant first.
pub open spec fn decimal_spec(n: nat) -> Seq<char>
    decreases n,
{
    if n < 10 {
        seq![digit_char(n)]
    } else {
        decimal_spec(n / 10) + seq![digit_char(n % 10)]
    }
}

/// `n` written in decimal.
pub fn decimal(n: usize) -> (r: String)
    ensures
        r@ == decimal_spec(n as nat),
    decreases n,
{
    let digits = "0123456789";
    proof {
        reveal_strlit("0123456789");
    }
    if n < 10 {
        let d = digits.substring_char(n, n + 1);
        proof {
            assert(d@ =~= seq![digit_char(n as nat)]);
        }
        String::from_str(d)
    } else {
        let mut r = decimal(n / 10);
        let d = digits.substring_char(n % 10, n % 10 + 1);
        proof {
            assert(d@ =~= seq![digit_char((n % 10) as nat)]);
        }
        r.append(d);
        r
    }
}

/// `n` in decimal, left-padded with spaces to at least three characters.
pub open spec fn format_count_spec(n: nat) -> Seq<char> {
    if n < 10 {
        "  "@ + decimal_spec(n)
    } else if n < 100 {
        " "@ + decimal_spec(n)
    } else {
        decimal_spec(n)
    }
}

/// Formats a count for a report column of at least three characters.
pub fn format_count(n: usize) -> (r: String)
    ensures
        r@ == format_count_spec(n as nat),
{
    if n < 10 {
        let mut r = String::from_str("  ");
        r.append(decimal(n).as_str());
        r
    } else if n < 100 {
        let mut r = String::from_str(" ");
        r.append(decimal(n).as_str());
        r
    } else {
        decimal(n)
    }
}

/// `s` with every trailing `/` removed.
pub fn strip_trailing_slashes(s: &str) -> (r: String)
    ensures
        r@ == strip_trailing_slashes_spec(s@),
{
    let slen = s.unicode_len();
    let mut j: usize = slen;
    while j > 0 && s.get_char(j - 1) == '/'
        invariant
            slen == s@.len(),
            j <= slen,
            forall|k: int| j <= k < slen ==> s@[k] == '/',
        decreases j,
    {
        j = j - 1;
    }
    proof {
        lemma_strip_trailing_at(s@, j as int);
    }
    let kept = s.substring_char(0, j);
    String::from_str(kept)
}

} // verus!
