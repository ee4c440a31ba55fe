//! File-extension derivation from a URL's final path segment.
//!
//! The mirror upload names its payload after the source image's extension;
//! a URL whose final path segment carries no extension cannot be mirrored.

use vstd::prelude::*;

verus! {

/// First index at or after `i` holding one of the two characters, or the
/// length when neither occurs.
pub open spec fn spec_find2(s: Seq<char>, i: int, a: char, b: char) -> int
    decreases s.len() - i
    when 0 <= i <= s.len()
{
    if i >= s.len() {
        s.len() as int
    } else if s[i] == a || s[i] == b {
        i
    } else {
        spec_find2(s, i + 1, a, b)
    }
}

proof fn lemma_find2_bounds(s: Seq<char>, i: int, a: char, b: char)
    requires
        0 <= i <= s.len(),
    ensures
        i <= spec_find2(s, i, a, b) <= s.len(),
        spec_find2(s, i, a, b) < s.len() ==> (s[spec_find2(s, i, a, b)] == a || s[spec_find2(
            s,
            i,
            a,
            b,
        )] == b),
        forall|j: int| i <= j < spec_find2(s, i, a, b) ==> s[j] != a && s[j] != b,
    decreases s.len() - i,
{
    if i < s.len() && !(s[i] == a || s[i] == b) {
        lemma_find2_bounds(s, i + 1, a, b);
    }
}

/// Last index in `[lo, hi)` holding the character, if any.
pub open spec fn spec_rfind(s: Seq<char>, lo: int, hi: int, c: char) -> Option<int>
    decreases hi - lo
    when 0 <= lo && hi <= s.len()
{
    if hi <= lo {
        None
    } else if s[hi - 1] == c {
        Some(hi - 1)
    } else {
        spec_rfind(s, lo, hi - 1, c)
    }
}

proof fn lemma_rfind_bounds(s: Seq<char>, lo: int, hi: int, c: char)
    requires
        0 <= lo,
        hi <= s.len(),
    ensures
        spec_rfind(s, lo, hi, c) matches Some(d) ==> lo <= d < hi && s[d] == c,
        spec_rfind(s, lo, hi, c) is None ==> forall|j: int| lo <= j < hi ==> s[j] != c,
    decreases hi - lo,
{
    if hi > lo && s[hi - 1] != c {
        lemma_rfind_bounds(s, lo, hi - 1, c);
    }
}

/// First index where the scheme separator `://` begins, if it occurs.
pub open spec fn spec_find_scheme(s: Seq<char>, i: int) -> Option<int>
    decreases s.len() - i
    when 0 <= i
{
    if i + 3 > s.len() {
        None
    } else if s[i] == ':' && s[i + 1] == '/' && s[i + 2] == '/' {
        Some(i)
    } else {
        spec_find_scheme(s, i + 1)
    }
}

proof fn lemma_find_scheme_bounds(s: Seq<char>, i: int)
    requires
        0 <= i,
    ensures
        spec_find_scheme(s, i) matches Some(k) ==> i <= k && k + 3 <= s.len(),
    decreases s.len() - i,
{
    if i + 3 <= s.len() && !(s[i] == ':' && s[i + 1] == '/' && s[i + 2] == '/') {
        lemma_find_scheme_bounds(s, i + 1);
    }
}

/// The extension of a URL's final path segment: the part of the segment after
/// its last dot, where the segment is what follows the last slash of the path,
/// the path ends at the first `?` or `#`, and a dot leading the segment does
/// not count. `None` when the URL has no path or the segment has no such dot.
pub open spec fn spec_ext_of(s: Seq<char>) -> Option<Seq<char>> {
    let start = match spec_find_scheme(s, 0) {
        Some(k) => k + 3,
        None => 0,
    };
    let ps = spec_find2(s, start, '/', '/');
    if ps >= s.len() {
        None
    } else {
        let stop = spec_find2(s, ps, '?', '#');
        let fstart = spec_rfind(s, ps, stop, '/').unwrap() + 1;
        if fstart < stop {
            match spec_rfind(s, fstart + 1, stop, '.') {
                Some(d) => Some(s.subrange(d + 1, stop)),
                None => None,
            }
        } else {
            None
        }
    }
}

fn find2(s: &str, i: usize, n: usize, a: char, b: char) -> (r: usize)
    requires
        n == s@.len(),
        i <= n,
    ensures
        r == spec_find2(s@, i as int, a, b),
    decreases n - i,
{
    if i >= n {
        n
    } else {
        let c = s.get_char(i);
        if c == a || c == b {
            i
        } else {
            find2(s, i + 1, n, a, b)
        }
    }
}

fn rfind(s: &str, lo: usize, hi: usize, c: char) -> (r: Option<usize>)
    requires
        lo <= hi,
        hi <= s@.len(),
    ensures
        r matches Some(d) ==> Some(d as int) == spec_rfind(s@, lo as int, hi as int, c),
        r is None ==> spec_rfind(s@, lo as int, hi as int, c) is None,
    decreases hi - lo,
{
    if hi <= lo {
        None
    } else {
        let c2 = s.get_char(hi - 1);
        if c2 == c {
            Some(hi - 1)
        } else {
            rfind(s, lo, hi - 1, c)
        }
    }
}

fn find_scheme(s: &str, i: usize, n: usize) -> (r: Option<usize>)
    requires
        n == s@.len(),
        i <= n,
    ensures
        r matches Some(k) ==> Some(k as int) == spec_find_scheme(s@, i as int) && k + 3 <= n,
        r is None ==> spec_find_scheme(s@, i as int) is None,
    decreases n - i,
{
    if n < 3 || i > n - 3 {
        None
    } else {
        let c0 = s.get_char(i);
        let c1 = s.get_char(i + 1);
        let c2 = s.get_char(i + 2);
        if c0 == ':' && c1 == '/' && c2 == '/' {
            Some(i)
        } else {
            find_scheme(s, i + 1, n)
        }
    }
}

/// Derive the file extension of the URL's final path segment.
pub fn ext_from_url(url: &str) -> (r: Option<String>)
    ensures
        (r is Some) == (spec_ext_of(url@) is Some),
        r matches Some(e) ==> spec_ext_of(url@) matches Some(x) && e@ == x,
{
    let n = url.unicode_len();
    let start = match find_scheme(url, 0, n) {
        Some(k) => k + 3,
        None => 0,
    };
    let ps = find2(url, start, n, '/', '/');
    if ps >= n {
        return None;
    }
    proof {
        lemma_find2_bounds(url@, start as int, '/', '/');
    }
    let stop = find2(url, ps, n, '?', '#');
    proof {
        lemma_find2_bounds(url@, ps as int, '?', '#');
        assert(url@[ps as int] == '/');
        assert(ps < stop);
    }
    proof {
        lemma_rfind_bounds(url@, ps as int, stop as int, '/');
    }
    let fstart = match rfind(url, ps, stop, '/') {
        Some(d) => d + 1,
        None => {
            proof {
                assert(false);
            }
            return None;
        },
    };
    if fstart >= stop {
        return None;
    }
    match rfind(url, fstart + 1, stop, '.') {
        Some(d) => {
            proof {
                lemma_rfind_bounds(url@, fstart + 1, stop as int, '.');
            }
            Some(url.substring_char(d + 1, stop).to_owned())
        },
        None => None,
    }
}

} // verus!
