//! Low-level text scanning: prefix tests, first-occurrence search,
//! whitespace trimming and line splitting, each with a spec-level
//! definition over `Seq<char>` and a verified executable counterpart
//! over `&str`.

use vstd::prelude::*;

verus! {

/// Whether `p` is a prefix of `s`.
pub open spec fn spec_starts_with(s: Seq<char>, p: Seq<char>) -> bool {
    p.len() <= s.len() && s.subrange(0, p.len() as int) == p
}

/// Whether `p` occurs in `s` at position `i`.
pub open spec fn match_at(s: Seq<char>, p: Seq<char>, i: int) -> bool {
    0 <= i && i + p.len() <= s.len() && s.subrange(i, i + p.len() as int) == p
}

/// The position of the first occurrence of `p` in `s`, if any.
pub open spec fn spec_find(s: Seq<char>, p: Seq<char>) -> Option<int>
    decreases s.len(),
{
    if p.len() == 0 {
        Some(0)
    } else if s.len() < p.len() {
        None
    } else if spec_starts_with(s, p) {
        Some(0)
    } else {
        match spec_find(s.drop_first(), p) {
            Some(i) => Some(i + 1),
            None => None,
        }
    }
}

/// `spec_find` returns the first match: a position where `p` occurs,
/// before which it does not occur, and `None` only when it occurs
/// nowhere.
pub proof fn lemma_find_first(s: Seq<char>, p: Seq<char>)
    ensures
        match spec_find(s, p) {
            Some(i) => match_at(s, p, i) && (forall|j: int| 0 <= j < i ==> !match_at(s, p, j)),
            None => forall|j: int| !match_at(s, p, j),
        },
    decreases s.len(),
{
    if p.len() == 0 {
        assert(s.subrange(0, 0) =~= p);
        assert(match_at(s, p, 0));
    } else if s.len() < p.len() {
        assert forall|j: int| !match_at(s, p, j) by {}
    } else if spec_starts_with(s, p) {
        assert(match_at(s, p, 0));
    } else {
        lemma_find_first(s.drop_first(), p);
        let t = s.drop_first();
        assert forall|j: int| 1 <= j && match_at(s, p, j) implies match_at(t, p, j - 1) by {
            assert forall|k: int| 0 <= k < p.len() implies #[trigger] t.subrange(
                j - 1,
                j - 1 + p.len() as int,
            )[k] == s.subrange(j, j + p.len() as int)[k] by {
                assert(t[j - 1 + k] == s[j + k]);
            }
            assert(t.subrange(j - 1, j - 1 + p.len() as int) =~= s.subrange(
                j,
                j + p.len() as int,
            ));
        }
        assert forall|j: int| 0 <= j && match_at(t, p, j) implies match_at(s, p, j + 1) by {
            assert forall|k: int| 0 <= k < p.len() implies #[trigger] s.subrange(
                j + 1,
                j + 1 + p.len() as int,
            )[k] == t.subrange(j, j + p.len() as int)[k] by {
                assert(t[j + k] == s[j + 1 + k]);
            }
            assert(s.subrange(j + 1, j + 1 + p.len() as int) =~= t.subrange(
                j,
                j + p.len() as int,
            ));
        }
        assert(!match_at(s, p, 0));
    }
}

/// A prefix occurrence is exactly a match at position zero.
pub proof fn lemma_starts_with_is_match_at_zero(s: Seq<char>, p: Seq<char>)
    ensures
        spec_starts_with(s, p) == match_at(s, p, 0),
{
}

/// Whether `t` is a suffix of `s`.
pub open spec fn is_suffix_of(t: Seq<char>, s: Seq<char>) -> bool {
    t.len() <= s.len() && t == s.skip(s.len() - t.len())
}

/// Every sequence is a suffix of itself.
pub proof fn lemma_suffix_refl(s: Seq<char>)
    ensures
        is_suffix_of(s, s),
{
    assert(s.skip(0) =~= s);
}

/// A suffix of a suffix is a suffix.
pub proof fn lemma_suffix_trans(u: Seq<char>, t: Seq<char>, s: Seq<char>)
    requires
        is_suffix_of(u, t),
        is_suffix_of(t, s),
    ensures
        is_suffix_of(u, s),
{
    assert(t.skip(t.len() - u.len()) =~= s.skip(s.len() - u.len()));
}

/// Skipping a prefix leaves a suffix.
pub proof fn lemma_skip_suffix(s: Seq<char>, k: int)
    requires
        0 <= k <= s.len(),
    ensures
        is_suffix_of(s.skip(k), s),
{
    assert(s.skip(k) =~= s.skip(s.len() - s.skip(k).len()));
}

/// The empty sequence is a suffix of every sequence.
pub proof fn lemma_empty_suffix(s: Seq<char>)
    ensures
        is_suffix_of(Seq::<char>::empty(), s),
{
    assert(Seq::<char>::empty() =~= s.skip(s.len() as int));
}

/// The characters with the Unicode `White_Space` property, the set
/// `char::is_whitespace` recognizes.
pub open spec fn is_wspace(c: char) -> bool {
    c == ' ' || c == '\t' || c == '\n' || c == '\r' || c == '\u{0b}' || c == '\u{0c}'
        || c == '\u{85}' || c == '\u{a0}' || c == '\u{1680}' || c == '\u{2000}' || c == '\u{2001}'
        || c == '\u{2002}' || c == '\u{2003}' || c == '\u{2004}' || c == '\u{2005}'
        || c == '\u{2006}' || c == '\u{2007}' || c == '\u{2008}' || c == '\u{2009}'
        || c == '\u{200a}' || c == '\u{2028}' || c == '\u{2029}' || c == '\u{202f}'
        || c == '\u{205f}' || c == '\u{3000}'
}

/// `s` with leading whitespace removed.
pub open spec fn spec_trim_start(s: Seq<char>) -> Seq<char>
    decreases s.len(),
{
    if s.len() > 0 && is_wspace(s[0]) {
        spec_trim_start(s.drop_first())
    } else {
        s
    }
}

/// `s` with trailing whitespace removed.
pub open spec fn spec_trim_end(s: Seq<char>) -> Seq<char>
    decreases s.len(),
{
    if s.len() > 0 && is_wspace(s[s.len() - 1]) {
        spec_trim_end(s.drop_last())
    } else {
        s
    }
}

/// `s` with whitespace removed at both ends.
pub open spec fn spec_trim(s: Seq<char>) -> Seq<char> {
    spec_trim_start(spec_trim_end(s))
}

/// The number of leading `' '` characters of `s`.
pub open spec fn leading_spaces(s: Seq<char>) -> int
    decreases s.len(),
{
    if s.len() > 0 && s[0] == ' ' {
        1 + leading_spaces(s.drop_first())
    } else {
        0
    }
}

/// Trimming the front takes a suffix: the part removed is exactly the
/// leading whitespace.
pub proof fn lemma_trim_start_skips(s: Seq<char>)
    ensures
        0 <= spec_trim_start(s).len() <= s.len(),
        spec_trim_start(s) == s.skip(s.len() - spec_trim_start(s).len()),
        forall|j: int| 0 <= j < s.len() - spec_trim_start(s).len() ==> is_wspace(s[j]),
        spec_trim_start(s).len() > 0 ==> !is_wspace(spec_trim_start(s)[0]),
    decreases s.len(),
{
    if s.len() > 0 && is_wspace(s[0]) {
        lemma_trim_start_skips(s.drop_first());
        let t = spec_trim_start(s);
        assert(s.drop_first().skip(s.drop_first().len() - t.len()) =~= s.skip(s.len() - t.len()));
        assert forall|j: int| 0 <= j < s.len() - t.len() implies is_wspace(s[j]) by {
            if j >= 1 {
                assert(s.drop_first()[j - 1] == s[j]);
            }
        }
    } else {
        assert(s.skip(0) =~= s);
    }
}

/// The executable prefix test: `Some` of the text after the pattern
/// exactly when the pattern is a prefix.
pub fn consume<'a>(text: &'a str, pattern: &'a str) -> (r: Option<&'a str>)
    ensures
        r is Some <==> spec_starts_with(text@, pattern@),
        r is Some ==> r.unwrap()@ == text@.skip(pattern@.len() as int),
{
    let n = pattern.unicode_len();
    let m = text.unicode_len();
    if n > m {
        return None;
    }
    let mut i: usize = 0;
    while i < n
        invariant
            n == pattern@.len(),
            m == text@.len(),
            n <= m,
            0 <= i <= n,
            forall|j: int| 0 <= j < i ==> text@[j] == pattern@[j],
        decreases n - i,
    {
        if text.get_char(i) != pattern.get_char(i) {
            proof {
                assert(text@.subrange(0, n as int)[i as int] == text@[i as int]);
            }
            return None;
        }
        i += 1;
    }
    proof {
        assert(text@.subrange(0, n as int) =~= pattern@);
        assert(text@.subrange(n as int, m as int) =~= text@.skip(n as int));
    }
    Some(text.substring_char(n, m))
}

/// The executable first-occurrence search, agreeing with `spec_find`.
pub fn find_pat(text: &str, pattern: &str) -> (r: Option<usize>)
    ensures
        match r {
            Some(i) => spec_find(text@, pattern@) == Some(i as int),
            None => spec_find(text@, pattern@) is None,
        },
{
    let n = pattern.unicode_len();
    let m = text.unicode_len();
    if n == 0 {
        return Some(0);
    }
    if n > m {
        return None;
    }
    let mut i: usize = 0;
    while i <= m - n
        invariant
            n == pattern@.len(),
            m == text@.len(),
            1 <= n <= m,
            0 <= i <= m - n + 1,
            forall|j: int| 0 <= j < i ==> !match_at(text@, pattern@, j),
        decreases m - n + 1 - i,
    {
        let mut k: usize = 0;
        let mut hit = true;
        while hit && k < n
            invariant
                n == pattern@.len(),
                m == text@.len(),
                1 <= n <= m,
                0 <= i <= m - n,
                0 <= k <= n,
                hit ==> forall|j: int| 0 <= j < k ==> text@[i + j] == pattern@[j],
                !hit ==> !match_at(text@, pattern@, i as int),
            decreases (if hit { 1int } else { 0int }), n - k,
        {
            if text.get_char(i + k) != pattern.get_char(k) {
                proof {
                    assert(text@.subrange(i as int, i + n as int)[k as int] == text@[i + k]);
                }
                hit = false;
            } else {
                k += 1;
            }
        }
        if hit {
            proof {
                assert(text@.subrange(i as int, i + n as int) =~= pattern@);
                assert(match_at(text@, pattern@, i as int));
                lemma_find_first(text@, pattern@);
            }
            return Some(i);
        }
        i += 1;
    }
    proof {
        assert forall|j: int| !match_at(text@, pattern@, j) by {}
        lemma_find_first(text@, pattern@);
    }
    None
}

/// The executable whitespace test, agreeing with `is_wspace`.
pub fn is_wspace_char(c: char) -> (r: bool)
    ensures
        r == is_wspace(c),
{
    match c {
        ' ' | '\t' | '\n' | '\r' | '\u{0b}' | '\u{0c}' | '\u{85}' | '\u{a0}' | '\u{1680}'
            | '\u{2000}' | '\u{2001}' | '\u{2002}' | '\u{2003}' | '\u{2004}' | '\u{2005}'
            | '\u{2006}' | '\u{2007}' | '\u{2008}' | '\u{2009}' | '\u{200a}' | '\u{2028}'
            | '\u{2029}' | '\u{202f}' | '\u{205f}' | '\u{3000}' => true,
        _ => false,
    }
}

/// The executable front trim, agreeing with `spec_trim_start`.
pub fn trim_start(text: &str) -> (r: &str)
    ensures
        r@ == spec_trim_start(text@),
{
    let m = text.unicode_len();
    let mut i: usize = 0;
    proof {
        assert(text@.skip(0) =~= text@);
    }
    while i < m && is_wspace_char(text.get_char(i))
        invariant
            m == text@.len(),
            0 <= i <= m,
            spec_trim_start(text@.skip(i as int)) == spec_trim_start(text@),
        decreases m - i,
    {
        proof {
            assert(text@.skip(i as int)[0] == text@[i as int]);
            assert(text@.skip(i as int).drop_first() =~= text@.skip(i + 1));
        }
        i += 1;
    }
    let r = text.substring_char(i, m);
    proof {
        assert(r@ =~= text@.skip(i as int));
        if i < m {
            assert(text@.skip(i as int)[0] == text@[i as int]);
        }
        assert(spec_trim_start(text@.skip(i as int)) == text@.skip(i as int));
    }
    r
}

/// The executable back trim, agreeing with `spec_trim_end`.
pub fn trim_end(text: &str) -> (r: &str)
    ensures
        r@ == spec_trim_end(text@),
{
    let m = text.unicode_len();
    let mut i: usize = m;
    proof {
        assert(text@.take(m as int) =~= text@);
    }
    while i > 0 && is_wspace_char(text.get_char(i - 1))
        invariant
            m == text@.len(),
            0 <= i <= m,
            spec_trim_end(text@.take(i as int)) == spec_trim_end(text@),
        decreases i,
    {
        proof {
            let t = text@.take(i as int);
            assert(t[t.len() - 1] == text@[i - 1]);
            assert(t.drop_last() =~= text@.take(i - 1));
        }
        i -= 1;
    }
    let r = text.substring_char(0, i);
    proof {
        let t = text@.take(i as int);
        assert(r@ =~= t);
        if i > 0 {
            assert(t[t.len() - 1] == text@[i - 1]);
        }
        assert(spec_trim_end(t) == t);
    }
    r
}

/// The executable two-sided trim, agreeing with `spec_trim`.
pub fn trim(text: &str) -> (r: &str)
    ensures
        r@ == spec_trim(text@),
{
    trim_start(trim_end(text))
}

} // verus!
