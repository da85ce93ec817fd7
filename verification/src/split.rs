//! Splitting a text buffer at a fixed pattern.
//!
//! One spec function, [`split_at_pat`], describes every split the library
//! performs: the report buffer at the section delimiter, a section at line
//! breaks, and a line at single spaces. Parts are the substrings between
//! leftmost, non-overlapping occurrences of the pattern, boundary parts
//! (including empty ones) preserved as-is.

use vstd::prelude::*;

verus! {

/// The section delimiter: fourteen `=` characters.
pub open spec fn delim() -> Seq<char> {
    "=============="@
}

/// True when `pat` occurs in `s` starting at index `i`.
pub open spec fn match_at(s: Seq<char>, pat: Seq<char>, i: int) -> bool {
    0 <= i && i + pat.len() <= s.len() && s.subrange(i, i + pat.len() as int) == pat
}

/// True when `pat` occurs somewhere in `s`.
pub open spec fn contains_pat(s: Seq<char>, pat: Seq<char>) -> bool {
    exists|i: int| match_at(s, pat, i)
}

/// The parts of `s` between leftmost, non-overlapping occurrences of `pat`,
/// in order. There is always at least one part; a buffer without any
/// occurrence is a single part.
pub open spec fn split_at_pat(s: Seq<char>, pat: Seq<char>) -> Seq<Seq<char>>
    decreases s.len(),
{
    if pat.len() == 0 || s.len() < pat.len() {
        seq![s]
    } else if match_at(s, pat, 0) {
        seq![Seq::<char>::empty()] + split_at_pat(s.skip(pat.len() as int), pat)
    } else {
        let rest = split_at_pat(s.drop_first(), pat);
        seq![seq![s[0]] + rest.first()] + rest.drop_first()
    }
}

/// The sections of a report buffer: the parts between delimiter lines.
pub open spec fn spec_sections(s: Seq<char>) -> Seq<Seq<char>> {
    split_at_pat(s, delim())
}

/// Every split has at least one part.
pub proof fn lemma_split_len(s: Seq<char>, pat: Seq<char>)
    ensures
        split_at_pat(s, pat).len() >= 1,
    decreases s.len(),
{
    if !(pat.len() == 0 || s.len() < pat.len()) {
        if match_at(s, pat, 0) {
            lemma_split_len(s.skip(pat.len() as int), pat);
        } else {
            lemma_split_len(s.drop_first(), pat);
        }
    }
}

/// An occurrence of `pat` within `s.skip(a)` is an occurrence within `s`,
/// shifted by `a`, and conversely.
pub proof fn lemma_match_at_skip(s: Seq<char>, pat: Seq<char>, a: int, k: int)
    requires
        0 <= a <= s.len(),
        0 <= k,
    ensures
        match_at(s.skip(a), pat, k) <==> match_at(s, pat, a + k),
{
    if match_at(s.skip(a), pat, k) {
        assert(s.subrange(a + k, a + k + pat.len()) =~= s.skip(a).subrange(
            k,
            k + pat.len() as int,
        ));
    }
    if match_at(s, pat, a + k) {
        assert(s.skip(a).subrange(k, k + pat.len() as int) =~= s.subrange(
            a + k,
            a + k + pat.len(),
        ));
    }
}

/// A buffer without any occurrence of the pattern is a single part.
pub proof fn lemma_split_no_match(s: Seq<char>, pat: Seq<char>)
    requires
        pat.len() >= 1,
        forall|k: int| !match_at(s, pat, k),
    ensures
        split_at_pat(s, pat) == seq![s],
    decreases s.len(),
{
    if s.len() >= pat.len() {
        assert(!match_at(s, pat, 0));
        assert forall|k: int| !match_at(s.drop_first(), pat, k) by {
            if k >= 0 {
                lemma_match_at_skip(s, pat, 1, k);
            }
        }
        lemma_split_no_match(s.drop_first(), pat);
        assert(seq![s[0]] + s.drop_first() =~= s);
        assert(split_at_pat(s, pat) =~= seq![s]);
    }
}

/// With the first occurrence of `pat` at index `p`, the split is the prefix
/// before `p` followed by the split of what comes after the occurrence.
pub proof fn lemma_split_first_match(s: Seq<char>, pat: Seq<char>, p: int)
    requires
        pat.len() >= 1,
        match_at(s, pat, p),
        forall|k: int| 0 <= k < p ==> !match_at(s, pat, k),
    ensures
        split_at_pat(s, pat) == seq![s.take(p)] + split_at_pat(
            s.skip(p + pat.len()),
            pat,
        ),
    decreases p,
{
    if p == 0 {
        assert(s.take(0) =~= Seq::<char>::empty());
        assert(split_at_pat(s, pat) =~= seq![s.take(0)] + split_at_pat(
            s.skip(pat.len() as int),
            pat,
        ));
    } else {
        assert(!match_at(s, pat, 0));
        let t = s.drop_first();
        assert(match_at(t, pat, p - 1)) by {
            lemma_match_at_skip(s, pat, 1, p - 1);
        }
        assert forall|k: int| 0 <= k < p - 1 implies !match_at(t, pat, k) by {
            lemma_match_at_skip(s, pat, 1, k);
        }
        lemma_split_first_match(t, pat, p - 1);
        lemma_split_len(t.skip(p - 1 + pat.len()), pat);
        assert(t.skip(p - 1 + pat.len()) =~= s.skip(p + pat.len()));
        assert(seq![s[0]] + t.take(p - 1) =~= s.take(p));
        assert(split_at_pat(s, pat) =~= seq![s.take(p)] + split_at_pat(
            s.skip(p + pat.len()),
            pat,
        ));
    }
}

/// Splitting at a single character distributes over concatenation around
/// that character.
pub proof fn lemma_split_single_concat(s1: Seq<char>, s2: Seq<char>, c: char)
    ensures
        split_at_pat(s1 + seq![c] + s2, seq![c]) == split_at_pat(s1, seq![c])
            + split_at_pat(s2, seq![c]),
    decreases s1.len(),
{
    let pat = seq![c];
    let whole = s1 + seq![c] + s2;
    if s1.len() == 0 {
        assert(whole =~= seq![c] + s2);
        assert(match_at(whole, pat, 0)) by {
            assert(whole.subrange(0, 1) =~= pat);
        }
        assert(whole.skip(1) =~= s2);
        assert(split_at_pat(s1, pat) =~= seq![s1]);
        assert(s1 =~= Seq::<char>::empty());
        assert(split_at_pat(whole, pat) =~= split_at_pat(s1, pat) + split_at_pat(s2, pat));
    } else {
        let t1 = s1.drop_first();
        let tw = t1 + seq![c] + s2;
        assert(whole =~= seq![whole[0]] + tw);
        lemma_split_single_concat(t1, s2, c);
        lemma_split_len(t1, pat);
        lemma_split_len(tw, pat);
        if s1[0] == c {
            assert(match_at(whole, pat, 0)) by {
                assert(whole.subrange(0, 1) =~= pat);
            }
            assert(whole.skip(1) =~= tw);
            assert(match_at(s1, pat, 0)) by {
                assert(s1.subrange(0, 1) =~= pat);
            }
            assert(s1.skip(1) =~= t1);
            assert(split_at_pat(whole, pat) =~= split_at_pat(s1, pat) + split_at_pat(
                s2,
                pat,
            ));
        } else {
            assert(!match_at(whole, pat, 0)) by {
                assert(whole.subrange(0, 1) =~= seq![s1[0]]);
            }
            assert(!match_at(s1, pat, 0)) by {
                assert(s1.subrange(0, 1) =~= seq![s1[0]]);
            }
            assert(whole.drop_first() =~= tw);
            assert(s1.drop_first() =~= t1);
            let rw = split_at_pat(tw, pat);
            let r1 = split_at_pat(t1, pat);
            assert(rw =~= r1 + split_at_pat(s2, pat));
            assert(rw.first() == r1.first());
            assert(rw.drop_first() =~= r1.drop_first() + split_at_pat(s2, pat));
            assert(split_at_pat(whole, pat) =~= split_at_pat(s1, pat) + split_at_pat(
                s2,
                pat,
            ));
        }
    }
}

/// A buffer with no occurrence of the section delimiter splits into exactly
/// one section: the whole buffer.
pub proof fn lemma_split_no_delimiter(s: Seq<char>)
    requires
        !contains_pat(s, delim()),
    ensures
        spec_sections(s) == seq![s],
{
    reveal_strlit("==============");
    lemma_split_no_match(s, delim());
}

/// The index of the first occurrence of `pat` in `s` at or after `from`, if
/// there is one.
fn find_pat(s: &str, pat: &str, from: usize) -> (r: Option<usize>)
    requires
        pat@.len() >= 1,
        from <= s@.len(),
    ensures
        match r {
            Some(p) => {
                &&& from <= p
                &&& match_at(s@, pat@, p as int)
                &&& forall|k: int| from <= k < p ==> !match_at(s@, pat@, k)
            },
            None => forall|k: int| from <= k ==> !match_at(s@, pat@, k),
        },
{
    let n = s.unicode_len();
    let m = pat.unicode_len();
    if m > n {
        return None;
    }
    let mut j = from;
    while j <= n - m
        invariant
            pat@.len() == m,
            s@.len() == n,
            1 <= m <= n,
            from <= j <= n,
            forall|k: int| from <= k < j ==> !match_at(s@, pat@, k),
        decreases n - j,
    {
        let mut t: usize = 0;
        let mut eq = true;
        while t < m
            invariant
                pat@.len() == m,
                s@.len() == n,
                j + m <= n,
                t <= m,
                eq ==> forall|u: int| 0 <= u < t ==> s@[j + u] == pat@[u],
                !eq ==> exists|u: int| 0 <= u < t && s@[j + u] != pat@[u],
            decreases m - t,
        {
            if s.get_char(j + t) != pat.get_char(t) {
                eq = false;
            }
            t = t + 1;
        }
        if eq {
            assert(match_at(s@, pat@, j as int)) by {
                assert(s@.subrange(j as int, j + m) =~= pat@);
            }
            return Some(j);
        }
        assert(!match_at(s@, pat@, j as int)) by {
            let u = choose|u: int| 0 <= u < m && s@[j + u] != pat@[u];
            if match_at(s@, pat@, j as int) {
                assert(s@.subrange(j as int, j + m)[u] == s@[j + u]);
            }
        }
        j = j + 1;
    }
    None
}

/// The views of a sequence of string slices.
pub open spec fn views_of_strs(v: Seq<&str>) -> Seq<Seq<char>> {
    v.map_values(|x: &str| x@)
}

/// Split `s` at each leftmost, non-overlapping occurrence of `pat`.
pub fn split_on<'a>(s: &'a str, pat: &str) -> (r: Vec<&'a str>)
    requires
        pat@.len() >= 1,
    ensures
        views_of_strs(r@) == split_at_pat(s@, pat@),
{
    let mut parts: Vec<&str> = Vec::new();
    let mut start: usize = 0;
    let n = s.unicode_len();
    proof {
        assert(s@.skip(0) =~= s@);
        assert(views_of_strs(parts@) + split_at_pat(s@.skip(0), pat@) =~= split_at_pat(
            s@,
            pat@,
        ));
    }
    loop
        invariant_except_break
            pat@.len() >= 1,
            s@.len() == n,
            start <= n,
            views_of_strs(parts@) + split_at_pat(s@.skip(start as int), pat@)
                =~= split_at_pat(s@, pat@),
        ensures
            views_of_strs(parts@) == split_at_pat(s@, pat@),
        decreases n - start,
    {
        match find_pat(s, pat, start) {
            Some(p) => {
                let part = s.substring_char(start, p);
                proof {
                    let tail = s@.skip(start as int);
                    assert(match_at(tail, pat@, p - start)) by {
                        lemma_match_at_skip(s@, pat@, start as int, p - start);
                    }
                    assert forall|k: int| 0 <= k < p - start implies !match_at(
                        tail,
                        pat@,
                        k,
                    ) by {
                        lemma_match_at_skip(s@, pat@, start as int, k);
                    }
                    lemma_split_first_match(tail, pat@, p - start);
                    assert(tail.take(p - start) =~= s@.subrange(start as int, p as int));
                    assert(tail.skip(p - start + pat@.len()) =~= s@.skip(
                        p + pat@.len(),
                    ));
                    assert(views_of_strs(parts@.push(part))
                        =~= views_of_strs(parts@).push(part@));
                }
                parts.push(part);
                start = p + pat.unicode_len();
            },
            None => {
                let part = s.substring_char(start, n);
                proof {
                    let tail = s@.skip(start as int);
                    assert forall|k: int| !match_at(tail, pat@, k) by {
                        if 0 <= k {
                            lemma_match_at_skip(s@, pat@, start as int, k);
                        }
                    }
                    lemma_split_no_match(tail, pat@);
                    assert(part@ =~= tail);
                    assert(views_of_strs(parts@.push(part))
                        =~= views_of_strs(parts@).push(part@));
                    assert(views_of_strs(parts@.push(part))
                        =~= split_at_pat(s@, pat@));
                }
                parts.push(part);
                break;
            },
        }
    }
    parts
}

/// Split a report buffer into its sections at the fixed delimiter.
/// Boundary sections, including empty ones, are preserved as-is.
pub fn split_sections(s: &str) -> (r: Vec<&str>)
    ensures
        views_of_strs(r@) == spec_sections(s@),
{
    let pat = "==============";
    proof {
        reveal_strlit("==============");
    }
    split_on(s, pat)
}

} // verus!
