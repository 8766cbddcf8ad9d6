//! Character-level searching over a document held as a sequence of chars.
use vstd::prelude::*;

verus! {

/// `pat` occurs in `s` starting at index `i`.
pub open spec fn matches_at(s: Seq<char>, pat: Seq<char>, i: int) -> bool {
    0 <= i && i + pat.len() <= s.len() && s.subrange(i, i + pat.len()) == pat
}

pub open spec fn starts_with(s: Seq<char>, pat: Seq<char>) -> bool {
    matches_at(s, pat, 0)
}

/// The first index at or after `i` where `pat` occurs in `s`.
pub open spec fn find_from(s: Seq<char>, pat: Seq<char>, i: int) -> Option<int>
    decreases s.len() + 1 - i,
{
    if i < 0 || i + pat.len() > s.len() {
        None
    } else if matches_at(s, pat, i) {
        Some(i)
    } else {
        find_from(s, pat, i + 1)
    }
}

pub open spec fn contains(s: Seq<char>, pat: Seq<char>) -> bool {
    find_from(s, pat, 0) is Some
}

/// What a successful search tells: the match, and no earlier one.
pub proof fn lemma_find_some(s: Seq<char>, pat: Seq<char>, i: int)
    requires
        find_from(s, pat, i) is Some,
    ensures
        i <= find_from(s, pat, i)->0,
        matches_at(s, pat, find_from(s, pat, i)->0),
        forall|j: int| i <= j < find_from(s, pat, i)->0 ==> !matches_at(s, pat, j),
    decreases s.len() + 1 - i,
{
    if !matches_at(s, pat, i) {
        lemma_find_some(s, pat, i + 1);
    }
}

/// A match at `k` with none in `[i, k)` is what the search finds.
pub proof fn lemma_find_first(s: Seq<char>, pat: Seq<char>, i: int, k: int)
    requires
        0 <= i <= k,
        matches_at(s, pat, k),
        forall|j: int| i <= j < k ==> !matches_at(s, pat, j),
    ensures
        find_from(s, pat, i) == Some(k),
    decreases k - i,
{
    if i < k {
        lemma_find_first(s, pat, i + 1, k);
    }
}

/// A match at `i` is found by a search that starts at or before `i`.
pub proof fn lemma_find_reaches(s: Seq<char>, pat: Seq<char>, from: int, i: int)
    requires
        0 <= from <= i,
        matches_at(s, pat, i),
    ensures
        find_from(s, pat, from) is Some,
        find_from(s, pat, from)->0 <= i,
    decreases i - from,
{
    if from < i && !matches_at(s, pat, from) {
        lemma_find_reaches(s, pat, from + 1, i);
    }
}

/// With no match at or after `i`, the search finds nothing.
pub proof fn lemma_find_none(s: Seq<char>, pat: Seq<char>, i: int)
    requires
        0 <= i,
        forall|j: int| i <= j ==> !matches_at(s, pat, j),
    ensures
        find_from(s, pat, i) is None,
    decreases s.len() + 1 - i,
{
    if i + pat.len() <= s.len() {
        lemma_find_none(s, pat, i + 1);
    }
}

/// Two texts that agree on their first `m` chars give the same search result,
/// where the first one finds a match that ends within those `m` chars.
pub proof fn lemma_find_same_prefix(s1: Seq<char>, s2: Seq<char>, pat: Seq<char>, i: int, m: int)
    requires
        0 <= i,
        m <= s1.len(),
        m <= s2.len(),
        s1.subrange(0, m) == s2.subrange(0, m),
        find_from(s1, pat, i) is Some,
        find_from(s1, pat, i)->0 + pat.len() <= m,
    ensures
        find_from(s2, pat, i) == find_from(s1, pat, i),
{
    let k = find_from(s1, pat, i)->0;
    lemma_find_some(s1, pat, i);
    assert forall|j: int| 0 <= j && j + pat.len() <= m implies matches_at(s1, pat, j) == matches_at(
        s2,
        pat,
        j,
    ) by {
        assert(s1.subrange(j, j + pat.len()) == s1.subrange(0, m).subrange(j, j + pat.len()));
        assert(s2.subrange(j, j + pat.len()) == s2.subrange(0, m).subrange(j, j + pat.len()));
    }
    lemma_find_first(s2, pat, i, k);
}

/// Whether `pat` occurs in `s` at `j`, where the match must end by `end`.
pub fn match_here(s: &Vec<char>, j: usize, end: usize, pat: &[char]) -> (r: bool)
    requires
        end <= s@.len(),
    ensures
        r == (j + pat@.len() <= end && s@.subrange(j as int, j + pat@.len()) == pat@),
{
    if j > end || pat.len() > end - j {
        return false;
    }
    let mut k: usize = 0;
    while k < pat.len()
        invariant
            j + pat@.len() <= end <= s@.len(),
            k <= pat@.len(),
            forall|t: int| 0 <= t < k ==> s@[j + t] == pat@[t],
        decreases pat@.len() - k,
    {
        if s[j + k] != pat[k] {
            assert(s@.subrange(j as int, j + pat@.len())[k as int] != pat@[k as int]);
            return false;
        }
        k = k + 1;
    }
    assert(s@.subrange(j as int, j + pat@.len()) =~= pat@);
    true
}

/// Searches the region `[start, end)` of `s`, from index `from` on, for `pat`.
/// Positions are absolute; the contract reads them relative to the region.
pub fn find_in(s: &Vec<char>, start: usize, end: usize, from: usize, pat: &[char]) -> (r: Option<
    usize,
>)
    requires
        start <= from,
        end <= s@.len(),
        start <= end,
    ensures
        match r {
            Some(x) => from <= x && x + pat@.len() <= end && find_from(
                s@.subrange(start as int, end as int),
                pat@,
                from - start,
            ) == Some(x - start),
            None => find_from(s@.subrange(start as int, end as int), pat@, from - start) is None,
        },
{
    let ghost g = s@.subrange(start as int, end as int);
    let mut j: usize = from;
    while j <= end && pat.len() <= end - j
        invariant
            start <= from <= j,
            start <= end <= s@.len(),
            start <= from <= j,
            g == s@.subrange(start as int, end as int),
            find_from(g, pat@, from - start) == find_from(g, pat@, j - start),
        decreases end + 1 - j,
    {
        let hit = match_here(s, j, end, pat);
        assert(g.subrange(j - start, j - start + pat@.len()) =~= s@.subrange(
            j as int,
            j + pat@.len(),
        ));
        if hit {
            return Some(j);
        }
        assert(find_from(g, pat@, j - start) == find_from(g, pat@, j - start + 1));
        if j == end {
            assert(find_from(g, pat@, j - start + 1) is None);
            return None;
        }
        j = j + 1;
    }
    None
}

/// The chars of `s`, one by one.
pub fn chars_of(s: &str) -> (r: Vec<char>)
    ensures
        r@ == s@,
{
    let mut r: Vec<char> = Vec::new();
    for c in it: s.chars()
        invariant
            r@ == it.seq().take(it.index() as int),
            it.seq() == s@,
    {
        r.push(c);
    }
    r
}

/// Relies on `String::push`, which appends one char at the end of the string.
#[verifier::external_body]
pub(crate) fn push_char(s: &mut String, c: char)
    ensures
        final(s)@ == old(s)@.push(c),
{
    s.push(c);
}

/// Appends the region `[start, end)` of `src` to `out`.
pub fn push_range(out: &mut String, src: &Vec<char>, start: usize, end: usize)
    requires
        start <= end <= src@.len(),
    ensures
        final(out)@ == old(out)@ + src@.subrange(start as int, end as int),
{
    let mut k: usize = start;
    while k < end
        invariant
            start <= k <= end <= src@.len(),
            out@ == old(out)@ + src@.subrange(start as int, k as int),
        decreases end - k,
    {
        push_char(out, src[k]);
        k = k + 1;
        assert(src@.subrange(start as int, k as int) =~= src@.subrange(start as int, k - 1).push(
            src@[k - 1],
        ));
    }
}

/// Appends the chars of `cs` to `out`.
pub fn push_chars(out: &mut String, cs: &[char])
    ensures
        final(out)@ == old(out)@ + cs@,
{
    let mut k: usize = 0;
    while k < cs.len()
        invariant
            k <= cs@.len(),
            out@ == old(out)@ + cs@.subrange(0, k as int),
        decreases cs@.len() - k,
    {
        push_char(out, cs[k]);
        k = k + 1;
        assert(cs@.subrange(0, k as int) =~= cs@.subrange(0, k - 1).push(cs@[k - 1]));
    }
    assert(cs@.subrange(0, cs@.len() as int) =~= cs@);
}

/// Appends all chars of `src` to `out`.
pub fn push_all(out: &mut String, src: &Vec<char>)
    ensures
        final(out)@ == old(out)@ + src@,
{
    push_range(out, src, 0, src.len());
    assert(src@.subrange(0, src@.len() as int) =~= src@);
}

} // verus!
