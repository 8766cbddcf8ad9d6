//! The markup of a converted save: a document cut into tag segments, and what
//! each segment is.
//!
//! A segment starts at a `<` and runs up to the next `<` (the first segment
//! starts at the beginning of the document). Every tag of the markup, with the
//! text that follows it, is one segment, since attribute values escape `<`.
use vstd::prelude::*;
use crate::text::{find_from, matches_at, starts_with, contains, find_in, match_here};
use crate::text::{lemma_find_some, lemma_find_first, lemma_find_none, lemma_find_same_prefix, lemma_find_reaches};
use crate::number::all_digits;

verus! {

pub open spec fn lt_mark() -> Seq<char> {
    seq!['<']
}

pub open spec fn quote_mark() -> Seq<char> {
    seq!['"']
}

pub open spec fn gt_mark() -> Seq<char> {
    seq!['>']
}

pub open spec fn close_mark() -> Seq<char> {
    seq!['<', '/', 'n', 'o', 'd', 'e', '>']
}

pub open spec fn item_list_mark() -> Seq<char> {
    seq!['<', 'n', 'o', 'd', 'e', ' ', 'i', 'd', '=', '"', 'I', 't', 'e', 'm', 'L', 'i', 's', 't', '"', '>']
}

pub open spec fn item_mark() -> Seq<char> {
    seq!['<', 'n', 'o', 'd', 'e', ' ', 'i', 'd', '=', '"', 'I', 't', 'e', 'm', '"', '>']
}

pub open spec fn node_mark() -> Seq<char> {
    seq!['<', 'n', 'o', 'd', 'e', ' ']
}

pub open spec fn attribute_mark() -> Seq<char> {
    seq!['<', 'a', 't', 't', 'r', 'i', 'b', 'u', 't', 'e', ' ', 'i', 'd', '=', '"']
}

pub open spec fn value_mark() -> Seq<char> {
    seq!['v', 'a', 'l', 'u', 'e', '=', '"']
}

pub open spec fn loot_tag() -> Seq<char> {
    seq!['L', 'O', 'O', 'T', '_', 'G', 'o', 'l', 'd']
}

pub open spec fn obj_tag() -> Seq<char> {
    seq!['O', 'B', 'J', '_', 'G', 'o', 'l', 'd']
}

/// The stack-specific amount field.
pub open spec fn stack_amount_id() -> Seq<char> {
    seq!['S', 't', 'a', 'c', 'k', 'A', 'm', 'o', 'u', 'n', 't']
}

/// The coarse amount field.
pub open spec fn amount_id() -> Seq<char> {
    seq!['A', 'm', 'o', 'u', 'n', 't']
}

/// The display-name field.
pub open spec fn name_id() -> Seq<char> {
    seq!['I', 't', 'e', 'm', 'N', 'a', 'm', 'e']
}

/// The length of the segment that starts `s`.
pub open spec fn segment_len(s: Seq<char>) -> int {
    match find_from(s, lt_mark(), 1) {
        Some(k) => k,
        None => s.len() as int,
    }
}

/// The document cut before each `<`.
pub open spec fn segments(s: Seq<char>) -> Seq<Seq<char>>
    decreases s.len(),
{
    if s.len() == 0 {
        Seq::empty()
    } else {
        let j = segment_len(s);
        if 1 <= j <= s.len() {
            seq![s.subrange(0, j)] + segments(s.subrange(j, s.len() as int))
        } else {
            seq![s]
        }
    }
}

/// Segments as `segments` cuts them: none empty, a `<` only at the start, and
/// every one but the first starting with `<`.
pub open spec fn well_cut(segs: Seq<Seq<char>>) -> bool {
    forall|k: int|
        0 <= k < segs.len() ==> {
            &&& (#[trigger] segs[k]).len() > 0
            &&& forall|i: int| 1 <= i < segs[k].len() ==> segs[k][i] != '<'
            &&& k > 0 ==> segs[k][0] == '<'
        }
}

/// The role of an attribute in the item node that holds it.
#[derive(Clone, Copy, Debug)]
pub enum Role {
    StackAmount,
    Amount,
    Name,
    Other,
}

/// What a segment is, as far as locating gold goes.
#[derive(Clone, Copy, Debug)]
pub enum SegKind {
    /// `</node>`
    Close,
    /// `<node id="Item">`
    OpenItem,
    /// `<node id="ItemList">`
    OpenList,
    /// any other node that is not closed in its own tag
    OpenOther,
    /// an attribute; `gold` when it names a currency tag
    Attr { role: Role, gold: bool },
    /// anything else
    Plain,
}

/// Where the value of an attribute segment lies: after the first `value="`
/// that follows the attribute's id, up to the next quote.
pub open spec fn value_bounds(g: Seq<char>) -> Option<(int, int)> {
    if !starts_with(g, attribute_mark()) {
        None
    } else {
        match find_from(g, quote_mark(), 15) {
            None => None,
            Some(e) => match find_from(g, value_mark(), e + 1) {
                None => None,
                Some(v) => match find_from(g, quote_mark(), v + 7) {
                    None => None,
                    Some(w) => Some((v + 7, w)),
                },
            },
        }
    }
}

pub open spec fn attr_value(g: Seq<char>) -> Option<Seq<char>> {
    match value_bounds(g) {
        Some((a, b)) => Some(g.subrange(a, b)),
        None => None,
    }
}

/// The id of an attribute segment that has a value.
pub open spec fn attr_id(g: Seq<char>) -> Seq<char> {
    g.subrange(15, find_from(g, quote_mark(), 15)->0)
}

pub open spec fn role_of(g: Seq<char>) -> Role {
    if value_bounds(g) is None {
        Role::Other
    } else if attr_id(g) == stack_amount_id() {
        Role::StackAmount
    } else if attr_id(g) == amount_id() {
        Role::Amount
    } else if attr_id(g) == name_id() {
        Role::Name
    } else {
        Role::Other
    }
}

pub open spec fn is_amount_role(r: Role) -> bool {
    r is StackAmount || r is Amount
}

pub open spec fn holds_gold_tag(g: Seq<char>) -> bool {
    contains(g, loot_tag()) || contains(g, obj_tag())
}

/// A tag written `<... />`.
pub open spec fn self_closing(g: Seq<char>) -> bool {
    match find_from(g, gt_mark(), 0) {
        Some(k) => k > 0 && g[k - 1] == '/',
        None => false,
    }
}

pub open spec fn seg_kind(g: Seq<char>) -> SegKind {
    if starts_with(g, close_mark()) {
        SegKind::Close
    } else if starts_with(g, item_list_mark()) {
        SegKind::OpenList
    } else if starts_with(g, item_mark()) {
        SegKind::OpenItem
    } else if starts_with(g, node_mark()) && !self_closing(g) {
        SegKind::OpenOther
    } else if starts_with(g, attribute_mark()) {
        SegKind::Attr {
            role: role_of(g),
            gold: !is_amount_role(role_of(g)) && holds_gold_tag(g),
        }
    } else {
        SegKind::Plain
    }
}

pub open spec fn kinds(segs: Seq<Seq<char>>) -> Seq<SegKind> {
    segs.map_values(|g: Seq<char>| seg_kind(g))
}

/// An amount attribute segment with `d` written in place of its value.
pub open spec fn with_value(g: Seq<char>, d: Seq<char>) -> Seq<char> {
    match value_bounds(g) {
        Some((a, b)) => g.subrange(0, a) + d + g.subrange(b, g.len() as int),
        None => g,
    }
}

proof fn lemma_segment_len(s: Seq<char>)
    requires
        s.len() > 0,
    ensures
        1 <= segment_len(s) <= s.len(),
        forall|i: int| 1 <= i < segment_len(s) ==> s[i] != '<',
        segment_len(s) < s.len() ==> s[segment_len(s)] == '<',
{
    match find_from(s, lt_mark(), 1) {
        Some(k) => {
            lemma_find_some(s, lt_mark(), 1);
            assert forall|i: int| 1 <= i < k implies s[i] != '<' by {
                assert(!matches_at(s, lt_mark(), i));
                if s[i] == '<' {
                    assert(s.subrange(i, i + 1) =~= lt_mark());
                }
            }
            assert(s.subrange(k, k + 1)[0] == s[k]);
        },
        None => {
            assert forall|i: int| 1 <= i < s.len() implies s[i] != '<' by {
                if s[i] == '<' {
                    assert(s.subrange(i, i + 1) =~= lt_mark());
                    lemma_find_reaches(s, lt_mark(), 1, i);
                }
            }
        },
    }
}

/// Cutting a document loses nothing and cuts it well.
pub proof fn lemma_segments(s: Seq<char>)
    ensures
        segments(s).flatten() == s,
        well_cut(segments(s)),
        segments(s).len() <= s.len(),
    decreases s.len(),
{
    if s.len() > 0 {
        lemma_segment_len(s);
        let j = segment_len(s);
        let head = s.subrange(0, j);
        let tail = s.subrange(j, s.len() as int);
        lemma_segments(tail);
        let rest = segments(tail);
        let segs = seq![head] + rest;
        assert(segs.drop_first() =~= rest);
        assert(segs.first() == head);
        assert(head + tail =~= s);
        assert forall|k: int| 0 <= k < segs.len() implies {
            &&& (#[trigger] segs[k]).len() > 0
            &&& forall|i: int| 1 <= i < segs[k].len() ==> segs[k][i] != '<'
            &&& k > 0 ==> segs[k][0] == '<'
        } by {
            if k > 0 {
                assert(segs[k] == rest[k - 1]);
                if k == 1 {
                    lemma_first_of_flatten(rest);
                }
            }
        }
    }
}

proof fn lemma_first_of_flatten(segs: Seq<Seq<char>>)
    requires
        segs.len() > 0,
        segs[0].len() > 0,
    ensures
        segs.flatten().len() > 0,
        segs.flatten()[0] == segs[0][0],
{
    assert(segs.flatten() == segs.first() + segs.drop_first().flatten());
}

/// Well-cut segments, joined and cut again, come back as they were.
pub proof fn lemma_segments_of_flatten(segs: Seq<Seq<char>>)
    requires
        well_cut(segs),
    ensures
        segments(segs.flatten()) == segs,
    decreases segs.len(),
{
    if segs.len() > 0 {
        let head = segs[0];
        let rest = segs.drop_first();
        assert forall|k: int| 0 <= k < rest.len() implies {
            &&& (#[trigger] rest[k]).len() > 0
            &&& forall|i: int| 1 <= i < rest[k].len() ==> rest[k][i] != '<'
            &&& k > 0 ==> rest[k][0] == '<'
        } by {
            assert(rest[k] == segs[k + 1]);
        }
        lemma_segments_of_flatten(rest);
        let s = segs.flatten();
        let f = rest.flatten();
        assert(s == head + f);
        assert(head.len() > 0);
        // The first segment ends where the next `<` stands.
        assert forall|i: int| 1 <= i < head.len() implies !matches_at(s, lt_mark(), i) by {
            assert(s[i] == head[i]);
            assert(s.subrange(i, i + 1)[0] == s[i]);
        }
        if rest.len() > 0 {
            assert(rest[0] == segs[1]);
            lemma_first_of_flatten(rest);
            assert(s[head.len() as int] == f[0]);
            assert(s.subrange(head.len() as int, head.len() + 1 as int) =~= lt_mark());
            lemma_find_first(s, lt_mark(), 1, head.len() as int);
        } else {
            assert(f =~= Seq::<char>::empty());
            lemma_find_none(s, lt_mark(), 1);
        }
        assert(segment_len(s) == head.len());
        assert(s.subrange(0, head.len() as int) =~= head);
        assert(s.subrange(head.len() as int, s.len() as int) =~= f);
        assert(segments(s) =~= seq![head] + rest);
    }
}

proof fn lemma_same_start(g1: Seq<char>, g2: Seq<char>, p: Seq<char>, m: int)
    requires
        p.len() <= m <= g1.len(),
        m <= g2.len(),
        g1.subrange(0, m) == g2.subrange(0, m),
    ensures
        starts_with(g1, p) == starts_with(g2, p),
{
    assert(g1.subrange(0, p.len() as int) =~= g1.subrange(0, m).subrange(0, p.len() as int));
    assert(g2.subrange(0, p.len() as int) =~= g2.subrange(0, m).subrange(0, p.len() as int));
}

/// Writing digits into an amount field keeps what the segment is, and the
/// field then holds those digits.
pub proof fn lemma_with_value(g: Seq<char>, d: Seq<char>)
    requires
        seg_kind(g) is Attr,
        is_amount_role(role_of(g)),
        all_digits(d),
    ensures
        seg_kind(with_value(g, d)) == seg_kind(g),
        role_of(with_value(g, d)) == role_of(g),
        attr_value(with_value(g, d)) == Some(d),
        with_value(g, d).len() > 0,
        with_value(g, d)[0] == g[0],
        (forall|i: int| 1 <= i < g.len() ==> g[i] != '<') ==> (forall|i: int|
            1 <= i < with_value(g, d).len() ==> with_value(g, d)[i] != '<'),
{
    let (a, b) = value_bounds(g)->0;
    let e = find_from(g, quote_mark(), 15)->0;
    let v = find_from(g, value_mark(), e + 1)->0;
    lemma_find_some(g, quote_mark(), 15);
    lemma_find_some(g, value_mark(), e + 1);
    lemma_find_some(g, quote_mark(), v + 7);
    let n = with_value(g, d);
    let pre = g.subrange(0, a);
    let post = g.subrange(b, g.len() as int);
    assert(n == pre + d + post);
    assert(n.subrange(0, a) =~= g.subrange(0, a));
    assert(a >= 23);
    lemma_same_start(g, n, close_mark(), a);
    lemma_same_start(g, n, item_list_mark(), a);
    lemma_same_start(g, n, item_mark(), a);
    lemma_same_start(g, n, node_mark(), a);
    lemma_same_start(g, n, attribute_mark(), a);
    lemma_find_same_prefix(g, n, quote_mark(), 15, a);
    lemma_find_same_prefix(g, n, value_mark(), e + 1, a);
    // The new value ends at the quote that ended the old one.
    assert(g.subrange(b, b + 1) == quote_mark());
    assert(n[a + d.len()] == g[b]);
    assert(n.subrange(a + d.len(), a + d.len() + 1) =~= g.subrange(b, b + 1));
    assert forall|j: int| a <= j < a + d.len() implies !matches_at(n, quote_mark(), j) by {
        assert(n[j] == d[j - a]);
        assert(n.subrange(j, j + 1)[0] == n[j]);
    }
    lemma_find_first(n, quote_mark(), a, a + d.len());
    assert(value_bounds(n) == Some((a, a + d.len())));
    assert(n.subrange(15, e) =~= g.subrange(15, e));
    assert(attr_id(n) == attr_id(g));
    assert(n.subrange(a, a + d.len()) =~= d);
    assert(n[0] == g[0]);
    if forall|i: int| 1 <= i < g.len() ==> g[i] != '<' {
        assert forall|i: int| 1 <= i < n.len() implies n[i] != '<' by {
            if i < a {
                assert(n[i] == g[i]);
            } else if i < a + d.len() {
                assert(n[i] == d[i - a]);
            } else {
                assert(n[i] == g[i - a - d.len() + b]);
            }
        }
    }
}

fn lt_chars() -> (r: [char; 1])
    ensures
        r@ == lt_mark(),
{
    ['<']
}

fn quote_chars() -> (r: [char; 1])
    ensures
        r@ == quote_mark(),
{
    ['"']
}

fn gt_chars() -> (r: [char; 1])
    ensures
        r@ == gt_mark(),
{
    ['>']
}

fn close_chars() -> (r: [char; 7])
    ensures
        r@ == close_mark(),
{
    ['<', '/', 'n', 'o', 'd', 'e', '>']
}

fn item_list_chars() -> (r: [char; 20])
    ensures
        r@ == item_list_mark(),
{
    ['<', 'n', 'o', 'd', 'e', ' ', 'i', 'd', '=', '"', 'I', 't', 'e', 'm', 'L', 'i', 's', 't', '"', '>']
}

fn item_chars() -> (r: [char; 16])
    ensures
        r@ == item_mark(),
{
    ['<', 'n', 'o', 'd', 'e', ' ', 'i', 'd', '=', '"', 'I', 't', 'e', 'm', '"', '>']
}

fn node_chars() -> (r: [char; 6])
    ensures
        r@ == node_mark(),
{
    ['<', 'n', 'o', 'd', 'e', ' ']
}

fn attribute_chars() -> (r: [char; 15])
    ensures
        r@ == attribute_mark(),
{
    ['<', 'a', 't', 't', 'r', 'i', 'b', 'u', 't', 'e', ' ', 'i', 'd', '=', '"']
}

fn value_chars() -> (r: [char; 7])
    ensures
        r@ == value_mark(),
{
    ['v', 'a', 'l', 'u', 'e', '=', '"']
}

fn loot_chars() -> (r: [char; 9])
    ensures
        r@ == loot_tag(),
{
    ['L', 'O', 'O', 'T', '_', 'G', 'o', 'l', 'd']
}

fn obj_chars() -> (r: [char; 8])
    ensures
        r@ == obj_tag(),
{
    ['O', 'B', 'J', '_', 'G', 'o', 'l', 'd']
}

fn stack_amount_chars() -> (r: [char; 11])
    ensures
        r@ == stack_amount_id(),
{
    ['S', 't', 'a', 'c', 'k', 'A', 'm', 'o', 'u', 'n', 't']
}

fn amount_chars() -> (r: [char; 6])
    ensures
        r@ == amount_id(),
{
    ['A', 'm', 'o', 'u', 'n', 't']
}

fn name_chars() -> (r: [char; 8])
    ensures
        r@ == name_id(),
{
    ['I', 't', 'e', 'm', 'N', 'a', 'm', 'e']
}

/// Whether the region `[start, end)` of `s` starts with `pat`.
fn starts_here(s: &Vec<char>, start: usize, end: usize, pat: &[char]) -> (r: bool)
    requires
        start <= end <= s@.len(),
    ensures
        r == starts_with(s@.subrange(start as int, end as int), pat@),
{
    let r = match_here(s, start, end, pat);
    if pat.len() <= end - start {
        assert(s@.subrange(start as int, end as int).subrange(0, pat@.len() as int)
            =~= s@.subrange(start as int, start + pat@.len()));
    }
    r
}

/// Where the segment that starts at `start` ends.
pub fn segment_end(s: &Vec<char>, start: usize) -> (r: usize)
    requires
        start < s@.len(),
    ensures
        start < r <= s@.len(),
        r - start == segment_len(s@.subrange(start as int, s@.len() as int)),
{
    let lt = lt_chars();
    match find_in(s, start, s.len(), start + 1, &lt) {
        Some(x) => x,
        None => s.len(),
    }
}

/// The bounds of the value of the attribute segment `[start, end)` of `s`.
pub fn value_range(s: &Vec<char>, start: usize, end: usize) -> (r: Option<(usize, usize)>)
    requires
        start <= end <= s@.len(),
    ensures
        match r {
            Some((a, b)) => start <= a <= b <= end && value_bounds(
                s@.subrange(start as int, end as int),
            ) == Some(((a - start) as int, (b - start) as int)),
            None => value_bounds(s@.subrange(start as int, end as int)) is None,
        },
{
    let ghost g = s@.subrange(start as int, end as int);
    let attribute = attribute_chars();
    if !starts_here(s, start, end, &attribute) {
        return None;
    }
    let quote = quote_chars();
    let value = value_chars();
    let e = match find_in(s, start, end, start + 15, &quote) {
        Some(e) => e,
        None => return None,
    };
    proof {
        lemma_find_some(g, quote_mark(), 15);
    }
    let v = match find_in(s, start, end, e + 1, &value) {
        Some(v) => v,
        None => return None,
    };
    proof {
        lemma_find_some(g, value_mark(), e + 1 - start);
    }
    match find_in(s, start, end, v + 7, &quote) {
        Some(w) => {
            proof {
                lemma_find_some(g, quote_mark(), v + 7 - start);
            }
            Some((v + 7, w))
        },
        None => None,
    }
}

/// Whether the region `[a, b)` of `s` spells `word`.
fn spells(s: &Vec<char>, a: usize, b: usize, word: &[char]) -> (r: bool)
    requires
        a <= b <= s@.len(),
    ensures
        r == (s@.subrange(a as int, b as int) == word@),
{
    if b - a != word.len() {
        return false;
    }
    match_here(s, a, b, word)
}

fn role_in(s: &Vec<char>, start: usize, end: usize) -> (r: Role)
    requires
        start <= end <= s@.len(),
        starts_with(s@.subrange(start as int, end as int), attribute_mark()),
    ensures
        r == role_of(s@.subrange(start as int, end as int)),
{
    let ghost g = s@.subrange(start as int, end as int);
    if value_range(s, start, end).is_none() {
        return Role::Other;
    }
    let quote = quote_chars();
    let e = match find_in(s, start, end, start + 15, &quote) {
        Some(e) => e,
        None => return Role::Other,
    };
    assert(attr_id(g) =~= s@.subrange(start + 15, e as int));
    let stack = stack_amount_chars();
    let amount = amount_chars();
    let name = name_chars();
    if spells(s, start + 15, e, &stack) {
        Role::StackAmount
    } else if spells(s, start + 15, e, &amount) {
        Role::Amount
    } else if spells(s, start + 15, e, &name) {
        Role::Name
    } else {
        Role::Other
    }
}

fn holds_tag_in(s: &Vec<char>, start: usize, end: usize) -> (r: bool)
    requires
        start <= end <= s@.len(),
    ensures
        r == holds_gold_tag(s@.subrange(start as int, end as int)),
{
    let loot = loot_chars();
    let obj = obj_chars();
    find_in(s, start, end, start, &loot).is_some() || find_in(s, start, end, start, &obj).is_some()
}

fn self_closing_in(s: &Vec<char>, start: usize, end: usize) -> (r: bool)
    requires
        start <= end <= s@.len(),
    ensures
        r == self_closing(s@.subrange(start as int, end as int)),
{
    let gt = gt_chars();
    match find_in(s, start, end, start, &gt) {
        Some(x) => x > start && s[x - 1] == '/',
        None => false,
    }
}

/// What the segment `[start, end)` of `s` is.
pub fn kind_of(s: &Vec<char>, start: usize, end: usize) -> (r: SegKind)
    requires
        start <= end <= s@.len(),
    ensures
        r == seg_kind(s@.subrange(start as int, end as int)),
{
    let close = close_chars();
    let item_list = item_list_chars();
    let item = item_chars();
    let node = node_chars();
    let attribute = attribute_chars();
    if starts_here(s, start, end, &close) {
        SegKind::Close
    } else if starts_here(s, start, end, &item_list) {
        SegKind::OpenList
    } else if starts_here(s, start, end, &item) {
        SegKind::OpenItem
    } else if starts_here(s, start, end, &node) && !self_closing_in(s, start, end) {
        SegKind::OpenOther
    } else if starts_here(s, start, end, &attribute) {
        let role = role_in(s, start, end);
        let amount_role = match role {
            Role::StackAmount => true,
            Role::Amount => true,
            _ => false,
        };
        SegKind::Attr { role, gold: !amount_role && holds_tag_in(s, start, end) }
    } else {
        SegKind::Plain
    }
}

} // verus!
