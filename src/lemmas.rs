//! What holds of reading and writing gold, over all documents.
use vstd::prelude::*;
use crate::gold::{
    field_of, amount_in, gold_entries, total_of, carrier_from, points_at, target_value,
    rewritten_segments, rewritten,
};
use crate::lsx::{
    segments, kinds, seg_kind, attr_value, lemma_segments, lemma_segments_of_flatten,
    lemma_with_value, well_cut,
};
use crate::number::{digits_of, amount_of_text, lemma_digits_of, lemma_amount_of_digits};
use crate::scan::{Frame, gold_items, lemma_run, owned, fields_fit};

verus! {

proof fn lemma_field_owned(f: Frame)
    requires
        field_of(f) is Some,
    ensures
        owned(f).contains(field_of(f)->0),
{
}

/// The segment that an item's own field names gets the amount meant for that
/// item, since no segment is the field of two items.
proof fn lemma_target_of_item(items: Seq<Frame>, i: int, c: int, t: nat, rest: nat)
    requires
        0 <= i < items.len(),
        field_of(items[i]) is Some,
        forall|a: int, b: int|
            0 <= a < b < items.len() ==> owned(items[a]).disjoint(owned(items[b])),
    ensures
        target_value(items, field_of(items[i])->0 as int, c, t, rest) == Some(
            if i == c {
                t
            } else {
                rest
            },
        ),
    decreases items.len(),
{
    let k = field_of(items[i])->0;
    if i < items.len() - 1 {
        let last = items[items.len() - 1];
        lemma_field_owned(items[i]);
        assert(owned(items[i]).disjoint(owned(last)));
        if points_at(last, k as int) {
            lemma_field_owned(last);
            assert(owned(last).contains(k));
        }
        let pre = items.drop_last();
        assert(pre[i] == items[i]);
        assert forall|a: int, b: int| 0 <= a < b < pre.len() implies owned(pre[a]).disjoint(
            owned(pre[b]),
        ) by {
            assert(pre[a] == items[a] && pre[b] == items[b]);
        }
        lemma_target_of_item(pre, i, c, t, rest);
    }
}

/// A segment that gets an amount is the field of some item.
proof fn lemma_target_owner(items: Seq<Frame>, k: int, c: int, t: nat, rest: nat) -> (j: int)
    requires
        target_value(items, k, c, t, rest) is Some,
    ensures
        0 <= j < items.len(),
        points_at(items[j], k),
    decreases items.len(),
{
    if points_at(items.last(), k) {
        items.len() - 1
    } else {
        let j = lemma_target_owner(items.drop_last(), k, c, t, rest);
        assert(items.drop_last()[j] == items[j]);
        j
    }
}

proof fn lemma_total_of_first(es: Seq<(Seq<char>, i32)>, t: int)
    requires
        es.len() > 0,
        es[0].1 == t,
        forall|i: int| 0 < i < es.len() ==> (#[trigger] es[i]).1 == 0,
    ensures
        total_of(es) == t,
    decreases es.len(),
{
    if es.len() > 1 {
        let pre = es.drop_last();
        assert forall|i: int| 0 < i < pre.len() implies (#[trigger] pre[i]).1 == 0 by {
            assert(pre[i] == es[i]);
        }
        assert(pre[0] == es[0]);
        lemma_total_of_first(pre, t);
        assert(es[es.len() - 1].1 == 0);
        assert(total_of(es) == total_of(pre) + es.last().1 as int);
    } else {
        assert(es.drop_last() =~= Seq::<(Seq<char>, i32)>::empty());
        assert(total_of(es) == total_of(es.drop_last()) + es.last().1 as int);
    }
}

/// Writing a total `t` with the other stacks set to zero, then reading the
/// document, finds the same gold items and the total `t`. This holds for a
/// document with at least one gold item, each of them with an amount field.
pub proof fn lemma_write_then_read(s: Seq<char>, t: nat)
    requires
        s.len() <= usize::MAX,
        t <= i32::MAX,
        gold_items(s).len() > 0,
        forall|i: int| 0 <= i < gold_items(s).len() ==> field_of(#[trigger] gold_items(s)[i]) is Some,
    ensures
        gold_items(rewritten(s, t, 0)) == gold_items(s),
        gold_entries(rewritten(s, t, 0)).len() == gold_entries(s).len(),
        total_of(gold_entries(rewritten(s, t, 0))) == t,
{
    let segs = segments(s);
    let ks = kinds(segs);
    lemma_segments(s);
    lemma_run(ks);
    let items = gold_items(s);
    assert(carrier_from(items, 0) == Some(0int));
    let news = rewritten_segments(s, t, 0);
    assert forall|k: int| 0 <= k < news.len() implies {
        &&& seg_kind(#[trigger] news[k]) == seg_kind(segs[k])
        &&& news[k].len() > 0
        &&& forall|i: int| 1 <= i < news[k].len() ==> news[k][i] != '<'
        &&& k > 0 ==> news[k][0] == '<'
        &&& target_value(items, k, 0, t, 0) matches Some(v) ==> attr_value(news[k]) == Some(
            digits_of(v),
        )
    } by {
        match target_value(items, k, 0, t, 0) {
            Some(v) => {
                let j = lemma_target_owner(items, k, 0, t, 0);
                assert(fields_fit(items[j], ks));
                assert(ks[k] == seg_kind(segs[k]));
                lemma_digits_of(v);
                lemma_with_value(segs[k], digits_of(v));
            },
            None => {},
        }
    }
    assert(well_cut(news));
    lemma_segments_of_flatten(news);
    assert(kinds(news) =~= ks);
    let r = rewritten(s, t, 0);
    assert(segments(r) == news);
    assert(gold_items(r) == items);
    let es = gold_entries(r);
    assert forall|i: int| 0 <= i < es.len() implies (#[trigger] es[i]).1 == (if i == 0 {
        t as int
    } else {
        0
    }) by {
        let f = items[i];
        let k = field_of(f)->0;
        lemma_target_of_item(items, i, 0, t, 0);
        let v: nat = if i == 0 {
            t
        } else {
            0
        };
        assert(fields_fit(f, ks));
        lemma_amount_of_digits(v);
        assert(amount_in(news, f) == v);
    }
    lemma_total_of_first(es, t as int);
}

/// A document without gold items reads as a total of 0 with no entries.
pub proof fn lemma_no_gold(s: Seq<char>)
    requires
        gold_items(s).len() == 0,
    ensures
        gold_entries(s).len() == 0,
        total_of(gold_entries(s)) == 0,
{
}

/// Reading depends on the document alone: the same text reads the same, each
/// time it is read.
pub proof fn lemma_read_twice(s1: Seq<char>, s2: Seq<char>)
    requires
        s1 == s2,
    ensures
        gold_entries(s1) == gold_entries(s2),
        total_of(gold_entries(s1)) == total_of(gold_entries(s2)),
{
}

/// An item without the stack-specific field reads its coarse field; one with
/// neither reads 1.
pub proof fn lemma_amount_fallback(segs: Seq<Seq<char>>, f: Frame)
    ensures
        f.stack_field is None && f.amount_field is Some ==> amount_in(segs, f) == match attr_value(
            segs[f.amount_field->0 as int],
        ) {
            Some(v) => amount_of_text(v),
            None => 1,
        },
        f.stack_field is None && f.amount_field is None ==> amount_in(segs, f) == 1,
{
}

} // verus!
