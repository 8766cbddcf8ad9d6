//! The gold that a document holds: reading the total, and writing a new one.
//!
//! Both directions go through the same pass (`scan_items`), so the items that a
//! read counts and the fields that a write changes are the same ones.
use vstd::prelude::*;
use crate::lsx::{segments, kinds, attr_value, value_range, with_value, lemma_segments};
use crate::number::{amount_of_text, digits_of, parse_amount, push_digits};
use crate::scan::{Frame, gold_items, scan_items, lemma_run, fields_fit};
use crate::text::{chars_of, push_range, push_chars};

verus! {

/// One gold item as shown to the user.
pub struct GoldItemDisplay {
    pub name: String,
    pub amount: i32,
}

impl View for GoldItemDisplay {
    type V = (Seq<char>, i32);

    open spec fn view(&self) -> (Seq<char>, i32) {
        (self.name@, self.amount)
    }
}

/// The gold of a document: the sum of all amounts, and the items one by one.
pub struct SaveState {
    pub total_gold: i128,
    pub items: Vec<GoldItemDisplay>,
}

/// Why a new total could not be written.
#[derive(Clone, Copy, Debug, PartialEq, Eq, Structural)]
pub enum GoldError {
    /// The requested total is below zero.
    Negative,
    /// The document holds no gold item to carry the total.
    NoGold,
    /// Gold items exist, but none has an amount field to write.
    NotWritable,
}

/// What the stacks other than the one that carries the total are set to.
#[derive(Clone, Copy, Debug, PartialEq, Eq, Structural)]
pub enum LeftoverPolicy {
    Zero,
    One,
}

pub open spec fn leftover_value(p: LeftoverPolicy) -> nat {
    match p {
        LeftoverPolicy::Zero => 0,
        LeftoverPolicy::One => 1,
    }
}

/// The field that holds an item's amount: the stack-specific one where the
/// item has it, else the coarse one.
pub open spec fn field_of(f: Frame) -> Option<usize> {
    if f.stack_field is Some {
        f.stack_field
    } else {
        f.amount_field
    }
}

pub open spec fn amount_in(segs: Seq<Seq<char>>, f: Frame) -> i32 {
    match field_of(f) {
        Some(k) => match attr_value(segs[k as int]) {
            Some(v) => amount_of_text(v),
            None => 1,
        },
        None => 1,
    }
}

pub open spec fn default_name() -> Seq<char> {
    seq!['G', 'o', 'l', 'd']
}

pub open spec fn name_in(segs: Seq<Seq<char>>, f: Frame) -> Seq<char> {
    match f.name_field {
        Some(k) => match attr_value(segs[k as int]) {
            Some(v) => v,
            None => default_name(),
        },
        None => default_name(),
    }
}

/// Name and amount of each gold item of a document.
pub open spec fn gold_entries(s: Seq<char>) -> Seq<(Seq<char>, i32)> {
    gold_items(s).map_values(|f: Frame| (name_in(segments(s), f), amount_in(segments(s), f)))
}

pub open spec fn total_of(es: Seq<(Seq<char>, i32)>) -> int
    decreases es.len(),
{
    if es.len() == 0 {
        0
    } else {
        total_of(es.drop_last()) + es.last().1 as int
    }
}

/// The first gold item at or after `i` that has an amount field.
pub open spec fn carrier_from(items: Seq<Frame>, i: int) -> Option<int>
    decreases items.len() - i,
{
    if i < 0 || i >= items.len() {
        None
    } else if field_of(items[i]) is Some {
        Some(i)
    } else {
        carrier_from(items, i + 1)
    }
}

pub open spec fn points_at(f: Frame, k: int) -> bool {
    match field_of(f) {
        Some(x) => x as int == k,
        None => false,
    }
}

/// The amount written into segment `k`, where it is the field of a gold item:
/// `t` for the item `c`, `rest` for the others.
pub open spec fn target_value(items: Seq<Frame>, k: int, c: int, t: nat, rest: nat) -> Option<nat>
    decreases items.len(),
{
    if items.len() == 0 {
        None
    } else if points_at(items.last(), k) {
        Some(
            if items.len() - 1 == c {
                t
            } else {
                rest
            },
        )
    } else {
        target_value(items.drop_last(), k, c, t, rest)
    }
}

pub open spec fn rewritten_segments(s: Seq<char>, t: nat, rest: nat) -> Seq<Seq<char>> {
    let segs = segments(s);
    let items = gold_items(s);
    let c = match carrier_from(items, 0) {
        Some(c) => c,
        None => -1,
    };
    Seq::new(
        segs.len(),
        |k: int|
            match target_value(items, k, c, t, rest) {
                Some(v) => with_value(segs[k], digits_of(v)),
                None => segs[k],
            },
    )
}

/// The document with the total `t` written into the first gold item that has
/// an amount field, and `rest` into the amount fields of the other gold items.
pub open spec fn rewritten(s: Seq<char>, t: nat, rest: nat) -> Seq<char> {
    rewritten_segments(s, t, rest).flatten()
}

pub open spec fn bounds_fit(s: Seq<char>, bounds: Seq<(usize, usize)>) -> bool {
    &&& bounds.len() == segments(s).len()
    &&& forall|k: int|
        0 <= k < bounds.len() ==> {
            &&& (#[trigger] bounds[k]).0 <= bounds[k].1 <= s.len()
            &&& s.subrange(bounds[k].0 as int, bounds[k].1 as int) == segments(s)[k]
        }
}

proof fn lemma_items_fit(s: Seq<char>)
    requires
        s.len() <= usize::MAX,
    ensures
        forall|i: int|
            0 <= i < gold_items(s).len() ==> fields_fit(#[trigger] gold_items(s)[i], kinds(segments(s))),
        kinds(segments(s)).len() == segments(s).len(),
{
    lemma_segments(s);
    lemma_run(kinds(segments(s)));
}

/// The value of the attribute segment `k`, as a region of `s`.
fn field_range(s: &Vec<char>, bounds: &Vec<(usize, usize)>, k: usize) -> (r: Option<(usize, usize)>)
    requires
        bounds_fit(s@, bounds@),
        k < bounds@.len(),
    ensures
        match r {
            Some((a, b)) => a <= b <= s@.len() && attr_value(segments(s@)[k as int]) == Some(
                s@.subrange(a as int, b as int),
            ),
            None => attr_value(segments(s@)[k as int]) is None,
        },
{
    let (start, end) = bounds[k];
    let r = value_range(s, start, end);
    match r {
        Some((a, b)) => {
            assert(s@.subrange(start as int, end as int).subrange(a - start, b - start)
                =~= s@.subrange(a as int, b as int));
        },
        None => {},
    }
    r
}

fn item_amount(s: &Vec<char>, bounds: &Vec<(usize, usize)>, f: Frame) -> (r: i32)
    requires
        bounds_fit(s@, bounds@),
        fields_fit(f, kinds(segments(s@))),
    ensures
        r == amount_in(segments(s@), f),
{
    let field = if f.stack_field.is_some() {
        f.stack_field
    } else {
        f.amount_field
    };
    match field {
        Some(k) => match field_range(s, bounds, k) {
            Some((a, b)) => parse_amount(s, a, b),
            None => 1,
        },
        None => 1,
    }
}

fn item_name(s: &Vec<char>, bounds: &Vec<(usize, usize)>, f: Frame) -> (r: String)
    requires
        bounds_fit(s@, bounds@),
        fields_fit(f, kinds(segments(s@))),
    ensures
        r@ == name_in(segments(s@), f),
{
    let mut out = String::new();
    let mut found = false;
    if let Some(k) = f.name_field {
        if let Some((a, b)) = field_range(s, bounds, k) {
            push_range(&mut out, s, a, b);
            found = true;
        }
    }
    if !found {
        push_chars(&mut out, &['G', 'o', 'l', 'd']);
    }
    out
}

/// Finds every gold item of `content` and sums their amounts. The document is
/// only read; a document without gold gives a total of 0 and no items.
pub fn get_gold_info(content: &str) -> (r: SaveState)
    ensures
        r.items@.len() == gold_entries(content@).len(),
        forall|i: int| 0 <= i < r.items@.len() ==> (#[trigger] r.items@[i])@ == gold_entries(content@)[i],
        r.total_gold == total_of(gold_entries(content@)),
{
    let s = chars_of(content);
    let (bounds, frames) = scan_items(&s);
    let ghost n = s.len();
    proof {
        lemma_items_fit(s@);
    }
    let ghost es = gold_entries(s@);
    let mut items: Vec<GoldItemDisplay> = Vec::new();
    let mut total: i128 = 0;
    let mut i: usize = 0;
    while i < frames.len()
        invariant
            frames@ == gold_items(s@),
            bounds_fit(s@, bounds@),
            es == gold_entries(s@),
            es.len() == frames@.len(),
            forall|j: int| 0 <= j < frames@.len() ==> fields_fit(#[trigger] frames@[j], kinds(segments(s@))),
            i <= frames@.len(),
            items@.len() == i,
            forall|j: int| 0 <= j < i ==> (#[trigger] items@[j])@ == es[j],
            total == total_of(es.take(i as int)),
            -(i as int) * 2147483648 <= total <= (i as int) * 2147483648,
        decreases frames@.len() - i,
    {
        let f = frames[i];
        let amount = item_amount(&s, &bounds, f);
        let name = item_name(&s, &bounds, f);
        assert(es.take(i + 1).drop_last() =~= es.take(i as int));
        total = total + amount as i128;
        items.push(GoldItemDisplay { name, amount });
        i = i + 1;
    }
    assert(es.take(i as int) =~= es);
    SaveState { total_gold: total, items }
}

/// The total gold of `content`.
pub fn parse_and_sum_gold(content: &str) -> (r: i128)
    ensures
        r == total_of(gold_entries(content@)),
{
    get_gold_info(content).total_gold
}

/// The index of the first gold item that has an amount field.
fn first_writable(frames: &Vec<Frame>) -> (r: Option<usize>)
    ensures
        match r {
            Some(c) => carrier_from(frames@, 0) == Some(c as int),
            None => carrier_from(frames@, 0) is None,
        },
{
    let mut i: usize = 0;
    while i < frames.len()
        invariant
            i <= frames@.len(),
            carrier_from(frames@, 0) == carrier_from(frames@, i as int),
        decreases frames@.len() - i,
    {
        if frames[i].stack_field.is_some() || frames[i].amount_field.is_some() {
            return Some(i);
        }
        i = i + 1;
    }
    None
}

/// For each of the `n` segments, the amount to write into it, if any.
fn plan_targets(frames: &Vec<Frame>, n: usize, c: usize, t: u32, rest: u32) -> (r: Vec<Option<u32>>)
    requires
        forall|i: int| 0 <= i < frames@.len() ==> match field_of(#[trigger] frames@[i]) {
            Some(k) => k < n,
            None => true,
        },
    ensures
        r@.len() == n,
        forall|k: int|
            0 <= k < n ==> match #[trigger] r@[k] {
                Some(v) => target_value(frames@, k, c as int, t as nat, rest as nat) == Some(v as nat),
                None => target_value(frames@, k, c as int, t as nat, rest as nat) is None,
            },
{
    let mut targets: Vec<Option<u32>> = Vec::new();
    let mut k: usize = 0;
    while k < n
        invariant
            k <= n,
            targets@.len() == k,
            forall|j: int| 0 <= j < k ==> (#[trigger] targets@[j]) is None,
        decreases n - k,
    {
        targets.push(None);
        k = k + 1;
    }
    let mut i: usize = 0;
    while i < frames.len()
        invariant
            i <= frames@.len(),
            targets@.len() == n,
            forall|i: int| 0 <= i < frames@.len() ==> match field_of(#[trigger] frames@[i]) {
                Some(k) => k < n,
                None => true,
            },
            forall|k: int|
                0 <= k < n ==> match #[trigger] targets@[k] {
                    Some(v) => target_value(frames@.take(i as int), k, c as int, t as nat, rest as nat)
                        == Some(v as nat),
                    None => target_value(frames@.take(i as int), k, c as int, t as nat, rest as nat) is None,
                },
        decreases frames@.len() - i,
    {
        let f = frames[i];
        let field = if f.stack_field.is_some() {
            f.stack_field
        } else {
            f.amount_field
        };
        let ghost before = targets@;
        assert(frames@.take(i + 1).drop_last() =~= frames@.take(i as int));
        assert(frames@.take(i + 1).last() == f);
        if let Some(k) = field {
            targets[k] = Some(if i == c { t } else { rest });
        }
        i = i + 1;
        assert forall|k: int| 0 <= k < n implies match #[trigger] targets@[k] {
            Some(v) => target_value(frames@.take(i as int), k, c as int, t as nat, rest as nat)
                == Some(v as nat),
            None => target_value(frames@.take(i as int), k, c as int, t as nat, rest as nat) is None,
        } by {
            if !points_at(f, k) {
                assert(targets@[k] == before[k]);
            }
        }
    }
    assert(frames@.take(frames@.len() as int) =~= frames@);
    targets
}

/// The segments, with the planned amounts written in.
pub open spec fn planned_segments(segs: Seq<Seq<char>>, targets: Seq<Option<u32>>) -> Seq<Seq<char>> {
    Seq::new(
        segs.len(),
        |k: int|
            match targets[k] {
                Some(v) => with_value(segs[k], digits_of(v as nat)),
                None => segs[k],
            },
    )
}

fn write_segments(s: &Vec<char>, bounds: &Vec<(usize, usize)>, targets: &Vec<Option<u32>>) -> (r: String)
    requires
        bounds_fit(s@, bounds@),
        targets@.len() == bounds@.len(),
    ensures
        r@ == planned_segments(segments(s@), targets@).flatten(),
{
    let ghost segs = segments(s@);
    let ghost planned = planned_segments(segs, targets@);
    let mut out = String::new();
    let mut k: usize = 0;
    assert(planned.take(0) =~= Seq::<Seq<char>>::empty());
    while k < bounds.len()
        invariant
            bounds_fit(s@, bounds@),
            targets@.len() == bounds@.len(),
            segs == segments(s@),
            planned == planned_segments(segs, targets@),
            k <= bounds@.len(),
            out@ == planned.take(k as int).flatten(),
        decreases bounds@.len() - k,
    {
        let (a, b) = bounds[k];
        let ghost g = s@.subrange(a as int, b as int);
        let ghost before = out@;
        let mut written = false;
        if let Some(v) = targets[k] {
            if let Some((x, y)) = value_range(s, a, b) {
                push_range(&mut out, s, a, x);
                push_digits(&mut out, v);
                push_range(&mut out, s, y, b);
                written = true;
                assert(g.subrange(0, x - a) =~= s@.subrange(a as int, x as int));
                assert(g.subrange(y - a, g.len() as int) =~= s@.subrange(y as int, b as int));
                assert(out@ =~= before + planned[k as int]);
            }
        }
        if !written {
            push_range(&mut out, s, a, b);
        }
        proof {
            planned.take(k as int).lemma_flatten_push(planned[k as int]);
            assert(planned.take(k + 1) =~= planned.take(k as int).push(planned[k as int]));
        }
        k = k + 1;
    }
    assert(planned.take(k as int) =~= planned);
    out
}

/// Writes `new_amount` into the first gold item that has an amount field, and
/// the amount that `policy` names into the amount fields of the other gold
/// items. Every other char of the document stays as it was.
pub fn modify_gold_with(content: &str, new_amount: i32, policy: LeftoverPolicy) -> (r: Result<
    String,
    GoldError,
>)
    ensures
        new_amount < 0 ==> r == Err::<String, GoldError>(GoldError::Negative),
        new_amount >= 0 && gold_items(content@).len() == 0 ==> r == Err::<String, GoldError>(
            GoldError::NoGold,
        ),
        new_amount >= 0 && gold_items(content@).len() > 0 && carrier_from(gold_items(content@), 0) is None
            ==> r == Err::<String, GoldError>(GoldError::NotWritable),
        new_amount >= 0 && carrier_from(gold_items(content@), 0) is Some ==> (r matches Ok(out)
            && out@ == rewritten(content@, new_amount as nat, leftover_value(policy))),
{
    if new_amount < 0 {
        return Err(GoldError::Negative);
    }
    let s = chars_of(content);
    let (bounds, frames) = scan_items(&s);
    let ghost n = s.len();
    proof {
        lemma_items_fit(s@);
    }
    if frames.len() == 0 {
        return Err(GoldError::NoGold);
    }
    let c = match first_writable(&frames) {
        Some(c) => c,
        None => return Err(GoldError::NotWritable),
    };
    let rest: u32 = match policy {
        LeftoverPolicy::Zero => 0,
        LeftoverPolicy::One => 1,
    };
    assert forall|i: int| 0 <= i < frames@.len() implies match field_of(#[trigger] frames@[i]) {
        Some(k) => k < bounds@.len(),
        None => true,
    } by {
        assert(fields_fit(frames@[i], kinds(segments(s@))));
    }
    let targets = plan_targets(&frames, bounds.len(), c, new_amount as u32, rest);
    let out = write_segments(&s, &bounds, &targets);
    assert(planned_segments(segments(s@), targets@) =~= rewritten_segments(
        s@,
        new_amount as nat,
        leftover_value(policy),
    ));
    Ok(out)
}

/// `modify_gold_with` where the other stacks are set to zero, so that the
/// document then holds exactly the total asked for.
pub fn modify_gold(content: &str, new_amount: i32) -> (r: Result<String, GoldError>)
    ensures
        new_amount < 0 ==> r == Err::<String, GoldError>(GoldError::Negative),
        new_amount >= 0 && gold_items(content@).len() == 0 ==> r == Err::<String, GoldError>(
            GoldError::NoGold,
        ),
        new_amount >= 0 && gold_items(content@).len() > 0 && carrier_from(gold_items(content@), 0) is None
            ==> r == Err::<String, GoldError>(GoldError::NotWritable),
        new_amount >= 0 && carrier_from(gold_items(content@), 0) is Some ==> (r matches Ok(out)
            && out@ == rewritten(content@, new_amount as nat, 0)),
{
    modify_gold_with(content, new_amount, LeftoverPolicy::Zero)
}

} // verus!
