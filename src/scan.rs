//! One pass over the segments of a document that finds its gold items.
//!
//! The pass keeps a stack of the nodes that are open, so that an item's
//! attributes are its own: those of a child node, or of a sibling that follows
//! a child's closing tag, never count for it.
use vstd::prelude::*;
use crate::lsx::{Role, SegKind, segments, kinds, segment_end, kind_of};

verus! {

/// An open node, or an item node that has closed. For item nodes the fields
/// are the indices of the segments that hold the item's own attributes.
#[derive(Clone, Copy, Debug)]
pub struct Frame {
    pub item: bool,
    /// The node is, or stands inside, an item list.
    pub in_list: bool,
    /// The item names a currency tag in an attribute of its own.
    pub gold: bool,
    pub stack_field: Option<usize>,
    pub amount_field: Option<usize>,
    pub name_field: Option<usize>,
}

pub open spec fn fresh_frame(item: bool, in_list: bool) -> Frame {
    Frame {
        item,
        in_list,
        gold: false,
        stack_field: None,
        amount_field: None,
        name_field: None,
    }
}

pub open spec fn top_in_list(stack: Seq<Frame>) -> bool {
    stack.len() > 0 && stack.last().in_list
}

pub open spec fn first_of(o: Option<usize>, take: bool, idx: usize) -> Option<usize> {
    if take && o is None {
        Some(idx)
    } else {
        o
    }
}

/// An item frame after it met attribute segment `idx`.
pub open spec fn note_attr(f: Frame, role: Role, gold: bool, idx: usize) -> Frame {
    Frame {
        item: f.item,
        in_list: f.in_list,
        gold: f.gold || gold,
        stack_field: first_of(f.stack_field, role is StackAmount, idx),
        amount_field: first_of(f.amount_field, role is Amount, idx),
        name_field: first_of(f.name_field, role is Name, idx),
    }
}

/// The stack of open nodes and the gold items closed so far, after one more
/// segment, the `idx`-th, of kind `k`.
pub open spec fn step(st: (Seq<Frame>, Seq<Frame>), k: SegKind, idx: usize) -> (
    Seq<Frame>,
    Seq<Frame>,
) {
    let (stack, items) = st;
    match k {
        SegKind::Close => if stack.len() == 0 {
            st
        } else {
            let top = stack.last();
            (
                stack.drop_last(),
                if top.item && top.in_list && top.gold {
                    items.push(top)
                } else {
                    items
                },
            )
        },
        SegKind::OpenList => (stack.push(fresh_frame(false, true)), items),
        SegKind::OpenItem => (stack.push(fresh_frame(true, top_in_list(stack))), items),
        SegKind::OpenOther => (stack.push(fresh_frame(false, top_in_list(stack))), items),
        SegKind::Attr { role, gold } => if stack.len() > 0 && stack.last().item {
            (stack.drop_last().push(note_attr(stack.last(), role, gold, idx)), items)
        } else {
            st
        },
        SegKind::Plain => st,
    }
}

pub open spec fn run(ks: Seq<SegKind>) -> (Seq<Frame>, Seq<Frame>)
    decreases ks.len(),
{
    if ks.len() == 0 {
        (Seq::empty(), Seq::empty())
    } else {
        step(run(ks.drop_last()), ks.last(), (ks.len() - 1) as usize)
    }
}

/// The gold items of a document, in the order in which they close: item nodes
/// inside an item list that name a currency tag in an attribute of their own.
pub open spec fn gold_items(s: Seq<char>) -> Seq<Frame> {
    run(kinds(segments(s))).1
}

pub open spec fn opt_set(o: Option<usize>) -> Set<usize> {
    match o {
        Some(k) => set![k],
        None => Set::empty(),
    }
}

/// The segments whose attributes a frame took.
pub open spec fn owned(f: Frame) -> Set<usize> {
    opt_set(f.stack_field) + opt_set(f.amount_field) + opt_set(f.name_field)
}

pub open spec fn has_role(k: SegKind, r: Role) -> bool {
    match k {
        SegKind::Attr { role, gold: _ } => role == r,
        _ => false,
    }
}

pub open spec fn field_fits(o: Option<usize>, ks: Seq<SegKind>, r: Role) -> bool {
    match o {
        Some(k) => k < ks.len() && has_role(ks[k as int], r),
        None => true,
    }
}

/// A frame's fields point at attributes of the matching role.
pub open spec fn fields_fit(f: Frame, ks: Seq<SegKind>) -> bool {
    &&& field_fits(f.stack_field, ks, Role::StackAmount)
    &&& field_fits(f.amount_field, ks, Role::Amount)
    &&& field_fits(f.name_field, ks, Role::Name)
}

/// No segment belongs to two frames.
pub open spec fn apart(stack: Seq<Frame>, items: Seq<Frame>) -> bool {
    &&& forall|i: int, j: int|
        0 <= i < j < stack.len() ==> owned(stack[i]).disjoint(owned(stack[j]))
    &&& forall|i: int, j: int|
        0 <= i < stack.len() && 0 <= j < items.len() ==> owned(stack[i]).disjoint(
            owned(items[j]),
        )
    &&& forall|i: int, j: int|
        0 <= i < j < items.len() ==> owned(items[i]).disjoint(owned(items[j]))
}

pub open spec fn run_facts(ks: Seq<SegKind>) -> bool {
    let (stack, items) = run(ks);
    &&& forall|i: int| 0 <= i < stack.len() ==> fields_fit(#[trigger] stack[i], ks)
    &&& forall|i: int| 0 <= i < items.len() ==> fields_fit(#[trigger] items[i], ks)
    &&& forall|i: int| 0 <= i < items.len() ==> (#[trigger] items[i]).item && items[i].gold
    &&& apart(stack, items)
}

proof fn lemma_fits_extend(f: Frame, ks: Seq<SegKind>, k: SegKind)
    requires
        fields_fit(f, ks),
    ensures
        fields_fit(f, ks.push(k)),
{
}

proof fn lemma_owned_below(f: Frame, ks: Seq<SegKind>)
    requires
        fields_fit(f, ks),
    ensures
        forall|k: usize| owned(f).contains(k) ==> k < ks.len(),
{
}

/// What the pass keeps track of stays consistent: fields point at matching
/// attributes, items are gold, and no segment is taken twice.
pub proof fn lemma_run(ks: Seq<SegKind>)
    requires
        ks.len() <= usize::MAX,
    ensures
        run_facts(ks),
    decreases ks.len(),
{
    if ks.len() > 0 {
        let pre = ks.drop_last();
        lemma_run(pre);
        let (stack, items) = run(pre);
        let k = ks.last();
        let idx = (ks.len() - 1) as usize;
        assert(pre.push(k) =~= ks);
        assert forall|i: int| 0 <= i < stack.len() implies fields_fit(#[trigger] stack[i], ks) by {
            lemma_fits_extend(stack[i], pre, k);
        }
        assert forall|i: int| 0 <= i < items.len() implies fields_fit(#[trigger] items[i], ks) by {
            lemma_fits_extend(items[i], pre, k);
        }
        let (s2, i2) = run(ks);
        match k {
            SegKind::Close => {
                if stack.len() > 0 {
                    let top = stack.last();
                    assert forall|i: int, j: int|
                        0 <= i < s2.len() && 0 <= j < i2.len() implies owned(s2[i]).disjoint(
                        owned(i2[j]),
                    ) by {
                        assert(s2[i] == stack[i]);
                        if j == items.len() {
                            assert(i2[j] == stack[stack.len() - 1]);
                        }
                    }
                    assert forall|i: int, j: int|
                        0 <= i < j < i2.len() implies owned(i2[i]).disjoint(owned(i2[j])) by {
                        if j == items.len() {
                            assert(i2[j] == stack[stack.len() - 1]);
                            assert(owned(stack[stack.len() - 1]).disjoint(owned(items[i])));
                        }
                    }
                    assert forall|i: int| 0 <= i < i2.len() implies fields_fit(#[trigger] i2[i], ks)
                        && i2[i].item && i2[i].gold by {
                        if i == items.len() {
                            assert(i2[i] == stack[stack.len() - 1]);
                        }
                    }
                }
            },
            SegKind::Attr { role, gold } => {
                if stack.len() > 0 && stack.last().item {
                    let n = stack.len() - 1;
                    let top = stack[n];
                    let nf = note_attr(top, role, gold, idx);
                    lemma_owned_below(top, pre);
                    assert(owned(nf) =~= owned(top) || owned(nf) =~= owned(top).insert(idx));
                    assert forall|i: int| 0 <= i < stack.len() && i != n implies !owned(
                        stack[i],
                    ).contains(idx) by {
                        lemma_owned_below(stack[i], pre);
                    }
                    assert forall|j: int| 0 <= j < items.len() implies !owned(
                        items[j],
                    ).contains(idx) by {
                        lemma_owned_below(items[j], pre);
                    }
                    assert(s2[n] == nf);
                    assert(fields_fit(nf, ks));
                    assert forall|i: int, j: int|
                        0 <= i < j < s2.len() implies owned(s2[i]).disjoint(owned(s2[j])) by {
                        assert(s2[i] == stack[i]);
                        if j != n {
                            assert(s2[j] == stack[j]);
                        } else {
                            assert(owned(stack[i]).disjoint(owned(top)));
                            assert(!owned(stack[i]).contains(idx));
                        }
                    }
                    assert forall|i: int, j: int|
                        0 <= i < s2.len() && 0 <= j < i2.len() implies owned(s2[i]).disjoint(
                        owned(i2[j]),
                    ) by {
                        if i != n {
                            assert(s2[i] == stack[i]);
                        } else {
                            assert(owned(top).disjoint(owned(items[j])));
                            assert(!owned(items[j]).contains(idx));
                        }
                    }
                    assert forall|i: int| 0 <= i < s2.len() implies fields_fit(#[trigger] s2[i], ks) by {
                        if i != n {
                            assert(s2[i] == stack[i]);
                        }
                    }
                }
            },
            SegKind::Plain => {},
            _ => {
                let f = s2.last();
                assert(owned(f) =~= Set::<usize>::empty());
                assert forall|i: int, j: int|
                    0 <= i < j < s2.len() implies owned(s2[i]).disjoint(owned(s2[j])) by {
                    assert(s2[i] == stack[i]);
                    if j < stack.len() {
                        assert(s2[j] == stack[j]);
                    }
                }
                assert forall|i: int, j: int|
                    0 <= i < s2.len() && 0 <= j < i2.len() implies owned(s2[i]).disjoint(
                    owned(i2[j]),
                ) by {
                    if i < stack.len() {
                        assert(s2[i] == stack[i]);
                    }
                }
                assert forall|i: int| 0 <= i < s2.len() implies fields_fit(#[trigger] s2[i], ks) by {
                    if i < stack.len() {
                        assert(s2[i] == stack[i]);
                    }
                }
            },
        }
    }
}

fn noted(f: Frame, role: Role, gold: bool, idx: usize) -> (r: Frame)
    ensures
        r == note_attr(f, role, gold, idx),
{
    let (is_stack, is_amount, is_name) = match role {
        Role::StackAmount => (true, false, false),
        Role::Amount => (false, true, false),
        Role::Name => (false, false, true),
        Role::Other => (false, false, false),
    };
    Frame {
        item: f.item,
        in_list: f.in_list,
        gold: f.gold || gold,
        stack_field: if is_stack && f.stack_field.is_none() {
            Some(idx)
        } else {
            f.stack_field
        },
        amount_field: if is_amount && f.amount_field.is_none() {
            Some(idx)
        } else {
            f.amount_field
        },
        name_field: if is_name && f.name_field.is_none() {
            Some(idx)
        } else {
            f.name_field
        },
    }
}

fn open_frame(stack: &mut Vec<Frame>, item: bool, list: bool)
    ensures
        final(stack)@ == old(stack)@.push(
            fresh_frame(item, list || top_in_list(old(stack)@)),
        ),
{
    let n = stack.len();
    let in_list = list || (n > 0 && stack[n - 1].in_list);
    stack.push(
        Frame {
            item,
            in_list,
            gold: false,
            stack_field: None,
            amount_field: None,
            name_field: None,
        },
    );
}

/// One step of the pass: segment `idx`, of kind `kind`.
fn advance(stack: &mut Vec<Frame>, items: &mut Vec<Frame>, kind: SegKind, idx: usize)
    ensures
        (final(stack)@, final(items)@) == step((old(stack)@, old(items)@), kind, idx),
{
    match kind {
        SegKind::Close => {
            if let Some(top) = stack.pop() {
                if top.item && top.in_list && top.gold {
                    items.push(top);
                }
            }
        },
        SegKind::OpenList => open_frame(stack, false, true),
        SegKind::OpenItem => open_frame(stack, true, false),
        SegKind::OpenOther => open_frame(stack, false, false),
        SegKind::Attr { role, gold } => {
            let n = stack.len();
            if n > 0 && stack[n - 1].item {
                if let Some(top) = stack.pop() {
                    stack.push(noted(top, role, gold, idx));
                }
            }
        },
        SegKind::Plain => {},
    }
}

/// Cuts `s` into segments and runs the pass over them. Returns where each
/// segment lies, and the gold items.
pub fn scan_items(s: &Vec<char>) -> (r: (Vec<(usize, usize)>, Vec<Frame>))
    ensures
        r.0@.len() == segments(s@).len(),
        forall|k: int|
            0 <= k < r.0@.len() ==> {
                &&& (#[trigger] r.0@[k]).0 <= r.0@[k].1 <= s@.len()
                &&& s@.subrange(r.0@[k].0 as int, r.0@[k].1 as int) == segments(s@)[k]
            },
        r.1@ == gold_items(s@),
{
    let mut bounds: Vec<(usize, usize)> = Vec::new();
    let mut stack: Vec<Frame> = Vec::new();
    let mut items: Vec<Frame> = Vec::new();
    let ghost mut done: Seq<Seq<char>> = Seq::empty();
    let mut i: usize = 0;
    assert(s@.subrange(0, s@.len() as int) =~= s@);
    assert(done + segments(s@) =~= segments(s@));
    while i < s.len()
        invariant
            i <= s@.len(),
            segments(s@) == done + segments(s@.subrange(i as int, s@.len() as int)),
            bounds@.len() == done.len(),
            forall|k: int|
                0 <= k < bounds@.len() ==> {
                    &&& (#[trigger] bounds@[k]).0 <= bounds@[k].1 <= i
                    &&& s@.subrange(bounds@[k].0 as int, bounds@[k].1 as int) == done[k]
                },
            (stack@, items@) == run(kinds(done)),
        decreases s@.len() - i,
    {
        let j = segment_end(s, i);
        let kind = kind_of(s, i, j);
        let idx = bounds.len();
        let ghost rest = s@.subrange(i as int, s@.len() as int);
        let ghost seg = s@.subrange(i as int, j as int);
        proof {
            assert(rest.subrange(0, j - i) =~= seg);
            assert(rest.subrange(j - i, rest.len() as int) =~= s@.subrange(
                j as int,
                s@.len() as int,
            ));
            assert(segments(rest) == seq![seg] + segments(
                s@.subrange(j as int, s@.len() as int),
            ));
            let before = done;
            done = done.push(seg);
            assert(segments(s@) =~= done + segments(s@.subrange(j as int, s@.len() as int)));
            assert(kinds(done).drop_last() =~= kinds(before));
            assert(kinds(done).last() == kind);
        }
        advance(&mut stack, &mut items, kind, idx);
        bounds.push((i, j));
        i = j;
    }
    proof {
        assert(s@.subrange(i as int, s@.len() as int) =~= Seq::<char>::empty());
        assert(done + Seq::<Seq<char>>::empty() =~= done);
    }
    (bounds, items)
}

} // verus!
