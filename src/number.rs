//! Decimal text of the amounts held in attribute values.
use vstd::prelude::*;

verus! {

pub open spec fn is_digit(c: char) -> bool {
    '0' <= c && c <= '9'
}

pub open spec fn all_digits(s: Seq<char>) -> bool {
    forall|i: int| 0 <= i < s.len() ==> is_digit(#[trigger] s[i])
}

pub open spec fn digit_value(c: char) -> int {
    (c as u32) as int - ('0' as u32) as int
}

/// The number that a run of decimal digits spells.
pub open spec fn digits_value(s: Seq<char>) -> int
    decreases s.len(),
{
    if s.len() == 0 {
        0
    } else {
        digits_value(s.drop_last()) * 10 + digit_value(s.last())
    }
}

/// A decimal integer: an optional sign, then at least one digit, nothing else.
pub open spec fn decimal_of(s: Seq<char>) -> Option<int> {
    if s.len() > 1 && s[0] == '-' && all_digits(s.drop_first()) {
        Some(-digits_value(s.drop_first()))
    } else if s.len() > 1 && s[0] == '+' && all_digits(s.drop_first()) {
        Some(digits_value(s.drop_first()))
    } else if s.len() > 0 && all_digits(s) {
        Some(digits_value(s))
    } else {
        None
    }
}

/// The amount that a field's text gives: the 32-bit integer it spells, or 1
/// when it spells none.
pub open spec fn amount_of_text(s: Seq<char>) -> i32 {
    match decimal_of(s) {
        Some(v) => if i32::MIN <= v <= i32::MAX {
            v as i32
        } else {
            1
        },
        None => 1,
    }
}

pub open spec fn digit_chars() -> Seq<char> {
    seq!['0', '1', '2', '3', '4', '5', '6', '7', '8', '9']
}

/// The shortest decimal text of `n`.
pub open spec fn digits_of(n: nat) -> Seq<char>
    decreases n,
{
    if n < 10 {
        seq![digit_chars()[n as int]]
    } else {
        digits_of(n / 10).push(digit_chars()[(n % 10) as int])
    }
}

proof fn lemma_digits_value_prefix(s: Seq<char>, k: int)
    requires
        all_digits(s),
        0 <= k <= s.len(),
    ensures
        0 <= digits_value(s.subrange(0, k)) <= digits_value(s),
    decreases s.len(),
{
    if k < s.len() {
        let t = s.drop_last();
        assert(t.subrange(0, k) =~= s.subrange(0, k));
        assert(is_digit(s[s.len() - 1]));
        lemma_digits_value_prefix(t, k);
    } else {
        assert(s.subrange(0, k) =~= s);
        lemma_digits_value_nonneg(s);
    }
}

proof fn lemma_digits_value_nonneg(s: Seq<char>)
    requires
        all_digits(s),
    ensures
        0 <= digits_value(s),
    decreases s.len(),
{
    if s.len() > 0 {
        assert(is_digit(s[s.len() - 1]));
        lemma_digits_value_nonneg(s.drop_last());
    }
}

proof fn lemma_digit_chars(k: int)
    requires
        0 <= k < 10,
    ensures
        is_digit(digit_chars()[k]),
        digit_value(digit_chars()[k]) == k,
{
    let d = digit_chars();
    assert(d[0] == '0' && d[1] == '1' && d[2] == '2' && d[3] == '3' && d[4] == '4');
    assert(d[5] == '5' && d[6] == '6' && d[7] == '7' && d[8] == '8' && d[9] == '9');
}

/// The decimal text of `n` is digits only, and spells `n`.
pub proof fn lemma_digits_of(n: nat)
    ensures
        digits_of(n).len() >= 1,
        all_digits(digits_of(n)),
        digits_value(digits_of(n)) == n,
    decreases n,
{
    reveal_with_fuel(digits_of, 2);
    if n >= 10 {
        lemma_digits_of(n / 10);
        lemma_digit_chars((n % 10) as int);
        let d = digits_of(n);
        assert(d.drop_last() =~= digits_of(n / 10));
        assert(d.last() == digit_chars()[(n % 10) as int]);
        assert(digits_value(d) == digits_value(digits_of(n / 10)) * 10 + digit_value(d.last()));
        assert(n == (n / 10) * 10 + n % 10) by (nonlinear_arith);
    } else {
        lemma_digit_chars(n as int);
        let d = digits_of(n);
        assert(d.drop_last() =~= Seq::<char>::empty());
        assert(digits_value(d) == digits_value(d.drop_last()) * 10 + digit_value(d.last()));
    }
}

/// Writing an amount and reading it back gives the amount.
pub proof fn lemma_amount_of_digits(n: nat)
    requires
        n <= i32::MAX,
    ensures
        amount_of_text(digits_of(n)) == n,
{
    lemma_digits_of(n);
    let d = digits_of(n);
    assert(is_digit(d[0]));
}

/// Reads the amount that the region `[start, end)` of `s` holds.
pub fn parse_amount(s: &Vec<char>, start: usize, end: usize) -> (r: i32)
    requires
        start <= end <= s@.len(),
    ensures
        r == amount_of_text(s@.subrange(start as int, end as int)),
{
    let ghost t = s@.subrange(start as int, end as int);
    if start == end {
        return 1;
    }
    let negative = s[start] == '-';
    let mut p: usize = start;
    if s[start] == '-' || s[start] == '+' {
        p = start + 1;
        if p == end {
            return 1;
        }
    }
    let ghost body = s@.subrange(p as int, end as int);
    assert(p > start ==> t.drop_first() =~= body);
    assert(p == start ==> t =~= body);
    let mut acc: i64 = 0;
    let mut j: usize = p;
    while j < end
        invariant
            start <= p <= j <= end <= s@.len(),
            acc == digits_value(s@.subrange(p as int, j as int)),
            all_digits(s@.subrange(p as int, j as int)),
            0 <= acc <= 2147483648,
            body == s@.subrange(p as int, end as int),
            t == s@.subrange(start as int, end as int),
            p > start ==> t.drop_first() == body,
            p == start ==> t == body,
            p > start <==> (t[0] == '-' || t[0] == '+'),
            negative <==> t[0] == '-',
        decreases end - j,
    {
        let c = s[j];
        assert(s@.subrange(p as int, j + 1).drop_last() =~= s@.subrange(p as int, j as int));
        if !('0' <= c && c <= '9') {
            assert(!is_digit(body[j - p]));
            return 1;
        }
        let d: u32 = (c as u32) - ('0' as u32);
        acc = acc * 10 + d as i64;
        j = j + 1;
        if acc > 2147483648 {
            proof {
                if all_digits(body) {
                    assert(body.subrange(0, j - p) =~= s@.subrange(p as int, j as int));
                    lemma_digits_value_prefix(body, j - p);
                }
            }
            return 1;
        }
    }
    assert(s@.subrange(p as int, j as int) =~= body);
    if negative {
        (-acc) as i32
    } else if acc > 2147483647 {
        1
    } else {
        acc as i32
    }
}

fn digit_char(d: u32) -> (c: char)
    requires
        d < 10,
    ensures
        c == digit_chars()[d as int],
{
    let table: [char; 10] = ['0', '1', '2', '3', '4', '5', '6', '7', '8', '9'];
    table[d as usize]
}

/// Appends the decimal text of `n` to `out`.
pub fn push_digits(out: &mut String, n: u32)
    ensures
        final(out)@ == old(out)@ + digits_of(n as nat),
    decreases n,
{
    if n < 10 {
        let c = digit_char(n);
        crate::text::push_char(out, c);
        assert(seq![c] =~= digits_of(n as nat));
    } else {
        push_digits(out, n / 10);
        let c = digit_char(n % 10);
        crate::text::push_char(out, c);
        assert(old(out)@ + digits_of((n / 10) as nat) + seq![c] =~= old(out)@ + digits_of(
            n as nat,
        ));
    }
}

} // verus!
