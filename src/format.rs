//! Rendering of run lengths and output records.

use vstd::prelude::*;
use crate::model::{decimal, digit, count_field, field_width, record};

verus! {

/// The one-character text of the decimal digit `d`.
fn digit_text(d: u64) -> (r: &'static str)
    requires
        d < 10,
    ensures
        r@ == seq![digit(d as nat)],
{
    proof {
        reveal_strlit("0");
        reveal_strlit("1");
        reveal_strlit("2");
        reveal_strlit("3");
        reveal_strlit("4");
        reveal_strlit("5");
        reveal_strlit("6");
        reveal_strlit("7");
        reveal_strlit("8");
        reveal_strlit("9");
    }
    if d == 0 {
        "0"
    } else if d == 1 {
        "1"
    } else if d == 2 {
        "2"
    } else if d == 3 {
        "3"
    } else if d == 4 {
        "4"
    } else if d == 5 {
        "5"
    } else if d == 6 {
        "6"
    } else if d == 7 {
        "7"
    } else if d == 8 {
        "8"
    } else {
        "9"
    }
}

/// Appends the decimal numeral of `n` to `out`.
fn append_decimal(out: &mut String, n: u64)
    ensures
        final(out)@ == old(out)@ + decimal(n as nat),
    decreases n,
{
    if n < 10 {
        out.append(digit_text(n));
    } else {
        append_decimal(out, n / 10);
        out.append(digit_text(n % 10));
        assert(final(out)@ =~= old(out)@ + decimal(n as nat));
    }
}

/// `n` right-justified in a field at least four characters wide.
pub fn format_count(n: u64) -> (r: String)
    ensures
        r@ == count_field(n as nat),
{
    let mut digits = String::new();
    append_decimal(&mut digits, n);
    assert(digits@ =~= decimal(n as nat));
    let len = digits.as_str().unicode_len();
    let pad: usize = if len < 4 { 4 - len } else { 0 };
    let mut r = String::new();
    let mut i: usize = 0;
    proof {
        reveal_strlit(" ");
    }
    while i < pad
        invariant
            i <= pad,
            r@ == Seq::new(i as nat, |j: int| ' '),
        decreases pad - i,
    {
        proof {
            reveal_strlit(" ");
        }
        r.append(" ");
        i = i + 1;
        assert(r@ =~= Seq::new(i as nat, |j: int| ' '));
    }
    r.append(digits.as_str());
    assert(field_width() == 4);
    assert(r@ =~= count_field(n as nat));
    r
}

/// The output record of a run whose representative is `rep` and whose length
/// is `count`: `rep` itself, or `rep` behind the right-justified count and a
/// space when `show_count` holds.
pub fn format_record(rep: &str, count: u64, show_count: bool) -> (r: String)
    ensures
        r@ == record((rep@, count as nat), show_count),
{
    if show_count {
        let mut r = format_count(count);
        proof {
            reveal_strlit(" ");
        }
        r.append(" ");
        r.append(rep);
        r
    } else {
        String::from_str(rep)
    }
}

} // verus!
