//! The mathematical model: what a line's content is, how a sequence of lines
//! falls into runs, and what an output record looks like.

use vstd::prelude::*;

verus! {

/// The content of a line: its text with every trailing `'\n'` removed.
/// Two lines belong to the same run exactly when their contents agree.
pub open spec fn key(line: Seq<char>) -> Seq<char>
    decreases line.len(),
{
    if line.len() > 0 && line.last() == '\n' {
        key(line.drop_last())
    } else {
        line
    }
}


/// A run: its representative line, exactly as first read, and how many
/// consecutive lines it stands for.
pub type RunSpec = (Seq<char>, nat);

/// The maximal runs of `lines`, in order. Each line either joins the run
/// before it, when its content equals that run's representative's, or opens
/// a new run of length one.
pub open spec fn runs(lines: Seq<Seq<char>>) -> Seq<RunSpec>
    decreases lines.len(),
{
    if lines.len() == 0 {
        seq![]
    } else {
        let before = runs(lines.drop_last());
        let l = lines.last();
        if before.len() > 0 && key(before.last().0) == key(l) {
            before.update(before.len() - 1, (before.last().0, before.last().1 + 1))
        } else {
            before.push((l, 1))
        }
    }
}

/// The decimal digit for `d`, which is below ten.
pub open spec fn digit(d: nat) -> char {
    if d == 0 { '0' }
    else if d == 1 { '1' }
    else if d == 2 { '2' }
    else if d == 3 { '3' }
    else if d == 4 { '4' }
    else if d == 5 { '5' }
    else if d == 6 { '6' }
    else if d == 7 { '7' }
    else if d == 8 { '8' }
    else { '9' }
}

/// The decimal numeral of `n`, without leading zeros.
pub open spec fn decimal(n: nat) -> Seq<char>
    decreases n,
{
    if n < 10 {
        seq![digit(n)]
    } else {
        decimal(n / 10).push(digit(n % 10))
    }
}

/// The width of the field in which a run's length is right-justified.
pub open spec fn field_width() -> nat {
    4
}

/// `n` right-justified in a field of at least `field_width()` characters.
pub open spec fn count_field(n: nat) -> Seq<char> {
    let d = decimal(n);
    let pad = if d.len() < field_width() { field_width() - d.len() } else { 0 };
    Seq::new(pad as nat, |i: int| ' ') + d
}

/// The output record of a run: its representative as read, prefixed by its
/// length and a space when `show_count` holds.
pub open spec fn record(run: RunSpec, show_count: bool) -> Seq<char> {
    if show_count {
        count_field(run.1) + seq![' '] + run.0
    } else {
        run.0
    }
}

/// The records written for `lines`, one per run, in order.
pub open spec fn outputs(lines: Seq<Seq<char>>, show_count: bool) -> Seq<Seq<char>> {
    runs(lines).map_values(|r: RunSpec| record(r, show_count))
}

/// The lines of a text, as a line reader hands them out: each ends just
/// after a `'\n'`, but the last, which ends with the text and may lack one.
pub open spec fn lines_of(text: Seq<char>) -> Seq<Seq<char>>
    decreases text.len(),
{
    if text.len() == 0 {
        seq![]
    } else {
        let before = lines_of(text.drop_last());
        let c = text.last();
        if before.len() > 0 && before.last().last() != '\n' {
            before.update(before.len() - 1, before.last().push(c))
        } else {
            before.push(seq![c])
        }
    }
}

/// The output for a whole text: the records of its runs, one after another.
pub open spec fn uniq_of(text: Seq<char>, show_count: bool) -> Seq<char> {
    outputs(lines_of(text), show_count).flatten()
}

/// The total of the run lengths in `rs`.
pub open spec fn total_count(rs: Seq<RunSpec>) -> nat
    decreases rs.len(),
{
    if rs.len() == 0 {
        0
    } else {
        total_count(rs.drop_last()) + rs.last().1
    }
}

} // verus!
