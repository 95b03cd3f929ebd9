//! Properties of the run model that hold for every input.

use vstd::prelude::*;
use crate::model::{RunSpec, runs, total_count, key, outputs, uniq_of, lines_of};

verus! {

/// Every run has length at least one, and there are runs exactly when there
/// are lines.
pub proof fn lemma_runs_nonempty(lines: Seq<Seq<char>>)
    ensures
        (runs(lines).len() == 0) == (lines.len() == 0),
        runs(lines).len() <= lines.len(),
        forall|k: int| 0 <= k < runs(lines).len() ==> #[trigger] runs(lines)[k].1 >= 1,
    decreases lines.len(),
{
    if lines.len() > 0 {
        lemma_runs_nonempty(lines.drop_last());
    }
}

/// Count conservation: the lengths of the runs add up to the number of lines.
pub proof fn lemma_count_conservation(lines: Seq<Seq<char>>)
    ensures
        total_count(runs(lines)) == lines.len(),
    decreases lines.len(),
{
    if lines.len() > 0 {
        let before = runs(lines.drop_last());
        lemma_count_conservation(lines.drop_last());
        if before.len() > 0 && key(before.last().0) == key(lines.last()) {
            let after = before.update(before.len() - 1, (before.last().0, before.last().1 + 1));
            assert(after.drop_last() == before.drop_last());
        } else {
            assert(before.push((lines.last(), 1)).drop_last() == before);
        }
    }
}

/// No run is longer than the whole input.
pub proof fn lemma_run_length_bound(lines: Seq<Seq<char>>, k: int)
    requires
        0 <= k < runs(lines).len(),
    ensures
        runs(lines)[k].1 <= lines.len(),
{
    lemma_count_conservation(lines);
    lemma_total_count_member(runs(lines), k);
}

proof fn lemma_total_count_member(rs: Seq<RunSpec>, k: int)
    requires
        0 <= k < rs.len(),
    ensures
        rs[k].1 <= total_count(rs),
    decreases rs.len(),
{
    if k < rs.len() - 1 {
        lemma_total_count_member(rs.drop_last(), k);
    }
}

/// Whether line `i` of `lines` opens a run: it is the first line, or its
/// content differs from that of the line before it.
pub open spec fn starts_run(lines: Seq<Seq<char>>, i: int) -> bool {
    i == 0 || key(lines[i]) != key(lines[i - 1])
}

/// The lines that open a run, in order.
pub open spec fn heads(lines: Seq<Seq<char>>) -> Seq<Seq<char>>
    decreases lines.len(),
{
    if lines.len() == 0 {
        seq![]
    } else if starts_run(lines, lines.len() - 1) {
        heads(lines.drop_last()).push(lines.last())
    } else {
        heads(lines.drop_last())
    }
}

/// The representatives of the runs, in order.
pub open spec fn reps(rs: Seq<RunSpec>) -> Seq<Seq<char>> {
    rs.map_values(|r: RunSpec| r.0)
}

/// The run in progress has the content of the last line.
pub proof fn lemma_last_run_key(lines: Seq<Seq<char>>)
    requires
        lines.len() > 0,
    ensures
        runs(lines).len() > 0,
        key(runs(lines).last().0) == key(lines.last()),
    decreases lines.len(),
{
    if lines.len() > 1 {
        lemma_last_run_key(lines.drop_last());
    }
}

/// Order preservation: the representatives of the runs, in order, are the
/// lines that open a maximal run of consecutive equal lines, in order.
pub proof fn lemma_order_preserved(lines: Seq<Seq<char>>)
    ensures
        reps(runs(lines)) == heads(lines),
    decreases lines.len(),
{
    if lines.len() > 0 {
        let init = lines.drop_last();
        lemma_order_preserved(init);
        let before = runs(init);
        if init.len() > 0 {
            lemma_last_run_key(init);
            assert(init.last() == lines[lines.len() - 2]);
        } else {
            assert(before.len() == 0);
        }
        if before.len() > 0 && key(before.last().0) == key(lines.last()) {
            assert(reps(runs(lines)) =~= reps(before));
        } else {
            assert(reps(runs(lines)) =~= reps(before).push(lines.last()));
        }
    }
}

/// Neighbouring runs never share their content: no run could be merged with
/// the next.
pub proof fn lemma_runs_distinct_neighbours(lines: Seq<Seq<char>>)
    ensures
        forall|k: int|
            0 <= k < runs(lines).len() - 1 ==> key(#[trigger] runs(lines)[k].0) != key(
                runs(lines)[k + 1].0,
            ),
    decreases lines.len(),
{
    if lines.len() > 0 {
        let init = lines.drop_last();
        lemma_runs_distinct_neighbours(init);
        if init.len() > 0 {
            lemma_last_run_key(init);
        }
    }
}

/// A sequence of lines with no two neighbours of equal content is its own
/// run decomposition, every run of length one.
proof fn lemma_runs_of_distinct(lines: Seq<Seq<char>>)
    requires
        forall|k: int| 0 <= k < lines.len() - 1 ==> key(#[trigger] lines[k]) != key(lines[k + 1]),
    ensures
        runs(lines) == lines.map_values(|l: Seq<char>| (l, 1nat)),
    decreases lines.len(),
{
    if lines.len() > 0 {
        let init = lines.drop_last();
        assert forall|k: int| 0 <= k < init.len() - 1 implies key(#[trigger] init[k]) != key(
            init[k + 1],
        ) by {
            assert(init[k] == lines[k] && init[k + 1] == lines[k + 1]);
        }
        lemma_runs_of_distinct(init);
        if init.len() > 0 {
            assert(runs(init).last().0 == lines[lines.len() - 2]);
        }
        assert(runs(lines) =~= lines.map_values(|l: Seq<char>| (l, 1nat)));
    }
}

/// Idempotence: the plain records are already free of consecutive
/// duplicates, so running the deduplication on them changes nothing.
pub proof fn lemma_dedup_idempotent(lines: Seq<Seq<char>>)
    ensures
        outputs(outputs(lines, false), false) == outputs(lines, false),
{
    let out = outputs(lines, false);
    lemma_runs_distinct_neighbours(lines);
    assert forall|k: int| 0 <= k < out.len() - 1 implies key(#[trigger] out[k]) != key(
        out[k + 1],
    ) by {
        assert(out[k] == runs(lines)[k].0);
        assert(out[k + 1] == runs(lines)[k + 1].0);
    }
    lemma_runs_of_distinct(out);
    assert(outputs(out, false) =~= out);
}

/// A last line without its newline, otherwise equal to the line before it,
/// joins that line's run instead of opening a run of its own.
pub proof fn lemma_missing_final_newline_merges(before: Seq<Seq<char>>, line: Seq<char>)
    ensures
        ({
            let with_newline = before.push(line.push('\n'));
            let both = with_newline.push(line);
            &&& runs(both).len() == runs(with_newline).len()
            &&& runs(both).last() == (runs(with_newline).last().0, runs(with_newline).last().1 + 1)
        }),
{
    let with_newline = before.push(line.push('\n'));
    let both = with_newline.push(line);
    assert(line.push('\n').drop_last() == line);
    assert(key(line.push('\n')) == key(line));
    lemma_last_run_key(with_newline);
    assert(both.drop_last() == with_newline);
}

/// A line as a line reader hands it out: not empty, with no `'\n'` but
/// possibly a final one.
pub open spec fn is_line(l: Seq<char>) -> bool {
    &&& l.len() > 0
    &&& forall|j: int| 0 <= j < l.len() - 1 ==> #[trigger] l[j] != '\n'
}

/// A sequence of lines as a line reader hands them out: every line but the
/// last ends with `'\n'`.
pub open spec fn well_formed_lines(ls: Seq<Seq<char>>) -> bool {
    &&& forall|k: int| 0 <= k < ls.len() ==> is_line(#[trigger] ls[k])
    &&& forall|k: int| 0 <= k < ls.len() - 1 ==> (#[trigger] ls[k]).last() == '\n'
}

/// Splitting a text gives well-formed lines.
pub proof fn lemma_lines_of_well_formed(text: Seq<char>)
    ensures
        well_formed_lines(lines_of(text)),
    decreases text.len(),
{
    if text.len() > 0 {
        let before = lines_of(text.drop_last());
        lemma_lines_of_well_formed(text.drop_last());
        let c = text.last();
        if before.len() > 0 && before.last().last() != '\n' {
            let l = before.last().push(c);
            assert forall|j: int| 0 <= j < l.len() - 1 implies #[trigger] l[j] != '\n' by {
                if j < l.len() - 2 {
                    assert(l[j] == before.last()[j]);
                }
            }
        } else {
            assert(is_line(seq![c]));
        }
    }
}

/// Appending one well-formed line to a text that ends at a line boundary
/// appends that line to the text's lines.
proof fn lemma_lines_of_append_line(a: Seq<char>, b: Seq<char>)
    requires
        is_line(b),
        lines_of(a).len() == 0 || lines_of(a).last().last() == '\n',
    ensures
        lines_of(a + b) == lines_of(a).push(b),
    decreases b.len(),
{
    assert((a + b).drop_last() == a + b.drop_last());
    assert((a + b).last() == b.last());
    if b.len() == 1 {
        assert(a + b.drop_last() == a);
        assert(seq![b.last()] == b);
    } else {
        let b0 = b.drop_last();
        assert(is_line(b0));
        lemma_lines_of_append_line(a, b0);
        assert(b0.last() == b[b.len() - 2]);
        assert(b0.push(b.last()) == b);
        assert(lines_of(a).push(b0).update(lines_of(a).len() as int, b) =~= lines_of(a).push(b));
    }
}

/// Well-formed lines, written one after another and split again, give
/// back the same lines.
pub proof fn lemma_split_joined(ls: Seq<Seq<char>>)
    requires
        well_formed_lines(ls),
    ensures
        lines_of(ls.flatten()) == ls,
    decreases ls.len(),
{
    if ls.len() == 0 {
        assert(lines_of(Seq::<char>::empty()) == Seq::<Seq<char>>::empty());
    } else {
        let init = ls.drop_last();
        assert(well_formed_lines(init)) by {
            assert forall|k: int| 0 <= k < init.len() implies is_line(#[trigger] init[k]) by {
                assert(init[k] == ls[k]);
            }
        }
        lemma_split_joined(init);
        init.lemma_flatten_push(ls.last());
        assert(init.push(ls.last()) == ls);
        if init.len() > 0 {
            assert(init.last() == ls[ls.len() - 2]);
        }
        assert(is_line(ls[ls.len() - 1]));
        lemma_lines_of_append_line(init.flatten(), ls.last());
    }
}

/// Each representative is one of the lines, so what holds of every line
/// holds of every representative.
proof fn lemma_reps_inherit(lines: Seq<Seq<char>>, p: spec_fn(Seq<char>) -> bool)
    requires
        forall|i: int| 0 <= i < lines.len() ==> p(#[trigger] lines[i]),
    ensures
        forall|k: int| 0 <= k < runs(lines).len() ==> p(#[trigger] runs(lines)[k].0),
    decreases lines.len(),
{
    if lines.len() > 0 {
        let init = lines.drop_last();
        assert forall|i: int| 0 <= i < init.len() implies p(#[trigger] init[i]) by {
            assert(init[i] == lines[i]);
        }
        lemma_reps_inherit(init, p);
        assert(p(lines[lines.len() - 1]));
        let before = runs(init);
        assert forall|k: int| 0 <= k < runs(lines).len() implies p(#[trigger] runs(lines)[k].0) by {
            if k < before.len() {
                assert(runs(lines)[k].0 == before[k].0);
            } else {
                assert(runs(lines)[k].0 == lines.last());
            }
        }
    }
}

/// The plain records of well-formed lines are well-formed lines.
proof fn lemma_plain_outputs_well_formed(lines: Seq<Seq<char>>)
    requires
        well_formed_lines(lines),
    ensures
        well_formed_lines(outputs(lines, false)),
{
    let out = outputs(lines, false);
    lemma_reps_inherit(lines, |l: Seq<char>| is_line(l));
    if lines.len() > 0 {
        let init = lines.drop_last();
        assert forall|i: int| 0 <= i < init.len() implies (#[trigger] init[i]).last() == '\n' by {
            assert(init[i] == lines[i]);
        }
        lemma_reps_inherit(init, |l: Seq<char>| l.len() > 0 && l.last() == '\n');
        lemma_runs_nonempty(init);
        let before = runs(init);
        assert forall|k: int| 0 <= k < out.len() - 1 implies (#[trigger] out[k]).last() == '\n' by {
            assert(out[k] == runs(lines)[k].0);
            assert(k < before.len());
            assert(runs(lines)[k].0 == before[k].0);
        }
    }
    assert forall|k: int| 0 <= k < out.len() implies is_line(#[trigger] out[k]) by {
        assert(out[k] == runs(lines)[k].0);
    }
}

/// Idempotence on texts: the plain output of a text, taken as input again,
/// comes out unchanged.
pub proof fn lemma_uniq_text_idempotent(text: Seq<char>)
    ensures
        uniq_of(uniq_of(text, false), false) == uniq_of(text, false),
{
    let lines = lines_of(text);
    let out = outputs(lines, false);
    lemma_lines_of_well_formed(text);
    lemma_plain_outputs_well_formed(lines);
    lemma_split_joined(out);
    lemma_dedup_idempotent(lines);
}

/// Empty input gives empty output, in either mode.
pub proof fn lemma_empty_input(show_count: bool)
    ensures
        uniq_of(Seq::<char>::empty(), show_count) == Seq::<char>::empty(),
{
    assert(lines_of(Seq::<char>::empty()) == Seq::<Seq<char>>::empty());
    assert(outputs(Seq::<Seq<char>>::empty(), show_count) =~= Seq::<Seq<char>>::empty());
}

} // verus!
