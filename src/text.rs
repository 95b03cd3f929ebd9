//! Operations on single lines and on whole texts.

use vstd::prelude::*;
use crate::model::{key, lines_of, outputs, runs, uniq_of};
use crate::engine::Deduper;
use crate::laws::{lemma_run_length_bound, lemma_runs_nonempty};

verus! {

/// Length, in characters, of `line` once its trailing newlines are removed.
pub fn content_len(line: &str) -> (n: usize)
    ensures
        n <= line@.len(),
        n as int == key(line@).len(),
        key(line@) == line@.subrange(0, n as int),
{
    let mut n: usize = line.unicode_len();
    assert(line@.subrange(0, n as int) == line@);
    while n > 0 && line.get_char(n - 1) == '\n'
        invariant
            n <= line@.len(),
            key(line@) == key(line@.subrange(0, n as int)),
        decreases n,
    {
        assert(line@.subrange(0, n - 1) == line@.subrange(0, n as int).drop_last());
        n = n - 1;
    }
    assert(key(line@.subrange(0, n as int)) == line@.subrange(0, n as int));
    n
}

/// The content of `line`: its text without trailing newlines.
pub fn content_of(line: &str) -> (r: String)
    ensures
        r@ == key(line@),
{
    let n = content_len(line);
    String::from_str(line.substring_char(0, n))
}

/// The views of a sequence of strings.
pub open spec fn views(v: Seq<String>) -> Seq<Seq<char>> {
    v.map_values(|s: String| s@)
}

/// The output records for `lines`, one per run of consecutive lines with
/// equal content, in order.
pub fn dedup_lines(lines: &Vec<String>, show_count: bool) -> (r: Vec<String>)
    ensures
        views(r@) == outputs(views(lines@), show_count),
{
    let mut d = Deduper::new(show_count);
    let mut out: Vec<String> = Vec::new();
    let mut i: usize = 0;
    while i < lines.len()
        invariant
            i <= lines.len(),
            d.wf(),
            d.show_count_spec() == show_count,
            d.lines() == views(lines@).take(i as int),
            d.emitted() == views(out@),
        decreases lines.len() - i,
    {
        proof {
            if i > 0 {
                lemma_runs_nonempty(d.lines());
                lemma_run_length_bound(d.lines(), runs(d.lines()).len() - 1);
            }
        }
        let l = lines[i].clone();
        assert(views(lines@).take(i as int).push(l@) == views(lines@).take(i + 1));
        match d.feed(l) {
            Some(rec) => {
                out.push(rec);
            },
            None => {},
        }
        assert(d.emitted() =~= views(out@));
        i = i + 1;
    }
    assert(views(lines@).take(i as int) == views(lines@));
    match d.finish() {
        Some(rec) => {
            out.push(rec);
        },
        None => {},
    }
    assert(views(out@) =~= outputs(views(lines@), show_count));
    out
}

/// Splits `text` into lines, each keeping its terminating `'\n'`; the last
/// keeps whatever the text ends with.
pub fn split_lines(text: &str) -> (r: Vec<String>)
    ensures
        views(r@) == lines_of(text@),
{
    let n = text.unicode_len();
    let mut out: Vec<String> = Vec::new();
    let mut start: usize = 0;
    let mut i: usize = 0;
    for c in it: text.chars()
        invariant
            n == text@.len(),
            it.seq() == text@,
            i == it.index(),
            start <= i <= n,
            lines_of(text@.take(i as int)) == views(out@) + if start < i {
                seq![text@.subrange(start as int, i as int)]
            } else {
                Seq::<Seq<char>>::empty()
            },
            start < i ==> text@[i - 1] != '\n',
            out@.len() > 0 && start == i ==> out@.last()@.last() == '\n',
            out@.len() == 0 ==> start == 0,
            forall|k: int| 0 <= k < out@.len() ==> (#[trigger] out@[k])@.len() > 0,
    {
        assert(c == text@[i as int]);
        let ghost before = lines_of(text@.take(i as int));
        let ghost old_out = views(out@);
        proof {
            let t1 = text@.take(i + 1);
            assert(t1.drop_last() == text@.take(i as int));
            assert(t1.last() == c);
            if start < i {
                let part = text@.subrange(start as int, i as int);
                assert(before.last() == part);
                assert(part.last() == text@[i - 1]);
                assert(lines_of(t1) == before.update(before.len() - 1, part.push(c)));
                assert(part.push(c) =~= text@.subrange(start as int, i + 1));
                assert(lines_of(t1) =~= old_out.push(text@.subrange(start as int, i + 1)));
            } else {
                assert(before == old_out);
                assert(seq![c] =~= text@.subrange(start as int, i + 1));
                assert(lines_of(t1) == old_out.push(text@.subrange(start as int, i + 1)));
            }
        }
        if c == '\n' {
            let line = String::from_str(text.substring_char(start, i + 1));
            out.push(line);
            assert(views(out@) =~= old_out.push(line@));
            start = i + 1;
        }
        i = i + 1;
        assert(lines_of(text@.take(i as int)) =~= views(out@) + if start < i {
            seq![text@.subrange(start as int, i as int)]
        } else {
            Seq::<Seq<char>>::empty()
        });
    }
    assert(i == n);
    if start < n {
        out.push(String::from_str(text.substring_char(start, n)));
    }
    assert(text@.take(n as int) == text@);
    assert(views(out@) =~= lines_of(text@));
    out
}

/// The records of `lines`, written one after another.
pub fn join_lines(lines: &Vec<String>) -> (r: String)
    ensures
        r@ == views(lines@).flatten(),
{
    let mut r = String::new();
    let mut i: usize = 0;
    while i < lines.len()
        invariant
            i <= lines.len(),
            r@ == views(lines@).take(i as int).flatten(),
        decreases lines.len() - i,
    {
        r.append(lines[i].as_str());
        proof {
            views(lines@).take(i as int).lemma_flatten_push(lines@[i as int]@);
            assert(views(lines@).take(i as int).push(lines@[i as int]@) == views(lines@).take(i + 1));
        }
        i = i + 1;
    }
    assert(views(lines@).take(i as int) == views(lines@));
    r
}

/// The whole output for the text `text`: its lines, with each run of
/// consecutive lines of equal content written once, as its first line,
/// behind the run's length when `show_count` holds.
pub fn uniq_text(text: &str, show_count: bool) -> (r: String)
    ensures
        r@ == uniq_of(text@, show_count),
{
    let lines = split_lines(text);
    let records = dedup_lines(&lines, show_count);
    join_lines(&records)
}

} // verus!
