//! The streaming engine: lines go in one at a time, and the record of a run
//! comes out as soon as the run is known to be over.

use vstd::prelude::*;
use crate::model::{runs, outputs, key, record};
use crate::format::format_record;
use crate::text::content_of;
use crate::laws::lemma_runs_nonempty;

verus! {

/// The records of all runs of `lines` but the last, which may still grow.
pub open spec fn settled(lines: Seq<Seq<char>>, show_count: bool) -> Seq<Seq<char>> {
    if lines.len() == 0 {
        seq![]
    } else {
        outputs(lines, show_count).drop_last()
    }
}

/// The state of one pass: the run in progress, if any, held as its
/// representative line, that line's content and the run's length.
pub struct Deduper {
    show_count: bool,
    rep: Option<String>,
    rep_key: String,
    count: u64,
    lines: Ghost<Seq<Seq<char>>>,
    emitted: Ghost<Seq<Seq<char>>>,
}

impl Deduper {
    /// The lines fed so far.
    pub closed spec fn lines(&self) -> Seq<Seq<char>> {
        self.lines@
    }

    /// The records handed out so far.
    pub closed spec fn emitted(&self) -> Seq<Seq<char>> {
        self.emitted@
    }

    pub closed spec fn show_count_spec(&self) -> bool {
        self.show_count
    }

    /// The length of the run in progress, zero before the first line.
    pub open spec fn run_length_spec(&self) -> nat {
        if self.lines().len() == 0 {
            0
        } else {
            runs(self.lines()).last().1
        }
    }

    /// The records handed out are those of every run but the last.
    pub closed spec fn wf(&self) -> bool {
        &&& self.emitted@ == settled(self.lines@, self.show_count)
        &&& match self.rep {
            None => self.lines@.len() == 0 && self.count == 0,
            Some(rep) => {
                &&& self.lines@.len() > 0
                &&& runs(self.lines@).last() == (rep@, self.count as nat)
                &&& self.rep_key@ == key(rep@)
            },
        }
    }

    /// A pass that has seen no line yet.
    pub fn new(show_count: bool) -> (r: Deduper)
        ensures
            r.wf(),
            r.lines() == Seq::<Seq<char>>::empty(),
            r.emitted() == Seq::<Seq<char>>::empty(),
            r.show_count_spec() == show_count,
            r.emitted() == settled(r.lines(), show_count),
    {
        Deduper {
            show_count,
            rep: None,
            rep_key: String::new(),
            count: 0,
            lines: Ghost(Seq::empty()),
            emitted: Ghost(Seq::empty()),
        }
    }

    /// Whether records carry the run's length.
    pub fn show_count(&self) -> (r: bool)
        ensures
            r == self.show_count_spec(),
    {
        self.show_count
    }

    /// The length of the run in progress, zero before the first line.
    pub fn run_length(&self) -> (r: u64)
        requires
            self.wf(),
        ensures
            r as nat == self.run_length_spec(),
    {
        self.count
    }

    /// Takes the next line, exactly as read. Returns the record of the run
    /// that `line` ends, if it ends one: that is, when a run is in progress
    /// and the content of `line` differs from that of its representative.
    pub fn feed(&mut self, line: String) -> (r: Option<String>)
        requires
            old(self).wf(),
            old(self).run_length_spec() < u64::MAX,
        ensures
            final(self).wf(),
            final(self).show_count_spec() == old(self).show_count_spec(),
            final(self).lines() == old(self).lines().push(line@),
            final(self).emitted() == old(self).emitted() + match r {
                Some(rec) => seq![rec@],
                None => Seq::<Seq<char>>::empty(),
            },
            r is Some == (old(self).lines().len() > 0 && key(runs(old(self).lines()).last().0)
                != key(line@)),
            r is Some ==> r->0@ == record(runs(old(self).lines()).last(), old(self).show_count_spec()),
            final(self).emitted() == settled(final(self).lines(), final(self).show_count_spec()),
    {
        let ghost old_lines = self.lines@;
        let ghost new_lines = old_lines.push(line@);
        assert(new_lines.drop_last() == old_lines);
        let line_key = content_of(line.as_str());
        proof {
            self.lines = Ghost(new_lines);
        }
        match self.rep.take() {
            None => {
                proof {
                    lemma_runs_nonempty(old_lines);
                }
                self.rep = Some(line);
                self.rep_key = line_key;
                self.count = 1;
                assert(runs(old_lines).len() == 0);
                assert(runs(new_lines).last() == (line@, 1nat));
                assert(settled(new_lines, self.show_count) =~= seq![]);
                None
            },
            Some(rep) => {
                if line_key == self.rep_key {
                    self.rep = Some(rep);
                    self.count = self.count + 1;
                    assert(runs(new_lines).last() == (rep@, self.count as nat));
                    assert(outputs(new_lines, self.show_count).drop_last()
                        =~= outputs(old_lines, self.show_count).drop_last());
                    None
                } else {
                    let rec = format_record(rep.as_str(), self.count, self.show_count);
                    self.rep = Some(line);
                    self.rep_key = line_key;
                    self.count = 1;
                    proof {
                        lemma_runs_nonempty(old_lines);
                        assert(runs(new_lines) == runs(old_lines).push((line@, 1nat)));
                        let outs = outputs(old_lines, self.show_count);
                        assert(rec@ == outs.last());
                        assert(self.emitted@.push(rec@) =~= outs);
                        self.emitted = Ghost(self.emitted@.push(rec@));
                        assert(outputs(new_lines, self.show_count).drop_last()
                            =~= outputs(old_lines, self.show_count));
                    }
                    Some(rec)
                }
            },
        }
    }

    /// Ends the pass. Returns the record of the last run, or `None` when no
    /// line was fed; together with what `feed` handed out, that makes the
    /// records of every run of the input, in order.
    pub fn finish(self) -> (r: Option<String>)
        requires
            self.wf(),
        ensures
            r is Some == (self.lines().len() > 0),
            self.emitted() + match r {
                Some(rec) => seq![rec@],
                None => Seq::<Seq<char>>::empty(),
            } == outputs(self.lines(), self.show_count_spec()),
    {
        match self.rep {
            None => {
                assert(outputs(self.lines@, self.show_count) =~= seq![]);
                None
            },
            Some(rep) => {
                let rec = format_record(rep.as_str(), self.count, self.show_count);
                proof {
                    lemma_runs_nonempty(self.lines@);
                    assert(self.emitted@.push(rec@) =~= outputs(self.lines@, self.show_count));
                }
                Some(rec)
            },
        }
    }
}

} // verus!
