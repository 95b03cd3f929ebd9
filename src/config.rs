//! The resolved configuration of one invocation.

use vstd::prelude::*;

verus! {

/// Where to read, where to write, and whether to prefix each record with its
/// run's length. Built once, then only read.
#[derive(Debug)]
pub struct Config {
    in_file: String,
    out_file: Option<String>,
    count: bool,
}

/// The input path that stands for standard input.
pub open spec fn stdin_marker() -> Seq<char> {
    seq!['-']
}

impl Config {
    pub closed spec fn in_file_spec(&self) -> Seq<char> {
        self.in_file@
    }

    pub closed spec fn out_file_spec(&self) -> Option<Seq<char>> {
        match self.out_file {
            Some(p) => Some(p@),
            None => None,
        }
    }

    pub closed spec fn count_spec(&self) -> bool {
        self.count
    }

    /// A configuration reading `in_file` (`"-"` for standard input), writing
    /// to `out_file` (standard output when `None`), with count prefixes when
    /// `count` is set.
    pub fn new(in_file: String, out_file: Option<String>, count: bool) -> (r: Config)
        ensures
            r.in_file_spec() == in_file@,
            r.out_file_spec() == (match out_file {
                Some(p) => Some(p@),
                None => None::<Seq<char>>,
            }),
            r.count_spec() == count,
    {
        Config { in_file, out_file, count }
    }

    /// The input path, `"-"` meaning standard input.
    pub fn in_file(&self) -> (r: &str)
        ensures
            r@ == self.in_file_spec(),
    {
        self.in_file.as_str()
    }

    /// The output path, if one was given.
    pub fn out_file(&self) -> (r: Option<&str>)
        ensures
            match r {
                Some(p) => self.out_file_spec() == Some(p@),
                None => self.out_file_spec() is None,
            },
    {
        match &self.out_file {
            Some(p) => Some(p.as_str()),
            None => None,
        }
    }

    /// Whether each record is prefixed with its run's length.
    pub fn count(&self) -> (r: bool)
        ensures
            r == self.count_spec(),
    {
        self.count
    }

    /// Whether the input is standard input rather than a named file.
    pub fn reads_stdin(&self) -> (r: bool)
        ensures
            r == (self.in_file_spec() == stdin_marker()),
    {
        let s = self.in_file.as_str();
        if s.unicode_len() != 1 {
            return false;
        }
        let c = s.get_char(0);
        assert(c == '-' ==> s@ =~= stdin_marker());
        c == '-'
    }
}

} // verus!
