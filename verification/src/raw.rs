//! The wire form of one header field: an ordered sequence of raw byte
//! lines, one per physical occurrence of the field.

use vstd::prelude::*;
use vstd::string::{StrSliceExecFns, StringSliceAdditionalSpecFns};

verus! {

/// An ordered sequence of raw byte lines for one header field name,
/// immutable once obtained from the surrounding header store.
pub struct Raw {
    lines: Vec<Vec<u8>>,
}

impl View for Raw {
    type V = Seq<Seq<u8>>;

    closed spec fn view(&self) -> Seq<Seq<u8>> {
        Seq::new(self.lines@.len(), |i: int| self.lines@[i]@)
    }
}

impl Raw {
    /// A field with a single raw line.
    pub fn from_line(line: Vec<u8>) -> (r: Raw)
        ensures
            r@ =~= seq![line@],
    {
        let mut lines: Vec<Vec<u8>> = Vec::new();
        lines.push(line);
        Raw { lines }
    }

    /// A field with one raw line per element of `lines`.
    pub fn from_lines(lines: Vec<Vec<u8>>) -> (r: Raw)
        ensures
            r@.len() == lines@.len(),
            forall|i: int| 0 <= i < lines@.len() ==> r@[i] == lines@[i]@,
    {
        Raw { lines }
    }

    /// A field with a single line holding the bytes of `text`.
    pub fn from_text(text: &str) -> (r: Raw)
        ensures
            r@ =~= seq![text.spec_bytes()],
    {
        Raw::from_line(text.as_bytes_vec())
    }

    /// The number of physical lines.
    pub fn len(&self) -> (n: usize)
        ensures
            n == self@.len(),
    {
        self.lines.len()
    }

    /// The bytes of line `i`.
    pub fn line(&self, i: usize) -> (line: &Vec<u8>)
        requires
            i < self@.len(),
        ensures
            line@ == self@[i as int],
    {
        &self.lines[i]
    }

    /// The single line of a field that occurs exactly once on the wire;
    /// absent or repeated fields yield `None`.
    pub fn one(&self) -> (r: Option<&Vec<u8>>)
        ensures
            match r {
                Some(line) => self@.len() == 1 && line@ == self@[0],
                None => self@.len() != 1,
            },
    {
        if self.lines.len() == 1 {
            Some(&self.lines[0])
        } else {
            None
        }
    }
}

} // verus!
