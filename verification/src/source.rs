//! Lines that remember which source line they came from.

use vstd::prelude::*;
use crate::text::{chars_of, string_of, texts};

verus! {

/// A line together with the index of the source line that it came from.
#[derive(Debug, PartialEq, Eq)]
pub struct SourceLine {
    pub origin: usize,
    pub text: Vec<char>,
}

/// The mathematical value of a [`SourceLine`].
pub struct Sourced {
    pub origin: nat,
    pub text: Seq<char>,
}

impl View for SourceLine {
    type V = Sourced;

    open spec fn view(&self) -> Sourced {
        Sourced { origin: self.origin as nat, text: self.text@ }
    }
}

/// The values of a sequence of lines.
pub open spec fn sourced(v: Seq<SourceLine>) -> Seq<Sourced> {
    Seq::new(v.len(), |i: int| v[i]@)
}

/// The texts of the lines, without their origins.
pub open spec fn texts_of(v: Seq<Sourced>) -> Seq<Seq<char>> {
    Seq::new(v.len(), |i: int| v[i].text)
}

/// The lines of a source, each with its own index for its origin.
pub open spec fn numbered(lines: Seq<Seq<char>>) -> Seq<Sourced> {
    Seq::new(lines.len(), |i: int| Sourced { origin: i as nat, text: lines[i] })
}

/// Pushing a line pushes its value.
pub proof fn lemma_sourced_push(v: Seq<SourceLine>, line: SourceLine)
    ensures
        sourced(v.push(line)) == sourced(v).push(line@),
{
    assert(sourced(v.push(line)) =~= sourced(v).push(line@));
}

/// Gives each line its own index for its origin.
pub fn number(lines: &Vec<String>) -> (out: Vec<SourceLine>)
    ensures
        sourced(out@) == numbered(texts(lines@)),
{
    let mut out: Vec<SourceLine> = Vec::new();
    let mut i: usize = 0;
    while i < lines.len()
        invariant
            i <= lines@.len(),
            out@.len() == i,
            forall|k: int|
                0 <= k < i ==> (#[trigger] out@[k])@ == (Sourced {
                    origin: k as nat,
                    text: lines@[k]@,
                }),
        decreases lines.len() - i,
    {
        out.push(SourceLine { origin: i, text: chars_of(lines[i].as_str()) });
        i += 1;
    }
    assert(sourced(out@) =~= numbered(texts(lines@)));
    out
}

/// The texts of the lines as strings.
pub fn strip(lines: &Vec<SourceLine>) -> (out: Vec<String>)
    ensures
        texts(out@) == texts_of(sourced(lines@)),
{
    let mut out: Vec<String> = Vec::new();
    let mut i: usize = 0;
    while i < lines.len()
        invariant
            i <= lines@.len(),
            out@.len() == i,
            forall|k: int| 0 <= k < i ==> (#[trigger] out@[k])@ == lines@[k].text@,
        decreases lines.len() - i,
    {
        out.push(string_of(lines[i].text.as_slice()));
        i += 1;
    }
    assert(texts(out@) =~= texts_of(sourced(lines@)));
    out
}

} // verus!
