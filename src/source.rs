//! Source locations shared by the lexer, the parser and the expander.
use vstd::prelude::*;

verus! {

/// Origin of a piece of source code.
#[derive(Clone, Copy, Debug, PartialEq, Eq, Structural)]
pub enum Source {
    /// Source of unknown provenance.
    Unknown,
    /// Command string given on the command line.
    CommandString,
    /// Standard input.
    Stdin,
}

/// Line of source code.
#[derive(Clone, Debug, PartialEq, Eq)]
pub struct Line {
    /// Text of the line, including its trailing newline if any.
    pub value: String,
    /// Line number, counted from 1.
    pub number: u64,
    /// Where the line comes from.
    pub source: Source,
}

/// Position of a character in source code.
#[derive(Clone, Debug, PartialEq, Eq)]
pub struct Location {
    /// Line containing the character.
    pub line: Line,
    /// Column number, counted from 1.
    pub column: u64,
}

impl Line {
    /// Copies the line.
    pub fn duplicate(&self) -> (r: Line)
        ensures
            r == *self,
    {
        Line { value: self.value.clone(), number: self.number, source: self.source }
    }
}

impl Location {
    /// Copies the location.
    pub fn duplicate(&self) -> (r: Location)
        ensures
            r == *self,
    {
        Location { line: self.line.duplicate(), column: self.column }
    }

    /// Location of the first column of the first line of an empty source of
    /// unknown provenance.
    pub fn dummy() -> (r: Location)
        ensures
            r.line.value@ == Seq::<char>::empty(),
            r.line.number == 1,
            r.line.source == Source::Unknown,
            r.column == 1,
    {
        Location {
            line: Line { value: String::new(), number: 1, source: Source::Unknown },
            column: 1,
        }
    }
}

} // verus!
