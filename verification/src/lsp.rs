//! What the server answers with, as the language server protocol defines it.

use vstd::prelude::*;

verus! {

/// A position in a document; both numbers count from zero.
#[derive(Debug, Clone, Copy, PartialEq, Eq, Structural)]
pub struct Position {
    pub line: u32,
    pub character: u32,
}

/// A range in a document.
#[derive(Debug, Clone, Copy, PartialEq, Eq, Structural)]
pub struct Range {
    pub start: Position,
    pub end: Position,
}

/// Text shown inline at a position.
#[derive(Debug, Clone)]
pub struct InlayHint {
    pub position: Position,
    pub label: String,
    pub tooltip: Option<String>,
    pub padding_left: Option<bool>,
    pub padding_right: Option<bool>,
}

/// A title, and the command that it runs.
#[derive(Debug, Clone)]
pub struct Command {
    pub title: String,
    pub command: String,
}

/// A command shown above a range.
#[derive(Debug, Clone)]
pub struct CodeLens {
    pub range: Range,
    pub command: Option<Command>,
}

/// How severe a diagnostic is.
#[derive(Debug, Clone, Copy, PartialEq, Eq, Structural)]
pub enum DiagnosticSeverity {
    Warning,
    Information,
}

/// A message about a range.
#[derive(Debug, Clone)]
pub struct Diagnostic {
    pub range: Range,
    pub severity: Option<DiagnosticSeverity>,
    pub source: Option<String>,
    pub message: String,
}

/// An empty range at the start of a line.
pub open spec fn line_start(line: u32) -> Range {
    Range {
        start: Position { line, character: 0 },
        end: Position { line, character: 0 },
    }
}

/// The empty range at the start of `line`.
pub fn at_line(line: u32) -> (r: Range)
    ensures
        r == line_start(line),
{
    Range { start: Position { line, character: 0 }, end: Position { line, character: 0 } }
}

/// The low 32 bits of a line number.
pub open spec fn narrow(line: u64) -> u32 {
    (line % 0x1_0000_0000) as u32
}

/// A line number cut to the width of the protocol.
pub fn narrow_line(line: u64) -> (r: u32)
    ensures
        r == narrow(line),
{
    (line % 0x1_0000_0000) as u32
}

/// A line number of 32 bits is kept; of a larger one the lower 32 bits are.
pub proof fn lemma_narrow(line: u64)
    ensures
        line <= u32::MAX ==> narrow(line) == line,
        (line - narrow(line)) % 0x1_0000_0000 == 0,
        line_start(narrow(line)).start == line_start(narrow(line)).end,
        line_start(narrow(line)).start.line == narrow(line),
        line_start(narrow(line)).start.character == 0,
{
}

} // verus!
