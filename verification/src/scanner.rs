//! The line scanner: what a trimmed line of a document is.

use crate::text::is_text;
use vstd::prelude::*;

verus! {

/// The three sections of a document.
#[derive(Clone, Copy, Debug, PartialEq, Eq, Structural)]
pub enum Section {
    Header,
    Signals,
    Waveform,
}

/// What a line is, once trimmed.
#[derive(Clone, Copy, Debug, PartialEq, Eq, Structural)]
pub enum LineClass {
    /// An empty line or a comment, which every section passes over.
    Skipped,
    /// The marker that opens a section.
    Open(Section),
    /// One of the three markers that close a section.
    Close,
    /// Any other line: content for the section that is open.
    Content,
}

/// What the trimmed line `line` is.
///
/// A line is a comment where it begins with `#`, and a marker only where it is the marker's
/// word and nothing else.
pub open spec fn spec_classify(line: Seq<char>) -> LineClass {
    if line.len() == 0 || line[0] == '#' {
        LineClass::Skipped
    } else if line == "HEADER"@ {
        LineClass::Open(Section::Header)
    } else if line == "SIGNALS"@ {
        LineClass::Open(Section::Signals)
    } else if line == "WAVEFORM"@ {
        LineClass::Open(Section::Waveform)
    } else if line == "END_HEADER"@ || line == "END_SIGNALS"@ || line == "END_WAVEFORM"@ {
        LineClass::Close
    } else {
        LineClass::Content
    }
}

/// Classifies a trimmed line.
pub fn classify(line: &[char]) -> (class: LineClass)
    ensures
        class == spec_classify(line@),
{
    if line.len() == 0 || line[0] == '#' {
        LineClass::Skipped
    } else if is_text(line, "HEADER") {
        LineClass::Open(Section::Header)
    } else if is_text(line, "SIGNALS") {
        LineClass::Open(Section::Signals)
    } else if is_text(line, "WAVEFORM") {
        LineClass::Open(Section::Waveform)
    } else if is_text(line, "END_HEADER") || is_text(line, "END_SIGNALS") || is_text(
        line,
        "END_WAVEFORM",
    ) {
        LineClass::Close
    } else {
        LineClass::Content
    }
}

} // verus!
