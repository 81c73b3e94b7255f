//! What holds of every parse: the shape of the waveforms it gives, and the documents on which
//! it fails.

use crate::number::spec_parse_u64;
use crate::parser::{
    lemma_feed_bytes_well_formed, not_utf8, spec_feed_all, spec_feed_bytes, spec_feed_line,
    spec_lines, spec_parse, ParserView,
};
use crate::records::{invalid_time, spec_signal_line};
use crate::scanner::{spec_classify, LineClass, Section};
use crate::text::{spec_split_once, spec_trim};
use crate::waveform::{widths_positive, ParseErrorView, WaveformView};
use vstd::prelude::*;
use vstd::utf8::{decode_utf8, valid_utf8};

verus! {

/// Feeding two runs of lines one after the other is feeding the first and then, from the
/// state it leaves, the second; an error in the first is the error of both.
pub proof fn lemma_feed_all_add(state: ParserView, first: Seq<Seq<u8>>, second: Seq<Seq<u8>>)
    ensures
        spec_feed_all(state, first + second) == match spec_feed_all(state, first) {
            Ok(middle) => spec_feed_all(middle, second),
            Err(e) => Err(e),
        },
    decreases second.len(),
{
    if second.len() == 0 {
        assert(first + second =~= first);
    } else {
        lemma_feed_all_add(state, first, second.drop_last());
        assert((first + second).drop_last() =~= first + second.drop_last());
    }
}

/// The state after the first `k` of `lines`, fed to a parser that has seen nothing.
pub open spec fn state_before(lines: Seq<Seq<u8>>, k: int) -> Result<ParserView, ParseErrorView> {
    spec_feed_all(ParserView::initial(), lines.take(k))
}

/// The state before a line is the state before the previous line, after that line.
pub proof fn lemma_state_before_next(lines: Seq<Seq<u8>>, k: int)
    requires
        0 <= k < lines.len(),
    ensures
        state_before(lines, k + 1) == match state_before(lines, k) {
            Ok(state) => spec_feed_bytes(state, lines[k]),
            Err(e) => Err(e),
        },
        state_before(lines, lines.len() as int) == spec_feed_all(ParserView::initial(), lines),
{
    assert(lines.take(k + 1).drop_last() =~= lines.take(k));
    assert(lines.take(lines.len() as int) =~= lines);
}

/// Lines keep every change referring to a declared signal, and every signal at least one bit
/// wide.
pub proof fn lemma_feed_all_sound(state: ParserView, lines: Seq<Seq<u8>>)
    requires
        state.well_formed(),
        widths_positive(state.signals),
    ensures
        spec_feed_all(state, lines) matches Ok(after) ==> after.well_formed() && widths_positive(
            after.signals,
        ),
    decreases lines.len(),
{
    if lines.len() > 0 {
        lemma_feed_all_sound(state, lines.drop_last());
        match spec_feed_all(state, lines.drop_last()) {
            Ok(before) => {
                lemma_feed_bytes_well_formed(before, lines.last());
                match spec_feed_bytes(before, lines.last()) {
                    Ok(after) => {
                        assert forall|i: int| 0 <= i < after.signals.len() implies (
                        #[trigger] after.signals[i]).width >= 1 by {}
                    },
                    Err(_) => {},
                }
            },
            Err(_) => {},
        }
    }
}

/// A waveform that a parse gives has a signal at least, each of its signals is at least one
/// bit wide, and each of its changes refers to one of its signals.
pub proof fn lemma_parse_sound(data: Seq<u8>)
    ensures
        spec_parse(data) matches Ok(waveform) ==> {
            &&& waveform.signals.len() >= 1
            &&& widths_positive(waveform.signals)
            &&& waveform.well_formed()
        },
{
    lemma_feed_all_sound(ParserView::initial(), spec_lines(data));
}

/// What a line given as bytes is, once decoded and trimmed.
pub open spec fn line_class(raw: Seq<u8>) -> LineClass
    recommends
        valid_utf8(raw),
{
    spec_classify(spec_trim(decode_utf8(raw)))
}

/// Whether a line is UTF-8 and no marker.
pub open spec fn is_plain_text(raw: Seq<u8>) -> bool {
    valid_utf8(raw) && (line_class(raw) == LineClass::Skipped || line_class(raw)
        == LineClass::Content)
}

/// Lines of text without a marker leave a parser that has seen nothing as it was.
pub proof fn lemma_plain_text_is_passed_over(lines: Seq<Seq<u8>>)
    requires
        forall|k: int| 0 <= k < lines.len() ==> is_plain_text(#[trigger] lines[k]),
    ensures
        spec_feed_all(ParserView::initial(), lines) == Ok::<ParserView, ParseErrorView>(
            ParserView::initial(),
        ),
    decreases lines.len(),
{
    if lines.len() > 0 {
        let shorter = lines.drop_last();
        lemma_plain_text_is_passed_over(shorter);
    }
}

/// A document of text in which no line is a marker fails for want of a header.
pub proof fn lemma_text_without_markers(data: Seq<u8>)
    requires
        forall|k: int|
            0 <= k < spec_lines(data).len() ==> is_plain_text(#[trigger] spec_lines(data)[k]),
    ensures
        spec_parse(data) == Err::<WaveformView, ParseErrorView>(
            ParseErrorView::MissingSection("HEADER"@),
        ),
{
    lemma_plain_text_is_passed_over(spec_lines(data));
}

/// Whether a line is the marker that opens a header section.
pub open spec fn opens_header(raw: Seq<u8>) -> bool {
    valid_utf8(raw) && line_class(raw) == LineClass::Open(Section::Header)
}

/// Without a line that opens a header section, no header section is open and no header is
/// there.
pub proof fn lemma_header_needs_marker(lines: Seq<Seq<u8>>)
    requires
        forall|k: int| 0 <= k < lines.len() ==> !opens_header(#[trigger] lines[k]),
    ensures
        spec_feed_all(ParserView::initial(), lines) matches Ok(state) ==> state.header is None
            && state.section != Some(Section::Header),
    decreases lines.len(),
{
    if lines.len() > 0 {
        let shorter = lines.drop_last();
        lemma_header_needs_marker(shorter);
    }
}

/// A document in which no line opens a header section, and whose lines are read without an
/// error, fails for want of a header.
pub proof fn lemma_missing_header(data: Seq<u8>)
    requires
        forall|k: int|
            0 <= k < spec_lines(data).len() ==> !opens_header(#[trigger] spec_lines(data)[k]),
        spec_feed_all(ParserView::initial(), spec_lines(data)) is Ok,
    ensures
        spec_parse(data) == Err::<WaveformView, ParseErrorView>(
            ParseErrorView::MissingSection("HEADER"@),
        ),
{
    lemma_header_needs_marker(spec_lines(data));
}

/// Whether line `k` of `lines` adds a signal to the table: it is read while a signals section
/// is open, and it declares a signal.
pub open spec fn declares_signal(lines: Seq<Seq<u8>>, k: int) -> bool {
    &&& state_before(lines, k) matches Ok(state)
    &&& state.section == Some(Section::Signals)
    &&& valid_utf8(lines[k])
    &&& line_class(lines[k]) == LineClass::Content
    &&& spec_signal_line(spec_trim(decode_utf8(lines[k]))) is Some
}

/// As long as no line adds a signal, the signal table is empty.
pub proof fn lemma_no_declarations(lines: Seq<Seq<u8>>, n: int)
    requires
        0 <= n <= lines.len(),
        forall|k: int| 0 <= k < n ==> !declares_signal(lines, k),
    ensures
        state_before(lines, n) matches Ok(state) ==> state.signals.len() == 0,
    decreases n,
{
    if n > 0 {
        lemma_no_declarations(lines, n - 1);
        lemma_state_before_next(lines, n - 1);
        assert(!declares_signal(lines, n - 1));
    } else {
        assert(lines.take(0) =~= Seq::<Seq<u8>>::empty());
    }
}

/// A document whose lines are read without an error and give a header, but of which no line
/// adds a signal, fails for want of signals.
pub proof fn lemma_missing_signals(data: Seq<u8>)
    requires
        forall|k: int| 0 <= k < spec_lines(data).len() ==> !declares_signal(spec_lines(data), k),
        spec_feed_all(ParserView::initial(), spec_lines(data)) matches Ok(state)
            && state.header is Some,
    ensures
        spec_parse(data) == Err::<WaveformView, ParseErrorView>(
            ParseErrorView::MissingSection("SIGNALS"@),
        ),
{
    let lines = spec_lines(data);
    lemma_no_declarations(lines, lines.len() as int);
    assert(lines.take(lines.len() as int) =~= lines);
}

/// The time field of a line, where the line is content with a colon and the text before its
/// first colon is not an unsigned number of 64 bits.
pub open spec fn bad_time_field(raw: Seq<char>) -> Option<Seq<char>> {
    let line = spec_trim(raw);
    if spec_classify(line) == LineClass::Content {
        match spec_split_once(line, ':') {
            Some((field, rest)) => if spec_parse_u64(spec_trim(field)) is None {
                Some(field)
            } else {
                None
            },
            None => None,
        }
    } else {
        None
    }
}

/// A line is refused in one case only: it is read while a waveform section is open, and its
/// time field is no number. The error is then malformed input, and names the field.
pub proof fn lemma_line_refused(state: ParserView, raw: Seq<char>)
    ensures
        spec_feed_line(state, raw) is Err <==> state.section == Some(Section::Waveform)
            && bad_time_field(raw) is Some,
        spec_feed_line(state, raw) is Err ==> spec_feed_line(state, raw) == Err::<
            ParserView,
            ParseErrorView,
        >(invalid_time(bad_time_field(raw)->0)),
{
}

/// A line given as bytes is refused in two cases only: it is not UTF-8, or it is read while
/// a waveform section is open and its time field is no number.
pub proof fn lemma_bytes_refused(state: ParserView, raw: Seq<u8>)
    ensures
        spec_feed_bytes(state, raw) is Err <==> !valid_utf8(raw) || (state.section == Some(
            Section::Waveform,
        ) && bad_time_field(decode_utf8(raw)) is Some),
        !valid_utf8(raw) ==> spec_feed_bytes(state, raw) == Err::<ParserView, ParseErrorView>(
            not_utf8(),
        ),
{
    if valid_utf8(raw) {
        lemma_line_refused(state, decode_utf8(raw));
    }
}

/// A document fails as malformed where a line of text is read while a waveform section is
/// open and its time field is no number. The error names the field.
pub proof fn lemma_invalid_time(data: Seq<u8>, k: int)
    requires
        0 <= k < spec_lines(data).len(),
        state_before(spec_lines(data), k) matches Ok(state) && state.section == Some(
            Section::Waveform,
        ),
        valid_utf8(spec_lines(data)[k]),
        bad_time_field(decode_utf8(spec_lines(data)[k])) is Some,
    ensures
        spec_parse(data) == Err::<WaveformView, ParseErrorView>(
            invalid_time(bad_time_field(decode_utf8(spec_lines(data)[k]))->0),
        ),
        spec_parse(data) matches Err(e) && e is InvalidFormat,
{
    let lines = spec_lines(data);
    lemma_state_before_next(lines, k);
    lemma_feed_all_add(ParserView::initial(), lines.take(k + 1), lines.skip(k + 1));
    assert(lines.take(k + 1) + lines.skip(k + 1) =~= lines);
}

} // verus!
