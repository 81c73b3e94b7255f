//! The section state machine, and the parser of whole documents built on it.
//!
//! A document is split into lines at each line feed. Each line is decoded, trimmed and
//! classified; a marker changes the open section, and a content line goes to the record
//! builder of the section that is open. The first error ends the parse.

use crate::parser_proofs::lemma_parse_sound;
use crate::records::{
    header_line, lemma_waveform_line_resolved, signal_line, spec_header_line, spec_signal_line,
    spec_waveform_line, waveform_line,
};
use crate::scanner::{classify, spec_classify, LineClass, Section};
use crate::text::{chars_of, spec_trim, trim};
use crate::waveform::{
    changes_resolved, changes_view, signals_view, widths_positive, ChangeView, HeaderView,
    ParseErrorView, SignalView, WaveformView, WcpChange, WcpHeader, WcpParseError, WcpSignal,
    WcpWaveform,
};
use vstd::prelude::*;
use vstd::slice::slice_subrange;
use vstd::string::StringSliceAdditionalSpecFns;
use vstd::utf8::{decode_utf8, encode_utf8_decode_utf8, valid_utf8};

verus! {

/// The byte that ends a line.
pub const LINE_FEED: u8 = 0x0A;

/// The state of a parse as plain values.
pub struct ParserView {
    /// The section that is open, if any.
    pub section: Option<Section>,
    /// The header, once a content line of a header section was seen.
    pub header: Option<HeaderView>,
    /// The signals declared so far.
    pub signals: Seq<SignalView>,
    /// The changes read so far.
    pub changes: Seq<ChangeView>,
}

impl ParserView {
    /// The state before the first line.
    pub open spec fn initial() -> ParserView {
        ParserView { section: None, header: None, signals: Seq::empty(), changes: Seq::empty() }
    }

    /// Whether every change read so far refers to a signal declared so far.
    pub open spec fn well_formed(self) -> bool {
        changes_resolved(self.changes, self.signals.len())
    }
}

/// The header that a content line of a header section is applied to.
pub open spec fn header_so_far(header: Option<HeaderView>) -> HeaderView {
    match header {
        Some(h) => h,
        None => HeaderView::unset(),
    }
}

/// The state after the line `raw`, or the error that ends the parse.
pub open spec fn spec_feed_line(state: ParserView, raw: Seq<char>) -> Result<
    ParserView,
    ParseErrorView,
> {
    let line = spec_trim(raw);
    match spec_classify(line) {
        LineClass::Skipped => Ok(state),
        LineClass::Open(section) => Ok(ParserView { section: Some(section), ..state }),
        LineClass::Close => Ok(ParserView { section: None, ..state }),
        LineClass::Content => match state.section {
            None => Ok(state),
            Some(Section::Header) => Ok(
                ParserView {
                    header: Some(spec_header_line(header_so_far(state.header), line)),
                    ..state
                },
            ),
            Some(Section::Signals) => match spec_signal_line(line) {
                Some(signal) => Ok(ParserView { signals: state.signals.push(signal), ..state }),
                None => Ok(state),
            },
            Some(Section::Waveform) => match spec_waveform_line(state.signals, line) {
                Ok(changes) => Ok(ParserView { changes: state.changes + changes, ..state }),
                Err(e) => Err(e),
            },
        },
    }
}

/// The waveform that a parse ends with: it needs a header and at least one signal.
pub open spec fn spec_finish(state: ParserView) -> Result<WaveformView, ParseErrorView> {
    match state.header {
        None => Err(ParseErrorView::MissingSection("HEADER"@)),
        Some(header) => if state.signals.len() == 0 {
            Err(ParseErrorView::MissingSection("SIGNALS"@))
        } else {
            Ok(WaveformView { header, signals: state.signals, changes: state.changes })
        },
    }
}

/// The state of a parse: the open section and the three records under construction.
pub struct WcpParser {
    pub section: Option<Section>,
    pub header: Option<WcpHeader>,
    pub signals: Vec<WcpSignal>,
    pub changes: Vec<WcpChange>,
}

impl View for WcpParser {
    type V = ParserView;

    open spec fn view(&self) -> ParserView {
        ParserView {
            section: self.section,
            header: match self.header {
                Some(h) => Some(h@),
                None => None,
            },
            signals: signals_view(self.signals@),
            changes: changes_view(self.changes@),
        }
    }
}

impl WcpParser {
    /// A parser that has seen no line.
    pub fn new() -> (parser: WcpParser)
        ensures
            parser@ == ParserView::initial(),
    {
        let parser = WcpParser {
            section: None,
            header: None,
            signals: Vec::new(),
            changes: Vec::new(),
        };
        proof {
            assert(parser@.signals =~= Seq::<SignalView>::empty());
            assert(parser@.changes =~= Seq::<ChangeView>::empty());
        }
        parser
    }

    /// Takes the next line of the document. On an error the state stays as it was.
    pub fn feed_line(&mut self, line: &str) -> (r: Result<(), WcpParseError>)
        ensures
            match r {
                Ok(()) => spec_feed_line(old(self)@, line@) == Ok::<ParserView, ParseErrorView>(
                    final(self)@,
                ),
                Err(e) => spec_feed_line(old(self)@, line@) == Err::<ParserView, ParseErrorView>(
                    e@,
                ) && final(self)@ == old(self)@,
            },
    {
        let chars = chars_of(line);
        let trimmed = trim(chars.as_slice());
        match classify(trimmed) {
            LineClass::Skipped => {},
            LineClass::Open(section) => {
                self.section = Some(section);
            },
            LineClass::Close => {
                self.section = None;
            },
            LineClass::Content => {
                match self.section {
                    None => {},
                    Some(Section::Header) => {
                        let mut header = match self.header.take() {
                            Some(h) => h,
                            None => WcpHeader::unset(),
                        };
                        header_line(&mut header, trimmed);
                        self.header = Some(header);
                    },
                    Some(Section::Signals) => {
                        match signal_line(trimmed) {
                            Some(signal) => {
                                let ghost before = self.signals@;
                                self.signals.push(signal);
                                proof {
                                    assert(signals_view(self.signals@) =~= signals_view(
                                        before,
                                    ).push(signal@));
                                }
                            },
                            None => {},
                        }
                    },
                    Some(Section::Waveform) => {
                        match waveform_line(&self.signals, trimmed) {
                            Ok(changes) => {
                                let ghost before = self.changes@;
                                let mut changes = changes;
                                let ghost added = changes@;
                                self.changes.append(&mut changes);
                                proof {
                                    assert(changes_view(self.changes@) =~= changes_view(before)
                                        + changes_view(added));
                                }
                            },
                            Err(e) => {
                                return Err(e);
                            },
                        }
                    },
                }
            },
        }
        Ok(())
    }

    /// Takes the next line of the document as bytes, which must be UTF-8.
    pub fn feed_bytes(&mut self, raw: &[u8]) -> (r: Result<(), WcpParseError>)
        ensures
            match r {
                Ok(()) => spec_feed_bytes(old(self)@, raw@) == Ok::<ParserView, ParseErrorView>(
                    final(self)@,
                ),
                Err(e) => spec_feed_bytes(old(self)@, raw@) == Err::<ParserView, ParseErrorView>(
                    e@,
                ) && final(self)@ == old(self)@,
            },
    {
        match core::str::from_utf8(raw) {
            Ok(line) => {
                proof {
                    encode_utf8_decode_utf8(line@);
                }
                self.feed_line(line)
            },
            Err(_) => Err(WcpParseError::IoError("stream did not contain valid UTF-8".to_owned())),
        }
    }

    /// Ends the parse: the waveform, or the section that the document lacks.
    pub fn finish(self) -> (r: Result<WcpWaveform, WcpParseError>)
        ensures
            match r {
                Ok(waveform) => spec_finish(self@) == Ok::<WaveformView, ParseErrorView>(
                    waveform@,
                ),
                Err(e) => spec_finish(self@) == Err::<WaveformView, ParseErrorView>(e@),
            },
    {
        match self.header {
            None => Err(WcpParseError::MissingSection("HEADER".to_owned())),
            Some(header) => {
                if self.signals.len() == 0 {
                    Err(WcpParseError::MissingSection("SIGNALS".to_owned()))
                } else {
                    Ok(WcpWaveform { header, signals: self.signals, changes: self.changes })
                }
            },
        }
    }
}

/// The error type of `core::str::from_utf8`, of which nothing is read.
#[verifier::external_type_specification]
#[verifier::external_body]
pub struct ExUtf8Error(core::str::Utf8Error);

/// `core::str::from_utf8` of std: it succeeds on the byte sequences that are valid UTF-8 and
/// on no others, and the string slice it returns is made of the bytes given.
pub assume_specification[ core::str::from_utf8 ](v: &[u8]) -> (r: Result<
    &str,
    core::str::Utf8Error,
>)
    ensures
        r is Ok <==> valid_utf8(v@),
        r matches Ok(s) ==> s.spec_bytes() == v@,
;

/// The error for a line that is not UTF-8.
pub open spec fn not_utf8() -> ParseErrorView {
    ParseErrorView::IoError("stream did not contain valid UTF-8"@)
}

/// The state after the line whose bytes are `raw`, or the error that ends the parse.
pub open spec fn spec_feed_bytes(state: ParserView, raw: Seq<u8>) -> Result<
    ParserView,
    ParseErrorView,
> {
    if valid_utf8(raw) {
        spec_feed_line(state, decode_utf8(raw))
    } else {
        Err(not_utf8())
    }
}

/// The number of bytes of `data` before its first line feed, or `data.len()` where it has none.
pub open spec fn line_length(data: Seq<u8>) -> int
    decreases data.len(),
{
    if data.len() == 0 || data[0] == LINE_FEED {
        0
    } else {
        1 + line_length(data.skip(1))
    }
}

/// `line_length` is in range, no byte before it is a line feed, and the byte at it is one.
pub proof fn lemma_line_length(data: Seq<u8>)
    ensures
        0 <= line_length(data) <= data.len(),
        forall|j: int| 0 <= j < line_length(data) ==> #[trigger] data[j] != LINE_FEED,
        line_length(data) < data.len() ==> data[line_length(data)] == LINE_FEED,
    decreases data.len(),
{
    if !(data.len() == 0 || data[0] == LINE_FEED) {
        let rest = data.skip(1);
        lemma_line_length(rest);
        assert forall|j: int| 0 <= j < line_length(data) implies #[trigger] data[j]
            != LINE_FEED by {
            if j > 0 {
                assert(data[j] == rest[j - 1]);
            }
        }
    }
}

/// An index of which `lemma_line_length` holds is `line_length`.
pub proof fn lemma_line_length_is(data: Seq<u8>, n: int)
    requires
        0 <= n <= data.len(),
        forall|j: int| 0 <= j < n ==> #[trigger] data[j] != LINE_FEED,
        n < data.len() ==> data[n] == LINE_FEED,
    ensures
        line_length(data) == n,
{
    lemma_line_length(data);
}

/// The lines of `data`: the byte sequences between its line feeds. What follows the last line
/// feed is a line too, also where it is empty.
pub open spec fn spec_lines(data: Seq<u8>) -> Seq<Seq<u8>>
    decreases data.len(),
{
    let n = line_length(data);
    if 0 <= n < data.len() {
        seq![data.take(n)] + spec_lines(data.skip(n + 1))
    } else {
        seq![data]
    }
}

/// The state after the lines `lines`, or the first error among them.
pub open spec fn spec_feed_all(state: ParserView, lines: Seq<Seq<u8>>) -> Result<
    ParserView,
    ParseErrorView,
>
    decreases lines.len(),
{
    if lines.len() == 0 {
        Ok(state)
    } else {
        match spec_feed_all(state, lines.drop_last()) {
            Ok(before) => spec_feed_bytes(before, lines.last()),
            Err(e) => Err(e),
        }
    }
}

/// What parsing the document `data` gives.
pub open spec fn spec_parse(data: Seq<u8>) -> Result<WaveformView, ParseErrorView> {
    match spec_feed_all(ParserView::initial(), spec_lines(data)) {
        Ok(state) => spec_finish(state),
        Err(e) => Err(e),
    }
}

/// Parses a document.
///
/// The result is a waveform with at least one signal, in which every signal is at least one
/// bit wide and every change refers to a declared signal; or it is the first error met: a line
/// that is not UTF-8, a waveform line whose time is no number, or, at the end, a missing
/// header or an empty signal table.
pub fn parse_wcp(data: &[u8]) -> (r: Result<WcpWaveform, WcpParseError>)
    ensures
        match r {
            Ok(waveform) => {
                &&& spec_parse(data@) == Ok::<WaveformView, ParseErrorView>(waveform@)
                &&& waveform.well_formed()
                &&& waveform@.signals.len() >= 1
                &&& widths_positive(waveform@.signals)
            },
            Err(e) => spec_parse(data@) == Err::<WaveformView, ParseErrorView>(e@),
        },
{
    proof {
        lemma_parse_sound(data@);
    }
    let n = data.len();
    let mut parser = WcpParser::new();
    let mut start: usize = 0;
    let ghost mut done: Seq<Seq<u8>> = Seq::empty();
    proof {
        assert(data@.skip(0) =~= data@);
    }
    loop
        invariant_except_break
            spec_lines(data@) == done + spec_lines(data@.skip(start as int)),
        invariant
            start <= n,
            n == data@.len(),
            spec_feed_all(ParserView::initial(), done) == Ok::<ParserView, ParseErrorView>(
                parser@,
            ),
            parser@.well_formed(),
        ensures
            spec_lines(data@) == done,
        decreases n - start,
    {
        let mut end: usize = start;
        while end < n && data[end] != LINE_FEED
            invariant
                start <= end <= n,
                n == data@.len(),
                forall|j: int| start <= j < end ==> data@[j] != LINE_FEED,
            decreases n - end,
        {
            end += 1;
        }
        let line = slice_subrange(data, start, end);
        let ghost rest = data@.skip(start as int);
        let ghost before = parser@;
        proof {
            lemma_line_length_is(rest, end - start);
            assert(rest.take(end - start) =~= line@);
            assert(done.push(line@).drop_last() =~= done);
            lemma_feed_bytes_well_formed(before, line@);
        }
        match parser.feed_bytes(line) {
            Ok(()) => {},
            Err(e) => {
                proof {
                    if end < n {
                        lemma_feed_all_error(
                            ParserView::initial(),
                            done.push(line@),
                            spec_lines(rest.skip(end - start + 1)),
                        );
                        assert(done.push(line@) + spec_lines(rest.skip(end - start + 1)) =~= done
                            + spec_lines(rest));
                    } else {
                        assert(done.push(line@) =~= done + spec_lines(rest));
                    }
                }
                return Err(e);
            },
        }
        if end == n {
            proof {
                done = done.push(line@);
            }
            break ;
        }
        proof {
            assert(rest.skip(end - start + 1) =~= data@.skip(end + 1));
            done = done.push(line@);
        }
        start = end + 1;
    }
    parser.finish()
}

/// A line leaves every change referring to a declared signal.
pub proof fn lemma_feed_line_well_formed(state: ParserView, raw: Seq<char>)
    requires
        state.well_formed(),
    ensures
        spec_feed_line(state, raw) matches Ok(next) ==> next.well_formed(),
{
    lemma_waveform_line_resolved(state.signals, spec_trim(raw));
}

/// A line given as bytes leaves every change referring to a declared signal.
pub proof fn lemma_feed_bytes_well_formed(state: ParserView, raw: Seq<u8>)
    requires
        state.well_formed(),
    ensures
        spec_feed_bytes(state, raw) matches Ok(next) ==> next.well_formed(),
{
    if valid_utf8(raw) {
        lemma_feed_line_well_formed(state, decode_utf8(raw));
    }
}

/// An error among the first lines of a document is the error of the whole.
pub proof fn lemma_feed_all_error(state: ParserView, first: Seq<Seq<u8>>, more: Seq<Seq<u8>>)
    requires
        spec_feed_all(state, first) is Err,
    ensures
        spec_feed_all(state, first + more) == spec_feed_all(state, first),
    decreases more.len(),
{
    if more.len() == 0 {
        assert(first + more =~= first);
    } else {
        lemma_feed_all_error(state, first, more.drop_last());
        assert((first + more).drop_last() =~= first + more.drop_last());
    }
}

} // verus!
