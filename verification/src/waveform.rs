//! The data model: header, signal table and change list of a waveform, and the ways a parse can
//! fail. Each type has a view made of sequences and numbers, which the contracts speak of.

use vstd::prelude::*;
use vstd::string::StringExecFns;

verus! {

/// The header of a waveform. A field that the document does not set is empty.
#[derive(Debug, Clone)]
pub struct WcpHeader {
    pub version: String,
    pub timescale: String,
    pub date: String,
}

/// A [`WcpHeader`] as three character sequences.
pub struct HeaderView {
    pub version: Seq<char>,
    pub timescale: Seq<char>,
    pub date: Seq<char>,
}

impl View for WcpHeader {
    type V = HeaderView;

    open spec fn view(&self) -> HeaderView {
        HeaderView { version: self.version@, timescale: self.timescale@, date: self.date@ }
    }
}

impl HeaderView {
    /// The header in which no field is set.
    pub open spec fn unset() -> HeaderView {
        HeaderView { version: Seq::empty(), timescale: Seq::empty(), date: Seq::empty() }
    }
}

impl WcpHeader {
    /// A header in which no field is set.
    pub fn unset() -> (h: WcpHeader)
        ensures
            h@ == HeaderView::unset(),
    {
        WcpHeader { version: String::new(), timescale: String::new(), date: String::new() }
    }
}

/// A declared signal: the name by which changes refer to it, its slash-delimited path, its
/// width in bits and its type.
#[derive(Debug, Clone)]
pub struct WcpSignal {
    pub name: String,
    pub path: String,
    pub width: usize,
    pub signal_type: String,
}

/// A [`WcpSignal`] as plain values.
pub struct SignalView {
    pub name: Seq<char>,
    pub path: Seq<char>,
    pub width: nat,
    pub signal_type: Seq<char>,
}

impl View for WcpSignal {
    type V = SignalView;

    open spec fn view(&self) -> SignalView {
        SignalView {
            name: self.name@,
            path: self.path@,
            width: self.width as nat,
            signal_type: self.signal_type@,
        }
    }
}

/// A change of value: at `time`, the signal at index `signal_id` of the signal table takes
/// `value`, which is kept as it was written.
#[derive(Debug, Clone)]
pub struct WcpChange {
    pub time: u64,
    pub signal_id: usize,
    pub value: String,
}

/// A [`WcpChange`] as plain values.
pub struct ChangeView {
    pub time: u64,
    pub signal_id: nat,
    pub value: Seq<char>,
}

impl View for WcpChange {
    type V = ChangeView;

    open spec fn view(&self) -> ChangeView {
        ChangeView { time: self.time, signal_id: self.signal_id as nat, value: self.value@ }
    }
}

/// The views of a sequence of signals.
pub open spec fn signals_view(signals: Seq<WcpSignal>) -> Seq<SignalView> {
    Seq::new(signals.len(), |i: int| signals[i]@)
}

/// The views of a sequence of changes.
pub open spec fn changes_view(changes: Seq<WcpChange>) -> Seq<ChangeView> {
    Seq::new(changes.len(), |i: int| changes[i]@)
}

/// A waveform: a header, the signals in the order of their declaration, and the changes in the
/// order in which the document gives them, which need not be the order of their times.
#[derive(Debug)]
pub struct WcpWaveform {
    pub header: WcpHeader,
    pub signals: Vec<WcpSignal>,
    pub changes: Vec<WcpChange>,
}

/// A [`WcpWaveform`] as plain values.
pub struct WaveformView {
    pub header: HeaderView,
    pub signals: Seq<SignalView>,
    pub changes: Seq<ChangeView>,
}

impl View for WcpWaveform {
    type V = WaveformView;

    open spec fn view(&self) -> WaveformView {
        WaveformView {
            header: self.header@,
            signals: signals_view(self.signals@),
            changes: changes_view(self.changes@),
        }
    }
}

/// Whether every change of `changes` refers to one of `count` signals.
pub open spec fn changes_resolved(changes: Seq<ChangeView>, count: nat) -> bool {
    forall|i: int| 0 <= i < changes.len() ==> (#[trigger] changes[i]).signal_id < count
}

impl WaveformView {
    /// Whether every change refers to a signal of the table.
    pub open spec fn well_formed(self) -> bool {
        changes_resolved(self.changes, self.signals.len())
    }
}

/// Whether every signal of `signals` is at least one bit wide.
pub open spec fn widths_positive(signals: Seq<SignalView>) -> bool {
    forall|i: int| 0 <= i < signals.len() ==> (#[trigger] signals[i]).width >= 1
}

impl WcpWaveform {
    /// Whether every change refers to a signal of the table.
    pub open spec fn well_formed(&self) -> bool {
        self@.well_formed()
    }

    /// Tells whether every change refers to a signal of the table.
    pub fn is_well_formed(&self) -> (ok: bool)
        ensures
            ok == self.well_formed(),
    {
        let count = self.signals.len();
        let ghost changes = changes_view(self.changes@);
        let mut i: usize = 0;
        while i < self.changes.len()
            invariant
                i <= self.changes@.len(),
                count == self.signals@.len(),
                changes == changes_view(self.changes@),
                forall|j: int| 0 <= j < i ==> (#[trigger] changes[j]).signal_id < count,
            decreases self.changes@.len() - i,
        {
            if self.changes[i].signal_id >= count {
                proof {
                    assert(changes[i as int].signal_id >= count);
                }
                return false;
            }
            i += 1;
        }
        true
    }
}

/// Why a document was not parsed.
#[derive(Debug)]
pub enum WcpParseError {
    /// A line of the document is malformed; the text says how.
    InvalidFormat(String),
    /// The document could not be read; the text says why.
    IoError(String),
    /// A section that every document needs is absent; the text is its name.
    MissingSection(String),
}

/// A [`WcpParseError`] with its text as a character sequence.
pub enum ParseErrorView {
    InvalidFormat(Seq<char>),
    IoError(Seq<char>),
    MissingSection(Seq<char>),
}

impl View for WcpParseError {
    type V = ParseErrorView;

    open spec fn view(&self) -> ParseErrorView {
        match self {
            WcpParseError::InvalidFormat(text) => ParseErrorView::InvalidFormat(text@),
            WcpParseError::IoError(text) => ParseErrorView::IoError(text@),
            WcpParseError::MissingSection(text) => ParseErrorView::MissingSection(text@),
        }
    }
}

impl ParseErrorView {
    /// The error as one line of text for a reader.
    pub open spec fn message(self) -> Seq<char> {
        match self {
            ParseErrorView::InvalidFormat(text) => "Invalid WCP format: "@ + text,
            ParseErrorView::IoError(text) => "IO error: "@ + text,
            ParseErrorView::MissingSection(text) => "Missing section: "@ + text,
        }
    }
}

impl WcpParseError {
    /// The error as one line of text for a reader.
    pub fn message(&self) -> (text: String)
        ensures
            text@ == self@.message(),
    {
        match self {
            WcpParseError::InvalidFormat(detail) => {
                let mut text = "Invalid WCP format: ".to_owned();
                text.append(detail.as_str());
                text
            },
            WcpParseError::IoError(detail) => {
                let mut text = "IO error: ".to_owned();
                text.append(detail.as_str());
                text
            },
            WcpParseError::MissingSection(detail) => {
                let mut text = "Missing section: ".to_owned();
                text.append(detail.as_str());
                text
            },
        }
    }
}

} // verus!
