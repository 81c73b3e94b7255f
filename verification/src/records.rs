//! The record builders: what a content line adds to the header, to the signal table or to the
//! change list. Each takes a line that is trimmed already.

use crate::number::{parse_u64, spec_parse_u64, spec_parse_unsigned};
use crate::text::{
    is_text, push_chars, slices_view, spec_split, spec_split_once, spec_trim, spec_words, split,
    split_once, string_of, trim, words, Separator,
};
use crate::waveform::{
    changes_resolved, changes_view, signals_view, ChangeView, HeaderView, ParseErrorView,
    SignalView, WcpChange, WcpHeader, WcpParseError, WcpSignal,
};
use vstd::prelude::*;

verus! {

/// The header after the line `line`: a line `key: value` whose key is `version`, `timescale` or
/// `date` sets that field; any other line changes nothing.
pub open spec fn spec_header_line(header: HeaderView, line: Seq<char>) -> HeaderView {
    match spec_split_once(line, ':') {
        Some((k, v)) => {
            let key = spec_trim(k);
            let value = spec_trim(v);
            if key == "version"@ {
                HeaderView { version: value, ..header }
            } else if key == "timescale"@ {
                HeaderView { timescale: value, ..header }
            } else if key == "date"@ {
                HeaderView { date: value, ..header }
            } else {
                header
            }
        },
        None => header,
    }
}

/// Applies one line of the header section to `header`.
pub fn header_line(header: &mut WcpHeader, line: &[char])
    ensures
        final(header)@ == spec_header_line(old(header)@, line@),
{
    match split_once(line, ':') {
        Some((k, v)) => {
            let key = trim(k);
            let value = trim(v);
            if is_text(key, "version") {
                header.version = string_of(value);
            } else if is_text(key, "timescale") {
                header.timescale = string_of(value);
            } else if is_text(key, "date") {
                header.date = string_of(value);
            }
        },
        None => {},
    }
}

/// The value of the last word of `options` that reads `key:value` with the given key.
pub open spec fn spec_option_value(options: Seq<Seq<char>>, key: Seq<char>) -> Option<Seq<char>>
    decreases options.len(),
{
    if options.len() == 0 {
        None
    } else {
        match spec_split_once(options.last(), ':') {
            Some((k, v)) => if k == key {
                Some(v)
            } else {
                spec_option_value(options.drop_last(), key)
            },
            None => spec_option_value(options.drop_last(), key),
        }
    }
}

/// The width that a `width` option gives: its number where that is at least 1 and fits the
/// machine word, and 1 otherwise, as where the option is absent.
pub open spec fn spec_width(option: Option<Seq<char>>) -> nat {
    match option {
        Some(v) => match spec_parse_unsigned(v) {
            Some(n) => if 1 <= n <= usize::MAX {
                n
            } else {
                1
            },
            None => 1,
        },
        None => 1,
    }
}

/// The type that a `type` option gives, `wire` where it is absent.
pub open spec fn spec_signal_type(option: Option<Seq<char>>) -> Seq<char> {
    match option {
        Some(v) => v,
        None => "wire"@,
    }
}

/// The signal that the line `id: path [key:value ...]` declares. A line without a colon, or
/// with no path after it, declares none.
pub open spec fn spec_signal_line(line: Seq<char>) -> Option<SignalView> {
    match spec_split_once(line, ':') {
        Some((id, rest)) => {
            let tokens = spec_words(rest);
            if tokens.len() == 0 {
                None
            } else {
                let options = tokens.skip(1);
                Some(
                    SignalView {
                        name: spec_trim(id),
                        path: tokens[0],
                        width: spec_width(spec_option_value(options, "width"@)),
                        signal_type: spec_signal_type(spec_option_value(options, "type"@)),
                    },
                )
            }
        },
        None => None,
    }
}

/// The width that the text of a `width` option gives.
pub fn parse_width(value: &[char]) -> (width: usize)
    ensures
        width as nat == spec_width(Some(value@)),
        width >= 1,
{
    match parse_u64(value) {
        Some(n) => {
            if n >= 1 && n <= usize::MAX as u64 {
                n as usize
            } else {
                1
            }
        },
        None => 1,
    }
}

/// Reads one line of the signals section.
pub fn signal_line(line: &[char]) -> (r: Option<WcpSignal>)
    ensures
        match r {
            Some(signal) => spec_signal_line(line@) == Some(signal@) && signal.width >= 1,
            None => spec_signal_line(line@) is None,
        },
{
    match split_once(line, ':') {
        Some((id, rest)) => {
            let tokens = words(rest);
            if tokens.len() == 0 {
                return None;
            }
            let ghost options = slices_view(tokens@).skip(1);
            let mut width: usize = 1;
            let mut signal_type: String = "wire".to_owned();
            let mut i: usize = 1;
            while i < tokens.len()
                invariant
                    1 <= i <= tokens@.len(),
                    options == slices_view(tokens@).skip(1),
                    width >= 1,
                    width as nat == spec_width(spec_option_value(options.take(i - 1), "width"@)),
                    signal_type@ == spec_signal_type(
                        spec_option_value(options.take(i - 1), "type"@),
                    ),
                decreases tokens@.len() - i,
            {
                proof {
                    reveal_strlit("width");
                    reveal_strlit("type");
                    assert("width"@.len() != "type"@.len());
                    assert(options.take(i as int).drop_last() =~= options.take(i - 1));
                }
                match split_once(tokens[i], ':') {
                    Some((key, value)) => {
                        if is_text(key, "width") {
                            width = parse_width(value);
                        } else if is_text(key, "type") {
                            signal_type = string_of(value);
                        }
                    },
                    None => {},
                }
                i += 1;
            }
            proof {
                assert(options.take(i - 1) =~= options);
            }
            Some(
                WcpSignal {
                    name: string_of(trim(id)),
                    path: string_of(tokens[0]),
                    width,
                    signal_type,
                },
            )
        },
        None => None,
    }
}

/// Whether `i` is the index of the first signal of `signals` named `name`.
pub open spec fn is_first_named(signals: Seq<SignalView>, name: Seq<char>, i: int) -> bool {
    &&& 0 <= i < signals.len()
    &&& signals[i].name == name
    &&& forall|j: int| 0 <= j < i ==> (#[trigger] signals[j]).name != name
}

/// The index of the first signal of `signals` named `name`, if any has that name.
pub open spec fn spec_find_signal(signals: Seq<SignalView>, name: Seq<char>) -> Option<int> {
    if exists|i: int| is_first_named(signals, name, i) {
        Some(choose|i: int| is_first_named(signals, name, i))
    } else {
        None
    }
}

/// The first signal with a given name is found at its index, and no name that is absent is
/// found at all.
pub proof fn lemma_find_signal(signals: Seq<SignalView>, name: Seq<char>)
    ensures
        match spec_find_signal(signals, name) {
            Some(i) => is_first_named(signals, name, i),
            None => forall|j: int| 0 <= j < signals.len() ==> (#[trigger] signals[j]).name != name,
        },
{
    if !(exists|i: int| is_first_named(signals, name, i)) {
        assert forall|j: int| 0 <= j < signals.len() implies (#[trigger] signals[j]).name
            != name by {
            lemma_no_first_named(signals, name, j);
        }
    }
}

/// Where no index is the first of a name, no signal up to `upto` has that name.
proof fn lemma_no_first_named(signals: Seq<SignalView>, name: Seq<char>, upto: int)
    requires
        !exists|i: int| is_first_named(signals, name, i),
        0 <= upto < signals.len(),
    ensures
        forall|j: int| 0 <= j <= upto ==> (#[trigger] signals[j]).name != name,
    decreases upto,
{
    if upto > 0 {
        lemma_no_first_named(signals, name, upto - 1);
    }
    if signals[upto].name == name {
        assert(is_first_named(signals, name, upto));
    }
}

/// Looks a signal up by its name; the first one declared with that name is found.
pub fn find_signal(signals: &Vec<WcpSignal>, name: &[char]) -> (r: Option<usize>)
    ensures
        match r {
            Some(i) => spec_find_signal(signals_view(signals@), name@) == Some(i as int),
            None => spec_find_signal(signals_view(signals@), name@) is None,
        },
{
    let ghost table = signals_view(signals@);
    let mut i: usize = 0;
    while i < signals.len()
        invariant
            i <= signals@.len(),
            table == signals_view(signals@),
            forall|j: int| 0 <= j < i ==> (#[trigger] table[j]).name != name@,
        decreases signals@.len() - i,
    {
        if is_text(name, signals[i].name.as_str()) {
            proof {
                assert(is_first_named(table, name@, i as int));
            }
            return Some(i);
        }
        i += 1;
    }
    None
}

/// The change that the assignment `id=value` makes at `time`, if it names a declared signal.
pub open spec fn spec_assignment(signals: Seq<SignalView>, time: u64, segment: Seq<char>) -> Option<
    ChangeView,
> {
    match spec_split_once(spec_trim(segment), '=') {
        Some((id, value)) => match spec_find_signal(signals, spec_trim(id)) {
            Some(i) => Some(ChangeView { time, signal_id: i as nat, value: spec_trim(value) }),
            None => None,
        },
        None => None,
    }
}

/// The changes that the assignments `segments` make at `time`, in their order.
pub open spec fn spec_assignments(
    signals: Seq<SignalView>,
    time: u64,
    segments: Seq<Seq<char>>,
) -> Seq<ChangeView>
    decreases segments.len(),
{
    if segments.len() == 0 {
        Seq::empty()
    } else {
        let before = spec_assignments(signals, time, segments.drop_last());
        match spec_assignment(signals, time, segments.last()) {
            Some(change) => before.push(change),
            None => before,
        }
    }
}

/// The text of the error for a time field that is no number.
pub open spec fn invalid_time(field: Seq<char>) -> ParseErrorView {
    ParseErrorView::InvalidFormat("Invalid time: "@ + field)
}

/// The changes that the line `time: id=value[, id=value]*` makes, or the error where its time
/// is not an unsigned number of 64 bits. A line without a colon makes no change.
pub open spec fn spec_waveform_line(signals: Seq<SignalView>, line: Seq<char>) -> Result<
    Seq<ChangeView>,
    ParseErrorView,
> {
    match spec_split_once(line, ':') {
        Some((field, rest)) => match spec_parse_u64(spec_trim(field)) {
            Some(time) => Ok(
                spec_assignments(signals, time, spec_split(rest, Separator::Char(','))),
            ),
            None => Err(invalid_time(field)),
        },
        None => Ok(Seq::empty()),
    }
}

/// Every change that a run of assignments makes has the given time and refers to one of the
/// signals given, and no assignment makes more than one change.
pub proof fn lemma_assignments_resolved(
    signals: Seq<SignalView>,
    time: u64,
    segments: Seq<Seq<char>>,
)
    ensures
        changes_resolved(
            spec_assignments(signals, time, segments),
            signals.len(),
        ),
        forall|i: int|
            0 <= i < spec_assignments(signals, time, segments).len() ==> (
            #[trigger] spec_assignments(signals, time, segments)[i]).time == time,
        spec_assignments(signals, time, segments).len() <= segments.len(),
    decreases segments.len(),
{
    if segments.len() > 0 {
        lemma_assignments_resolved(signals, time, segments.drop_last());
        match spec_split_once(spec_trim(segments.last()), '=') {
            Some((id, value)) => {
                lemma_find_signal(signals, spec_trim(id));
            },
            None => {},
        }
    }
}

/// Every change that a waveform line makes refers to one of the signals given.
pub proof fn lemma_waveform_line_resolved(signals: Seq<SignalView>, line: Seq<char>)
    ensures
        spec_waveform_line(signals, line) matches Ok(changes) ==> changes_resolved(
            changes,
            signals.len(),
        ),
{
    match spec_split_once(line, ':') {
        Some((field, rest)) => match spec_parse_u64(spec_trim(field)) {
            Some(time) => {
                lemma_assignments_resolved(
                    signals,
                    time,
                    spec_split(rest, Separator::Char(',')),
                );
            },
            None => {},
        },
        None => {},
    }
}

/// Reads one line of the waveform section against the signals declared so far.
pub fn waveform_line(signals: &Vec<WcpSignal>, line: &[char]) -> (r: Result<
    Vec<WcpChange>,
    WcpParseError,
>)
    ensures
        match r {
            Ok(changes) => spec_waveform_line(signals_view(signals@), line@) == Ok::<
                Seq<ChangeView>,
                ParseErrorView,
            >(changes_view(changes@)),
            Err(e) => spec_waveform_line(signals_view(signals@), line@) == Err::<
                Seq<ChangeView>,
                ParseErrorView,
            >(e@),
        },
{
    let mut changes: Vec<WcpChange> = Vec::new();
    match split_once(line, ':') {
        Some((field, rest)) => {
            let time = match parse_u64(trim(field)) {
                Some(time) => time,
                None => {
                    let mut text = "Invalid time: ".to_owned();
                    push_chars(&mut text, field);
                    return Err(WcpParseError::InvalidFormat(text));
                },
            };
            let segments = split(rest, Separator::Char(','));
            let ghost table = signals_view(signals@);
            let ghost all = slices_view(segments@);
            let mut i: usize = 0;
            while i < segments.len()
                invariant
                    i <= segments@.len(),
                    table == signals_view(signals@),
                    all == slices_view(segments@),
                    changes_view(changes@) == spec_assignments(
                        table,
                        time,
                        all.take(i as int),
                    ),
                decreases segments@.len() - i,
            {
                proof {
                    assert(all.take(i + 1).drop_last() =~= all.take(i as int));
                }
                match split_once(trim(segments[i]), '=') {
                    Some((id, value)) => {
                        match find_signal(signals, trim(id)) {
                            Some(index) => {
                                let change = WcpChange {
                                    time,
                                    signal_id: index,
                                    value: string_of(trim(value)),
                                };
                                changes.push(change);
                            },
                            None => {},
                        }
                    },
                    None => {},
                }
                i += 1;
            }
            proof {
                assert(all.take(i as int) =~= all);
            }
            Ok(changes)
        },
        None => {
            proof {
                assert(changes_view(changes@) =~= Seq::<ChangeView>::empty());
            }
            Ok(changes)
        },
    }
}

} // verus!
