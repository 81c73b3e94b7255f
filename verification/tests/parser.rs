use wcp::parser::WcpParser;
use wcp::records::{find_signal, header_line, parse_width, signal_line, waveform_line};
use wcp::scanner::{classify, LineClass, Section};
use wcp::{parse_wcp, WcpHeader, WcpParseError, WcpSignal, WcpWaveform};

fn chars(text: &str) -> Vec<char> {
    text.chars().collect()
}

fn parse(text: &str) -> Result<WcpWaveform, WcpParseError> {
    parse_wcp(text.as_bytes())
}

fn missing_section(result: Result<WcpWaveform, WcpParseError>) -> String {
    match result {
        Err(WcpParseError::MissingSection(name)) => name,
        other => panic!("expected a missing section, got {:?}", other),
    }
}

fn invalid_format(result: Result<WcpWaveform, WcpParseError>) -> String {
    match result {
        Err(WcpParseError::InvalidFormat(detail)) => detail,
        other => panic!("expected an invalid format, got {:?}", other),
    }
}

fn io_error(result: Result<WcpWaveform, WcpParseError>) -> String {
    match result {
        Err(WcpParseError::IoError(detail)) => detail,
        other => panic!("expected an I/O error, got {:?}", other),
    }
}

const DOCUMENT: &str = "HEADER
version: 1.0
timescale: 1ns
date: 2026-02-11
END_HEADER
SIGNALS
clk: /top/clk width:1 type:wire
data: /top/data width:8 type:reg
END_SIGNALS
WAVEFORM
0: clk=0, data=00
10: clk=1
20: clk=0, data=FF
30: clk=1
END_WAVEFORM
";

#[test]
fn document_gives_header_signals_and_changes() {
    let w = parse(DOCUMENT).unwrap();
    assert_eq!(w.header.version, "1.0");
    assert_eq!(w.header.timescale, "1ns");
    assert_eq!(w.header.date, "2026-02-11");
    assert_eq!(w.signals.len(), 2);
    assert_eq!(w.signals[0].name, "clk");
    assert_eq!(w.signals[0].path, "/top/clk");
    assert_eq!(w.signals[0].width, 1);
    assert_eq!(w.signals[0].signal_type, "wire");
    assert_eq!(w.signals[1].name, "data");
    assert_eq!(w.signals[1].path, "/top/data");
    assert_eq!(w.signals[1].width, 8);
    assert_eq!(w.signals[1].signal_type, "reg");
    assert_eq!(w.changes.len(), 6);
    let got: Vec<(u64, usize, &str)> =
        w.changes.iter().map(|c| (c.time, c.signal_id, c.value.as_str())).collect();
    assert_eq!(
        got,
        vec![(0, 0, "0"), (0, 1, "00"), (10, 0, "1"), (20, 0, "0"), (20, 1, "FF"), (30, 0, "1")]
    );
}

#[test]
fn unresolved_assignments_are_dropped_without_error() {
    let text = "HEADER
version: 1
END_HEADER
SIGNALS
a: /a
b: /b
END_SIGNALS
WAVEFORM
0: a=0, nosuch=1
5: nosuch=1
7: b=1, a=1
9: c=0, b=0
END_WAVEFORM
";
    let w = parse(text).unwrap();
    assert_eq!(w.signals.len(), 2);
    assert_eq!(w.changes.len(), 4);
    let got: Vec<(u64, usize)> = w.changes.iter().map(|c| (c.time, c.signal_id)).collect();
    assert_eq!(got, vec![(0, 0), (7, 1), (7, 0), (9, 1)]);
}

#[test]
fn document_without_header_section_misses_header() {
    let text = "SIGNALS
clk: /top/clk
END_SIGNALS
WAVEFORM
0: clk=0
END_WAVEFORM
";
    assert_eq!(missing_section(parse(text)), "HEADER");
}

#[test]
fn empty_document_misses_header() {
    assert_eq!(missing_section(parse("")), "HEADER");
    assert_eq!(missing_section(parse("\n\n\n")), "HEADER");
}

#[test]
fn header_section_without_content_misses_header() {
    let text = "HEADER
END_HEADER
SIGNALS
clk: /top/clk
END_SIGNALS
";
    assert_eq!(missing_section(parse(text)), "HEADER");
    let text = "HEADER
# only a comment

END_HEADER
SIGNALS
clk: /top/clk
END_SIGNALS
";
    assert_eq!(missing_section(parse(text)), "HEADER");
}

#[test]
fn malformed_header_line_still_begins_the_header() {
    let text = "HEADER
no colon here
END_HEADER
SIGNALS
clk: /top/clk
END_SIGNALS
";
    let w = parse(text).unwrap();
    assert_eq!(w.header.version, "");
    assert_eq!(w.header.timescale, "");
    assert_eq!(w.header.date, "");
}

#[test]
fn signals_section_without_signals_misses_signals() {
    let text = "HEADER
version: 1.0
END_HEADER
SIGNALS
END_SIGNALS
";
    assert_eq!(missing_section(parse(text)), "SIGNALS");
}

#[test]
fn document_without_signals_section_misses_signals() {
    let text = "HEADER
version: 1.0
END_HEADER
";
    assert_eq!(missing_section(parse(text)), "SIGNALS");
}

#[test]
fn missing_header_is_reported_before_missing_signals() {
    let text = "SIGNALS
END_SIGNALS
";
    assert_eq!(missing_section(parse(text)), "HEADER");
}

#[test]
fn time_that_is_no_number_is_an_invalid_format() {
    let text = "HEADER
version: 1.0
END_HEADER
SIGNALS
clk: /top/clk
END_SIGNALS
WAVEFORM
0: clk=0
abc: clk=1
END_WAVEFORM
";
    assert_eq!(invalid_format(parse(text)), "Invalid time: abc");
}

#[test]
fn invalid_time_is_reported_with_the_field_as_written() {
    let text = "WAVEFORM\n  1e3  : clk=1\n";
    assert_eq!(invalid_format(parse(text)), "Invalid time: 1e3  ");
    let text = "WAVEFORM\n: clk=1\n";
    assert_eq!(invalid_format(parse(text)), "Invalid time: ");
    let text = "WAVEFORM\n-5: clk=1\n";
    assert_eq!(invalid_format(parse(text)), "Invalid time: -5");
    let text = "WAVEFORM\n18446744073709551616: clk=1\n";
    assert_eq!(invalid_format(parse(text)), "Invalid time: 18446744073709551616");
}

#[test]
fn invalid_time_outside_a_waveform_section_is_no_error() {
    let text = "HEADER
abc: 1
END_HEADER
SIGNALS
clk: /a
END_SIGNALS
abc: clk=1
";
    let w = parse(text).unwrap();
    assert_eq!(w.changes.len(), 0);
}

#[test]
fn text_without_markers_misses_header() {
    let samples = [
        "invalid data",
        "just\nsome\nlines\n",
        "version: 1.0\nclk: /top/clk\n0: clk=1\n",
        "header\nsignals\nwaveform\n",
        "HEADER:\nEND HEADER\n",
        "abc: def\n",
        "\u{1F600}\n",
    ];
    for sample in samples {
        assert_eq!(missing_section(parse(sample)), "HEADER", "{:?}", sample);
    }
}

#[test]
fn line_that_is_not_utf8_is_an_io_error() {
    let data: &[u8] = b"HEADER\nversion: \xff\nEND_HEADER\n";
    assert_eq!(io_error(parse_wcp(data)), "stream did not contain valid UTF-8");
    let data: &[u8] = b"\xc3";
    assert_eq!(io_error(parse_wcp(data)), "stream did not contain valid UTF-8");
    let data: &[u8] = b"outside any section \xed\xa0\x80\n";
    assert_eq!(io_error(parse_wcp(data)), "stream did not contain valid UTF-8");
}

#[test]
fn first_error_of_the_document_is_reported() {
    let data: &[u8] = b"WAVEFORM\nabc: x=1\n\xff\n";
    match parse_wcp(data) {
        Err(WcpParseError::InvalidFormat(detail)) => assert_eq!(detail, "Invalid time: abc"),
        other => panic!("{:?}", other),
    }
    let data: &[u8] = b"WAVEFORM\n\xff\nabc: x=1\n";
    match parse_wcp(data) {
        Err(WcpParseError::IoError(_)) => {}
        other => panic!("{:?}", other),
    }
}

#[test]
fn text_beyond_ascii_is_decoded() {
    let text = "HEADER
version: 1.0 \u{e9}t\u{e9}
date: \u{65e5}\u{672c}
END_HEADER
SIGNALS
s\u{e9}: /top/\u{1F600} type:\u{3a9}
END_SIGNALS
WAVEFORM
3: s\u{e9}=\u{221e}
END_WAVEFORM
";
    let w = parse(text).unwrap();
    assert_eq!(w.header.version, "1.0 \u{e9}t\u{e9}");
    assert_eq!(w.header.date, "\u{65e5}\u{672c}");
    assert_eq!(w.signals[0].name, "s\u{e9}");
    assert_eq!(w.signals[0].path, "/top/\u{1F600}");
    assert_eq!(w.signals[0].signal_type, "\u{3a9}");
    assert_eq!(w.changes.len(), 1);
    assert_eq!(w.changes[0].value, "\u{221e}");
}

#[test]
fn lines_are_trimmed_of_all_whitespace() {
    let text = "\u{3000}HEADER\u{a0}\r\n\tversion :\u{2003}2.5\u{2003}\r\nEND_HEADER\r\n  SIGNALS\r\n   clk  :  /top/clk   width:2  \r\nEND_SIGNALS\r\nWAVEFORM\r\n 10 :  clk = 01 \r\nEND_WAVEFORM\r\n";
    let w = parse(text).unwrap();
    assert_eq!(w.header.version, "2.5");
    assert_eq!(w.signals.len(), 1);
    assert_eq!(w.signals[0].name, "clk");
    assert_eq!(w.signals[0].path, "/top/clk");
    assert_eq!(w.signals[0].width, 2);
    assert_eq!(w.changes.len(), 1);
    assert_eq!(w.changes[0].time, 10);
    assert_eq!(w.changes[0].value, "01");
}

#[test]
fn last_line_needs_no_line_feed() {
    let text = "HEADER\nversion: 1\nEND_HEADER\nSIGNALS\na: /a\nEND_SIGNALS\nWAVEFORM\n4: a=1";
    let w = parse(text).unwrap();
    assert_eq!(w.changes.len(), 1);
    assert_eq!(w.changes[0].time, 4);
}

#[test]
fn comments_and_blank_lines_are_skipped_in_every_section() {
    let text = "# leading comment
HEADER
# version: 9
version: 1

#timescale: 9
END_HEADER
SIGNALS
# a: /a

b: /b
END_SIGNALS
WAVEFORM
# 1: b=1
#notanumber: b=1
2: b=0
END_WAVEFORM
";
    let w = parse(text).unwrap();
    assert_eq!(w.header.version, "1");
    assert_eq!(w.header.timescale, "");
    assert_eq!(w.signals.len(), 1);
    assert_eq!(w.signals[0].name, "b");
    assert_eq!(w.changes.len(), 1);
    assert_eq!(w.changes[0].time, 2);
}

#[test]
fn any_end_marker_closes_the_open_section() {
    let text = "HEADER
version: 1
END_WAVEFORM
timescale: 1ns
SIGNALS
a: /a
END_HEADER
b: /b
";
    let w = parse(text).unwrap();
    assert_eq!(w.header.version, "1");
    assert_eq!(w.header.timescale, "");
    assert_eq!(w.signals.len(), 1);
    assert_eq!(w.signals[0].name, "a");
}

#[test]
fn opening_a_section_leaves_the_one_before() {
    let text = "HEADER
version: 1
SIGNALS
a: /a
WAVEFORM
3: a=1
HEADER
date: today
";
    let w = parse(text).unwrap();
    assert_eq!(w.header.version, "1");
    assert_eq!(w.header.date, "today");
    assert_eq!(w.signals.len(), 1);
    assert_eq!(w.changes.len(), 1);
}

#[test]
fn lines_outside_any_section_are_ignored() {
    let text = "version: 0
a: /a
1: a=1
HEADER
version: 1
END_HEADER
version: 2
SIGNALS
b: /b
END_SIGNALS
c: /c
notanumber: b=1
";
    let w = parse(text).unwrap();
    assert_eq!(w.header.version, "1");
    assert_eq!(w.signals.len(), 1);
    assert_eq!(w.signals[0].name, "b");
    assert_eq!(w.changes.len(), 0);
}

#[test]
fn header_keys_overwrite_and_unknown_keys_are_ignored() {
    let text = "HEADER
version: 1
version: 2
comment: hello
Version: 3
date: 12:30:00
timescale : 10 ps
END_HEADER
SIGNALS
a: /a
END_SIGNALS
";
    let w = parse(text).unwrap();
    assert_eq!(w.header.version, "2");
    assert_eq!(w.header.date, "12:30:00");
    assert_eq!(w.header.timescale, "10 ps");
}

#[test]
fn header_line_sets_one_field() {
    let mut header = WcpHeader::unset();
    header_line(&mut header, &chars("timescale: 1ns"));
    assert_eq!(header.timescale, "1ns");
    assert_eq!(header.version, "");
    assert_eq!(header.date, "");
    header_line(&mut header, &chars("version:"));
    assert_eq!(header.version, "");
    header_line(&mut header, &chars("version:3"));
    assert_eq!(header.version, "3");
    header_line(&mut header, &chars("nothing"));
    header_line(&mut header, &chars("other: x"));
    assert_eq!(header.timescale, "1ns");
    assert_eq!(header.version, "3");
    assert_eq!(header.date, "");
}

#[test]
fn signal_line_reads_path_and_options() {
    let s = signal_line(&chars("clk: /top/clk width:1 type:wire")).unwrap();
    assert_eq!((s.name.as_str(), s.path.as_str(), s.width, s.signal_type.as_str()), ("clk", "/top/clk", 1, "wire"));
    let s = signal_line(&chars("data : /top/data   type:reg   width:32")).unwrap();
    assert_eq!((s.name.as_str(), s.path.as_str(), s.width, s.signal_type.as_str()), ("data", "/top/data", 32, "reg"));
    let s = signal_line(&chars("x:y")).unwrap();
    assert_eq!((s.name.as_str(), s.path.as_str(), s.width, s.signal_type.as_str()), ("x", "y", 1, "wire"));
    let s = signal_line(&chars(": path")).unwrap();
    assert_eq!((s.name.as_str(), s.path.as_str()), ("", "path"));
    let s = signal_line(&chars("a: b:c width:4")).unwrap();
    assert_eq!((s.name.as_str(), s.path.as_str(), s.width), ("a", "b:c", 4));
}

#[test]
fn signal_line_without_colon_or_path_declares_nothing() {
    assert!(signal_line(&chars("clk /top/clk")).is_none());
    assert!(signal_line(&chars("clk:")).is_none());
    assert!(signal_line(&chars("clk:    ")).is_none());
    assert!(signal_line(&chars("")).is_none());
}

#[test]
fn width_that_is_no_width_becomes_one() {
    let width = |line: &str| signal_line(&chars(line)).unwrap().width;
    assert_eq!(width("a: /a"), 1);
    assert_eq!(width("a: /a width:abc"), 1);
    assert_eq!(width("a: /a width:"), 1);
    assert_eq!(width("a: /a width:-4"), 1);
    assert_eq!(width("a: /a width:0"), 1);
    assert_eq!(width("a: /a width:8:9"), 1);
    assert_eq!(width("a: /a width:99999999999999999999999"), 1);
    assert_eq!(width("a: /a width:+8"), 8);
    assert_eq!(width("a: /a width:008"), 8);
    assert_eq!(width("a: /a width:64"), 64);
    assert_eq!(width("a: /a Width:64"), 1);
    assert_eq!(width("a: /a width :64"), 1);
    assert_eq!(parse_width(&chars("16")), 16);
    assert_eq!(parse_width(&chars("0")), 1);
    assert_eq!(parse_width(&chars("x")), 1);
}

#[test]
fn last_option_of_a_kind_decides() {
    let s = signal_line(&chars("a: /a width:16 type:reg width:4 type:wand")).unwrap();
    assert_eq!(s.width, 4);
    assert_eq!(s.signal_type, "wand");
    let s = signal_line(&chars("a: /a width:16 width:oops")).unwrap();
    assert_eq!(s.width, 1);
    let s = signal_line(&chars("a: /a type:reg type:")).unwrap();
    assert_eq!(s.signal_type, "");
    let s = signal_line(&chars("a: /a foo:bar plain width:3")).unwrap();
    assert_eq!(s.width, 3);
    assert_eq!(s.signal_type, "wire");
}

fn signal(name: &str) -> WcpSignal {
    WcpSignal {
        name: name.to_string(),
        path: format!("/{}", name),
        width: 1,
        signal_type: "wire".to_string(),
    }
}

#[test]
fn first_signal_of_a_name_is_found() {
    let table = vec![signal("a"), signal("b"), signal("a"), signal("c"), signal("b")];
    assert_eq!(find_signal(&table, &chars("a")), Some(0));
    assert_eq!(find_signal(&table, &chars("b")), Some(1));
    assert_eq!(find_signal(&table, &chars("c")), Some(3));
    assert_eq!(find_signal(&table, &chars("d")), None);
    assert_eq!(find_signal(&table, &chars("")), None);
    assert_eq!(find_signal(&table, &chars("A")), None);
    assert_eq!(find_signal(&Vec::new(), &chars("a")), None);
}

#[test]
fn changes_refer_to_the_first_signal_of_a_name() {
    let text = "HEADER
version: 1
END_HEADER
SIGNALS
x: /first
y: /other
x: /second
END_SIGNALS
WAVEFORM
1: x=1, y=0
END_WAVEFORM
";
    let w = parse(text).unwrap();
    assert_eq!(w.signals.len(), 3);
    assert_eq!(w.changes.len(), 2);
    assert_eq!(w.changes[0].signal_id, 0);
    assert_eq!(w.changes[1].signal_id, 1);
}

#[test]
fn changes_before_the_declaration_are_dropped() {
    let text = "HEADER
version: 1
END_HEADER
WAVEFORM
1: late=1
SIGNALS
late: /late
WAVEFORM
2: late=0
";
    let w = parse(text).unwrap();
    assert_eq!(w.changes.len(), 1);
    assert_eq!(w.changes[0].time, 2);
}

#[test]
fn waveform_line_reads_assignments() {
    let table = vec![signal("clk"), signal("data")];
    let changes = waveform_line(&table, &chars("10: clk = 1 ,data=  0F ,, bad, =3, nosuch=1")).unwrap();
    let got: Vec<(u64, usize, &str)> =
        changes.iter().map(|c| (c.time, c.signal_id, c.value.as_str())).collect();
    assert_eq!(got, vec![(10, 0, "1"), (10, 1, "0F")]);

    let changes = waveform_line(&table, &chars("+7:data=a=b")).unwrap();
    assert_eq!(changes.len(), 1);
    assert_eq!(changes[0].time, 7);
    assert_eq!(changes[0].value, "a=b");

    let changes = waveform_line(&table, &chars("7: clk=")).unwrap();
    assert_eq!(changes.len(), 1);
    assert_eq!(changes[0].value, "");

    let changes = waveform_line(&table, &chars("18446744073709551615: clk=x")).unwrap();
    assert_eq!(changes[0].time, u64::MAX);

    assert_eq!(waveform_line(&table, &chars("7:")).unwrap().len(), 0);
    assert_eq!(waveform_line(&table, &chars("no colon at all")).unwrap().len(), 0);
    assert_eq!(waveform_line(&table, &chars("notanumber")).unwrap().len(), 0);
}

#[test]
fn waveform_line_with_a_bad_time_fails() {
    let table = vec![signal("clk")];
    match waveform_line(&table, &chars("ten: clk=1")) {
        Err(WcpParseError::InvalidFormat(detail)) => assert_eq!(detail, "Invalid time: ten"),
        other => panic!("{:?}", other),
    }
    match waveform_line(&table, &chars("1 0: clk=1")) {
        Err(WcpParseError::InvalidFormat(detail)) => assert_eq!(detail, "Invalid time: 1 0"),
        other => panic!("{:?}", other),
    }
}

#[test]
fn lines_are_classified() {
    assert_eq!(classify(&chars("")), LineClass::Skipped);
    assert_eq!(classify(&chars("#")), LineClass::Skipped);
    assert_eq!(classify(&chars("# HEADER")), LineClass::Skipped);
    assert_eq!(classify(&chars("#HEADER")), LineClass::Skipped);
    assert_eq!(classify(&chars("HEADER")), LineClass::Open(Section::Header));
    assert_eq!(classify(&chars("SIGNALS")), LineClass::Open(Section::Signals));
    assert_eq!(classify(&chars("WAVEFORM")), LineClass::Open(Section::Waveform));
    assert_eq!(classify(&chars("END_HEADER")), LineClass::Close);
    assert_eq!(classify(&chars("END_SIGNALS")), LineClass::Close);
    assert_eq!(classify(&chars("END_WAVEFORM")), LineClass::Close);
    assert_eq!(classify(&chars("END_")), LineClass::Content);
    assert_eq!(classify(&chars("END")), LineClass::Content);
    assert_eq!(classify(&chars("HEADER ")), LineClass::Content);
    assert_eq!(classify(&chars("Header")), LineClass::Content);
    assert_eq!(classify(&chars("HEADERS")), LineClass::Content);
    assert_eq!(classify(&chars("version: 1")), LineClass::Content);
}

#[test]
fn parser_takes_lines_one_at_a_time() {
    let mut parser = WcpParser::new();
    assert!(parser.section.is_none());
    parser.feed_line("  HEADER").unwrap();
    assert_eq!(parser.section, Some(Section::Header));
    assert!(parser.header.is_none());
    parser.feed_line("version: 3").unwrap();
    assert_eq!(parser.header.as_ref().unwrap().version, "3");
    parser.feed_line("END_SIGNALS").unwrap();
    assert!(parser.section.is_none());
    parser.feed_line("SIGNALS").unwrap();
    parser.feed_line("a: /a width:2").unwrap();
    assert_eq!(parser.signals.len(), 1);
    parser.feed_line("WAVEFORM").unwrap();
    parser.feed_line("1: a=10").unwrap();
    assert_eq!(parser.changes.len(), 1);
    let w = parser.finish().unwrap();
    assert_eq!(w.header.version, "3");
    assert_eq!(w.signals[0].width, 2);
    assert_eq!(w.changes[0].value, "10");
}

#[test]
fn parser_is_unchanged_by_a_line_that_fails() {
    let mut parser = WcpParser::new();
    for line in ["HEADER", "version: 1", "SIGNALS", "a: /a", "WAVEFORM", "1: a=1"] {
        parser.feed_line(line).unwrap();
    }
    match parser.feed_line("x: a=0") {
        Err(WcpParseError::InvalidFormat(detail)) => assert_eq!(detail, "Invalid time: x"),
        other => panic!("{:?}", other),
    }
    assert_eq!(parser.section, Some(Section::Waveform));
    assert_eq!(parser.signals.len(), 1);
    assert_eq!(parser.changes.len(), 1);
    match parser.feed_bytes(b"2: a=\xff") {
        Err(WcpParseError::IoError(detail)) => {
            assert_eq!(detail, "stream did not contain valid UTF-8")
        }
        other => panic!("{:?}", other),
    }
    assert_eq!(parser.changes.len(), 1);
    parser.feed_bytes("2: a=\u{e9}".as_bytes()).unwrap();
    assert_eq!(parser.changes.len(), 2);
    assert_eq!(parser.changes[1].value, "\u{e9}");
}

#[test]
fn parser_that_has_seen_nothing_misses_header() {
    match WcpParser::new().finish() {
        Err(WcpParseError::MissingSection(name)) => assert_eq!(name, "HEADER"),
        other => panic!("{:?}", other),
    }
}

#[test]
fn every_parsed_change_refers_to_a_signal() {
    let w = parse(DOCUMENT).unwrap();
    assert!(w.is_well_formed());
    for change in &w.changes {
        assert!(change.signal_id < w.signals.len());
    }
    for signal in &w.signals {
        assert!(signal.width >= 1);
    }
}

#[test]
fn errors_have_a_message() {
    assert_eq!(
        WcpParseError::InvalidFormat("Invalid time: x".to_string()).message(),
        "Invalid WCP format: Invalid time: x"
    );
    assert_eq!(WcpParseError::IoError("broken pipe".to_string()).message(), "IO error: broken pipe");
    assert_eq!(
        WcpParseError::MissingSection("HEADER".to_string()).message(),
        "Missing section: HEADER"
    );
    match parse("") {
        Err(e) => assert_eq!(e.message(), "Missing section: HEADER"),
        Ok(_) => panic!("parsed"),
    }
}
