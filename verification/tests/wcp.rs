use wcp::{parse_wcp, wcp_to_vcd};

#[test]
fn test_parse_simple_wcp() {
    let wcp_data = r#"
# Test WCP file
HEADER
version: 1.0
timescale: 1ns
date: 2026-02-11
END_HEADER

SIGNALS
clk: /top/clk width:1 type:wire
data: /top/data width:8 type:reg
END_SIGNALS

WAVEFORM
0: clk=0, data=00
10: clk=1
20: clk=0, data=FF
30: clk=1
END_WAVEFORM
"#;

    let result = parse_wcp(wcp_data.as_bytes());
    assert!(result.is_ok());

    let waveform = result.unwrap();
    assert_eq!(waveform.header.version, "1.0");
    assert_eq!(waveform.header.timescale, "1ns");
    assert_eq!(waveform.signals.len(), 2);
    assert_eq!(waveform.signals[0].name, "clk");
    assert_eq!(waveform.signals[1].name, "data");
    assert_eq!(waveform.changes.len(), 6);
}

#[test]
fn test_parse_invalid_wcp() {
    let wcp_data = "invalid data";
    let result = parse_wcp(wcp_data.as_bytes());
    assert!(result.is_err());
}

#[test]
fn test_wcp_to_vcd_conversion() {
    let wcp_data = r#"
HEADER
version: 1.0
timescale: 1ns
date: 2026-02-11
END_HEADER

SIGNALS
clk: /top/clk width:1 type:wire
data: /top/data width:4 type:reg
END_SIGNALS

WAVEFORM
0: clk=0, data=0000
10: clk=1
20: clk=0, data=1111
END_WAVEFORM
"#;

    let waveform = parse_wcp(wcp_data.as_bytes()).unwrap();
    let vcd = wcp_to_vcd(&waveform);

    // Check VCD contains required elements
    assert!(vcd.contains("$date"));
    assert!(vcd.contains("$timescale"));
    assert!(vcd.contains("$enddefinitions"));
    assert!(vcd.contains("$var"));
    assert!(vcd.contains("#0"));
    assert!(vcd.contains("#10"));
    assert!(vcd.contains("#20"));
}
