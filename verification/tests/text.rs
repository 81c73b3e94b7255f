use wcp::number::{is_digit, parse_u64, push_decimal};
use wcp::text::{
    chars_of, is_text, is_whitespace, join_prefix, nonempty, push_chars, same_text, split,
    split_once, string_of, trim, words, Separator,
};

fn chars(text: &str) -> Vec<char> {
    text.chars().collect()
}

fn strings(parts: &[&[char]]) -> Vec<String> {
    parts.iter().map(|p| p.iter().collect::<String>()).collect()
}

#[test]
fn whitespace_is_what_std_calls_whitespace() {
    let mut code: u32 = 0;
    while code <= 0x10FFFF {
        if let Some(c) = char::from_u32(code) {
            assert_eq!(is_whitespace(c), c.is_whitespace(), "U+{:04X}", code);
        }
        code += 1;
    }
}

#[test]
fn digits_are_the_ten_ascii_digits() {
    let mut code: u32 = 0;
    while code <= 0x10FFFF {
        if let Some(c) = char::from_u32(code) {
            assert_eq!(is_digit(c), c.is_ascii_digit(), "U+{:04X}", code);
        }
        code += 1;
    }
}

#[test]
fn trim_agrees_with_std() {
    let samples = [
        "",
        " ",
        "a",
        "  a  ",
        "\t a b \r\n",
        "\u{a0}x\u{3000}",
        "\u{2003}\u{2028}inner \u{85} space\u{1680}\u{205f}",
        "   ",
        "\u{e9}",
        " \u{feff}x ",
    ];
    for sample in samples {
        let v = chars(sample);
        let got: String = trim(&v).iter().collect();
        assert_eq!(got, sample.trim(), "{:?}", sample);
    }
}

#[test]
fn trim_keeps_inner_whitespace() {
    let v = chars("  a  b  ");
    let got: String = trim(&v).iter().collect();
    assert_eq!(got, "a  b");
}

#[test]
fn split_once_takes_the_first_delimiter() {
    let v = chars("a:b:c");
    let (before, after) = split_once(&v, ':').unwrap();
    assert_eq!(before.iter().collect::<String>(), "a");
    assert_eq!(after.iter().collect::<String>(), "b:c");

    let v = chars(":x");
    let (before, after) = split_once(&v, ':').unwrap();
    assert_eq!(before.len(), 0);
    assert_eq!(after.iter().collect::<String>(), "x");

    let v = chars("x:");
    let (before, after) = split_once(&v, ':').unwrap();
    assert_eq!(before.iter().collect::<String>(), "x");
    assert_eq!(after.len(), 0);

    let v = chars("no delimiter");
    assert!(split_once(&v, ':').is_none());
    let v = chars("");
    assert!(split_once(&v, ':').is_none());
}

#[test]
fn split_agrees_with_std() {
    let samples = ["", "a", "a,b", ",", "a,,b", ",a,", "a,b,c,d", ",,,"];
    for sample in samples {
        let v = chars(sample);
        let got = strings(&split(&v, Separator::Char(',')));
        let want: Vec<String> = sample.split(',').map(|s| s.to_string()).collect();
        assert_eq!(got, want, "{:?}", sample);
    }
}

#[test]
fn split_gives_one_piece_more_than_separators() {
    let v = chars("/top/clk");
    let got = strings(&split(&v, Separator::Char('/')));
    assert_eq!(got, vec!["".to_string(), "top".to_string(), "clk".to_string()]);
}

#[test]
fn words_agree_with_std() {
    let samples = [
        "",
        "   ",
        "a",
        " a ",
        "a b",
        "  /top/clk   width:1\ttype:wire  ",
        "x\u{a0}y\u{3000}z",
        "\r\na\r\nb",
    ];
    for sample in samples {
        let v = chars(sample);
        let got = strings(&words(&v));
        let want: Vec<String> = sample.split_whitespace().map(|s| s.to_string()).collect();
        assert_eq!(got, want, "{:?}", sample);
    }
}

#[test]
fn nonempty_drops_the_empty_pieces_only() {
    let v = chars("/a//b/");
    let parts = split(&v, Separator::Char('/'));
    assert_eq!(parts.len(), 5);
    let kept = strings(&nonempty(&parts));
    assert_eq!(kept, vec!["a".to_string(), "b".to_string()]);
}

#[test]
fn join_prefix_puts_the_separator_between_pieces() {
    let v = chars("/top/sub/clk");
    let parts = split(&v, Separator::Char('/'));
    assert_eq!(join_prefix(&parts, 0, '/').iter().collect::<String>(), "");
    assert_eq!(join_prefix(&parts, 1, '/').iter().collect::<String>(), "");
    assert_eq!(join_prefix(&parts, 2, '/').iter().collect::<String>(), "/top");
    assert_eq!(join_prefix(&parts, 3, '/').iter().collect::<String>(), "/top/sub");
    assert_eq!(join_prefix(&parts, 4, '/').iter().collect::<String>(), "/top/sub/clk");
}

#[test]
fn texts_are_compared_character_by_character() {
    assert!(same_text(&chars("abc"), &chars("abc")));
    assert!(!same_text(&chars("abc"), &chars("abd")));
    assert!(!same_text(&chars("abc"), &chars("ab")));
    assert!(same_text(&chars(""), &chars("")));
    assert!(is_text(&chars("HEADER"), "HEADER"));
    assert!(!is_text(&chars("HEADER"), "HEADERS"));
    assert!(!is_text(&chars("HEADERS"), "HEADER"));
    assert!(!is_text(&chars("header"), "HEADER"));
    assert!(is_text(&chars(""), ""));
    assert!(is_text(&chars("\u{e9}\u{3000}"), "\u{e9}\u{3000}"));
}

#[test]
fn strings_and_characters_convert_both_ways() {
    let text = "$var \u{e9} \u{1F600} end";
    let v = chars_of(text);
    assert_eq!(v, chars(text));
    assert_eq!(string_of(&v), text);
    let mut out = String::from("head:");
    push_chars(&mut out, &v[..4]);
    assert_eq!(out, "head:$var");
}

#[test]
fn parse_u64_agrees_with_std() {
    let samples = [
        "",
        "+",
        "-",
        "0",
        "+0",
        "-0",
        "7",
        "+7",
        "-7",
        "++7",
        "007",
        "42",
        " 42",
        "42 ",
        "4 2",
        "1e3",
        "0x10",
        "1_000",
        "12a",
        "a12",
        "18446744073709551615",
        "+18446744073709551615",
        "18446744073709551616",
        "000018446744073709551615",
        "99999999999999999999999999",
        "\u{661}\u{662}\u{663}",
        "\u{ff11}\u{ff12}",
    ];
    for sample in samples {
        let v = chars(sample);
        assert_eq!(parse_u64(&v), sample.parse::<u64>().ok(), "{:?}", sample);
    }
}

#[test]
fn parse_u64_gives_the_number_written() {
    assert_eq!(parse_u64(&chars("0")), Some(0));
    assert_eq!(parse_u64(&chars("10")), Some(10));
    assert_eq!(parse_u64(&chars("+30")), Some(30));
    assert_eq!(parse_u64(&chars("18446744073709551615")), Some(u64::MAX));
    assert_eq!(parse_u64(&chars("18446744073709551616")), None);
    assert_eq!(parse_u64(&chars("abc")), None);
}

#[test]
fn push_decimal_agrees_with_std() {
    let samples = [0u64, 1, 9, 10, 11, 93, 94, 99, 100, 101, 1234567890, u64::MAX - 1, u64::MAX];
    for sample in samples {
        let mut out = String::new();
        push_decimal(&mut out, sample);
        assert_eq!(out, sample.to_string());
    }
    let mut out = String::from("#");
    push_decimal(&mut out, 120);
    assert_eq!(out, "#120");
}

#[test]
fn decimal_reads_back() {
    let samples = [0u64, 5, 10, 94, 200, 65535, u64::MAX];
    for sample in samples {
        let mut out = String::new();
        push_decimal(&mut out, sample);
        assert_eq!(parse_u64(&chars(&out)), Some(sample));
    }
}
