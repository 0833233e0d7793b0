use train_tickets::text::{
    commas_to_stops, is_nonblank_str, is_white_space_char, join, join_nonblank, parse_u8,
    same_text, split_spaces, str_le, trim,
};

fn strings(v: &[&str]) -> Vec<String> {
    v.iter().map(|s| s.to_string()).collect()
}

#[test]
fn whitespace_matches_std() {
    for c in ['\t', '\n', '\u{b}', '\u{c}', '\r', ' ', '\u{85}', '\u{a0}', '\u{1680}', '\u{2000}',
        '\u{200a}', '\u{2028}', '\u{2029}', '\u{202f}', '\u{205f}', '\u{3000}', 'a', '\u{200b}',
        '\u{feff}', '\u{180e}', '0', '\u{1f}']
    {
        assert_eq!(is_white_space_char(c), c.is_whitespace(), "{:?}", c);
    }
}

#[test]
fn trim_examples() {
    assert_eq!(trim("  a b \t\n"), "a b");
    assert_eq!(trim(""), "");
    assert_eq!(trim(" \u{3000} "), "");
    assert_eq!(trim("\u{a0}Минск\u{2009}"), "Минск");
    assert_eq!(trim("\u{200b}x"), "\u{200b}x");
    for s in ["  x  ", "x", "\n\n", "a\u{85}", " \u{202f}y z\u{205f}"] {
        assert_eq!(trim(s), s.trim());
    }
}

#[test]
fn trim_twice_is_trim_once() {
    for s in ["  x  ", "\t\ta b\u{3000}", "", "   "] {
        let once = trim(s);
        assert_eq!(trim(&once), once);
    }
}

#[test]
fn join_examples() {
    assert_eq!(join(&strings(&["a", "b", "c"]), ", "), "a, b, c");
    assert_eq!(join(&strings(&["only"]), "-"), "only");
    assert_eq!(join(&Vec::new(), "-"), "");
    assert_eq!(join(&strings(&["", ""]), " "), " ");
}

#[test]
fn blank_texts() {
    assert!(!is_nonblank_str(" \t\n"));
    assert!(!is_nonblank_str(""));
    assert!(is_nonblank_str(" x "));
    assert_eq!(join_nonblank(&strings(&[" ", "a", "\n", "b "])), "a b ");
    assert_eq!(join_nonblank(&strings(&["  ", "\t"])), "");
}

#[test]
fn split_examples() {
    assert_eq!(split_spaces("a  b"), strings(&["a", "", "b"]));
    assert_eq!(split_spaces(""), strings(&[""]));
    assert_eq!(split_spaces(" "), strings(&["", ""]));
    assert_eq!(split_spaces("12,5 7"), strings(&["12,5", "7"]));
    for s in ["x y z", "  lead", "trail ", "a\tb c"] {
        let ours = split_spaces(s);
        let std_pieces: Vec<String> = s.split(" ").map(|p| p.to_string()).collect();
        assert_eq!(ours, std_pieces);
    }
}

#[test]
fn split_then_join_gives_back_text() {
    for s in ["", " ", "a  b", "one two three", " x "] {
        assert_eq!(join(&split_spaces(s), " "), s);
    }
}

#[test]
fn commas_become_stops() {
    assert_eq!(commas_to_stops("1,5,0"), "1.5.0");
    assert_eq!(commas_to_stops("12.50"), "12.50");
    assert_eq!(commas_to_stops(""), "");
    assert_eq!(commas_to_stops("р,у"), "р.у");
}

#[test]
fn parse_u8_matches_std() {
    for s in ["", "+", "-", "-0", "0", "7", "+7", "007", "255", "256", "1000", " 7", "7 ", "١",
        "00000000000255", "+-1", "++1", "12a", "٣"]
    {
        assert_eq!(parse_u8(s), s.parse::<u8>().ok(), "{:?}", s);
    }
    assert_eq!(parse_u8("42"), Some(42));
    assert_eq!(parse_u8("256"), None);
}

#[test]
fn ordering_matches_string_order() {
    let samples = ["", "a", "ab", "b", "08:15", "8:15", "10:00", "09:59", "я", "z", "Ā", "a\u{10000}"];
    for a in samples {
        for b in samples {
            assert_eq!(str_le(a, b), a.to_string() <= b.to_string(), "{:?} {:?}", a, b);
        }
    }
}

#[test]
fn same_text_examples() {
    assert!(same_text("/start", "/start"));
    assert!(!same_text("/start", "/start "));
    assert!(!same_text("", "a"));
    assert!(same_text("", ""));
}
