use csvcut::number::parse_number;
use csvcut::scan::width_of;
use csvcut::split::{join_commas, split_on};
use csvcut::text::{is_space, trim};

#[test]
fn trim_takes_off_white_space_at_both_ends() {
    assert_eq!(trim(" a,b,c  "), "a,b,c");
    assert_eq!(trim("\t\r\n x y \u{b}\u{c}"), "x y");
    assert_eq!(trim("a"), "a");
    assert_eq!(trim("a b"), "a b");
}

#[test]
fn trim_of_blank_text_is_empty() {
    assert_eq!(trim(""), "");
    assert_eq!(trim("   "), "");
    assert_eq!(trim("\n"), "");
}

#[test]
fn trim_knows_white_space_beyond_ascii() {
    assert_eq!(trim("\u{85}\u{a0}\u{1680}\u{2000}\u{200a}é\u{2028}\u{2029}\u{202f}\u{205f}\u{3000}"), "é");
    assert_eq!(trim("\u{200b}a\u{feff}"), "\u{200b}a\u{feff}");
    assert_eq!(trim("\u{180e}a"), "\u{180e}a");
}

#[test]
fn white_space_is_what_std_calls_white_space() {
    let mut u: u32 = 0;
    while u <= 0x10FFFF {
        if let Some(c) = char::from_u32(u) {
            assert_eq!(is_space(c), c.is_whitespace(), "U+{:04X}", u);
        }
        u += 1;
    }
}

#[test]
fn trim_agrees_with_std() {
    for s in [" a ", "\u{3000}x\u{3000}y\u{3000}", "é ", " ñandú,\t", "\u{1680}", "a\u{a0}"] {
        assert_eq!(trim(s), s.trim());
    }
}

#[test]
fn split_on_cuts_at_every_separator() {
    assert_eq!(split_on("a,b,c", ','), vec!["a", "b", "c"]);
    assert_eq!(split_on("", ','), vec![""]);
    assert_eq!(split_on(",", ','), vec!["", ""]);
    assert_eq!(split_on(",a,,b,", ','), vec!["", "a", "", "b", ""]);
    assert_eq!(split_on("1-3", '-'), vec!["1", "3"]);
    assert_eq!(split_on("no separator", '-'), vec!["no separator"]);
}

#[test]
fn split_on_counts_characters_not_bytes() {
    assert_eq!(split_on("é,ü,日本語", ','), vec!["é", "ü", "日本語"]);
    assert_eq!(split_on("a→b→c", '→'), vec!["a", "b", "c"]);
    assert_eq!(split_on("𝄞,𝄢", ','), vec!["𝄞", "𝄢"]);
}

#[test]
fn split_on_agrees_with_std() {
    for s in ["", ",", "a", "a,b", ",,", "ä,ö,", ",x"] {
        let expected: Vec<&str> = s.split(',').collect();
        assert_eq!(split_on(s, ','), expected);
    }
}

#[test]
fn join_commas_puts_commas_between() {
    assert_eq!(join_commas(&vec![]), "");
    assert_eq!(join_commas(&vec!["a"]), "a");
    assert_eq!(join_commas(&vec!["a", "b"]), "a,b");
    assert_eq!(join_commas(&vec!["", "", ""]), ",,");
    assert_eq!(join_commas(&vec!["é", "", "ü"]), "é,,ü");
}

#[test]
fn join_undoes_split() {
    for s in ["", ",", "a,b,c", ",a,,b,", "é,ü"] {
        assert_eq!(join_commas(&split_on(s, ',')), s);
    }
}

#[test]
fn parse_number_reads_decimal_digits() {
    assert_eq!(parse_number("0"), Some(0));
    assert_eq!(parse_number("7"), Some(7));
    assert_eq!(parse_number("12"), Some(12));
    assert_eq!(parse_number("1234567890"), Some(1234567890));
    assert_eq!(parse_number("007"), Some(7));
    assert_eq!(parse_number("+5"), Some(5));
    assert_eq!(parse_number("+0012"), Some(12));
}

#[test]
fn parse_number_refuses_what_is_no_number() {
    for s in ["", "+", "-", "-1", "++1", "1+", "+-1", "a", "1a", "a1", " 1", "1 ", "1_000", "1.5", "0x10", "٣", "１"] {
        assert_eq!(parse_number(s), None, "{:?}", s);
    }
}

#[test]
fn parse_number_stops_at_the_largest_usize() {
    assert_eq!(parse_number(&usize::MAX.to_string()), Some(usize::MAX));
    assert_eq!(parse_number(&format!("000{}", usize::MAX)), Some(usize::MAX));
    assert_eq!(parse_number(&format!("{}0", usize::MAX)), None);
    assert_eq!(parse_number(&(usize::MAX as u128 + 1).to_string()), None);
    assert_eq!(parse_number("99999999999999999999999999999999999999"), None);
    assert_eq!(parse_number("99999999999999999999999999999999999999x"), None);
}

#[test]
fn parse_number_agrees_with_std() {
    for s in ["", "+", "+1", "-0", "00", "18446744073709551615", "18446744073709551616", "4294967295", "4294967296", "12a", "१२"] {
        assert_eq!(parse_number(s), s.parse::<usize>().ok(), "{:?}", s);
    }
}

#[test]
fn width_of_is_the_length_in_utf8() {
    assert_eq!(width_of('a'), 1);
    assert_eq!(width_of('\u{7f}'), 1);
    assert_eq!(width_of('\u{80}'), 2);
    assert_eq!(width_of('é'), 2);
    assert_eq!(width_of('\u{7ff}'), 2);
    assert_eq!(width_of('\u{800}'), 3);
    assert_eq!(width_of('日'), 3);
    assert_eq!(width_of('\u{ffff}'), 3);
    assert_eq!(width_of('\u{10000}'), 4);
    assert_eq!(width_of('𝄞'), 4);
    assert_eq!(width_of('\u{10ffff}'), 4);
}
