use csvcut::line::{cut_line, select_columns, split_line, tokenize};

#[test]
fn line_test_basic() {
    let res = cut_line(&String::from("a,b,c,d,e,f"), &vec![0, 2, 4]);
    assert_eq!(res, String::from("a,c,e"));
    let res = cut_line(&String::from("a,b,c,d,e,f"), &vec![0, 2, 4, 1, 3]);
    assert_eq!(res, String::from("a,c,e,b,d"));
    let res = cut_line(&String::from("a,b,c,d,e,f"), &vec![0, 0, 2, 2]);
    assert_eq!(res, String::from("a,a,c,c"));
}

#[test]
fn test_handle_oob() {
    let res = cut_line(&String::from("a,b,c,d,e,f"), &vec![0, 0, 2, 2, 100, 4, 4]);
    assert_eq!(res, String::from("a,a,c,c,,e,e"));
    let res = cut_line(&String::from("a,b,c"), &vec![0, 1, 2, 3, 4, 5, 6]);
    assert_eq!(res, String::from("a,b,c,,,,"));
}

#[test]
fn test_quotes() {
    let res = cut_line(&String::from(r#"a,"b",c"#), &vec![0, 1, 2]);
    assert_eq!(res, String::from(r#"a,"b",c"#));
    let res = cut_line(&String::from(r#"a,'b',c"#), &vec![0, 1, 2]);
    assert_eq!(res, String::from(r#"a,'b',c"#));
    let res = cut_line(&String::from(r#"a,'"b""',c"#), &vec![0, 1, 2]);
    assert_eq!(res, String::from(r#"a,'"b""',c"#));
    let res = cut_line(&String::from(r#"a,'b,b',c"#), &vec![0, 1, 2]);
    assert_eq!(res, String::from(r#"a,'b,b',c"#));
    let res = cut_line(&String::from(r#"a,'b,b",c"#), &vec![0, 1, 2]);
    assert_eq!(res, String::from(r#"a,'b,b",c,"#));
    let res = cut_line(&String::from(r#"a,'b\'\",b',c"#), &vec![0, 1, 2]);
    assert_eq!(res, String::from(r#"a,'b\'\",b',c"#));
    let res = cut_line(&String::from(r#"a,"b\\\",b",c"#), &vec![0, 1, 2]);
    assert_eq!(res, String::from(r#"a,"b\\\",b",c"#));
    let res = cut_line(&String::from(r#"c,"d,\'d,\",d",e,f",",'g,\',g',h"#), &vec![0, 3, 5]);
    assert_eq!(res, String::from(r#"c,f",",h"#));
}

#[test]
fn test_basic() {
    let input = &String::from("a,b,c");
    let res = split_line(input);
    assert_eq!(res, vec!["a", "b", "c"]);
}

#[test]
fn test_whitespace() {
    let input = &String::from(" a,b,c  ");
    let res = split_line(input);
    assert_eq!(res, vec!["a", "b", "c"]);
}

#[test]
fn test_double_quote() {
    let input = &String::from(r#"a,"b,c""#);
    let res = split_line(input);
    assert_eq!(res, vec!["a", "\"b,c\""]);
}

#[test]
fn test_single_quote() {
    let input = &String::from(r#"a,'b,c'"#);
    let res = split_line(input);
    assert_eq!(res, vec!["a", "\'b,c\'"]);
}

#[test]
fn select_pads_missing_fields() {
    let fields = vec!["a", "b"];
    assert_eq!(select_columns(&fields, &vec![1, 5, 0]), "b,,a");
    assert_eq!(select_columns(&fields, &vec![]), "");
    assert_eq!(select_columns(&vec![], &vec![0, 1]), ",");
}

#[test]
fn fields_joined_by_commas_are_the_trimmed_line() {
    let lines = [
        "",
        "a",
        "a,b,c",
        ",",
        ",,a,,",
        "  a , b ,c \n",
        r#"a,'b,b',c"#,
        r#"a,"b\",b",c"#,
        r#"a,'unclosed,b,c"#,
        r#"'a\'"#,
        "é,'ü,ö',日本語\r\n",
    ];
    for line in lines {
        let line = String::from(line);
        let fields = split_line(&line);
        assert_eq!(fields.join(","), line.trim());
    }
}

#[test]
fn a_line_without_quotes_is_split_at_every_comma() {
    for line in ["", "a", "a,b", ",a,,b,", "a\\,b", " x,y z,\t"] {
        let expected: Vec<&str> = line.trim().split(',').collect();
        assert_eq!(split_line(&String::from(line)), expected);
    }
}

#[test]
fn there_is_one_field_more_than_separators() {
    assert_eq!(split_line(&String::from("")).len(), 1);
    assert_eq!(split_line(&String::from("abc")).len(), 1);
    assert_eq!(split_line(&String::from("a,b,c")).len(), 3);
    assert_eq!(split_line(&String::from(",,,")).len(), 4);
    assert_eq!(split_line(&String::from("a,'b,c',d")).len(), 3);
    assert_eq!(split_line(&String::from("',,,'")).len(), 1);
}

#[test]
fn a_blank_line_has_one_empty_field() {
    assert_eq!(split_line(&String::from("")), vec![""]);
    assert_eq!(split_line(&String::from(" \t\n")), vec![""]);
    assert_eq!(cut_line(&String::from("\n"), &vec![0, 1]), ",");
}

#[test]
fn a_quoted_comma_stays_in_its_field() {
    assert_eq!(split_line(&String::from(r#"a,'b,b',c"#)), vec!["a", "'b,b'", "c"]);
    assert_eq!(split_line(&String::from(r#"x"1,2"y,z"#)), vec![r#"x"1,2"y"#, "z"]);
    assert_eq!(split_line(&String::from(r#"'a,b'"c,d",e"#)), vec![r#"'a,b'"c,d""#, "e"]);
}

#[test]
fn the_other_quote_does_not_close_a_region() {
    assert_eq!(split_line(&String::from(r#"a,'b",c',d"#)), vec!["a", r#"'b",c'"#, "d"]);
    assert_eq!(split_line(&String::from(r#"a,"b',c",d"#)), vec!["a", r#""b',c""#, "d"]);
}

#[test]
fn an_escaped_quote_does_not_close_a_region() {
    assert_eq!(split_line(&String::from(r#""a\",b",c"#)), vec![r#""a\",b""#, "c"]);
    assert_eq!(split_line(&String::from(r#"'a\',b',c"#)), vec![r#"'a\',b'"#, "c"]);
    assert_eq!(split_line(&String::from(r#""a\\",b"#)), vec![r#""a\\""#, "b"]);
}

#[test]
fn a_backslash_outside_quotes_escapes_nothing() {
    assert_eq!(split_line(&String::from(r#"a\,b"#)), vec![r#"a\"#, "b"]);
    assert_eq!(split_line(&String::from(r#"a\'b,c'"#)), vec![r#"a\'b,c'"#]);
}

#[test]
fn an_unclosed_quote_runs_to_the_end_of_the_line() {
    assert_eq!(split_line(&String::from(r#"a,'b,c"#)), vec!["a", "'b,c"]);
    assert_eq!(split_line(&String::from(r#"a,"b,c,"#)), vec!["a", r#""b,c,"#]);
    assert_eq!(split_line(&String::from(r#"a,"b\"#)), vec!["a", r#""b\"#]);
}

#[test]
fn fields_are_counted_in_characters() {
    assert_eq!(split_line(&String::from("é,ü,日本語")), vec!["é", "ü", "日本語"]);
    assert_eq!(split_line(&String::from("\u{3000}𝄞,'é,è',ß\u{a0}")), vec!["𝄞", "'é,è'", "ß"]);
    assert_eq!(cut_line(&String::from("é,ü,日本語"), &vec![2, 0]), "日本語,é");
}

#[test]
fn fields_are_slices_of_the_line() {
    let line = String::from(" ab,cd ");
    let fields = split_line(&line);
    let start = line.as_ptr() as usize;
    assert_eq!(fields[0].as_ptr() as usize, start + 1);
    assert_eq!(fields[1].as_ptr() as usize, start + 4);
}

#[test]
fn cutting_to_every_column_gives_the_trimmed_line() {
    for line in ["a,b,c", " a,'b,c',d\n", "", "x", r#""q\"",,'"#] {
        let line = String::from(line);
        let count = split_line(&line).len();
        let all: Vec<usize> = (0..count).collect();
        assert_eq!(cut_line(&line, &all), line.trim());
    }
}

#[test]
fn selection_keeps_order_and_repeats() {
    let fields = vec!["a", "b", "c", "d", "e", "f"];
    assert_eq!(select_columns(&fields, &vec![0, 0, 2, 2]), "a,a,c,c");
    assert_eq!(select_columns(&fields, &vec![5, 4, 3, 2, 1, 0]), "f,e,d,c,b,a");
    assert_eq!(select_columns(&fields, &vec![usize::MAX, 6, 5]), ",,f");
}

#[test]
fn tokenize_keeps_the_white_space_around_the_line() {
    assert_eq!(tokenize(" a,b,c  "), vec![" a", "b", "c  "]);
    assert_eq!(tokenize("a, 'b,c' ,d\n"), vec!["a", " 'b,c' ", "d\n"]);
    assert_eq!(tokenize(""), vec![""]);
}

#[test]
fn a_comma_behind_closed_quotes_separates() {
    for (a, b) in [("a,'b,c'", "d,e"), ("", ""), ("\"x\"", "'y,"), ("a\\", "b"), ("'\\''", ",")] {
        let whole = format!("{},{}", a, b);
        let mut expected = tokenize(a);
        expected.extend(tokenize(b));
        assert_eq!(tokenize(&whole), expected);
    }
}

#[test]
fn a_comma_behind_an_open_quote_does_not_separate() {
    assert_eq!(tokenize("a,'b,c").len(), 2);
    assert_eq!(tokenize("a,'b").len() + tokenize("c").len(), 3);
}
