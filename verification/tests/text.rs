use r_approx::text::{
    chars_of, find_char, line_ranges, parse_i32_range, push_decimal, push_decimal_nat, range_is,
    split_ranges,
};

fn cut(text: &str, ranges: &[(usize, usize)]) -> Vec<String> {
    let chars: Vec<char> = text.chars().collect();
    ranges
        .iter()
        .map(|(lo, hi)| chars[*lo..*hi].iter().collect())
        .collect()
}

fn lines_of(text: &str) -> Vec<String> {
    cut(text, &line_ranges(&chars_of(text)))
}

fn split_of(text: &str, sep: char) -> Vec<String> {
    let chars = chars_of(text);
    cut(text, &split_ranges(&chars, 0, chars.len(), sep))
}

fn parse(text: &str) -> Option<i32> {
    let chars = chars_of(text);
    parse_i32_range(&chars, 0, chars.len())
}

fn decimal(n: i32) -> String {
    let mut out = String::new();
    push_decimal(&mut out, n);
    out
}

#[test]
fn chars_are_those_of_the_text() {
    assert_eq!(chars_of("aБ;1"), vec!['a', 'Б', ';', '1']);
    assert_eq!(chars_of(""), vec![]);
}

#[test]
fn find_char_gives_the_first_position_or_the_end() {
    let chars = chars_of("a;b;c");
    assert_eq!(find_char(&chars, 0, 5, ';'), 1);
    assert_eq!(find_char(&chars, 2, 5, ';'), 3);
    assert_eq!(find_char(&chars, 4, 5, ';'), 5);
    assert_eq!(find_char(&chars, 0, 1, ';'), 1);
    assert_eq!(find_char(&chars, 3, 3, ';'), 3);
}

#[test]
fn split_behaves_as_the_split_of_strings() {
    for text in ["12;34;56", "kek;;", "", ";", ";;", "a", "a;", ";a", "a;b;c;d", "Б;Л"] {
        let expected: Vec<String> = text.split(';').map(|s| s.to_string()).collect();
        assert_eq!(split_of(text, ';'), expected);
    }
}

#[test]
fn lines_behave_as_the_lines_of_strings() {
    for text in [
        "",
        "a",
        "a\n",
        "a\r\n",
        "a\nb",
        "a\r\nb\r\n",
        "\n",
        "\r\n",
        "\n\n",
        "a\n\nb",
        "a\rb\nc",
        "a\r",
        "a\r\r\nb",
        "temp;dx;dy\r\n12;34;56",
    ] {
        let expected: Vec<String> = text.lines().map(|s| s.to_string()).collect();
        assert_eq!(lines_of(text), expected);
    }
}

#[test]
fn integers_are_read_as_by_the_standard_parser() {
    for text in [
        "0",
        "-0",
        "+0",
        "12",
        "-12",
        "+12",
        "007",
        "-007",
        "2147483647",
        "2147483648",
        "-2147483648",
        "-2147483649",
        "00000000000000000000002147483647",
        "99999999999999999999999999",
        "",
        "-",
        "+",
        "+-1",
        "--1",
        "1-",
        " 1",
        "1 ",
        "1.0",
        "1e3",
        "0x10",
        "nan",
        "１２",
        "1_000",
    ] {
        assert_eq!(parse(text), text.parse::<i32>().ok());
    }
}

#[test]
fn integers_are_written_as_by_the_standard_formatter() {
    for n in [
        0,
        1,
        -1,
        9,
        10,
        -10,
        99,
        100,
        12345,
        -67890,
        i32::MAX,
        i32::MIN,
        i32::MIN + 1,
    ] {
        assert_eq!(decimal(n), format!("{}", n));
        assert_eq!(parse(&decimal(n)), Some(n));
    }
    let mut out = String::from("n=");
    push_decimal_nat(&mut out, u64::MAX);
    assert_eq!(out, "n=18446744073709551615");
}

#[test]
fn range_is_compares_a_part_of_the_text() {
    let chars = chars_of("temp;dx;dy\r\n1;2;3");
    assert!(range_is(&chars, 0, 10, &chars_of("temp;dx;dy")));
    assert!(!range_is(&chars, 0, 10, &chars_of("temp;x;y")));
    assert!(!range_is(&chars, 0, 9, &chars_of("temp;dx;dy")));
    assert!(range_is(&chars, 5, 7, &chars_of("dx")));
    assert!(range_is(&chars, 3, 3, &chars_of("")));
}
