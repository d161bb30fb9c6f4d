use lodconv::{parse_line, split_tokens, ParseError, Record, Span};

fn chars(text: &str) -> Vec<char> {
    text.chars().collect()
}

fn parse(text: &str, vertex_count: usize) -> Result<Record, ParseError> {
    parse_line(&chars(text), vertex_count)
}

fn words(text: &str) -> Vec<String> {
    let line = chars(text);
    split_tokens(&line).iter().map(|s| line[s.start..s.end].iter().collect()).collect()
}

#[test]
fn tokens_are_runs_between_white_space() {
    assert_eq!(words("v 1.0  -2.5\t3e2"), vec!["v", "1.0", "-2.5", "3e2"]);
    assert_eq!(words("  f 1/2/3 4//5 6  "), vec!["f", "1/2/3", "4//5", "6"]);
    assert_eq!(words(""), Vec::<String>::new());
    assert_eq!(words(" \t \r"), Vec::<String>::new());
    assert_eq!(words("x"), vec!["x"]);
    assert_eq!(words("a\u{00A0}b\u{3000}c\u{2003}d\u{0085}e"), vec!["a", "b", "c", "d", "e"]);
    assert_eq!(words("a\u{200B}b"), vec!["a\u{200B}b"]);
}

#[test]
fn token_spans_are_exact() {
    let spans = split_tokens(&chars(" ab  c"));
    assert_eq!(spans, vec![Span { start: 1, end: 3 }, Span { start: 5, end: 6 }]);
}

#[test]
fn tokens_agree_with_split_whitespace() {
    for text in ["v 0 0 0", "  # note ", "f 1 2 3", "\tvn 0 0 1\n", "a  b   c    d", "é ü\u{2028}ß"] {
        let expected: Vec<String> = text.split_whitespace().map(|s| s.to_string()).collect();
        assert_eq!(words(text), expected);
    }
}

#[test]
fn blank_comment_and_other_records_are_ignored() {
    assert_eq!(parse("", 0), Ok(Record::Ignored));
    assert_eq!(parse("   ", 0), Ok(Record::Ignored));
    assert_eq!(parse("# v 1 2", 0), Ok(Record::Ignored));
    assert_eq!(parse("  #f 1", 0), Ok(Record::Ignored));
    assert_eq!(parse("vn 0 0 1", 0), Ok(Record::Ignored));
    assert_eq!(parse("vt 0.5", 0), Ok(Record::Ignored));
    assert_eq!(parse("g roof", 0), Ok(Record::Ignored));
    assert_eq!(parse("V 1 2 3", 0), Ok(Record::Ignored));
    assert_eq!(parse("ff 1 2 3", 3), Ok(Record::Ignored));
}

#[test]
fn vertex_record_points_at_its_coordinates() {
    let text = "v 1.5 -2 3e1 0.25";
    let line = chars(text);
    match parse_line(&line, 7) {
        Ok(Record::Vertex { x, y, z }) => {
            let word = |s: Span| -> String { line[s.start..s.end].iter().collect() };
            assert_eq!(word(x), "1.5");
            assert_eq!(word(y), "-2");
            assert_eq!(word(z), "3e1");
            assert_eq!(x, Span { start: 2, end: 5 });
        }
        other => panic!("unexpected {:?}", other),
    }
}

#[test]
fn short_vertex_record_is_refused() {
    assert_eq!(parse("v", 0), Err(ParseError::ShortVertex));
    assert_eq!(parse("v 1.0 2.0", 0), Err(ParseError::ShortVertex));
    assert_eq!(parse(" v 1.0 ", 0), Err(ParseError::ShortVertex));
}

#[test]
fn face_record_gives_zero_based_ids() {
    assert_eq!(parse("f 1 2 3", 3), Ok(Record::Face { vertex_ids: vec![0, 1, 2] }));
    assert_eq!(parse("f 4 1 3 2", 4), Ok(Record::Face { vertex_ids: vec![3, 0, 2, 1] }));
    assert_eq!(parse("  f\t1/7/9 2//4 +3/x", 3), Ok(Record::Face { vertex_ids: vec![0, 1, 2] }));
    assert_eq!(parse("f 007 1 1", 7), Ok(Record::Face { vertex_ids: vec![6, 0, 0] }));
}

#[test]
fn short_face_record_is_refused() {
    assert_eq!(parse("f", 5), Err(ParseError::ShortFace));
    assert_eq!(parse("f 1 2", 5), Err(ParseError::ShortFace));
    assert_eq!(parse("f x y", 5), Err(ParseError::ShortFace));
}

#[test]
fn malformed_face_index_is_refused() {
    assert_eq!(parse("f 1 two 3", 3), Err(ParseError::InvalidIndex { token: 2 }));
    assert_eq!(parse("f 1 2 -3", 3), Err(ParseError::InvalidIndex { token: 3 }));
    assert_eq!(parse("f /1 2 3", 3), Err(ParseError::InvalidIndex { token: 1 }));
    assert_eq!(parse("f + 2 3", 3), Err(ParseError::InvalidIndex { token: 1 }));
    assert_eq!(parse("f 1 2 3.0", 3), Err(ParseError::InvalidIndex { token: 3 }));
    assert_eq!(parse("f 1 2 \u{0663}", 3), Err(ParseError::InvalidIndex { token: 3 }));
    assert_eq!(
        parse("f 1 2 99999999999999999999999999999999999999", 3),
        Err(ParseError::InvalidIndex { token: 3 })
    );
}

#[test]
fn face_index_out_of_range_is_refused() {
    assert_eq!(parse("f 1 2 4", 3), Err(ParseError::IndexOutOfRange { token: 3 }));
    assert_eq!(parse("f 0 1 2", 3), Err(ParseError::IndexOutOfRange { token: 1 }));
    assert_eq!(parse("f 1 2 3", 0), Err(ParseError::IndexOutOfRange { token: 1 }));
    assert_eq!(parse("f 1 2 3", 2), Err(ParseError::IndexOutOfRange { token: 3 }));
}

#[test]
fn first_bad_token_decides_the_error() {
    assert_eq!(parse("f 9 x 1", 3), Err(ParseError::IndexOutOfRange { token: 1 }));
    assert_eq!(parse("f x 9 1", 3), Err(ParseError::InvalidIndex { token: 1 }));
}

#[test]
fn largest_index_is_read() {
    let text = format!("f {} 1 2", usize::MAX);
    assert_eq!(
        parse(&text, usize::MAX),
        Ok(Record::Face { vertex_ids: vec![usize::MAX - 1, 0, 1] })
    );
    let digits = format!("{}", usize::MAX);
    let (head, last) = digits.split_at(digits.len() - 1);
    let bumped = format!("f {}{} 1 2", head, last.parse::<u8>().unwrap() + 1);
    assert_eq!(parse(&bumped, usize::MAX), Err(ParseError::InvalidIndex { token: 1 }));
}

#[test]
fn index_reading_agrees_with_the_standard_parser() {
    for word in ["1", "+1", "12", "0012", "", "+", "-1", "1a", "a1", "18446744073709551615",
        "18446744073709551616", "١"]
    {
        let text = format!("f {} 1 1", if word.is_empty() { "/" } else { word });
        let expected = if word.is_empty() { None } else { word.parse::<usize>().ok() };
        let got = match parse(&text, usize::MAX) {
            Ok(Record::Face { vertex_ids }) => Some(vertex_ids[0] + 1),
            Err(ParseError::IndexOutOfRange { token: 1 }) => Some(0),
            Err(ParseError::InvalidIndex { token: 1 }) => None,
            other => panic!("unexpected {:?}", other),
        };
        assert_eq!(got, expected, "{:?}", word);
    }
}

fn text_lines(text: &str) -> Vec<Vec<char>> {
    text.lines().map(chars).collect()
}

#[test]
fn lines_are_read_in_order_with_vertices_counted() {
    let text = "# square\nv 0 0 0\nv 1 0 0\n\nf 1 2 2\nv 1 1 0\nvn 0 0 1\nf 1 2 3\n";
    let out = lodconv::parse_lines(&text_lines(text));
    assert_eq!(out.error, None);
    assert_eq!(out.records.len(), 8);
    assert_eq!(out.records[0], Record::Ignored);
    assert!(matches!(out.records[1], Record::Vertex { .. }));
    assert!(matches!(out.records[2], Record::Vertex { .. }));
    assert_eq!(out.records[3], Record::Ignored);
    assert_eq!(out.records[4], Record::Face { vertex_ids: vec![0, 1, 1] });
    assert!(matches!(out.records[5], Record::Vertex { .. }));
    assert_eq!(out.records[6], Record::Ignored);
    assert_eq!(out.records[7], Record::Face { vertex_ids: vec![0, 1, 2] });
}

#[test]
fn face_may_not_name_a_vertex_declared_later() {
    let text = "v 0 0 0\nv 1 0 0\nf 1 2 3\nv 1 1 0\nf x y z\n";
    let out = lodconv::parse_lines(&text_lines(text));
    assert_eq!(out.error, Some(ParseError::IndexOutOfRange { token: 3 }));
    assert_eq!(out.records.len(), 2);
}

#[test]
fn reading_stops_at_the_first_refused_line() {
    let out = lodconv::parse_lines(&text_lines("v 1 2 3\nv 1 2\nf 1 1\n"));
    assert_eq!(out.error, Some(ParseError::ShortVertex));
    assert_eq!(out.records.len(), 1);
    let out = lodconv::parse_lines(&text_lines("f 1 2\n"));
    assert_eq!(out.error, Some(ParseError::ShortFace));
    assert!(out.records.is_empty());
    let out = lodconv::parse_lines(&text_lines("v 0 0 0\n# ok\nf 1 1 one\n"));
    assert_eq!(out.error, Some(ParseError::InvalidIndex { token: 3 }));
    assert_eq!(out.records.len(), 2);
}

#[test]
fn empty_text_has_no_records() {
    let out = lodconv::parse_lines(&vec![]);
    assert_eq!(out.error, None);
    assert!(out.records.is_empty());
}
