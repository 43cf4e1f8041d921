use rand::{distributions::Alphanumeric, Rng};
use unx::cut::{
    cut, extract_bytes, extract_chars, extract_fields, handle_file, parse_delimiter, parse_extract,
    parse_index, parse_positions, ArgsExtract, CutError, Extract,
};
use unx::lines::Source;

fn file(content: &[u8]) -> Source {
    Source { name: "input".to_string(), content: Some(content.to_vec()) }
}

fn args(fields: Option<&str>, bytes: Option<&str>, chars: Option<&str>) -> ArgsExtract {
    ArgsExtract {
        fields: fields.map(String::from),
        bytes: bytes.map(String::from),
        chars: chars.map(String::from),
    }
}

fn random_string() -> String {
    rand::thread_rng().sample_iter(&Alphanumeric).take(7).map(char::from).collect()
}

fn random_non_number() -> String {
    loop {
        let text = random_string();
        if !text.chars().all(|c| c.is_ascii_digit()) {
            return text;
        }
    }
}

fn csv_file() -> Vec<Source> {
    vec![file(b"title,year\nThe Blue Angel,1930\n")]
}

fn dies(extract: ArgsExtract, delimiter: &str, expected: &str) {
    match cut(&csv_file(), delimiter, None, &extract) {
        Ok(_) => panic!("the arguments were accepted"),
        Err(e) => assert!(e.message().contains(expected), "{}", e.message()),
    }
}

#[test]
fn dies_bad_digit_field() {
    let bad = random_non_number();
    dies(args(Some(&bad), None, None), ",", &format!("cut: invalid extract value: `{}`", &bad));
}

#[test]
fn dies_bad_digit_bytes() {
    let bad = random_non_number();
    dies(args(None, Some(&bad), None), ",", &format!("cut: invalid extract value: `{}`", &bad));
}

#[test]
fn dies_bad_digit_chars() {
    let bad = random_non_number();
    dies(args(None, None, Some(&bad)), ",", &format!("cut: invalid extract value: `{}`", &bad));
}

#[test]
fn dies_empty_delimiter() {
    dies(args(Some("1"), None, None), "", "cut: delimiter must be a single byte");
}

#[test]
fn dies_bad_delimiter() {
    dies(args(Some("1"), None, None), ",,", "cut: delimiter must be a single byte");
}

#[test]
fn parse_positions_reads_singles_and_ranges() {
    assert_eq!(parse_positions("1".to_string()), Ok(vec![0..1]));
    assert_eq!(parse_positions("01".to_string()), Ok(vec![0..1]));
    assert_eq!(parse_positions("1,3".to_string()), Ok(vec![0..1, 2..3]));
    assert_eq!(parse_positions("001,0003".to_string()), Ok(vec![0..1, 2..3]));
    assert_eq!(parse_positions("1-3".to_string()), Ok(vec![0..3]));
    assert_eq!(parse_positions("0001-03".to_string()), Ok(vec![0..3]));
    assert_eq!(parse_positions("1,7,3-5".to_string()), Ok(vec![0..1, 6..7, 2..5]));
    assert_eq!(parse_positions("15,19-20".to_string()), Ok(vec![14..15, 18..20]));
    assert_eq!(parse_positions("1-1".to_string()), Ok(vec![0..1]));
}

#[test]
fn parse_positions_keeps_overlaps_and_repeats() {
    assert_eq!(parse_positions("2,2,1-3,2-2".to_string()), Ok(vec![1..2, 1..2, 0..3, 1..2]));
}

#[test]
fn parse_positions_refuses_what_is_no_position() {
    let invalid = |text: &str, value: &str| {
        assert_eq!(
            parse_positions(text.to_string()),
            Err(CutError::InvalidExtractValue(value.to_string())),
            "{text}"
        );
    };
    invalid("0", "0");
    invalid("0-1", "0");
    invalid("1-0", "0");
    invalid("+1", "+1");
    invalid("+1-2", "+1-2");
    invalid("1-+2", "1-+2");
    invalid("a", "a");
    invalid("1,a", "a");
    invalid("1-a", "1-a");
    invalid("a-1", "a-1");
    invalid("-", "-");
    invalid(",", "");
    invalid("1,", "");
    invalid("1-", "1-");
    invalid("-1", "-1");
    invalid("1-1-1", "1-1-1");
    invalid("1-1-a", "1-1-a");
    invalid("1 ", "1 ");
    invalid("1,0,x", "0");
}

#[test]
fn parse_positions_refuses_the_empty_list() {
    assert_eq!(parse_positions(String::new()), Err(CutError::EmptyOrInvalidSpec));
}

#[test]
fn parse_positions_refuses_numbers_beyond_the_machine() {
    let huge = "340282366920938463463374607431768211456";
    assert_eq!(
        parse_positions(huge.to_string()),
        Err(CutError::InvalidExtractValue(huge.to_string()))
    );
    assert_eq!(
        parse_positions(format!("1-{huge}")),
        Err(CutError::InvalidExtractValue(huge.to_string()))
    );
    let max = usize::MAX.to_string();
    assert_eq!(parse_positions(max), Ok(vec![usize::MAX - 1..usize::MAX]));
}

#[test]
fn decreasing_range_is_refused() {
    assert_eq!(parse_positions("5-2".to_string()), Err(CutError::DecreasingRange));
    assert_eq!(parse_positions("2-5".to_string()), Ok(vec![1..5]));
    assert_eq!(parse_positions("2-1".to_string()), Err(CutError::DecreasingRange));
    assert_eq!(
        CutError::DecreasingRange.message(),
        "cut: invalid decreasing range".to_string()
    );
}

#[test]
fn the_first_fault_in_a_list_is_reported() {
    assert_eq!(parse_positions("3-1,x".to_string()), Err(CutError::DecreasingRange));
    assert_eq!(
        parse_positions("x,3-1".to_string()),
        Err(CutError::InvalidExtractValue("x".to_string()))
    );
}

#[test]
fn parse_index_counts_from_one() {
    assert_eq!(parse_index("1"), Ok(0));
    assert_eq!(parse_index("42"), Ok(41));
    assert_eq!(parse_index("0042"), Ok(41));
    assert_eq!(parse_index("0"), Err(CutError::InvalidExtractValue("0".to_string())));
    assert_eq!(parse_index("+3"), Err(CutError::InvalidExtractValue("+3".to_string())));
    assert_eq!(parse_index(""), Err(CutError::InvalidExtractValue(String::new())));
    assert_eq!(parse_index("٣"), Err(CutError::InvalidExtractValue("٣".to_string())));
}

#[test]
fn parse_delimiter_takes_one_byte() {
    assert_eq!(parse_delimiter("\t"), Ok(b'\t'));
    assert_eq!(parse_delimiter(","), Ok(b','));
    assert_eq!(parse_delimiter(""), Err(CutError::InvalidDelimiter));
    assert_eq!(parse_delimiter(",,"), Err(CutError::InvalidDelimiter));
    assert_eq!(parse_delimiter("é"), Err(CutError::InvalidDelimiter));
}

#[test]
fn parse_extract_prefers_fields_then_bytes_then_chars() {
    assert!(matches!(parse_extract(args(Some("1"), Some("2"), Some("3"))), Ok(Extract::Fields(l)) if l == vec![0..1]));
    assert!(matches!(parse_extract(args(None, Some("2"), Some("3"))), Ok(Extract::Bytes(l)) if l == vec![1..2]));
    assert!(matches!(parse_extract(args(None, None, Some("3"))), Ok(Extract::Chars(l)) if l == vec![2..3]));
    assert!(matches!(parse_extract(args(None, None, None)), Err(CutError::EmptyOrInvalidSpec)));
    assert!(matches!(
        parse_extract(args(Some("x"), Some("2"), None)),
        Err(CutError::InvalidExtractValue(v)) if v == "x"
    ));
}

#[test]
fn extract_fields_skips_what_is_not_there() {
    let record: Vec<String> = vec!["Captain".into(), "Sham".into(), "12345".into()];
    assert_eq!(extract_fields(&record, &[0..1]), vec!["Captain"]);
    assert_eq!(extract_fields(&record, &[1..2]), vec!["Sham"]);
    assert_eq!(extract_fields(&record, &[0..1, 2..3]), vec!["Captain", "12345"]);
    assert_eq!(extract_fields(&record, &[0..1, 3..4]), vec!["Captain"]);
    assert_eq!(extract_fields(&record, &[1..2, 0..1]), vec!["Sham", "Captain"]);
    assert_eq!(extract_fields(&record, &[1..9]), vec!["Sham", "12345"]);
    assert_eq!(extract_fields(&record, &[0..2, 1..3]), vec!["Captain", "Sham", "Sham", "12345"]);
    assert_eq!(extract_fields(&record, &[]), Vec::<String>::new());
}

#[test]
fn extract_chars_selects_characters() {
    assert_eq!(extract_chars("", &[0..1]), "");
    assert_eq!(extract_chars("ábc", &[0..1]), "á");
    assert_eq!(extract_chars("ábc", &[0..1, 2..3]), "ác");
    assert_eq!(extract_chars("ábc", &[0..3]), "ábc");
    assert_eq!(extract_chars("ábc", &[2..3, 1..2]), "cb");
    assert_eq!(extract_chars("ábc", &[0..1, 1..2, 4..5]), "áb");
}

#[test]
fn extract_bytes_selects_bytes_and_replaces_broken_text() {
    assert_eq!(extract_bytes("ábc", &[0..1]), "\u{fffd}");
    assert_eq!(extract_bytes("ábc", &[0..2]), "á");
    assert_eq!(extract_bytes("ábc", &[0..3]), "áb");
    assert_eq!(extract_bytes("ábc", &[0..4]), "ábc");
    assert_eq!(extract_bytes("ábc", &[3..4, 2..3]), "cb");
    assert_eq!(extract_bytes("ábc", &[0..2, 5..6]), "á");
}

#[test]
fn cut_fields_scenario() {
    let files = vec![file(b"a\tb\tc\n")];
    let out = cut(&files, "\t", None, &args(Some("1,3"), None, None)).unwrap();
    assert_eq!(out.len(), 1);
    assert_eq!(out[0].bytes, b"a\tc\n".to_vec());
    assert_eq!(out[0].error, None);
}

#[test]
fn cut_bytes_out_of_range_scenario() {
    let files = vec![file(b"ab\n")];
    let out = cut(&files, "\t", None, &args(None, Some("1-5"), None)).unwrap();
    assert_eq!(out[0].bytes, b"ab\n".to_vec());
    assert_eq!(out[0].error, None);
}

#[test]
fn cut_fields_reads_quoted_fields_and_writes_them_quoted() {
    let files = vec![file(b"a,\"b,c\",d\nx,\"y\"\"z\",w\n")];
    let out = cut(&files, ",", None, &args(Some("2"), None, None)).unwrap();
    assert_eq!(out[0].bytes, b"\"b,c\"\n\"y\"\"z\"\n".to_vec());
    let out = cut(&files, ",", Some(";"), &args(Some("2,1"), None, None)).unwrap();
    assert_eq!(out[0].bytes, b"b,c;a\n\"y\"\"z\";x\n".to_vec());
}

#[test]
fn cut_fields_stops_at_a_record_of_another_length() {
    let files = vec![
        file(b"a,b\nc,d\ne\nf,g\n"),
        Source { name: "missing".to_string(), content: None },
        file(b"h,i\n"),
    ];
    let out = cut(&files, ",", None, &args(Some("1"), None, None)).unwrap();
    assert_eq!(out.len(), 3);
    assert_eq!(out[0].bytes, b"a\nc\n".to_vec());
    match &out[0].error {
        Some(CutError::MalformedRecord(reason)) => {
            assert!(reason.contains("found record with 1 fields"), "{reason}")
        }
        other => panic!("{other:?}"),
    }
    assert!(out[1].bytes.is_empty());
    assert_eq!(out[1].error, None);
    assert_eq!(out[2].bytes, b"h\n".to_vec());
    assert_eq!(out[2].error, None);
}

#[test]
fn cut_fields_beyond_the_record_are_skipped() {
    let files = vec![file(b"a\tb\n")];
    let out = cut(&files, "\t", None, &args(Some("2-9,1"), None, None)).unwrap();
    assert_eq!(out[0].bytes, b"b\ta\n".to_vec());
}

#[test]
fn cut_chars_works_line_by_line() {
    let files = vec![file("ábc\ndéf\r\ng".as_bytes())];
    let out = cut(&files, "\t", None, &args(None, None, Some("2,1"))).unwrap();
    assert_eq!(String::from_utf8(out[0].bytes.clone()).unwrap(), "bá\néd\ng\n");
}

#[test]
fn cut_bytes_and_chars_never_fail_on_broken_text() {
    let files = vec![file(b"a\xffb\nxyz\n")];
    let out = cut(&files, "\t", None, &args(None, None, Some("1-3"))).unwrap();
    assert_eq!(String::from_utf8(out[0].bytes.clone()).unwrap(), "a\u{fffd}b\nxyz\n");
    assert_eq!(out[0].error, None);
    let out = cut(&files, "\t", None, &args(None, Some("2"), None)).unwrap();
    assert_eq!(String::from_utf8(out[0].bytes.clone()).unwrap(), "\u{fffd}\ny\n");
    assert_eq!(out[0].error, None);
}

#[test]
fn cut_checks_the_arguments_in_order() {
    let files: Vec<Source> = Vec::new();
    assert_eq!(
        cut(&files, "", Some(""), &args(Some("x"), None, None)).unwrap_err(),
        CutError::InvalidDelimiter
    );
    assert_eq!(
        cut(&files, ",", Some("ab"), &args(Some("x"), None, None)).unwrap_err(),
        CutError::InvalidDelimiter
    );
    assert_eq!(
        cut(&files, ",", Some(";"), &args(Some("x"), None, None)).unwrap_err(),
        CutError::InvalidExtractValue("x".to_string())
    );
    assert_eq!(cut(&files, ",", None, &args(Some("1"), None, None)).unwrap().len(), 0);
}

#[test]
fn handle_file_of_an_empty_file_writes_nothing() {
    for extract in [Extract::Fields(vec![0..1]), Extract::Bytes(vec![0..1]), Extract::Chars(vec![0..1])] {
        let out = handle_file(b"", b'\t', b'\t', &extract);
        assert_eq!(out.bytes, Vec::<u8>::new());
        assert_eq!(out.error, None);
    }
}

#[test]
fn positions_written_out_select_the_named_items() {
    let record: Vec<String> = (1..=10).map(|n| format!("f{n}")).collect();
    let list = parse_positions("1,3-5,10,2-2".to_string()).unwrap();
    assert_eq!(list, vec![0..1, 2..5, 9..10, 1..2]);
    assert_eq!(extract_fields(&record, &list), vec!["f1", "f3", "f4", "f5", "f10", "f2"]);
    for first in 1..=6usize {
        for last in first..=6usize {
            let list = parse_positions(format!("{first}-{last},{last}")).unwrap();
            let line = "abcdef";
            let mut expected: String = line[first - 1..last].to_string();
            expected.push_str(&line[last - 1..last]);
            assert_eq!(extract_chars(line, &list), expected);
        }
    }
}

#[test]
fn error_messages_of_cut() {
    assert_eq!(CutError::InvalidDelimiter.message(), "cut: delimiter must be a single byte");
    assert_eq!(
        CutError::InvalidExtractValue("a-b".to_string()).message(),
        "cut: invalid extract value: `a-b`"
    );
    assert_eq!(CutError::EmptyOrInvalidSpec.message(), "cut: empty list of positions");
    assert_eq!(CutError::MalformedRecord("broken".to_string()).message(), "broken");
}
