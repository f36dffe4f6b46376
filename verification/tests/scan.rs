use pf_vis::psse::scan::{
    decode_latin1, field_error, section_after_marker, split_fields, PsseError, Record,
};

fn texts(line: &str) -> Vec<String> {
    split_fields(line).0.into_iter().map(|f| f.text).collect()
}

#[test]
fn splits_plain_fields() {
    assert_eq!(texts("  137,'1 ',1,   4"), ["137", "1", "1", "4"]);
}

#[test]
fn keeps_commas_and_slashes_inside_quotes() {
    assert_eq!(
        texts("1,'Smith, J/K  ', 138.0"),
        ["1", "Smith, J/K", "138.0"]
    );
}

#[test]
fn strips_trailing_comment() {
    let (fields, comment) = split_fields("0,    100.00, 35, 0, 0, 60.00       / March 07");
    assert_eq!(fields.len(), 6);
    assert_eq!(comment.as_deref(), Some("March 07"));
}

#[test]
fn handles_double_quoted_fields() {
    let (fields, _) = split_fields(r#"RATING, 1, "      ", "        ""#);
    assert_eq!(fields.len(), 4);
    assert!(fields[2].quoted && fields[2].text.is_empty());
}

#[test]
fn terminator_has_one_field() {
    let (fields, comment) = split_fields("0 / END OF BUS DATA, BEGIN LOAD DATA");
    assert_eq!(fields.len(), 1);
    assert_eq!(fields[0].text, "0");
    assert_eq!(
        section_after_marker(&comment.unwrap()).as_deref(),
        Some("LOAD")
    );
}

#[test]
fn marker_without_begin_names_nothing() {
    assert_eq!(section_after_marker("END OF SWITCHED SHUNT DATA"), None);
}

#[test]
fn data_line_starting_with_zero_is_not_a_terminator() {
    // A transformer impedance line can legitimately open with a bare zero.
    let (fields, _) = split_fields("0, 0.1126, 100.00");
    assert_eq!(fields.len(), 3);
    let rec = Record {
        fields,
        comment: None,
        line: 1,
    };
    assert!(!rec.is_terminator());
}

#[test]
fn decodes_cp1252_bytes_without_error() {
    let decoded = decode_latin1(b"quote \x93here\x94");
    assert!(decoded.starts_with("quote "));
    // Every byte becomes exactly one char, including the two CP-1252 curly quotes.
    assert_eq!(decoded.chars().count(), 12);
}

#[test]
fn errors_read_as_sentences() {
    assert_eq!(
        PsseError::UnsupportedRevision(31).message(),
        "unsupported PSS/E revision 31 (supported: 32-35)"
    );
    assert_eq!(
        PsseError::Parse {
            line: 12,
            message: "bad".to_string()
        }
        .message(),
        "line 12: bad"
    );
    assert_eq!(
        PsseError::Truncated {
            line: 7,
            what: "a transformer record".to_string()
        }
        .message(),
        "line 7: file ended in the middle of a transformer record"
    );
}

#[test]
fn a_bad_field_is_quoted_in_its_error() {
    assert_eq!(
        field_error(3, 4, "\"x\"", "a number").message(),
        "line 3: field 4 (\"x\") is not a number"
    );
    let (fields, _) = split_fields("12, abc, 7.5");
    let rec = Record {
        fields,
        comment: None,
        line: 9,
    };
    match rec.number(1) {
        Err(e) => assert_eq!(e.message(), "line 9: field 1 (\"abc\") is not a number"),
        Ok(t) => panic!("{t} read as a number"),
    }
    match rec.i32(1) {
        Err(e) => assert_eq!(e.message(), "line 9: field 1 (\"abc\") is not an integer"),
        Ok(v) => panic!("{v} read as an integer"),
    }
    assert_eq!(rec.i32(2).ok(), Some(7));
    assert_eq!(rec.number(2).ok(), Some("7.5"));
    assert_eq!(rec.opt_number(5, "100.0"), "100.0");
}

#[test]
fn fields_follow_the_commas_outside_quotes() {
    assert_eq!(split_fields("1,'a,b', 2 / x, y").0.len(), 3);
    assert_eq!(split_fields("   / only a comment").0.len(), 0);
    assert_eq!(split_fields("''").0.len(), 1);
    assert_eq!(split_fields("  7  ").0.len(), 1);
    let (fields, comment) = split_fields("1,' a  ' /c");
    assert_eq!(fields[0].text, "1");
    assert_eq!(fields[1].text, " a");
    assert_eq!(comment.as_deref(), Some("c"));
    assert_eq!(split_fields("1,' a  ' ").0.len(), fields.len());
}

#[test]
fn records_come_from_rising_lines() {
    let text = "0, 100.0, 33\nc1\nc2\n\n1,'A',138.0\n@! header\n0 / END OF BUS DATA, BEGIN LOAD DATA\n1,'1',1\nQ\n2,'B'\n";
    let (header, mut scanner) = pf_vis::psse::scan::Scanner::new(text).expect("a header");
    assert_eq!(header.rev, 33);
    let mut lines = Vec::new();
    while let Ok(Some((_, rec))) = scanner.next_record() {
        assert!(!rec.fields.is_empty() && !rec.is_terminator());
        lines.push(rec.line);
    }
    assert_eq!(lines, vec![5, 8]);
}
