use mps_parse::parse_fixed;
use mps_parse::MpsError;
use mps_parse::RowType;

/// One data line with each field laid at its fixed column (1-based: field 2
/// at 5, field 3 at 15, field 4 at 25, field 5 at 40, field 6 at 50).
fn data_line(f2: &str, f3: &str, f4: &str, f5: &str, f6: &str) -> String {
    let mut s = vec![b' '; 61];
    for (pos, txt) in [
        (4usize, f2),
        (14, f3),
        (24, f4),
        (39, f5),
        (49, f6),
    ] {
        for (k, b) in txt.bytes().enumerate() {
            s[pos + k] = b;
        }
    }
    String::from_utf8(s).unwrap()
}

#[test]
fn scenario_a_full_problem() {
    let mut input = String::new();
    input.push_str("NAME          TESTPROB\n");
    input.push_str("ROWS\n N  COST\n L  LIM1\n G  LIM2\n E  MYEQN\nCOLUMNS\n");
    input.push_str(&data_line("XONE", "COST", "1", "LIM1", "1"));
    input.push('\n');
    input.push_str(&data_line("YTWO", "COST", "4", "LIM1", "1"));
    input.push('\n');
    input.push_str(&data_line("YTWO", "MYEQN", "-1", "", ""));
    input.push('\n');
    input.push_str(&data_line("ZTHREE", "COST", "9", "LIM2", "1"));
    input.push('\n');
    input.push_str(&data_line("ZTHREE", "MYEQN", "1", "", ""));
    input.push_str("\nRHS\n");
    input.push_str(&data_line("RHS1", "LIM1", "5", "LIM2", "10"));
    input.push('\n');
    input.push_str(&data_line("RHS1", "MYEQN", "7", "", ""));
    input.push_str("\nENDATA\n");
    let input = input.as_str();
    let p = parse_fixed(input).expect("should parse");
    assert_eq!(p.name, "TESTPROB");
    let kinds: Vec<RowType> = p.rows_by_index.iter().map(|r| r.typ).collect();
    assert_eq!(
        kinds,
        vec![RowType::Objective, RowType::Le, RowType::Ge, RowType::Eq]
    );
    for (i, r) in p.rows_by_index.iter().enumerate() {
        assert_eq!(r.index, i);
    }
    let xone = &p.columns_by_id.iter().find(|e| e.0 == "XONE").unwrap().1;
    let vals: Vec<(usize, f64)> = xone
        .data
        .iter()
        .map(|(k, v)| (*k, v.parse::<f64>().unwrap()))
        .collect();
    assert_eq!(vals, vec![(0, 1.0), (1, 1.0)]);
    let rhs1 = &p.rhs_by_id.iter().find(|e| e.0 == "RHS1").unwrap().1;
    let rvals: Vec<(usize, f64)> = rhs1
        .data
        .iter()
        .map(|(k, v)| (*k, v.parse::<f64>().unwrap()))
        .collect();
    assert_eq!(rvals, vec![(1, 5.0), (2, 10.0), (3, 7.0)]);
}

#[test]
fn scenario_b_bad_name_prefix() {
    let input = "NAME TESTPROB\nROWS\nENDATA\n";
    assert_eq!(parse_fixed(input), Err(MpsError::FormatError));
}

#[test]
fn scenario_c_rows_at_eof() {
    let input = "NAME          TESTPROB\nROWS\n N  COST\n";
    assert_eq!(
        parse_fixed(input),
        Err(MpsError::UnexpectedEndOfInput(mps_parse::Section::Rows))
    );
}

#[test]
fn comments_and_blank_lines_ignored() {
    let input = "* leading comment\n\nNAME          TINY * trailing comment\n\nROWS\n* inside a section\n N  OBJ\nENDATA\n";
    let p = parse_fixed(input).expect("should parse");
    assert_eq!(p.name, "TINY");
    assert_eq!(p.rows_by_index.len(), 1);
    assert_eq!(p.rows_by_index[0].typ, RowType::Objective);
}

#[test]
fn non_ascii_line_is_encoding_error() {
    let input = "NAME          TESTPROB\nROWS\n N  C\u{00e9}ST\nENDATA\n";
    match parse_fixed(input) {
        Err(MpsError::EncodingError(_)) => {}
        other => panic!("expected an encoding error, got {:?}", other),
    }
}

#[test]
fn unknown_row_code_is_unexpected_line() {
    let input = "NAME          TESTPROB\nROWS\n X  COST\nENDATA\n";
    match parse_fixed(input) {
        Err(MpsError::UnexpectedLineError(mps_parse::Section::Rows, _)) => {}
        other => panic!("expected an unexpected-line error, got {:?}", other),
    }
}

#[test]
fn unknown_row_reference_in_columns() {
    let mut input = String::from("NAME          TESTPROB\nROWS\n N  COST\nCOLUMNS\n");
    input.push_str(&data_line("XONE", "NOSUCH", "1", "", ""));
    input.push_str("\nENDATA\n");
    let input = input.as_str();
    match parse_fixed(input) {
        Err(MpsError::UnknownRowReferenceError(mps_parse::Section::Columns, id)) => {
            assert_eq!(id, "NOSUCH");
        }
        other => panic!("expected an unknown-row error, got {:?}", other),
    }
}

#[test]
fn redeclared_row_name_overwrites_lookup_keeps_row() {
    let mut input = String::from(
        "NAME          TESTPROB\nROWS\n N  OBJ\n L  ROWA\n G  ROWA\nRHS\n",
    );
    input.push_str(&data_line("R", "ROWA", "2", "", ""));
    input.push_str("\nENDATA\n");
    let input = input.as_str();
    let p = parse_fixed(input).expect("should parse");
    assert_eq!(p.rows_by_index.len(), 3);
    assert_eq!(p.rows_by_index[1].name, "ROWA");
    assert_eq!(p.rows_by_index[2].name, "ROWA");
    // the later declaration wins the lookup, so the RHS entry lands on row 2
    let r = &p.rhs_by_id.iter().find(|e| e.0 == "R").unwrap().1;
    assert_eq!(r.data.len(), 1);
    assert_eq!(r.data[0].0, 2);
}

#[test]
fn empty_name_field_is_error() {
    // the name field (columns 15-29) is blank; the X beyond it keeps the
    // line from being trimmed back to a bare NAME prefix
    let input = "NAME                         X\nROWS\nENDATA\n";
    assert_eq!(parse_fixed(input), Err(MpsError::EmptyNameError));
}

#[test]
fn name_line_trimmed_to_prefix_is_format_error() {
    // trailing whitespace is cleaned away first, so a NAME line with a blank
    // field is a prefix failure, not an empty name
    let input = "NAME          \nROWS\nENDATA\n";
    assert_eq!(parse_fixed(input), Err(MpsError::FormatError));
}

#[test]
fn missing_name_line() {
    assert_eq!(parse_fixed(""), Err(MpsError::MissingNameLine));
}

#[test]
fn second_rows_section_keeps_single_objective() {
    // the objective rule spans the whole parse: an N-coded row in a later
    // ROWS section is a free row, never a second objective
    let input = "NAME          TESTPROB\nROWS\n N  A\nROWS\n N  B\nENDATA\n";
    let p = parse_fixed(input).expect("should parse");
    assert_eq!(p.rows_by_index.len(), 2);
    assert_eq!(p.rows_by_index[0].typ, RowType::Objective);
    assert_eq!(p.rows_by_index[1].typ, RowType::NoRestriction);
}
