use cutr::record::{decompose_record, extract_fields, join_fields, RecordError};

#[test]
fn fields_round_trip_through_selection() {
    let rec = decompose_record(b"a,b,c", b',').unwrap();
    let picked = extract_fields(&rec, &[2, 0]);
    assert_eq!(picked, vec!["c".to_string(), "a".to_string()]);
    assert_eq!(join_fields(&picked, b','), b"c,a".to_vec());
}

#[test]
fn repeated_index_repeats_the_field() {
    let rec = decompose_record(b"a,b,c", b',').unwrap();
    let picked = extract_fields(&rec, &[0, 0]);
    assert_eq!(picked, vec!["a".to_string(), "a".to_string()]);
}

#[test]
fn out_of_range_fields_are_skipped() {
    let rec = decompose_record(b"a,b", b',').unwrap();
    assert_eq!(extract_fields(&rec, &[0, 7, 1]), vec!["a".to_string(), "b".to_string()]);
    assert_eq!(extract_fields(&rec, &[9]), Vec::<String>::new());
}

#[test]
fn decompose_respects_the_configured_delimiter() {
    let rec = decompose_record(b"a,b;c,d", b';').unwrap();
    assert_eq!(rec.len(), 2);
    assert_eq!(rec.field(0).as_str(), "a,b");
    assert_eq!(rec.field(1).as_str(), "c,d");
}

#[test]
fn empty_line_is_one_empty_field() {
    let rec = decompose_record(b"", b',').unwrap();
    assert_eq!(rec.len(), 1);
    assert_eq!(rec.field(0).as_str(), "");
}

#[test]
fn adjacent_delimiters_give_empty_fields() {
    let rec = decompose_record(b"a,,b,", b',').unwrap();
    assert_eq!(rec.len(), 4);
    assert_eq!(rec.field(1).as_str(), "");
    assert_eq!(rec.field(3).as_str(), "");
}

#[test]
fn malformed_line_reports_one_error_and_neighbours_survive() {
    let lines: [&[u8]; 3] = [b"good,line", b"x,\xff\xff,y", b"also,good"];
    assert!(decompose_record(lines[0], b',').is_ok());
    assert_eq!(decompose_record(lines[1], b',').unwrap_err(), RecordError::InvalidUtf8(1));
    assert!(decompose_record(lines[2], b',').is_ok());
}

#[test]
fn delimiter_may_split_a_character() {
    // The delimiter byte 0xa9 is the second byte of "\u{e9}": cutting there
    // leaves chunks that are not valid text.
    let line = "\u{e9}".as_bytes();
    assert_eq!(decompose_record(line, 0xa9).unwrap_err(), RecordError::InvalidUtf8(0));
}

#[test]
fn rejoining_all_fields_restores_the_line() {
    let line = b"one;two;;four".to_vec();
    let rec = decompose_record(&line, b';').unwrap();
    let all = extract_fields(&rec, &[0, 1, 2, 3]);
    assert_eq!(join_fields(&all, b';'), line);
}

#[test]
fn fields_extraction_is_idempotent() {
    let rec = decompose_record(b"w,x,y,z", b',').unwrap();
    assert_eq!(extract_fields(&rec, &[3, 3, 0]), extract_fields(&rec, &[3, 3, 0]));
}

#[test]
fn multibyte_field_content_decodes_intact() {
    let line = "caf\u{e9},th\u{e9}".as_bytes();
    let rec = decompose_record(line, b',').unwrap();
    assert_eq!(rec.field(0).as_str(), "caf\u{e9}");
    assert_eq!(rec.field(1).as_str(), "th\u{e9}");
}

#[test]
fn selector_drives_field_extraction_end_to_end() {
    let spec = cutr::selector::parse_pos("3,1").unwrap();
    let rec = decompose_record(b"a\tb\tc", b'\t').unwrap();
    let picked = extract_fields(&rec, &spec);
    assert_eq!(join_fields(&picked, b'\t'), b"c\ta".to_vec());
}

#[test]
fn fields_agree_with_a_csv_reader() {
    let line = b"one;two;three ;\"raw".to_vec();
    let rec = decompose_record(&line, b';').unwrap();
    let mut rdr = csv::ReaderBuilder::new()
        .delimiter(b';')
        .has_headers(false)
        .quoting(false)
        .from_reader(&line[..]);
    let csv_rec = rdr.records().next().unwrap().unwrap();
    assert_eq!(rec.len(), csv_rec.len());
    for i in 0..rec.len() {
        assert_eq!(rec.field(i).as_str(), csv_rec.get(i).unwrap());
    }
}
