use softrender::model::{
    directive, read_face, read_field, read_idx, read_number, split_words, Directive, FaceFault,
    ModelError,
};

fn words(line: &[&str]) -> Vec<Vec<u8>> {
    line.iter().map(|w| w.as_bytes().to_vec()).collect()
}

fn parse_text(r: Result<usize, ModelError>) -> String {
    match r {
        Ok(_) => panic!("an index was read"),
        Err(ModelError::Parse(text)) => text,
        Err(ModelError::Io(_)) => panic!("not a parse error"),
    }
}

#[test]
fn read_number_reads_decimal_digits() {
    assert_eq!(read_number(b"0"), Ok(0));
    assert_eq!(read_number(b"12"), Ok(12));
    assert_eq!(read_number(b"007"), Ok(7));
    assert_eq!(read_number(b"+45"), Ok(45));
    assert_eq!(read_number(b"4294967295"), Ok(4294967295));
    assert_eq!(read_number(usize::MAX.to_string().as_bytes()), Ok(usize::MAX));
}

#[test]
fn read_number_faults() {
    assert_eq!(read_number(b""), Err(FaceFault::EmptyNumber));
    assert_eq!(read_number(b"+"), Err(FaceFault::InvalidDigit));
    assert_eq!(read_number(b"-1"), Err(FaceFault::InvalidDigit));
    assert_eq!(read_number(b"1x"), Err(FaceFault::InvalidDigit));
    assert_eq!(read_number(b" 1"), Err(FaceFault::InvalidDigit));
    assert_eq!(read_number(b"1.5"), Err(FaceFault::InvalidDigit));
    assert_eq!(read_number(b"++1"), Err(FaceFault::InvalidDigit));
    assert_eq!(
        read_number(b"99999999999999999999999999"),
        Err(FaceFault::NumberTooLarge)
    );
    assert_eq!(
        read_number(b"99999999999999999999999999x"),
        Err(FaceFault::NumberTooLarge)
    );
    assert_eq!(read_number(b"9x9999999999999999999999999"), Err(FaceFault::InvalidDigit));
    let mut above = usize::MAX.to_string().into_bytes();
    let last = above.len() - 1;
    above[last] += 1;
    assert_eq!(read_number(&above), Err(FaceFault::NumberTooLarge));
}

#[test]
fn read_number_agrees_with_the_standard_parser() {
    for text in ["", "+", "0", "17", "+3", "-3", "1 ", "a", "00012", "18446744073709551616"] {
        let ours = read_number(text.as_bytes()).map_err(|f| f.message().to_string());
        let theirs = text.parse::<usize>().map_err(|e| e.to_string());
        assert_eq!(ours, theirs);
    }
}

#[test]
fn read_idx_turns_one_based_into_zero_based() {
    assert!(matches!(read_idx(Some(b"1"), 3), Ok(0)));
    assert!(matches!(read_idx(Some(b"3"), 3), Ok(2)));
    assert!(matches!(read_idx(Some(b"+2"), 3), Ok(1)));
}

#[test]
fn read_idx_faults() {
    assert_eq!(parse_text(read_idx(None, 3)), "missing idx");
    assert_eq!(parse_text(read_idx(Some(b"4"), 3)), "face idx is too large");
    assert_eq!(parse_text(read_idx(Some(b"0"), 3)), "face idx is too large");
    assert_eq!(parse_text(read_idx(Some(b"1"), 0)), "face idx is too large");
    assert_eq!(parse_text(read_idx(Some(b""), 3)), "cannot parse integer from empty string");
    assert_eq!(parse_text(read_idx(Some(b"x"), 3)), "invalid digit found in string");
    assert_eq!(
        parse_text(read_idx(Some(b"99999999999999999999999999"), 3)),
        "number too large to fit in target type"
    );
}

#[test]
fn read_field_cuts_at_slashes() {
    assert_eq!(read_field(b"1/22/333", 0), Some(&b"1"[..]));
    assert_eq!(read_field(b"1/22/333", 1), Some(&b"22"[..]));
    assert_eq!(read_field(b"1/22/333", 2), Some(&b"333"[..]));
    assert_eq!(read_field(b"1/22/333", 3), None);
    assert_eq!(read_field(b"1//3", 1), Some(&b""[..]));
    assert_eq!(read_field(b"7", 0), Some(&b"7"[..]));
    assert_eq!(read_field(b"7", 1), None);
    assert_eq!(read_field(b"", 0), Some(&b""[..]));
    assert_eq!(read_field(b"", 1), None);
    assert_eq!(read_field(b"5/", 1), Some(&b""[..]));
    assert_eq!(read_field(b"5/", 2), None);
}

#[test]
fn read_face_reads_three_corners() {
    let face = read_face(&words(&["1/2/3", "4/5/6", "7/8/9"]), 10, 20, 30).unwrap();
    assert_eq!(face.vert, vec![0, 3, 6]);
    assert_eq!(face.texture, vec![1, 4, 7]);
    assert_eq!(face.normal, vec![2, 5, 8]);
    let face = read_face(&words(&["10/1/1/9", "1/20/1", "1/1/30"]), 10, 20, 30).unwrap();
    assert_eq!(face.vert, vec![9, 0, 0]);
    assert_eq!(face.texture, vec![0, 19, 0]);
    assert_eq!(face.normal, vec![0, 0, 29]);
}

fn face_fault(line: &[&str]) -> String {
    match read_face(&words(line), 3, 3, 3) {
        Ok(_) => panic!("a face was read"),
        Err(e) => e.message().to_string(),
    }
}

#[test]
fn read_face_wants_exactly_three_corners() {
    assert_eq!(face_fault(&[]), "face must have exactly 3 vertices");
    assert_eq!(face_fault(&["1/1/1", "2/2/2"]), "face must have exactly 3 vertices");
    assert_eq!(
        face_fault(&["1/1/1", "2/2/2", "3/3/3", "1/1/1"]),
        "face must have exactly 3 vertices"
    );
}

#[test]
fn read_face_reports_the_first_fault() {
    assert_eq!(face_fault(&["1/1/1", "2/2/4", "3/3/3"]), "face idx is too large");
    assert_eq!(face_fault(&["1/1/1", "2/2", "3/3/3"]), "missing idx");
    assert_eq!(face_fault(&["1", "2/2/2", "3/3/3"]), "missing idx");
    assert_eq!(face_fault(&["1/1/1", "2/2/2", "3"]), "missing idx");
    assert_eq!(face_fault(&["1//1", "2/2/2", "3/3/3"]), "cannot parse integer from empty string");
    assert_eq!(face_fault(&["1/1/1", "2/x/9", "3/3/3"]), "invalid digit found in string");
    assert_eq!(face_fault(&["9/x/1", "2/2/2", "3/3/3"]), "face idx is too large");
    assert_eq!(face_fault(&["1/1/1", "0/1/1"]), "face idx is too large");
}

#[test]
fn split_words_cuts_at_white_space() {
    assert_eq!(split_words(b"v 1.0 -2.5 3"), words(&["v", "1.0", "-2.5", "3"]));
    assert_eq!(split_words(b"  f\t1/2/3   4/5/6\r\n"), words(&["f", "1/2/3", "4/5/6"]));
    assert_eq!(split_words(b"word"), words(&["word"]));
    assert_eq!(split_words(b"a\x0bb\x0cc"), words(&["a", "b", "c"]));
}

#[test]
fn split_words_of_a_blank_line_is_empty() {
    assert_eq!(split_words(b""), Vec::<Vec<u8>>::new());
    assert_eq!(split_words(b"   \t \n"), Vec::<Vec<u8>>::new());
}

#[test]
fn split_words_agrees_with_the_standard_splitter() {
    for line in ["v 0.5 1 2", "", " ", "f 1/1/1 2/2/2 3/3/3 ", "\t# a  comment\r", "vt\t0.1\t0.2"] {
        let theirs: Vec<Vec<u8>> = line.split_whitespace().map(|w| w.as_bytes().to_vec()).collect();
        assert_eq!(split_words(line.as_bytes()), theirs);
    }
}

#[test]
fn directive_knows_four_words() {
    assert_eq!(directive(b"v"), Directive::Vertex);
    assert_eq!(directive(b"vn"), Directive::Normal);
    assert_eq!(directive(b"vt"), Directive::Texture);
    assert_eq!(directive(b"f"), Directive::Face);
    for other in ["", "#", "g", "vp", "ff", "V", "vnn", "usemtl", "s"] {
        assert_eq!(directive(other.as_bytes()), Directive::Other);
    }
}

#[test]
fn a_face_line_from_split_to_face() {
    let line = split_words(b"f 1/1/1  2/2/2\t3/3/3");
    assert_eq!(directive(&line[0]), Directive::Face);
    let face = read_face(&line[1..].to_vec(), 3, 3, 3).unwrap();
    assert_eq!(face.vert, vec![0, 1, 2]);
}

#[test]
fn read_face_reads_three_plain_indices() {
    let face = read_face(&words(&["1", "2", "3"]), 3, 0, 0).unwrap();
    assert_eq!(face.vert, vec![0, 1, 2]);
    assert_eq!(face.texture, Vec::<usize>::new());
    assert_eq!(face.normal, Vec::<usize>::new());
    let face = read_face(&words(&["7", "+2", "007"]), 7, 5, 5).unwrap();
    assert_eq!(face.vert, vec![6, 1, 6]);
    assert_eq!(face.texture, Vec::<usize>::new());
    assert_eq!(face.normal, Vec::<usize>::new());
}

#[test]
fn read_face_of_plain_indices_faults() {
    assert_eq!(face_fault(&["1", "2"]), "face must have exactly 3 vertices");
    assert_eq!(face_fault(&["1", "2", "3", "1"]), "face must have exactly 3 vertices");
    assert_eq!(face_fault(&["1", "4", "3"]), "face idx is too large");
    assert_eq!(face_fault(&["0", "2", "3"]), "face idx is too large");
    assert_eq!(face_fault(&["1", "x", "3"]), "invalid digit found in string");
    assert_eq!(face_fault(&["1", "2", "9", "x"]), "face idx is too large");
}

#[test]
fn a_plain_face_line_from_split_to_face() {
    let line = split_words(b"f 3 1 2");
    assert_eq!(directive(&line[0]), Directive::Face);
    let face = read_face(&line[1..].to_vec(), 3, 0, 0).unwrap();
    assert_eq!(face.vert, vec![2, 0, 1]);
    assert!(face.texture.is_empty() && face.normal.is_empty());
}

#[test]
fn split_words_keeps_white_space_beyond_ascii_in_the_word() {
    let line = "v\u{a0}1 2".as_bytes();
    assert_eq!(split_words(line), vec!["v\u{a0}1".as_bytes().to_vec(), b"2".to_vec()]);
}
