use msa_checker::{Entry, NoDataError, ParseError, ProblemHeader, MSA};

fn loaded(text: &str) -> MSA {
    let mut msa = MSA::new();
    assert_eq!(msa.set_seqs(text.to_string()), Ok(()));
    msa
}

#[test]
fn count_equals_number_of_records() {
    let msa = loaded(">s1\nACGT\n>s2\nA-GT\n>s3\nAC-T\n");
    assert_eq!(msa.get_seq_count(), Ok(3));
}

#[test]
fn round_trip_keeps_headers_and_sequences() {
    let first = loaded(">x|1\nAC\nGT\n>y|2\nTT\nAA\n");
    let text = first.get_seqs().unwrap();
    assert_eq!(text, ">x|1\nACGT\n>y|2\nTTAA");
    let second = loaded(&text);
    assert_eq!(second.get_seqs().unwrap(), text);
    assert_eq!(second.get_seq_count(), Ok(2));
}

#[test]
fn check_headers_reports_only_mismatches() {
    let msa = loaded(">a|b\nAC\n>c|d\nGT\n");
    assert_eq!(msa.check_headers(2), Ok(vec![]));
    let all = msa.check_headers(3).unwrap();
    assert_eq!(all.len(), 2);
    assert_eq!(all[0].index, 1);
    assert_eq!(all[1].header, "c|d");
}

#[test]
fn length_mismatch_names_header() {
    let mut msa = MSA::new();
    let r = msa.set_seqs(">a\nACGT\n>b\nAAC\n".to_string());
    assert_eq!(r, Err(ParseError::LengthMismatch("b".to_string())));
    assert_eq!(msa.get_seq_count(), Err(NoDataError));
}

#[test]
fn single_record() {
    let msa = loaded(">only\nACGT\n");
    assert_eq!(msa.get_seq_count(), Ok(1));
    assert_eq!(msa.get_seqs(), Ok(">only\nACGT".to_string()));
}

#[test]
fn check_headers_three_fields() {
    let msa = loaded(">a|b|c\nACGT\n>x|y\nAACG\n");
    assert_eq!(
        msa.check_headers(3),
        Ok(vec![ProblemHeader { index: 2, header: "x|y".to_string() }])
    );
}

#[test]
fn queries_before_load_fail() {
    let msa = MSA::new();
    assert_eq!(msa.get_seq_count(), Err(NoDataError));
    assert_eq!(msa.check_headers(1), Err(NoDataError));
    assert_eq!(msa.get_seqs(), Err(NoDataError));
}

#[test]
fn second_load_replaces_first() {
    let mut msa = loaded(">a\nAC\n>b\nGT\n");
    assert_eq!(msa.set_seqs(">z|w\nTTTT\n".to_string()), Ok(()));
    assert_eq!(msa.get_seq_count(), Ok(1));
    assert_eq!(msa.get_seqs(), Ok(">z|w\nTTTT".to_string()));
    assert_eq!(msa.check_headers(2), Ok(vec![]));
}

#[test]
fn failed_load_keeps_previous_alignment() {
    let mut msa = loaded(">a\nAC\n");
    assert_eq!(msa.set_seqs(">a\nACG\n>b\nA\n".to_string()), Err(ParseError::LengthMismatch("b".to_string())));
    assert_eq!(msa.set_seqs("ACGT\n".to_string()), Err(ParseError::InvalidFormat));
    assert_eq!(msa.get_seqs(), Ok(">a\nAC".to_string()));
}

#[test]
fn text_without_header_is_invalid() {
    let mut msa = MSA::new();
    assert_eq!(msa.set_seqs("ACGT\n>a\nACGT\n".to_string()), Err(ParseError::InvalidFormat));
}

#[test]
fn empty_text_is_empty() {
    let mut msa = MSA::new();
    assert_eq!(msa.set_seqs(String::new()), Err(ParseError::Empty));
    assert_eq!(msa.set_seqs("\n\n".to_string()), Err(ParseError::Empty));
    assert_eq!(msa.get_seq_count(), Err(NoDataError));
}

#[test]
fn description_joined_without_space() {
    let msa = loaded(">id desc more\nAC\n");
    assert_eq!(msa.get_seqs(), Ok(">iddesc more\nAC".to_string()));
}

#[test]
fn width_counts_bytes() {
    let msa = loaded(">a\nA\u{e9}\n>b\nABC\n");
    assert_eq!(msa.get_seq_count(), Ok(2));
}

#[test]
fn check_headers_zero_fields_reports_all() {
    let msa = loaded(">a\nA\n>b|c\nC\n");
    let r = msa.check_headers(0).unwrap();
    assert_eq!(r.len(), 2);
    assert_eq!(r[1], ProblemHeader { index: 2, header: "b|c".to_string() });
}

#[test]
fn unnamed_entries_leave_index_gaps() {
    let mut msa = MSA::new();
    let entries = vec![
        Entry::Named { id: "a".to_string(), desc: None, sequence: "AC".to_string() },
        Entry::Unnamed,
        Entry::Named { id: "b|".to_string(), desc: Some("x".to_string()), sequence: "GT".to_string() },
    ];
    assert_eq!(msa.set_entries(entries), Ok(()));
    assert_eq!(msa.get_seq_count(), Ok(2));
    assert_eq!(
        msa.check_headers(1),
        Ok(vec![ProblemHeader { index: 3, header: "b|x".to_string() }])
    );
}

#[test]
fn unreadable_entry_is_invalid_format() {
    let mut msa = MSA::new();
    let entries = vec![
        Entry::Named { id: "a".to_string(), desc: None, sequence: "AC".to_string() },
        Entry::Unreadable,
    ];
    assert_eq!(msa.set_entries(entries), Err(ParseError::InvalidFormat));
    assert_eq!(msa.set_entries(vec![Entry::Unnamed]), Err(ParseError::Empty));
}

#[test]
fn field_count_check() {
    assert!(msa_checker::msa::has_field_count("a|b|c", 3));
    assert!(!msa_checker::msa::has_field_count("a|b|c", 2));
    assert!(msa_checker::msa::has_field_count("", 1));
    assert!(!msa_checker::msa::has_field_count("||", 0));
}

#[test]
fn error_messages() {
    assert_eq!(
        ParseError::InvalidFormat.message(),
        "Not a valid FASTA Multiple Sequence Alignment."
    );
    assert_eq!(
        ParseError::LengthMismatch("seq2".to_string()).message(),
        "Not a valid MSA: seq2"
    );
    assert_eq!(ParseError::Empty.message(), "Not a valid MSA: no sequences.");
    assert_eq!(NoDataError.message(), "No sequences set. Please upload a valid MSA.");
}
