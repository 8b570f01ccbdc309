use atom_assign::format::{load_problem, parse_problem, LoadError, ParseError, ProblemDescription};
use atom_assign::problem::InvalidInstance;
use atom_assign::text::{read_number, split_bytes};

const CYCLE: &[u8] = b"4 2 4\n2 2\n0 1\n1 0\n0 1\n1 2\n2 3\n3 0\n";

fn cycle() -> ProblemDescription {
    ProblemDescription {
        node_count: 4,
        atom_quota: vec![2, 2],
        energy: vec![vec![0, 1], vec![1, 0]],
        edges: vec![(0, 1), (1, 2), (2, 3), (3, 0)],
    }
}

#[test]
fn split_keeps_empty_pieces() {
    assert_eq!(split_bytes(b"a,b,,c,", 0, 7, b','), vec![b"a".to_vec(), b"b".to_vec(), vec![], b"c".to_vec(), vec![]]);
    assert_eq!(split_bytes(b"", 0, 0, b','), vec![Vec::<u8>::new()]);
    assert_eq!(split_bytes(b"xx1 2yy", 2, 5, b' '), vec![b"1".to_vec(), b"2".to_vec()]);
}

#[test]
fn numbers_are_decimal_with_an_optional_sign() {
    assert_eq!(read_number(&b"0".to_vec(), false, 0, 100), Some(0));
    assert_eq!(read_number(&b"007".to_vec(), false, 0, 100), Some(7));
    assert_eq!(read_number(&b"+42".to_vec(), false, 0, 100), Some(42));
    assert_eq!(read_number(&b"-42".to_vec(), true, -100, 100), Some(-42));
    assert_eq!(read_number(&b"-0".to_vec(), true, -100, 100), Some(0));
    assert_eq!(read_number(&b"-42".to_vec(), false, 0, 100), None);
    assert_eq!(read_number(&b"".to_vec(), true, -100, 100), None);
    assert_eq!(read_number(&b"+".to_vec(), true, -100, 100), None);
    assert_eq!(read_number(&b"-".to_vec(), true, -100, 100), None);
    assert_eq!(read_number(&b"+-1".to_vec(), true, -100, 100), None);
    assert_eq!(read_number(&b"1a".to_vec(), true, -100, 100), None);
    assert_eq!(read_number(&b" 1".to_vec(), true, -100, 100), None);
    assert_eq!(read_number(&b"101".to_vec(), true, -100, 100), None);
    assert_eq!(read_number(&b"-101".to_vec(), true, -100, 100), None);
}

#[test]
fn numbers_at_the_limits_of_their_range() {
    let lo = i32::MIN as i128;
    let hi = i32::MAX as i128;
    assert_eq!(read_number(&b"2147483647".to_vec(), true, lo, hi), Some(2147483647));
    assert_eq!(read_number(&b"2147483648".to_vec(), true, lo, hi), None);
    assert_eq!(read_number(&b"-2147483648".to_vec(), true, lo, hi), Some(-2147483648));
    assert_eq!(read_number(&b"-2147483649".to_vec(), true, lo, hi), None);
    let max = u64::MAX as i128;
    assert_eq!(read_number(&b"18446744073709551615".to_vec(), false, 0, max), Some(max));
    assert_eq!(read_number(&b"18446744073709551616".to_vec(), false, 0, max), None);
    assert_eq!(read_number(&b"99999999999999999999999999999999999999999999".to_vec(), false, 0, max), None);
    assert_eq!(read_number(&b"00000000000000000000000000000000000000000017".to_vec(), false, 0, max), Some(17));
}

#[test]
fn well_formed_text_is_read() {
    assert_eq!(parse_problem(CYCLE), Ok(cycle()));
}

#[test]
fn blank_lines_and_carriage_returns_count_for_nothing() {
    let text = b"\n4 2 4\r\n\r\n2 2\n\n\n0 1\r\n1 0\n0 1\n1 2\n\n2 3\n3 0";
    assert_eq!(parse_problem(text), Ok(cycle()));
}

#[test]
fn what_follows_the_last_edge_is_not_read() {
    let text = b"1 1 1\n1\n-5\n0 0\nnot a number\n";
    assert_eq!(
        parse_problem(text),
        Ok(ProblemDescription { node_count: 1, atom_quota: vec![1], energy: vec![vec![-5]], edges: vec![(0, 0)] })
    );
}

#[test]
fn no_atom_type_means_no_quota_line() {
    assert_eq!(
        parse_problem(b"0 0 0\n"),
        Ok(ProblemDescription { node_count: 0, atom_quota: vec![], energy: vec![], edges: vec![] })
    );
    assert_eq!(
        parse_problem(b"3 0 1\n1 2\n"),
        Ok(ProblemDescription { node_count: 3, atom_quota: vec![], energy: vec![], edges: vec![(1, 2)] })
    );
}

#[test]
fn empty_text_ends_too_early() {
    assert_eq!(parse_problem(b""), Err(ParseError::UnexpectedEnd { lines: 1 }));
    assert_eq!(parse_problem(b"\n\n"), Err(ParseError::UnexpectedEnd { lines: 3 }));
}

#[test]
fn missing_lines_end_too_early() {
    assert_eq!(parse_problem(b"4 2 4\n2 2\n0 1\n"), Err(ParseError::UnexpectedEnd { lines: 4 }));
    assert_eq!(parse_problem(b"4 2 4\n2 2\n0 1\n1 0\n0 1\n1 2\n2 3"), Err(ParseError::UnexpectedEnd { lines: 7 }));
}

#[test]
fn wrong_number_of_tokens_is_reported_with_its_line() {
    assert_eq!(parse_problem(b"4 2\n"), Err(ParseError::TokenCount { line: 0, expected: 3, found: 2 }));
    assert_eq!(
        parse_problem(b"4 2 4\n2 2 2\n"),
        Err(ParseError::TokenCount { line: 1, expected: 2, found: 3 })
    );
    assert_eq!(
        parse_problem(b"4 2 4\n\n2 2\n0 1\n1\n"),
        Err(ParseError::TokenCount { line: 4, expected: 2, found: 1 })
    );
    assert_eq!(
        parse_problem(b"4 2 4\n2 2\n0 1\n1 0\n0 1 2\n"),
        Err(ParseError::TokenCount { line: 4, expected: 2, found: 3 })
    );
}

#[test]
fn bad_numbers_are_reported_with_line_and_token() {
    assert_eq!(parse_problem(b"4 x 4\n"), Err(ParseError::BadNumber { line: 0, token: 1 }));
    assert_eq!(parse_problem(b"4  4\n"), Err(ParseError::BadNumber { line: 0, token: 1 }));
    assert_eq!(parse_problem(b"-4 2 4\n"), Err(ParseError::BadNumber { line: 0, token: 0 }));
    assert_eq!(parse_problem(b"4 2 4\n2 4294967296\n"), Err(ParseError::BadNumber { line: 1, token: 1 }));
    assert_eq!(parse_problem(b"4 2 4\n2 2\n0 1\n2147483648 0\n"), Err(ParseError::BadNumber { line: 3, token: 0 }));
    assert_eq!(
        parse_problem(b"4 2 4\n2 2\n0 1\n1 0\n0 1\n1 -2\n"),
        Err(ParseError::BadNumber { line: 5, token: 1 })
    );
    assert_eq!(parse_problem(b"4 2 4 \n"), Err(ParseError::TokenCount { line: 0, expected: 3, found: 4 }));
}

#[test]
fn first_error_wins() {
    assert_eq!(parse_problem(b"4 2 4\nx y\n0\n"), Err(ParseError::BadNumber { line: 1, token: 0 }));
}

#[test]
fn signs_and_extremes_are_read() {
    let text = b"+1 1 +0\n4294967295\n-2147483648\n";
    assert_eq!(
        parse_problem(text),
        Ok(ProblemDescription { node_count: 1, atom_quota: vec![u32::MAX], energy: vec![vec![i32::MIN]], edges: vec![] })
    );
}

#[test]
fn load_gives_a_validated_instance() {
    let inst = load_problem(CYCLE).unwrap();
    assert_eq!(inst.node_count(), 4);
    assert_eq!(inst.atom_quota(), &vec![2u32, 2]);
    assert_eq!(inst.energy(0, 1), 1);
    assert_eq!(inst.neighbors(3), &vec![0usize]);
}

#[test]
fn load_tells_syntax_from_validity() {
    assert_eq!(
        load_problem(b"4 2 4\n2 2\n0 1\n").unwrap_err(),
        LoadError::Syntax(ParseError::UnexpectedEnd { lines: 4 })
    );
    assert_eq!(
        load_problem(b"4 2 1\n2 3\n0 1\n1 0\n0 1\n").unwrap_err(),
        LoadError::Invalid(InvalidInstance::QuotaMismatch { node_count: 4, quota_total: 5 })
    );
    assert_eq!(
        load_problem(b"4 2 1\n2 2\n0 1\n1 0\n0 4\n").unwrap_err(),
        LoadError::Invalid(InvalidInstance::EdgeOutOfRange { edge: 0, node: 4, node_count: 4 })
    );
}
