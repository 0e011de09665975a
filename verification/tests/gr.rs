use twin_width::gr::GrError;
use twin_width::graph::Graph;

fn error_of(text: &[u8]) -> GrError {
    match Graph::from_gr(text) {
        Ok(_) => panic!("the text was read"),
        Err(e) => e,
    }
}

#[test]
fn from_gr_reads_edges() {
    let g = Graph::from_gr(b"1 2\n2 3\n").unwrap();
    assert_eq!(g.vertices(), vec![1, 2, 3]);
    assert_eq!(g.black_neighbors(1), vec![2]);
    assert_eq!(g.black_neighbors(2), vec![1, 3]);
    assert_eq!(g.black_neighbors(3), vec![2]);
    for u in 1..=3 {
        assert_eq!(g.red_neighbors(u), Vec::<u32>::new());
    }
}

#[test]
fn from_gr_passes_over_comments_and_problem_lines() {
    let g = Graph::from_gr(b"c a comment\np tww 3 2\n1 2\nc 7 8\ncomment without a blank\n2 3\n")
        .unwrap();
    assert_eq!(g.vertices(), vec![1, 2, 3]);
    assert_eq!(g.black_neighbors(2), vec![1, 3]);
}

#[test]
fn from_gr_reads_the_empty_text() {
    let g = Graph::from_gr(b"").unwrap();
    assert_eq!(g.vertices(), Vec::<u32>::new());
}

#[test]
fn from_gr_reads_a_last_line_without_line_feed() {
    let g = Graph::from_gr(b"1 2\n3 4").unwrap();
    assert_eq!(g.vertices(), vec![1, 2, 3, 4]);
    assert_eq!(g.black_neighbors(3), vec![4]);
}

#[test]
fn from_gr_takes_repeated_edges_once() {
    let a = Graph::from_gr(b"1 2\n2 1\n1 2\n2 3\n").unwrap();
    let b = Graph::from_gr(b"2 3\n1 2\n").unwrap();
    assert_eq!(a.vertices(), b.vertices());
    for u in a.vertices() {
        assert_eq!(a.black_neighbors(u), b.black_neighbors(u));
        assert_eq!(a.red_neighbors(u), b.red_neighbors(u));
    }
}

#[test]
fn from_gr_takes_any_blanks_between_fields() {
    let g = Graph::from_gr(b"  1\t\t2\r\n3   4 \n").unwrap();
    assert_eq!(g.vertices(), vec![1, 2, 3, 4]);
    assert_eq!(g.black_neighbors(1), vec![2]);
    assert_eq!(g.black_neighbors(4), vec![3]);
}

#[test]
fn from_gr_does_not_read_past_the_second_field() {
    let g = Graph::from_gr(b"1 2 3\n4 5 x\n").unwrap();
    assert_eq!(g.vertices(), vec![1, 2, 4, 5]);
}

#[test]
fn from_gr_reads_numbers_as_rust_does() {
    let g = Graph::from_gr(b"+7 007\n0 4294967295\n").unwrap();
    assert_eq!(g.vertices(), vec![0, 7, 4294967295]);
    assert_eq!(g.black_neighbors(7), vec![7]);
    assert_eq!(g.black_neighbors(0), vec![4294967295]);
}

#[test]
fn from_gr_keeps_a_loop() {
    let g = Graph::from_gr(b"3 3\n").unwrap();
    assert_eq!(g.vertices(), vec![3]);
    assert_eq!(g.black_neighbors(3), vec![3]);
}

#[test]
fn from_gr_fails_on_a_missing_field() {
    assert_eq!(error_of(b"1\n"), GrError::MissingField);
    assert_eq!(error_of(b"1 2\n3 \n"), GrError::MissingField);
    assert_eq!(error_of(b"1 2\n\n3 4\n"), GrError::MissingField);
    assert_eq!(error_of(b"\n"), GrError::MissingField);
    assert_eq!(error_of(b"   \n"), GrError::MissingField);
}

#[test]
fn from_gr_fails_on_what_is_no_number() {
    assert_eq!(error_of(b"a b\n"), GrError::InvalidNumber);
    assert_eq!(error_of(b"1 x\n"), GrError::InvalidNumber);
    assert_eq!(error_of(b"-1 2\n"), GrError::InvalidNumber);
    assert_eq!(error_of(b"1 2.5\n"), GrError::InvalidNumber);
    assert_eq!(error_of(b"+ 2\n"), GrError::InvalidNumber);
    assert_eq!(error_of(b"1,2\n"), GrError::InvalidNumber);
    assert_eq!(error_of(b"x\n"), GrError::InvalidNumber);
    assert_eq!(error_of(b" c 1\n"), GrError::InvalidNumber);
}

#[test]
fn from_gr_fails_on_a_number_too_large() {
    assert_eq!(error_of(b"4294967296 1\n"), GrError::InvalidNumber);
    assert_eq!(error_of(b"1 99999999999999999999999999\n"), GrError::InvalidNumber);
}

#[test]
fn from_gr_reports_the_first_bad_line() {
    assert_eq!(error_of(b"1 2\nx y\n3\n"), GrError::InvalidNumber);
    assert_eq!(error_of(b"1 2\n3\nx y\n"), GrError::MissingField);
}

#[test]
fn from_gr_then_greedy() {
    let g = Graph::from_gr(b"p tww 4 3\n1 2\n2 3\n3 4\n").unwrap();
    let sequence = g.greedy();
    assert_eq!(sequence.width, 1);
    assert_eq!(sequence.contractions, vec![(1, 2), (1, 3), (1, 4)]);
}
