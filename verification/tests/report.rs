use twin_width::gr::GrError;
use twin_width::graph::Graph;
use twin_width::greedy::Sequence;
use twin_width::report::solve;

#[test]
fn render_writes_width_and_merges() {
    let sequence = Sequence { contractions: vec![(1, 2), (1, 3), (1, 4)], width: 1 };
    assert_eq!(sequence.render(), b"c tww: 1\n1 2\n1 3\n1 4\n".to_vec());
}

#[test]
fn render_writes_numbers_in_decimal() {
    let sequence = Sequence {
        contractions: vec![(10, 4294967295), (0, 7), (100, 909), (9, 1000000000)],
        width: 120,
    };
    assert_eq!(
        sequence.render(),
        b"c tww: 120\n10 4294967295\n0 7\n100 909\n9 1000000000\n".to_vec()
    );
}

#[test]
fn render_without_merges() {
    let sequence = Sequence { contractions: vec![], width: 0 };
    assert_eq!(sequence.render(), b"c tww: 0\n".to_vec());
}

#[test]
fn render_has_one_line_for_the_width_and_one_for_each_merge() {
    let g = Graph::from_gr(b"1 2\n2 3\n3 4\n4 5\n5 1\n5 6\n").unwrap();
    let count = g.vertices().len();
    let text = g.greedy().render();
    let lines = text.iter().filter(|b| **b == b'\n').count();
    assert_eq!(lines, 1 + (count - 1));
    assert!(text.starts_with(b"c tww: "));
}

#[test]
fn solve_a_path_of_four() {
    assert_eq!(solve(b"1 2\n2 3\n3 4\n"), Ok(b"c tww: 1\n1 2\n1 3\n1 4\n".to_vec()));
}

#[test]
fn solve_a_cycle_of_five() {
    assert_eq!(
        solve(b"p tww 5 5\n1 2\n2 3\n3 4\n4 5\n5 1\n"),
        Ok(b"c tww: 2\n1 2\n3 5\n1 3\n1 4\n".to_vec())
    );
}

#[test]
fn solve_the_empty_text() {
    assert_eq!(solve(b""), Ok(b"c tww: 0\n".to_vec()));
    assert_eq!(solve(b"c nothing\n"), Ok(b"c tww: 0\n".to_vec()));
}

#[test]
fn solve_fails_without_output_on_a_bad_line() {
    assert_eq!(solve(b"1 2\n2\n3 4\n"), Err(GrError::MissingField));
    assert_eq!(solve(b"1 2\n2 z\n3 4\n"), Err(GrError::InvalidNumber));
}

#[test]
fn what_solve_writes_can_be_read_again() {
    let text = solve(b"7 8\n8 9\n9 10\n10 7\n7 9\n11 8\n").unwrap();
    let g = Graph::from_gr(&text).unwrap();
    assert_eq!(g.vertices().len(), 5);
}
