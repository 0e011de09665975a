//! The edge-list text format.
//!
//! The text is a sequence of lines, each ended by a line feed (the last one
//! may lack it). A line that begins with `c` or `p` is a comment or a problem
//! line and is passed over. Any other line declares an edge: its first two
//! fields, separated by blanks, are the labels of its ends.

use crate::graph::Graph;
use crate::model::GraphView;
use vstd::prelude::*;

verus! {

/// Why a text is not an edge list.
#[derive(Clone, Copy, Debug, PartialEq, Eq)]
pub enum GrError {
    /// An edge line has fewer than two fields.
    MissingField,
    /// A field of an edge line is not a decimal number that fits 32 bits.
    InvalidNumber,
}

/// The kinds of byte runs that the reader measures.
#[derive(Clone, Copy)]
pub enum Run {
    /// Bytes up to the next line feed.
    Line,
    /// Blanks between fields.
    Blanks,
    /// Bytes of one field.
    Field,
}

/// A blank: space, tab, form feed or carriage return.
pub open spec fn is_blank(b: u8) -> bool {
    b == 0x20 || b == 0x09 || b == 0x0c || b == 0x0d
}

/// `b` may stand in a run of the kind `run`.
pub open spec fn belongs(run: Run, b: u8) -> bool {
    match run {
        Run::Line => b != 0x0a,
        Run::Blanks => is_blank(b),
        Run::Field => !is_blank(b),
    }
}

/// The length of the longest run of the kind `run` with which `s` begins.
pub open spec fn run_len(run: Run, s: Seq<u8>) -> nat
    decreases s.len(),
{
    if s.len() > 0 && belongs(run, s[0]) {
        1 + run_len(run, s.drop_first())
    } else {
        0
    }
}

/// `s` without the blanks with which it begins.
pub open spec fn trim(s: Seq<u8>) -> Seq<u8> {
    s.skip(run_len(Run::Blanks, s) as int)
}

/// The field with which `s` begins; empty if `s` is empty or begins with a
/// blank.
pub open spec fn head(s: Seq<u8>) -> Seq<u8> {
    s.take(run_len(Run::Field, s) as int)
}

/// What follows the field with which `s` begins.
pub open spec fn tail(s: Seq<u8>) -> Seq<u8> {
    s.skip(run_len(Run::Field, s) as int)
}

/// A decimal digit.
pub open spec fn is_digit(b: u8) -> bool {
    0x30 <= b <= 0x39
}

/// The number that the decimal digits `digits` write.
pub open spec fn decimal(digits: Seq<u8>) -> nat
    decreases digits.len(),
{
    if digits.len() == 0 {
        0
    } else {
        decimal(digits.drop_last()) * 10 + (digits.last() - 0x30) as nat
    }
}

/// `s` holds decimal digits only.
pub open spec fn all_digits(s: Seq<u8>) -> bool {
    forall|i: int| 0 <= i < s.len() ==> is_digit(#[trigger] s[i])
}

/// `field` without the plus sign with which it may begin.
pub open spec fn unsigned(field: Seq<u8>) -> Seq<u8> {
    if field.len() > 0 && field[0] == 0x2b {
        field.drop_first()
    } else {
        field
    }
}

/// The label that `field` writes: decimal digits, at least one, after an
/// optional plus sign, whose number fits 32 bits.
pub open spec fn number(field: Seq<u8>) -> Option<u32> {
    let digits = unsigned(field);
    if digits.len() > 0 && all_digits(digits) && decimal(digits) <= u32::MAX {
        Some(decimal(digits) as u32)
    } else {
        None
    }
}

/// The line begins with `c` or `p`.
pub open spec fn is_comment(line: Seq<u8>) -> bool {
    line.len() > 0 && (line[0] == 0x63 || line[0] == 0x70)
}

/// What one line declares: nothing if it is a comment, else the edge that its
/// first two fields name. Fields after the second are not read.
pub open spec fn read_line(line: Seq<u8>) -> Result<Option<(u32, u32)>, GrError> {
    let first = head(trim(line));
    let second = head(trim(tail(trim(line))));
    if is_comment(line) {
        Ok(None)
    } else if first.len() == 0 {
        Err(GrError::MissingField)
    } else if number(first) is None {
        Err(GrError::InvalidNumber)
    } else if second.len() == 0 {
        Err(GrError::MissingField)
    } else if number(second) is None {
        Err(GrError::InvalidNumber)
    } else {
        Ok(Some((number(first).unwrap(), number(second).unwrap())))
    }
}

/// The edges that the lines of `text` declare, in order; the error of the
/// first line that has one.
pub open spec fn read_edges(text: Seq<u8>) -> Result<Seq<(u32, u32)>, GrError>
    decreases text.len(),
{
    if text.len() == 0 {
        Ok(Seq::empty())
    } else {
        let k = run_len(Run::Line, text) as int;
        let rest = if k < text.len() {
            text.skip(k + 1)
        } else {
            Seq::empty()
        };
        match read_line(text.take(k)) {
            Err(e) => Err(e),
            Ok(edge) => match read_edges(rest) {
                Err(e) => Err(e),
                Ok(edges) => Ok(
                    match edge {
                        Some(e) => seq![e] + edges,
                        None => edges,
                    },
                ),
            },
        }
    }
}

/// `x` is an end of one of `edges`.
pub open spec fn mentioned(edges: Seq<(u32, u32)>, x: u32) -> bool {
    exists|i: int| 0 <= i < edges.len() && ((#[trigger] edges[i]).0 == x || edges[i].1 == x)
}

/// One of `edges` joins `x` and `y`, in either order.
pub open spec fn joined(edges: Seq<(u32, u32)>, x: u32, y: u32) -> bool {
    exists|i: int| 0 <= i < edges.len() && (#[trigger] edges[i] == (x, y) || edges[i] == (y, x))
}

/// The graph that `edges` declare: its vertices are the ends of the edges,
/// its black edges are the edges, and it has no red edge. Neither the order
/// of the edges nor a repetition matters.
pub open spec fn edge_graph(edges: Seq<(u32, u32)>) -> GraphView {
    GraphView {
        red: Map::new(|x: u32| mentioned(edges, x), |x: u32| Set::empty()),
        black: Map::new(|x: u32| mentioned(edges, x), |x: u32| Set::new(|y: u32| joined(edges, x, y))),
    }
}

/// A run of `k` bytes of a kind, ended by the end of `s` or by a byte of
/// another kind, is the run that `run_len` measures.
pub proof fn lemma_run_len(run: Run, s: Seq<u8>, k: int)
    requires
        0 <= k <= s.len(),
        forall|i: int| 0 <= i < k ==> belongs(run, #[trigger] s[i]),
        k == s.len() || !belongs(run, s[k]),
    ensures
        run_len(run, s) == k,
    decreases s.len(),
{
    if k > 0 {
        let rest = s.drop_first();
        assert forall|i: int| 0 <= i < k - 1 implies belongs(run, #[trigger] rest[i]) by {
            assert(rest[i] == s[i + 1]);
        }
        lemma_run_len(run, rest, k - 1);
    }
}

/// Whether `b` may stand in a run of the kind `run`.
fn in_run(run: Run, b: u8) -> (yes: bool)
    ensures
        yes == belongs(run, b),
{
    match run {
        Run::Line => b != 0x0a,
        Run::Blanks => b == 0x20 || b == 0x09 || b == 0x0c || b == 0x0d,
        Run::Field => !(b == 0x20 || b == 0x09 || b == 0x0c || b == 0x0d),
    }
}

/// Where the run of the kind `run` that begins at `from` ends, at `to` at the
/// latest.
fn scan(text: &[u8], from: usize, to: usize, run: Run) -> (stop: usize)
    requires
        from <= to <= text.len(),
    ensures
        from <= stop <= to,
        stop - from == run_len(run, text@.subrange(from as int, to as int)),
{
    let mut stop = from;
    while stop < to && in_run(run, text[stop])
        invariant
            from <= stop <= to <= text.len(),
            forall|i: int| from <= i < stop ==> belongs(run, #[trigger] text@[i]),
        decreases to - stop,
    {
        stop = stop + 1;
    }
    proof {
        let s = text@.subrange(from as int, to as int);
        assert forall|i: int| 0 <= i < stop - from implies belongs(run, #[trigger] s[i]) by {
            assert(s[i] == text@[from + i]);
        }
        lemma_run_len(run, s, stop - from);
    }
    stop
}

/// A number is no smaller than the number that its first digits write.
pub proof fn lemma_decimal_prefix(digits: Seq<u8>, k: int)
    requires
        0 <= k <= digits.len(),
        all_digits(digits),
    ensures
        decimal(digits.take(k)) <= decimal(digits),
    decreases digits.len(),
{
    if k == digits.len() {
        assert(digits.take(k) =~= digits);
    } else {
        let front = digits.drop_last();
        assert(front.take(k) =~= digits.take(k));
        assert(all_digits(front)) by {
            assert forall|i: int| 0 <= i < front.len() implies is_digit(#[trigger] front[i]) by {
                assert(front[i] == digits[i]);
            }
        }
        lemma_decimal_prefix(front, k);
        assert(is_digit(digits[digits.len() - 1]));
    }
}

/// Reads the label that the bytes from `from` up to `to` write.
fn parse_number(text: &[u8], from: usize, to: usize) -> (label: Option<u32>)
    requires
        from <= to <= text.len(),
    ensures
        label == number(text@.subrange(from as int, to as int)),
{
    let ghost field = text@.subrange(from as int, to as int);
    let mut at = from;
    if at < to && text[at] == 0x2b {
        at = at + 1;
    }
    let start = at;
    let ghost digits = text@.subrange(start as int, to as int);
    assert(digits =~= unsigned(field));
    if at == to {
        return None;
    }
    let mut value: u64 = 0;
    while at < to
        invariant
            from <= start <= at <= to <= text.len(),
            digits == text@.subrange(start as int, to as int),
            field == text@.subrange(from as int, to as int),
            digits == unsigned(field),
            value <= u32::MAX,
            value == decimal(digits.take(at - start)),
            forall|i: int| 0 <= i < at - start ==> is_digit(#[trigger] digits[i]),
        decreases to - at,
    {
        let b = text[at];
        assert(digits[at - start] == b);
        if b < 0x30 || b > 0x39 {
            assert(!is_digit(digits[at - start]));
            return None;
        }
        assert(digits.take(at - start + 1).drop_last() =~= digits.take(at - start));
        value = value * 10 + (b - 0x30) as u64;
        if value > u32::MAX as u64 {
            proof {
                if all_digits(digits) {
                    lemma_decimal_prefix(digits, at - start + 1);
                }
            }
            return None;
        }
        at = at + 1;
    }
    assert(digits.take(at - start) =~= digits);
    Some(value as u32)
}

/// Reads the line that the bytes from `from` up to `to` hold.
fn parse_line(text: &[u8], from: usize, to: usize) -> (edge: Result<Option<(u32, u32)>, GrError>)
    requires
        from <= to <= text.len(),
    ensures
        edge == read_line(text@.subrange(from as int, to as int)),
{
    let ghost line = text@.subrange(from as int, to as int);
    if from < to && (text[from] == 0x63 || text[from] == 0x70) {
        assert(line[0] == text@[from as int]);
        return Ok(None);
    }
    assert(!is_comment(line)) by {
        if line.len() > 0 {
            assert(line[0] == text@[from as int]);
        }
    }
    let first_from = scan(text, from, to, Run::Blanks);
    let first_to = scan(text, first_from, to, Run::Field);
    assert(trim(line) =~= text@.subrange(first_from as int, to as int));
    assert(head(trim(line)) =~= text@.subrange(first_from as int, first_to as int));
    assert(tail(trim(line)) =~= text@.subrange(first_to as int, to as int));
    if first_to == first_from {
        return Err(GrError::MissingField);
    }
    let u = match parse_number(text, first_from, first_to) {
        Some(label) => label,
        None => {
            return Err(GrError::InvalidNumber);
        },
    };
    let second_from = scan(text, first_to, to, Run::Blanks);
    let second_to = scan(text, second_from, to, Run::Field);
    assert(trim(tail(trim(line))) =~= text@.subrange(second_from as int, to as int));
    assert(head(trim(tail(trim(line)))) =~= text@.subrange(second_from as int, second_to as int));
    if second_to == second_from {
        return Err(GrError::MissingField);
    }
    let v = match parse_number(text, second_from, second_to) {
        Some(label) => label,
        None => {
            return Err(GrError::InvalidNumber);
        },
    };
    Ok(Some((u, v)))
}

/// The edges read so far, followed by what the rest of the text gives.
pub open spec fn followed_by(
    edges: Seq<(u32, u32)>,
    rest: Result<Seq<(u32, u32)>, GrError>,
) -> Result<Seq<(u32, u32)>, GrError> {
    match rest {
        Ok(more) => Ok(edges + more),
        Err(e) => Err(e),
    }
}

/// One more edge adds a black edge to the graph that the edges before it
/// declare, and such a graph meets the invariant.
pub proof fn lemma_edge_graph_push(edges: Seq<(u32, u32)>, u: u32, v: u32)
    ensures
        edge_graph(Seq::empty()) == GraphView::empty(),
        edge_graph(edges.push((u, v))) == edge_graph(edges).add_black_edge(u, v),
        !edge_graph(edges).red_adjacent(u, v),
{
    assert(edge_graph(Seq::empty()).red =~= Map::empty());
    assert(edge_graph(Seq::empty()).black =~= Map::empty());
    let more = edges.push((u, v));
    let last = edges.len() as int;
    assert(more[last] == (u, v));
    assert forall|x: u32| mentioned(more, x) <==> mentioned(edges, x) || x == u || x == v by {
        if mentioned(edges, x) {
            let i = choose|i: int|
                0 <= i < edges.len() && ((#[trigger] edges[i]).0 == x || edges[i].1 == x);
            assert(more[i] == edges[i]);
        }
        if mentioned(more, x) {
            let i = choose|i: int|
                0 <= i < more.len() && ((#[trigger] more[i]).0 == x || more[i].1 == x);
            if i < last {
                assert(more[i] == edges[i]);
            }
        }
    }
    assert forall|x: u32, y: u32|
        joined(more, x, y) <==> joined(edges, x, y) || (x == u && y == v) || (x == v && y
            == u) by {
        if joined(edges, x, y) {
            let i = choose|i: int|
                0 <= i < edges.len() && (#[trigger] edges[i] == (x, y) || edges[i] == (y, x));
            assert(more[i] == edges[i]);
        }
        if joined(more, x, y) {
            let i = choose|i: int|
                0 <= i < more.len() && (#[trigger] more[i] == (x, y) || more[i] == (y, x));
            if i < last {
                assert(more[i] == edges[i]);
            }
        }
    }
    let g = edge_graph(edges);
    let h = edge_graph(more);
    assert forall|x: u32| mentioned(more, x) implies #[trigger] h.black[x] =~= g.add_black_edge(
        u,
        v,
    ).black[x] by {}
    assert(h.red =~~= g.add_black_edge(u, v).red);
    assert(h.black =~~= g.add_black_edge(u, v).black);
}

/// Edge lists that hold the same edges declare the same graph, in whatever
/// order and however often each edge stands in them.
pub proof fn lemma_edge_graph_of_same_edges(a: Seq<(u32, u32)>, b: Seq<(u32, u32)>)
    requires
        a.to_set() == b.to_set(),
    ensures
        edge_graph(a) == edge_graph(b),
{
    assert forall|x: u32| mentioned(a, x) == mentioned(b, x) by {
        if mentioned(a, x) {
            let i = choose|i: int|
                0 <= i < a.len() && ((#[trigger] a[i]).0 == x || a[i].1 == x);
            assert(a.to_set().contains(a[i]));
            assert(b.to_set().contains(a[i]));
            let k = choose|k: int| 0 <= k < b.len() && b[k] == a[i];
            assert(b[k].0 == x || b[k].1 == x);
        }
        if mentioned(b, x) {
            let i = choose|i: int|
                0 <= i < b.len() && ((#[trigger] b[i]).0 == x || b[i].1 == x);
            assert(b.to_set().contains(b[i]));
            assert(a.to_set().contains(b[i]));
            let k = choose|k: int| 0 <= k < a.len() && a[k] == b[i];
            assert(a[k].0 == x || a[k].1 == x);
        }
    }
    assert forall|x: u32, y: u32| joined(a, x, y) == joined(b, x, y) by {
        if joined(a, x, y) {
            let i = choose|i: int|
                0 <= i < a.len() && (#[trigger] a[i] == (x, y) || a[i] == (y, x));
            assert(a.to_set().contains(a[i]));
            assert(b.to_set().contains(a[i]));
            let k = choose|k: int| 0 <= k < b.len() && b[k] == a[i];
            assert(b[k] == (x, y) || b[k] == (y, x));
        }
        if joined(b, x, y) {
            let i = choose|i: int|
                0 <= i < b.len() && (#[trigger] b[i] == (x, y) || b[i] == (y, x));
            assert(b.to_set().contains(b[i]));
            assert(a.to_set().contains(b[i]));
            let k = choose|k: int| 0 <= k < a.len() && a[k] == b[i];
            assert(a[k] == (x, y) || a[k] == (y, x));
        }
    }
    assert forall|x: u32| mentioned(a, x) implies #[trigger] edge_graph(a).black[x]
        =~= edge_graph(b).black[x] by {}
    assert(edge_graph(a).red =~~= edge_graph(b).red);
    assert(edge_graph(a).black =~~= edge_graph(b).black);
}

impl Graph {
    /// Reads a graph from a text in the edge-list format. The graph has an
    /// edge for each edge line; a line that is no comment and does not begin
    /// with two labels makes the whole text fail.
    pub fn from_gr(text: &[u8]) -> (graph: Result<Graph, GrError>)
        ensures
            match graph {
                Ok(g) => read_edges(text@) matches Ok(edges) && g@ == edge_graph(edges) && g@.wf(),
                Err(e) => read_edges(text@) == Err::<Seq<(u32, u32)>, GrError>(e),
            },
    {
        let mut graph = Graph::new();
        let ghost mut edges = Seq::<(u32, u32)>::empty();
        let mut at: usize = 0;
        proof {
            lemma_edge_graph_push(edges, 0, 0);
            assert(text@.skip(0) =~= text@);
            assert(edges + read_edges(text@)->Ok_0 =~= read_edges(text@)->Ok_0);
        }
        while at < text.len()
            invariant
                at <= text.len(),
                graph@.wf(),
                graph@ == edge_graph(edges),
                read_edges(text@) == followed_by(edges, read_edges(text@.skip(at as int))),
            decreases text.len() - at,
        {
            let ghost rest = text@.skip(at as int);
            let end = scan(text, at, text.len(), Run::Line);
            assert(text@.subrange(at as int, text.len() as int) =~= rest);
            assert(rest.take(end - at) =~= text@.subrange(at as int, end as int));
            let next = if end < text.len() {
                end + 1
            } else {
                end
            };
            proof {
                if end < text.len() {
                    assert(rest.skip(end - at + 1) =~= text@.skip(next as int));
                } else {
                    assert(text@.skip(next as int) =~= Seq::empty());
                }
            }
            match parse_line(text, at, end) {
                Err(e) => {
                    return Err(e);
                },
                Ok(None) => {},
                Ok(Some((u, v))) => {
                    proof {
                        lemma_edge_graph_push(edges, u, v);
                        let after = read_edges(text@.skip(next as int));
                        if after is Ok {
                            assert(edges + (seq![(u, v)] + after->Ok_0) =~= edges.push((u, v))
                                + after->Ok_0);
                        }
                        edges = edges.push((u, v));
                    }
                    graph.add_black_edge(u, v);
                },
            }
            at = next;
        }
        assert(edges + Seq::<(u32, u32)>::empty() =~= edges);
        Ok(graph)
    }
}

} // verus!
