//! The text in which a contraction sequence is given out.
//!
//! The first line is `c tww: ` and the width. Each line after it holds one
//! merge: the label of the surviving vertex, a space, and the label of the
//! vertex merged into it. Numbers are written in decimal digits without
//! leading zeros, and each line ends with a line feed.

use crate::gr::{all_digits, decimal, edge_graph, is_digit, number, read_edges, unsigned, GrError};
use crate::graph::Graph;
use crate::greedy::Sequence;
use crate::model::GraphView;
use vstd::prelude::*;

verus! {

/// The decimal digits of `n`, the most significant first.
pub open spec fn numeral(n: nat) -> Seq<u8>
    decreases n,
{
    if n < 10 {
        seq![(0x30 + n) as u8]
    } else {
        numeral(n / 10).push((0x30 + n % 10) as u8)
    }
}

/// The bytes of `c tww: `.
pub open spec fn width_prefix() -> Seq<u8> {
    seq![0x63u8, 0x20u8, 0x74u8, 0x77u8, 0x77u8, 0x3au8, 0x20u8]
}

/// The line that gives the width.
pub open spec fn width_line(width: nat) -> Seq<u8> {
    width_prefix() + numeral(width).push(0x0au8)
}

/// The line that gives one merge.
pub open spec fn step_line(step: (u32, u32)) -> Seq<u8> {
    numeral(step.0 as nat).push(0x20u8) + numeral(step.1 as nat).push(0x0au8)
}

/// The lines that give the merges of `steps`, in order.
pub open spec fn step_lines(steps: Seq<(u32, u32)>) -> Seq<u8>
    decreases steps.len(),
{
    if steps.len() == 0 {
        Seq::empty()
    } else {
        step_lines(steps.drop_last()) + step_line(steps.last())
    }
}

/// The text that gives a width and the merges of `steps`.
pub open spec fn rendered(width: nat, steps: Seq<(u32, u32)>) -> Seq<u8> {
    width_line(width) + step_lines(steps)
}

/// The merges that the greedy search makes of `g`.
pub open spec fn greedy_steps_of(g: GraphView) -> Seq<(u32, u32)> {
    choose|steps: Seq<(u32, u32)>| g.greedy_run(steps)
}

/// The text that the greedy search gives out for `g`.
pub open spec fn report(g: GraphView) -> Seq<u8> {
    rendered(g.width(greedy_steps_of(g)), greedy_steps_of(g))
}

/// A numeral holds digits only, at least one, and writes its number.
pub proof fn lemma_numeral(n: nat)
    ensures
        numeral(n).len() > 0,
        all_digits(numeral(n)),
        decimal(numeral(n)) == n,
    decreases n,
{
    if n < 10 {
        assert(numeral(n).drop_last() =~= Seq::<u8>::empty());
        assert(decimal(numeral(n).drop_last()) == 0);
    } else {
        lemma_numeral(n / 10);
        let front = numeral(n / 10);
        let whole = numeral(n);
        assert(whole.drop_last() =~= front);
        assert forall|i: int| 0 <= i < whole.len() implies is_digit(#[trigger] whole[i]) by {
            if i < front.len() {
                assert(whole[i] == front[i]);
            }
        }
    }
}

/// What is written for a label is read back as that label.
pub proof fn lemma_numeral_reads_back(n: u32)
    ensures
        number(numeral(n as nat)) == Some(n),
{
    lemma_numeral(n as nat);
    let field = numeral(n as nat);
    assert(is_digit(field[0]));
    assert(unsigned(field) == field);
}

/// Writes `n` in decimal digits at the end of `out`.
fn push_numeral(out: &mut Vec<u8>, n: u32)
    ensures
        final(out)@ == old(out)@ + numeral(n as nat),
    decreases n,
{
    if n >= 10 {
        push_numeral(out, n / 10);
    }
    let digit: u8 = (n % 10) as u8;
    out.push(0x30 + digit);
    assert(out@ =~= old(out)@ + numeral(n as nat));
}

impl Sequence {
    /// The text that gives this sequence out.
    pub fn render(&self) -> (text: Vec<u8>)
        ensures
            text@ == rendered(self.width as nat, self.contractions@),
    {
        let mut text: Vec<u8> = Vec::new();
        text.push(0x63);
        text.push(0x20);
        text.push(0x74);
        text.push(0x77);
        text.push(0x77);
        text.push(0x3a);
        text.push(0x20);
        push_numeral(&mut text, self.width);
        text.push(0x0a);
        assert(text@ =~= width_line(self.width as nat));
        let n = self.contractions.len();
        assert(self.contractions@.take(0) =~= Seq::empty());
        for i in 0..n
            invariant
                n == self.contractions.len(),
                text@ == rendered(self.width as nat, self.contractions@.take(i as int)),
        {
            let ghost before = text@;
            let (u, v) = self.contractions[i];
            push_numeral(&mut text, u);
            text.push(0x20);
            push_numeral(&mut text, v);
            text.push(0x0a);
            proof {
                let done = self.contractions@.take(i + 1);
                assert(done.drop_last() =~= self.contractions@.take(i as int));
                assert(done.last() == (u, v));
                assert(text@ =~= before + step_line((u, v)));
                assert(text@ =~= rendered(self.width as nat, done));
            }
        }
        assert(self.contractions@.take(n as int) =~= self.contractions@);
        text
    }
}

/// Reads a graph from `text`, searches a contraction sequence for it and
/// gives the sequence out as text. Fails exactly if `text` is no edge list.
pub fn solve(text: &[u8]) -> (out: Result<Vec<u8>, GrError>)
    ensures
        match out {
            Ok(report_text) => read_edges(text@) matches Ok(edges) && report_text@ == report(
                edge_graph(edges),
            ),
            Err(e) => read_edges(text@) == Err::<Seq<(u32, u32)>, GrError>(e),
        },
{
    match Graph::from_gr(text) {
        Ok(graph) => {
            let ghost g = graph@;
            let sequence = graph.greedy();
            proof {
                g.lemma_run_unique(sequence.contractions@, greedy_steps_of(g));
            }
            Ok(sequence.render())
        },
        Err(e) => Err(e),
    }
}

} // verus!
