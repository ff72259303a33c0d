//! Text drawn as whole terminal elements: the progress bar and rules.
use vstd::prelude::*;

verus! {

/// Number of cells of a progress bar.
pub const BAR_WIDTH: usize = 38;

pub open spec fn full_cell() -> char {
    '\u{2588}'
}

pub open spec fn empty_cell() -> char {
    '\u{2591}'
}

/// The filled cells of the bar: the given count, at most 38.
pub open spec fn filled_cells(cells: nat) -> nat {
    if cells > 38 {
        38
    } else {
        cells
    }
}

/// `[`, the filled cells, the empty cells up to 38, `]`.
pub open spec fn progress_bar(cells: nat) -> Seq<char> {
    let f = filled_cells(cells);
    seq!['['] + Seq::new(f, |i: int| full_cell()) + Seq::new(
        (38 - f) as nat,
        |i: int| empty_cell(),
    ) + seq![']']
}

fn push_repeat(out: &mut String, c: char, n: usize)
    ensures
        final(out)@ == old(out)@ + Seq::new(n as nat, |i: int| c),
{
    let mut i: usize = 0;
    while i < n
        invariant
            i <= n,
            out@ == old(out)@ + Seq::new(i as nat, |k: int| c),
        decreases n - i,
    {
        out.push(c);
        assert(Seq::new((i + 1) as nat, |k: int| c) =~= Seq::new(i as nat, |k: int| c).push(c));
        assert(old(out)@ + Seq::new((i + 1) as nat, |k: int| c) =~= old(out)@ + Seq::new(
            i as nat,
            |k: int| c,
        ) + seq![c]);
        i = i + 1;
    }
}

/// The progress bar with `cells` of its 38 cells filled (all of them for
/// any larger count). The number of cells that a plan's progress fills is
/// computed by the caller.
pub fn progress_bar_string(cells: usize) -> (s: String)
    ensures
        s@ == progress_bar(cells as nat),
        s@.len() == BAR_WIDTH + 2,
{
    let f = if cells > BAR_WIDTH {
        BAR_WIDTH
    } else {
        cells
    };
    let mut s = String::new();
    s.push('[');
    push_repeat(&mut s, '\u{2588}', f);
    push_repeat(&mut s, '\u{2591}', BAR_WIDTH - f);
    s.push(']');
    assert(s@ =~= progress_bar(cells as nat));
    s
}

pub open spec fn rule_char() -> char {
    '\u{2500}'
}

/// A horizontal rule `cols` cells wide.
pub fn hrule(cols: u16) -> (s: String)
    ensures
        s@ == Seq::new(cols as nat, |i: int| rule_char()),
{
    let mut s = String::new();
    push_repeat(&mut s, '\u{2500}', cols as usize);
    assert(s@ =~= Seq::new(cols as nat, |i: int| rule_char()));
    s
}

} // verus!
