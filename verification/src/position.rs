//! Position tracker: converts a linear scan offset into line/column
//! coordinates for diagnostics.

use vstd::prelude::*;

verus! {

/// Number of line feeds strictly before `off`.
pub open spec fn newlines_before(s: Seq<u8>, off: int) -> int
    decreases off when 0 <= off <= s.len()
{
    if off <= 0 {
        0
    } else {
        newlines_before(s, off - 1) + if s[off - 1] == 10 {
            1int
        } else {
            0int
        }
    }
}

/// Offset of the first byte of the line containing `off`: one past the last
/// line feed strictly before `off`.
pub open spec fn line_start(s: Seq<u8>, off: int) -> int
    decreases off when 0 <= off <= s.len()
{
    if off <= 0 {
        0
    } else if s[off - 1] == 10 {
        off
    } else {
        line_start(s, off - 1)
    }
}

/// 1-based line and column of an offset.
#[derive(Clone, Copy, PartialEq, Eq, Structural, Debug)]
pub struct Position {
    pub line: usize,
    pub column: usize,
}

proof fn lemma_counts_in_range(s: Seq<u8>, off: int)
    requires
        0 <= off <= s.len(),
    ensures
        0 <= newlines_before(s, off) <= off,
        0 <= line_start(s, off) <= off,
    decreases off,
{
    if off > 0 {
        lemma_counts_in_range(s, off - 1);
    }
}

/// Line and column of byte offset `off` in `buf`, both 1-based: the line is
/// one more than the number of line feeds before `off`, the column counts
/// bytes since the start of the line.
pub fn position_of(buf: &Vec<u8>, off: usize) -> (r: Position)
    requires
        off <= buf.len(),
        buf.len() < usize::MAX,
    ensures
        r.line as int == newlines_before(buf@, off as int) + 1,
        r.column as int == off - line_start(buf@, off as int) + 1,
{
    let mut i: usize = 0;
    let mut line: usize = 1;
    let mut start: usize = 0;
    while i < off
        invariant
            i <= off,
            off <= buf.len(),
            buf.len() < usize::MAX,
            line as int == newlines_before(buf@, i as int) + 1,
            start as int == line_start(buf@, i as int),
            line <= i + 1,
            start <= i,
        decreases off - i,
    {
        if buf[i] == 10 {
            line = line + 1;
            start = i + 1;
        }
        i = i + 1;
    }
    proof {
        lemma_counts_in_range(buf@, off as int);
    }
    Position { line, column: off - start + 1 }
}

/// Locate a diagnostic in the scanned input: its line and column, from its
/// byte offset.
pub fn locate_diagnostic(buf: &Vec<u8>, d: &crate::tokens::Diagnostic) -> (r: Position)
    requires
        d.offset <= buf.len(),
        buf.len() < usize::MAX,
    ensures
        r.line as int == newlines_before(buf@, d.offset as int) + 1,
        r.column as int == d.offset - line_start(buf@, d.offset as int) + 1,
{
    position_of(buf, d.offset)
}

} // verus!
