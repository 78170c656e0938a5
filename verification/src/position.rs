//! Positions, ranges, and the line-start table that converts token
//! coordinates into zero-based row/column positions.

use vstd::prelude::*;

use crate::syntax::{Locate, Newline, SyntaxTree};
use crate::IndexError;

verus! {

/// A zero-based row/column position; `col` is a byte offset within its row.
#[derive(Debug, Clone, Copy, PartialEq, Eq, Structural)]
pub struct Position {
    pub row: usize,
    pub col: usize,
}

/// A span of source text from `begin` to `end`.
#[derive(Debug, Clone, Copy, PartialEq, Eq, Structural)]
pub struct Range {
    pub begin: Position,
    pub end: Position,
}

/// A position together with the path of the file it lies in.
#[derive(Debug, Clone)]
pub struct DocumentPosition {
    pub document: String,
    pub position: Position,
}

/// A range together with the path of the file it lies in.
#[derive(Debug, Clone)]
pub struct DocumentRange {
    pub document: String,
    pub range: Range,
}

/// Strict row-major order on positions.
pub open spec fn pos_lt(a: Position, b: Position) -> bool {
    a.row < b.row || (a.row == b.row && a.col < b.col)
}

/// Result of comparing a range against a point.
#[derive(Debug, Clone, Copy, PartialEq, Eq, Structural)]
pub enum PointCmp {
    Less,
    Equal,
    Greater,
}

/// Three-way range-versus-point comparison: the range is less than the point
/// when it ends on an earlier row, greater when it begins on a later row, and
/// equal otherwise, with column comparisons breaking ties on the range's
/// first and last rows.
pub open spec fn range_point_cmp(r: Range, p: Position) -> PointCmp {
    if r.end.row < p.row {
        PointCmp::Less
    } else if r.begin.row > p.row {
        PointCmp::Greater
    } else if r.begin.row == p.row && p.col < r.begin.col {
        PointCmp::Greater
    } else if r.end.row == p.row && p.col > r.end.col {
        PointCmp::Less
    } else {
        PointCmp::Equal
    }
}

impl Range {
    /// Executable range-versus-point comparison used by the location index.
    pub fn compare_point(&self, p: &Position) -> (c: PointCmp)
        ensures
            c == range_point_cmp(*self, *p),
    {
        if self.end.row < p.row {
            PointCmp::Less
        } else if self.begin.row > p.row {
            PointCmp::Greater
        } else if self.begin.row == p.row && p.col < self.begin.col {
            PointCmp::Greater
        } else if self.end.row == p.row && p.col > self.end.col {
            PointCmp::Less
        } else {
            PointCmp::Equal
        }
    }
}

/// The line starts contributed by one line-terminator token: one start just
/// after each newline byte of its text.
pub open spec fn text_starts(offset: usize, text: Seq<u8>) -> Seq<usize>
    decreases text.len(),
{
    if text.len() == 0 {
        Seq::empty()
    } else {
        text_starts(offset, text.drop_last()) + (if text.last() == 10u8 {
            seq![(offset + text.len()) as usize]
        } else {
            Seq::empty()
        })
    }
}

/// The absolute offset at which each line begins: line 0 begins at offset 0,
/// and each newline byte of a terminator token opens a further line.  A
/// carriage return alone terminates nothing, so a CR-LF pair contributes
/// exactly one start.
pub open spec fn line_starts(newlines: Seq<Newline>) -> Seq<usize>
    decreases newlines.len(),
{
    if newlines.len() == 0 {
        seq![0usize]
    } else {
        line_starts(newlines.drop_last()) + text_starts(
            newlines.last().offset,
            newlines.last().text@,
        )
    }
}

/// The line-start table is strictly increasing.
pub open spec fn starts_sorted(starts: Seq<usize>) -> bool {
    forall|i: int, j: int| 0 <= i < j < starts.len() ==> starts[i] < starts[j]
}

/// What `locate_to_position` names: the row is the token's line converted to
/// zero-based, the column its offset minus that line's start; `None` when the
/// line has no table entry or begins after the offset.
pub open spec fn locate_position(starts: Seq<usize>, line: u32, offset: usize) -> Option<Position> {
    if 1 <= line && line <= starts.len() && starts[line as int - 1] <= offset {
        Some(
            Position {
                row: (line - 1) as usize,
                col: (offset - starts[line as int - 1]) as usize,
            },
        )
    } else {
        None
    }
}

/// The index of the line containing `offset`: the largest line whose start is
/// at or before it.
pub open spec fn line_of(starts: Seq<usize>, offset: usize) -> int
    decreases starts.len(),
{
    if starts.len() <= 1 {
        0
    } else if starts.last() <= offset {
        starts.len() - 1
    } else {
        line_of(starts.drop_last(), offset)
    }
}

/// What `offset_to_position` names.
pub open spec fn offset_position(starts: Seq<usize>, offset: usize) -> Position {
    let r = line_of(starts, offset);
    Position { row: r as usize, col: (offset - starts[r]) as usize }
}

pub proof fn lemma_line_of(starts: Seq<usize>, offset: usize)
    requires
        starts.len() >= 1,
        starts[0] == 0,
        starts_sorted(starts),
    ensures
        0 <= line_of(starts, offset) < starts.len(),
        starts[line_of(starts, offset)] <= offset,
        line_of(starts, offset) + 1 < starts.len() ==> offset < starts[line_of(starts, offset)
            + 1],
    decreases starts.len(),
{
    if starts.len() <= 1 {
    } else if starts.last() <= offset {
    } else {
        assert(starts.drop_last()[0] == 0);
        lemma_line_of(starts.drop_last(), offset);
        let r = line_of(starts.drop_last(), offset);
        assert(starts.drop_last()[r] == starts[r]);
        if r + 1 < starts.len() - 1 {
            assert(starts.drop_last()[r + 1] == starts[r + 1]);
        }
    }
}

/// The containing line is unique: any index with the same bracketing
/// properties is `line_of`.
pub proof fn lemma_line_of_unique(starts: Seq<usize>, offset: usize, r: int)
    requires
        starts.len() >= 1,
        starts[0] == 0,
        starts_sorted(starts),
        0 <= r < starts.len(),
        starts[r] <= offset,
        r + 1 < starts.len() ==> offset < starts[r + 1],
    ensures
        r == line_of(starts, offset),
{
    lemma_line_of(starts, offset);
    let l = line_of(starts, offset);
    if r < l {
        assert(starts[r + 1] <= starts[l]);
    } else if l < r {
        assert(starts[l + 1] <= starts[r]);
    }
}

/// A token's coordinates agree with its raw offset: when the token's line
/// truly brackets its offset, `locate_to_position` and `offset_to_position`
/// name the same position.  This holds whatever mixture of line terminators
/// built the table.
pub proof fn lemma_locate_offset_agree(starts: Seq<usize>, line: u32, offset: usize)
    requires
        starts.len() >= 1,
        starts[0] == 0,
        starts_sorted(starts),
        1 <= line,
        line <= starts.len(),
        starts[line as int - 1] <= offset,
        line < starts.len() ==> offset < starts[line as int],
    ensures
        locate_position(starts, line, offset) == Some(offset_position(starts, offset)),
{
    lemma_line_of_unique(starts, offset, line as int - 1);
}

/// The per-file table of line-start offsets, built once from the file's
/// line-terminator tokens.
pub struct LineIndex {
    starts: Vec<usize>,
}

impl View for LineIndex {
    type V = Seq<usize>;

    closed spec fn view(&self) -> Seq<usize> {
        self.starts@
    }
}

impl LineIndex {
    /// The table holds line 0's start and is strictly increasing.
    pub open spec fn wf(self) -> bool {
        &&& self@.len() >= 1
        &&& self@[0] == 0
        &&& starts_sorted(self@)
    }

    /// Scan the file's line-terminator tokens and record where each line
    /// begins; a CR-LF pair is a single terminator and every blank line
    /// contributes its own start.
    pub fn new(tree: &SyntaxTree) -> (li: LineIndex)
        requires
            tree.wf(),
        ensures
            li.wf(),
            li@ == line_starts(tree.newlines@),
    {
        let mut starts: Vec<usize> = Vec::new();
        starts.push(0);
        let mut j: usize = 0;
        while j < tree.newlines.len()
            invariant
                tree.wf(),
                j <= tree.newlines@.len(),
                starts@ == line_starts(tree.newlines@.take(j as int)),
                starts@.len() >= 1,
                starts@[0] == 0,
                starts_sorted(starts@),
                j < tree.newlines@.len() ==> starts@.last() <= tree.newlines@[j as int].offset,
            decreases tree.newlines@.len() - j,
        {
            let tok = &tree.newlines[j];
            let ghost prefix = line_starts(tree.newlines@.take(j as int));
            let mut i: usize = 0;
            while i < tok.text.len()
                invariant
                    tree.wf(),
                    j < tree.newlines@.len(),
                    *tok == tree.newlines@[j as int],
                    i <= tok.text@.len(),
                    starts@ == prefix + text_starts(tok.offset, tok.text@.take(i as int)),
                    starts@.len() >= 1,
                    starts@[0] == 0,
                    starts_sorted(starts@),
                    starts@.last() <= tok.offset + i,
                decreases tok.text@.len() - i,
            {
                let ghost before = starts@;
                if tok.text[i] == 10u8 {
                    assert(tok.offset + i + 1 <= usize::MAX) by {
                        assert(tree.newlines@[j as int].wf());
                    }
                    starts.push(tok.offset + i + 1);
                    assert forall|a: int, b: int| 0 <= a < b < starts@.len() implies starts@[a]
                        < starts@[b] by {
                        if b + 1 == starts@.len() {
                            assert(before[a] <= before[before.len() - 1]);
                        }
                    }
                }
                proof {
                    assert(tok.text@.take(i + 1).drop_last() =~= tok.text@.take(i as int));
                    assert(tok.text@.take(i + 1).last() == tok.text@[i as int]);
                    assert(starts@ =~= prefix + text_starts(tok.offset, tok.text@.take(i + 1)));
                }
                i += 1;
            }
            proof {
                assert(tok.text@.take(tok.text@.len() as int) =~= tok.text@);
                assert(tree.newlines@.take(j + 1).drop_last() =~= tree.newlines@.take(j as int));
                assert(tree.newlines@.take(j + 1).last() == tree.newlines@[j as int]);
                assert(starts@ =~= line_starts(tree.newlines@.take(j + 1)));
            }
            j += 1;
        }
        proof {
            assert(tree.newlines@.take(tree.newlines@.len() as int) =~= tree.newlines@);
        }
        LineIndex { starts }
    }

    /// Convert a token's 1-based line and absolute offset into a position.
    /// A line number outside the table, or a line whose recorded start lies
    /// after the offset, is an inconsistency between the token stream and the
    /// table and is reported as `LineIndexMismatch`.
    pub fn locate_to_position(&self, locate: &Locate) -> (r: Result<Position, IndexError>)
        ensures
            match r {
                Ok(p) => locate_position(self@, locate.line, locate.offset) == Some(p),
                Err(e) => {
                    &&& e == IndexError::LineIndexMismatch
                    &&& locate_position(self@, locate.line, locate.offset) is None
                },
            },
    {
        if locate.line < 1 {
            return Err(IndexError::LineIndexMismatch);
        }
        let row = (locate.line as usize) - 1;
        if row >= self.starts.len() {
            return Err(IndexError::LineIndexMismatch);
        }
        let start = self.starts[row];
        if locate.offset < start {
            return Err(IndexError::LineIndexMismatch);
        }
        Ok(Position { row, col: locate.offset - start })
    }

    /// Find the position of a raw offset by a linear scan for its containing
    /// line.  Agrees with `locate_to_position` whenever both are asked about
    /// the same location (`lemma_locate_offset_agree`).
    pub fn offset_to_position(&self, offset: usize) -> (p: Position)
        requires
            self.wf(),
        ensures
            p == offset_position(self@, offset),
    {
        let mut row: usize = 0;
        let mut idx: usize = 1;
        while idx < self.starts.len()
            invariant
                self.wf(),
                1 <= idx <= self@.len(),
                row < idx,
                self@[row as int] <= offset,
                forall|j: int| 0 <= j < idx && self@[j] <= offset ==> j <= row,
            decreases self@.len() - idx,
        {
            if self.starts[idx] <= offset {
                row = idx;
            }
            idx += 1;
        }
        let col = offset - self.starts[row];
        proof {
            lemma_line_of_unique(self@, offset, row as int);
        }
        Position { row, col }
    }
}

} // verus!
