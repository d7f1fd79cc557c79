//! Text blocks: the rows of a mosaic as lines, and the lines in groups that
//! a sink with a size limit accepts one at a time.

use vstd::prelude::*;
use crate::mosaic::Grid;
use crate::text::join;

verus! {

/// The character between two lines of a block.
pub const LINE_BREAK: char = '\n';

/// The number of lines to a block unless the caller chooses another.
pub const DEFAULT_LINES_PER_BLOCK: usize = 5;

/// The lines of a grid: for each row its glyphs, one after the other.
pub open spec fn lines_of(cells: Seq<Seq<Seq<char>>>) -> Seq<Seq<char>> {
    Seq::new(cells.len(), |y: int| cells[y].flatten())
}

/// Consecutive groups of `size` lines, in order; the last group holds what is
/// left and may be shorter. No line is split, lost or moved.
pub open spec fn groups(lines: Seq<Seq<char>>, size: nat) -> Seq<Seq<Seq<char>>>
    decreases lines.len(),
{
    if size == 0 || lines.len() == 0 {
        Seq::empty()
    } else if lines.len() <= size {
        seq![lines]
    } else {
        seq![lines.take(size as int)] + groups(lines.skip(size as int), size)
    }
}

/// The texts up to the first empty one.
pub open spec fn until_empty(texts: Seq<Seq<char>>) -> Seq<Seq<char>>
    decreases texts.len(),
{
    if texts.len() == 0 || texts[0].len() == 0 {
        Seq::empty()
    } else {
        seq![texts[0]] + until_empty(texts.drop_first())
    }
}

/// The text of each group: its lines with a line break between each two.
pub open spec fn texts_of(groups: Seq<Seq<Seq<char>>>) -> Seq<Seq<char>> {
    Seq::new(groups.len(), |k: int| join(groups[k], LINE_BREAK))
}

/// The blocks to deliver: the lines in groups of `size`, each group as one
/// text, and of these the ones before the first empty text.
pub open spec fn blocks_of(lines: Seq<Seq<char>>, size: nat) -> Seq<Seq<char>> {
    until_empty(texts_of(groups(lines, size)))
}

/// The groups, one after the other, are the lines.
pub proof fn lemma_groups_flatten(lines: Seq<Seq<char>>, size: nat)
    requires
        size > 0,
    ensures
        groups(lines, size).flatten() == lines,
    decreases lines.len(),
{
    let all = groups(lines, size);
    if 0 < lines.len() <= size {
        all.lemma_flatten_one_element();
    } else if lines.len() > size {
        lemma_groups_flatten(lines.skip(size as int), size);
        assert(all.drop_first() =~= groups(lines.skip(size as int), size));
    }
}

/// There are as many groups as the size goes into the number of lines,
/// rounded up. Each group but the last has `size` lines, and the last has
/// what is left: between one line and `size`.
pub proof fn lemma_groups_sizes(lines: Seq<Seq<char>>, size: nat)
    requires
        size > 0,
    ensures
        groups(lines, size).len() == (lines.len() + size - 1) / size as int,
        forall|k: int|
            0 <= k < groups(lines, size).len() - 1 ==> (#[trigger] groups(lines, size)[k]).len()
                == size,
        groups(lines, size).len() > 0 ==> groups(lines, size).last().len() == lines.len() - size
            * (groups(lines, size).len() - 1),
        groups(lines, size).len() > 0 ==> 1 <= groups(lines, size).last().len() <= size,
    decreases lines.len(),
{
    let all = groups(lines, size);
    let n = lines.len() as int;
    let s = size as int;
    if n == 0 {
        assert((n + s - 1) / s == 0) by (nonlinear_arith)
            requires
                n == 0,
                s > 0,
        ;
    } else if n <= s {
        assert((n + s - 1) / s == 1) by (nonlinear_arith)
            requires
                0 < n <= s,
        ;
        assert(size * (all.len() - 1) == 0) by (nonlinear_arith)
            requires
                all.len() == 1,
        ;
    } else {
        let tail = lines.skip(s);
        let rest = groups(tail, size);
        lemma_groups_sizes(tail, size);
        assert((n + s - 1) / s == (n - s + s - 1) / s + 1) by (nonlinear_arith)
            requires
                s > 0,
        ;
        assert forall|k: int| 0 <= k < all.len() - 1 implies (#[trigger] all[k]).len() == size by {}
        assert(size * (all.len() - 1) == size * (rest.len() - 1) + size) by (nonlinear_arith)
            requires
                all.len() == rest.len() + 1,
        ;
    }
}

/// The line of one row: its glyphs, one after the other.
fn row_line(row: &Vec<String>) -> (line: String)
    ensures
        line@ == row.deep_view().flatten(),
{
    let mut line = String::new();
    let mut x: usize = 0;
    while x < row.len()
        invariant
            x <= row.len(),
            line@ == row.deep_view().take(x as int).flatten(),
        decreases row.len() - x,
    {
        line.append(row[x].as_str());
        proof {
            let cells = row.deep_view();
            assert(cells.take(x + 1) =~= cells.take(x as int).push(row[x as int]@));
            cells.take(x as int).lemma_flatten_push(row[x as int]@);
        }
        x = x + 1;
    }
    assert(row.deep_view().take(x as int) =~= row.deep_view());
    line
}

/// The lines of a grid: each row as one text, from the top.
pub fn grid_lines(grid: &Grid) -> (lines: Vec<String>)
    ensures
        lines.deep_view() == lines_of(grid@.cells),
        lines.len() == grid@.height,
{
    let rows = grid.rows();
    let mut lines: Vec<String> = Vec::new();
    let mut y: usize = 0;
    while y < rows.len()
        invariant
            y <= rows.len(),
            rows.deep_view() == grid@.cells,
            lines.deep_view() == lines_of(grid@.cells).take(y as int),
        decreases rows.len() - y,
    {
        let line = row_line(&rows[y]);
        let ghost before = lines.deep_view();
        lines.push(line);
        assert(lines.deep_view() =~= before.push(line@));
        y = y + 1;
    }
    lines
}

/// The lines from `start` to `end` as one text, with a line break between
/// each two.
fn join_lines(lines: &Vec<String>, start: usize, end: usize) -> (text: String)
    requires
        start <= end <= lines.len(),
    ensures
        text@ == join(lines.deep_view().subrange(start as int, end as int), LINE_BREAK),
{
    let mut text = String::new();
    let mut i: usize = start;
    while i < end
        invariant
            start <= i <= end <= lines.len(),
            text@ == join(lines.deep_view().subrange(start as int, i as int), LINE_BREAK),
        decreases end - i,
    {
        if i > start {
            text.push(LINE_BREAK);
        }
        text.append(lines[i].as_str());
        assert(lines.deep_view().subrange(start as int, i + 1).drop_last()
            =~= lines.deep_view().subrange(start as int, i as int));
        i = i + 1;
    }
    text
}

/// Groups the lines into blocks of `size` lines each, the last one of what is
/// left, and gives each block as one text with a line break between its
/// lines. The order of the lines stays, and no line is split between two
/// blocks. The blocks end before the first whose text is empty.
pub fn chunk(lines: &Vec<String>, size: usize) -> (blocks: Vec<String>)
    requires
        size > 0,
    ensures
        blocks.deep_view() == blocks_of(lines.deep_view(), size as nat),
{
    let ghost all = lines.deep_view();
    let mut blocks: Vec<String> = Vec::new();
    let mut start: usize = 0;
    assert(all.skip(0) =~= all);
    while start < lines.len()
        invariant
            start <= lines.len(),
            size > 0,
            all == lines.deep_view(),
            blocks_of(all, size as nat) == blocks.deep_view() + blocks_of(
                all.skip(start as int),
                size as nat,
            ),
        decreases lines.len() - start,
    {
        let end = if lines.len() - start > size {
            start + size
        } else {
            lines.len()
        };
        let text = join_lines(lines, start, end);
        let ghost tail = all.skip(start as int);
        let ghost parts = groups(tail, size as nat);
        proof {
            assert(parts[0] =~= all.subrange(start as int, end as int));
            if end < lines.len() {
                assert(tail.skip(size as int) =~= all.skip(end as int));
            }
            assert(parts.drop_first() =~= groups(all.skip(end as int), size as nat));
            assert(texts_of(parts).drop_first() =~= texts_of(parts.drop_first()));
        }
        if text.as_str().is_empty() {
            return blocks;
        }
        blocks.push(text);
        start = end;
    }
    blocks
}

} // verus!
