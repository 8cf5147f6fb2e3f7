//! The table layout model: grids, per-column widths and alignment,
//! and the exact shape of every rendered line.
use crate::text::join_cells;
use crate::text::pad_left;
use crate::text::pad_right;
use crate::text::repeat_char;
use crate::text::spec_split;
use crate::text::trim_spec;
use vstd::prelude::*;

verus! {

/// Every row of the grid holds exactly `ncols` cells.
pub open spec fn uniform(g: Seq<Seq<Seq<char>>>, ncols: int) -> bool {
    forall|r: int| 0 <= r < g.len() ==> (#[trigger] g[r]).len() == ncols
}

/// The widest cell of column `c` among the first `upto` rows, by the
/// measure `m`.
pub open spec fn col_width_upto(
    g: Seq<Seq<Seq<char>>>,
    c: int,
    upto: int,
    m: spec_fn(Seq<char>) -> int,
) -> int
    decreases upto,
{
    if upto <= 0 {
        0
    } else {
        let prev = col_width_upto(g, c, upto - 1, m);
        let cur = m(g[upto - 1][c]);
        if cur > prev {
            cur
        } else {
            prev
        }
    }
}

/// The width of column `c`: the largest measure of any of its cells,
/// the alignment-marker row included, and never negative.
pub open spec fn col_width(g: Seq<Seq<Seq<char>>>, c: int, m: spec_fn(Seq<char>) -> int) -> int {
    col_width_upto(g, c, g.len() as int, m)
}

/// The plain measure: one unit per character.
pub open spec fn char_len() -> spec_fn(Seq<char>) -> int {
    (|s: Seq<char>| s.len() as int)
}

/// Column `c` is right-aligned: its alignment-marker cell ends in `:`.
pub open spec fn is_right(g: Seq<Seq<Seq<char>>>, c: int) -> bool {
    g[1][c].len() > 0 && g[1][c].last() == ':'
}

/// The widths of all columns of the grid, by the measure `m`.
pub open spec fn widths_of(g: Seq<Seq<Seq<char>>>, m: spec_fn(Seq<char>) -> int) -> Seq<int> {
    Seq::new(g[0].len(), |c: int| col_width(g, c, m))
}

/// The right-alignment flags of all columns of the grid.
pub open spec fn rights_of(g: Seq<Seq<Seq<char>>>) -> Seq<bool> {
    Seq::new(g[0].len(), |c: int| is_right(g, c))
}

/// One cell padded to its column width, on the side its alignment asks.
pub open spec fn pad_spec(s: Seq<char>, w: int, right: bool) -> Seq<char> {
    if right {
        pad_left(s, w)
    } else {
        pad_right(s, w)
    }
}

/// A title or data line: the padded cells joined by `" | "`, wrapped
/// in `"| "` and `" |"`, with a final line break.
pub open spec fn content_line(row: Seq<Seq<char>>, widths: Seq<int>, rights: Seq<bool>) -> Seq<
    char,
> {
    seq!['|', ' '] + join_cells(
        Seq::new(row.len(), |c: int| pad_spec(row[c], widths[c], rights[c])),
        seq![' ', '|', ' '],
    ) + seq![' ', '|', '\n']
}

/// One delimiter-row cell: the marker text filled with dashes on its
/// left out to the column width plus two.
pub open spec fn delim_cell(mark: Seq<char>, w: int) -> Seq<char> {
    if mark.len() >= w + 2 {
        mark
    } else {
        repeat_char('-', (w + 2 - mark.len()) as nat) + mark
    }
}

/// The delimiter line: the dash-filled cells joined and wrapped by
/// single `|` characters, with a final line break.
pub open spec fn delim_line(row: Seq<Seq<char>>, widths: Seq<int>) -> Seq<char> {
    seq!['|'] + join_cells(Seq::new(row.len(), |c: int| delim_cell(row[c], widths[c])), seq!['|'])
        + seq!['|', '\n']
}

/// Line `i` of the rendered table: the delimiter line for row one,
/// a content line for every other row.
pub open spec fn line_of(
    g: Seq<Seq<Seq<char>>>,
    widths: Seq<int>,
    rights: Seq<bool>,
    i: int,
) -> Seq<char> {
    if i == 1 {
        delim_line(g[1], widths)
    } else {
        content_line(g[i], widths, rights)
    }
}

/// The first `upto` rendered lines, concatenated.
pub open spec fn render_upto(
    g: Seq<Seq<Seq<char>>>,
    widths: Seq<int>,
    rights: Seq<bool>,
    upto: int,
) -> Seq<char>
    decreases upto,
{
    if upto <= 0 {
        Seq::empty()
    } else {
        render_upto(g, widths, rights, upto - 1) + line_of(g, widths, rights, upto - 1)
    }
}

/// The whole table rendered in plain mode: widths by character count.
pub open spec fn render_plain(g: Seq<Seq<Seq<char>>>) -> Seq<char> {
    render_upto(g, widths_of(g, char_len()), rights_of(g), g.len() as int)
}

/// The grid projected through a column-index sequence: the same rows,
/// each rebuilt by picking the chosen columns in the chosen order.
pub open spec fn select_spec(g: Seq<Seq<Seq<char>>>, cols: Seq<usize>) -> Seq<Seq<Seq<char>>> {
    Seq::new(g.len(), |r: int| Seq::new(cols.len(), |k: int| g[r][cols[k] as int]))
}

/// The two header rows (or more, one per line of the definition):
/// each line split on `|`, each field trimmed.
pub open spec fn header_grid(h: Seq<char>) -> Seq<Seq<Seq<char>>> {
    spec_split(h, '\n').map_values(
        |line: Seq<char>| spec_split(line, '|').map_values(|f: Seq<char>| trim_spec(f)),
    )
}

/// No cell of column `c` measures wider than the column.
pub proof fn lemma_col_width_bound(
    g: Seq<Seq<Seq<char>>>,
    c: int,
    upto: int,
    m: spec_fn(Seq<char>) -> int,
    r: int,
)
    requires
        0 <= r < upto,
    ensures
        col_width_upto(g, c, upto, m) >= m(g[r][c]),
        col_width_upto(g, c, upto, m) >= 0,
    decreases upto,
{
    let prev = col_width_upto(g, c, upto - 1, m);
    lemma_col_width_nonneg(g, c, upto - 1, m);
    if r < upto - 1 {
        lemma_col_width_bound(g, c, upto - 1, m, r);
    }
    assert(col_width_upto(g, c, upto, m) >= prev);
    assert(col_width_upto(g, c, upto, m) >= m(g[upto - 1][c]));
}

pub proof fn lemma_col_width_nonneg(
    g: Seq<Seq<Seq<char>>>,
    c: int,
    upto: int,
    m: spec_fn(Seq<char>) -> int,
)
    ensures
        col_width_upto(g, c, upto, m) >= 0,
    decreases upto,
{
    if upto > 0 {
        lemma_col_width_nonneg(g, c, upto - 1, m);
    }
}

} // verus!
