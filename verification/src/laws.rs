//! Laws of the layout engine, stated and proved over the same spec
//! functions the rendering contracts use.
use crate::layout::char_len;
use crate::layout::col_width;
use crate::layout::content_line;
use crate::layout::delim_cell;
use crate::layout::delim_line;
use crate::layout::lemma_col_width_bound;
use crate::layout::line_of;
use crate::layout::pad_spec;
use crate::layout::select_spec;
use crate::colored::colored_cell;
use crate::colored::colored_content_line;
use crate::colored::grapheme_count;
use crate::colored::stripped;
use crate::markdown_with_post;
use crate::text::find_sub;
use crate::text::insert_at;
use crate::text::lemma_find_sub_matches;
use crate::text::matches_at;
use crate::text::dec_sorted;
use crate::text::dec_str;
use crate::text::join_cells;
use crate::text::lemma_dec_injective;
use crate::text::lemma_lex_irrefl;
use crate::text::lemma_lex_trans;
use crate::text::lex_lt;
use crate::text::pad_left;
use crate::text::pad_right;
use crate::text::repeat_char;
use crate::VegView;
use vstd::prelude::*;

verus! {

/// How often `ch` occurs in `s`.
pub open spec fn count_char(s: Seq<char>, ch: char) -> int
    decreases s.len(),
{
    if s.len() == 0 {
        0
    } else {
        count_char(s.drop_last(), ch) + if s.last() == ch {
            1int
        } else {
            0int
        }
    }
}

pub proof fn lemma_count_concat(a: Seq<char>, b: Seq<char>, ch: char)
    ensures
        count_char(a + b, ch) == count_char(a, ch) + count_char(b, ch),
    decreases b.len(),
{
    if b.len() == 0 {
        assert(a + b =~= a);
    } else {
        lemma_count_concat(a, b.drop_last(), ch);
        assert((a + b).drop_last() =~= a + b.drop_last());
        assert((a + b).last() == b.last());
    }
}

pub proof fn lemma_count_repeat(c: char, n: nat, ch: char)
    ensures
        count_char(repeat_char(c, n), ch) == if c == ch {
            n as int
        } else {
            0
        },
    decreases n,
{
    if n > 0 {
        lemma_count_repeat(c, (n - 1) as nat, ch);
        assert(repeat_char(c, n).drop_last() =~= repeat_char(c, (n - 1) as nat));
        assert(repeat_char(c, n).last() == c);
    }
}

/// Joining pipe-free cells puts exactly one `sep`'s worth of `ch`
/// between each neighbouring pair.
pub proof fn lemma_count_join(cells: Seq<Seq<char>>, sep: Seq<char>, ch: char)
    requires
        forall|c: int| 0 <= c < cells.len() ==> count_char(#[trigger] cells[c], ch) == 0,
    ensures
        count_char(join_cells(cells, sep), ch) == if cells.len() <= 1 {
            0int
        } else {
            (cells.len() - 1) * count_char(sep, ch)
        },
    decreases cells.len(),
{
    if cells.len() > 1 {
        lemma_count_join(cells.drop_first(), sep, ch);
        lemma_count_concat(cells[0] + sep, join_cells(cells.drop_first(), sep), ch);
        lemma_count_concat(cells[0], sep, ch);
        assert(forall|c: int|
            0 <= c < cells.drop_first().len() ==> count_char(
                #[trigger] cells.drop_first()[c],
                ch,
            ) == 0);
        let n = cells.len();
        let k = count_char(sep, ch);
        assert((n - 1) * k == k + (n - 2) * k) by (nonlinear_arith);
    }
}

/// Space padding adds no `|` to a pipe-free cell.
pub proof fn lemma_count_pad(s: Seq<char>, w: int, right: bool)
    requires
        count_char(s, '|') == 0,
    ensures
        count_char(pad_spec(s, w, right), '|') == 0,
{
    if s.len() < w {
        lemma_count_repeat(' ', (w - s.len()) as nat, '|');
        if right {
            lemma_count_concat(repeat_char(' ', (w - s.len()) as nat), s, '|');
        } else {
            lemma_count_concat(s, repeat_char(' ', (w - s.len()) as nat), '|');
        }
    }
}

/// Column count invariant, content rows: a line rendered from a row of
/// pipe-free cells holds exactly one `|` more than the row has cells,
/// that is, one less than that count of internal separators.
pub proof fn lemma_content_line_pipes(row: Seq<Seq<char>>, widths: Seq<int>, rights: Seq<bool>)
    requires
        row.len() >= 1,
        forall|c: int| 0 <= c < row.len() ==> count_char(#[trigger] row[c], '|') == 0,
    ensures
        count_char(content_line(row, widths, rights), '|') == row.len() + 1,
{
    let cells = Seq::new(row.len(), |c: int| pad_spec(row[c], widths[c], rights[c]));
    assert forall|c: int| 0 <= c < cells.len() implies count_char(#[trigger] cells[c], '|')
        == 0 by {
        lemma_count_pad(row[c], widths[c], rights[c]);
    }
    lemma_count_join(cells, seq![' ', '|', ' '], '|');
    assert(count_char(seq![' ', '|', ' '], '|') == 1) by {
        assert(count_char(Seq::<char>::empty(), '|') == 0);
        assert(seq![' '].drop_last() =~= Seq::<char>::empty());
        assert(seq![' '].last() == ' ');
        assert(count_char(seq![' '], '|') == 0);
        assert(seq![' ', '|'].drop_last() =~= seq![' ']);
        assert(seq![' ', '|'].last() == '|');
        assert(count_char(seq![' ', '|'], '|') == 1);
        assert(seq![' ', '|', ' '].drop_last() =~= seq![' ', '|']);
        assert(seq![' ', '|', ' '].last() == ' ');
    }
    assert(count_char(seq!['|', ' '], '|') == 1) by {
        assert(count_char(Seq::<char>::empty(), '|') == 0);
        assert(seq!['|'].drop_last() =~= Seq::<char>::empty());
        assert(seq!['|'].last() == '|');
        assert(count_char(seq!['|'], '|') == 1);
        assert(seq!['|', ' '].drop_last() =~= seq!['|']);
        assert(seq!['|', ' '].last() == ' ');
    }
    assert(count_char(seq![' ', '|', '\n'], '|') == 1) by {
        assert(count_char(Seq::<char>::empty(), '|') == 0);
        assert(seq![' '].drop_last() =~= Seq::<char>::empty());
        assert(seq![' '].last() == ' ');
        assert(count_char(seq![' '], '|') == 0);
        assert(seq![' ', '|'].drop_last() =~= seq![' ']);
        assert(seq![' ', '|'].last() == '|');
        assert(count_char(seq![' ', '|'], '|') == 1);
        assert(seq![' ', '|', '\n'].drop_last() =~= seq![' ', '|']);
        assert(seq![' ', '|', '\n'].last() == '\n');
    }
    lemma_count_concat(seq!['|', ' '], join_cells(cells, seq![' ', '|', ' ']), '|');
    lemma_count_concat(
        seq!['|', ' '] + join_cells(cells, seq![' ', '|', ' ']),
        seq![' ', '|', '\n'],
        '|',
    );
    if row.len() <= 1 {
    } else {
        assert((cells.len() - 1) * 1 == cells.len() - 1) by (nonlinear_arith);
    }
}

/// Column count invariant, the delimiter row: the same count holds of
/// the line rendered from pipe-free alignment markers.
pub proof fn lemma_delim_line_pipes(row: Seq<Seq<char>>, widths: Seq<int>)
    requires
        row.len() >= 1,
        forall|c: int| 0 <= c < row.len() ==> count_char(#[trigger] row[c], '|') == 0,
    ensures
        count_char(delim_line(row, widths), '|') == row.len() + 1,
{
    let cells = Seq::new(row.len(), |c: int| delim_cell(row[c], widths[c]));
    assert forall|c: int| 0 <= c < cells.len() implies count_char(#[trigger] cells[c], '|')
        == 0 by {
        let m = row[c];
        let w = widths[c];
        if m.len() < w + 2 {
            lemma_count_repeat('-', (w + 2 - m.len()) as nat, '|');
            lemma_count_concat(repeat_char('-', (w + 2 - m.len()) as nat), m, '|');
        }
    }
    lemma_count_join(cells, seq!['|'], '|');
    assert(count_char(seq!['|'], '|') == 1) by {
        assert(count_char(Seq::<char>::empty(), '|') == 0);
        assert(seq!['|'].drop_last() =~= Seq::<char>::empty());
        assert(seq!['|'].last() == '|');
    }
    assert(count_char(seq!['|', '\n'], '|') == 1) by {
        assert(count_char(Seq::<char>::empty(), '|') == 0);
        assert(seq!['|'].drop_last() =~= Seq::<char>::empty());
        assert(seq!['|'].last() == '|');
        assert(count_char(seq!['|'], '|') == 1);
        assert(seq!['|', '\n'].drop_last() =~= seq!['|']);
        assert(seq!['|', '\n'].last() == '\n');
    }
    lemma_count_concat(seq!['|'], join_cells(cells, seq!['|']), '|');
    lemma_count_concat(seq!['|'] + join_cells(cells, seq!['|']), seq!['|', '\n'], '|');
    if row.len() <= 1 {
    } else {
        assert((cells.len() - 1) * 1 == cells.len() - 1) by (nonlinear_arith);
    }
}

/// Column count invariant, whole lines: every line of the rendered
/// table built from pipe-free cells holds exactly `ncols + 1` pipes,
/// that is, `ncols - 1` internal separators.
pub proof fn lemma_line_pipes(
    g: Seq<Seq<Seq<char>>>,
    widths: Seq<int>,
    rights: Seq<bool>,
    ncols: int,
    i: int,
)
    requires
        0 <= i < g.len(),
        g.len() >= 2,
        ncols >= 1,
        forall|r: int| 0 <= r < g.len() ==> (#[trigger] g[r]).len() == ncols,
        forall|r: int, c: int|
            0 <= r < g.len() && 0 <= c < ncols ==> count_char(#[trigger] g[r][c], '|') == 0,
    ensures
        count_char(line_of(g, widths, rights, i), '|') == ncols + 1,
{
    if i == 1 {
        lemma_delim_line_pipes(g[1], widths);
    } else {
        lemma_content_line_pipes(g[i], widths, rights);
    }
}

/// The length of a padded cell: its own length or the column width,
/// whichever is larger.
pub proof fn lemma_pad_len(s: Seq<char>, w: int, right: bool)
    ensures
        pad_spec(s, w, right).len() == if s.len() >= w {
            s.len() as int
        } else {
            w
        },
{
}

/// Width monotonicity: a rendered cell is at least as long as any
/// cell of its column, so padding never truncates.
pub proof fn lemma_width_monotonic(g: Seq<Seq<Seq<char>>>, r: int, r2: int, c: int, right: bool)
    requires
        0 <= r < g.len(),
        0 <= r2 < g.len(),
    ensures
        pad_spec(g[r][c], col_width(g, c, char_len()), right).len() >= g[r2][c].len(),
{
    lemma_col_width_bound(g, c, g.len() as int, char_len(), r2);
    lemma_col_width_bound(g, c, g.len() as int, char_len(), r);
    lemma_pad_len(g[r][c], col_width(g, c, char_len()), right);
}

/// Alignment correctness: a right-aligned cell keeps its text flush
/// to the right edge of its field, behind nothing but spaces.
pub proof fn lemma_right_flush(s: Seq<char>, w: int)
    ensures
        pad_left(s, w).skip(pad_left(s, w).len() - s.len()) =~= s,
        forall|j: int| 0 <= j < pad_left(s, w).len() - s.len() ==> pad_left(s, w)[j] == ' ',
{
}

/// Alignment correctness, the left-aligned side: the cell's text
/// starts at the left edge of its field, followed by nothing but
/// spaces.
pub proof fn lemma_left_flush(s: Seq<char>, w: int)
    ensures
        pad_right(s, w).take(s.len() as int) =~= s,
        forall|j: int| s.len() <= j < pad_right(s, w).len() ==> pad_right(s, w)[j] == ' ',
{
}

/// Selection correctness: column `k` of the projected grid is column
/// `cols[k]` of the grid it was built from, in every row; rows are
/// neither reordered nor dropped.
pub proof fn lemma_selection_correct(g: Seq<Seq<Seq<char>>>, cols: Seq<usize>, r: int, k: int)
    requires
        0 <= r < g.len(),
        0 <= k < cols.len(),
    ensures
        select_spec(g, cols).len() == g.len(),
        select_spec(g, cols)[r].len() == cols.len(),
        select_spec(g, cols)[r][k] == g[r][cols[k] as int],
{
}

/// Idempotence: the rendering contract pins the whole result as a
/// function of the table's contents and arguments, so two successful
/// render calls on the same table and arguments return the same text.
pub proof fn lemma_render_deterministic(
    v: VegView,
    hdr: Option<Seq<char>>,
    cols: Option<Seq<usize>>,
    out1: Seq<char>,
    out2: Seq<char>,
)
    requires
        markdown_with_post(v, hdr, cols, Ok(out1)),
        markdown_with_post(v, hdr, cols, Ok(out2)),
    ensures
        out1 == out2,
{
}

/// Inserting spaces into a pipe-free string leaves it pipe-free, and
/// lengthens it by exactly the inserted run.
pub proof fn lemma_count_insert(s: Seq<char>, p: int, n: nat)
    requires
        0 <= p <= s.len(),
    ensures
        count_char(insert_at(s, p, repeat_char(' ', n)), '|') == count_char(s, '|'),
        insert_at(s, p, repeat_char(' ', n)).len() == s.len() + n,
{
    lemma_count_concat(s.take(p), repeat_char(' ', n), '|');
    lemma_count_concat(s.take(p) + repeat_char(' ', n), s.skip(p), '|');
    lemma_count_repeat(' ', n, '|');
    lemma_count_concat(s.take(p), s.skip(p), '|');
    assert(s.take(p) + s.skip(p) =~= s);
}

/// Width monotonicity, color-aware mode: a padded cell whose visible
/// text was located is at least as long as the cell it came from, so
/// color-aware padding never truncates either.
pub proof fn lemma_colored_cell_no_truncate(cell: Seq<char>, w: int, right: bool)
    requires
        colored_cell(cell, w, right) is Some,
        find_sub(pad_spec(cell, w, right), stripped(pad_spec(cell, w, right))) is Some,
    ensures
        colored_cell(cell, w, right)->0.len() == pad_spec(cell, w, right).len() + w
            - grapheme_count(stripped(pad_spec(cell, w, right))),
        colored_cell(cell, w, right)->0.len() >= cell.len(),
{
    let s = pad_spec(cell, w, right);
    let vis = stripped(s);
    let g = grapheme_count(vis) as int;
    let p = find_sub(s, vis)->0;
    lemma_find_sub_matches(s, vis, 0);
    assert(matches_at(s, vis, p));
    if right {
        lemma_count_insert(s, p, (w - g) as nat);
    } else {
        lemma_count_insert(s, p + vis.len(), (w - g) as nat);
    }
}

/// Column count invariant, color-aware content rows: with pipe-free
/// cells whose visible spans were located, a color-aware line holds
/// exactly one `|` more than the row has cells.
pub proof fn lemma_colored_content_line_pipes(
    row: Seq<Seq<char>>,
    widths: Seq<int>,
    rights: Seq<bool>,
)
    requires
        row.len() >= 1,
        forall|c: int| 0 <= c < row.len() ==> count_char(#[trigger] row[c], '|') == 0,
        forall|c: int|
            0 <= c < row.len() ==> (#[trigger] colored_cell(row[c], widths[c], rights[c])) is Some,
        forall|c: int|
            0 <= c < row.len() ==> find_sub(
                #[trigger] pad_spec(row[c], widths[c], rights[c]),
                stripped(pad_spec(row[c], widths[c], rights[c])),
            ) is Some,
    ensures
        count_char(colored_content_line(row, widths, rights), '|') == row.len() + 1,
{
    let cells = Seq::new(row.len(), |c: int| colored_cell(row[c], widths[c], rights[c])->0);
    assert forall|c: int| 0 <= c < cells.len() implies count_char(#[trigger] cells[c], '|')
        == 0 by {
        let s = pad_spec(row[c], widths[c], rights[c]);
        let vis = stripped(s);
        let g = grapheme_count(vis) as int;
        let p = find_sub(s, vis)->0;
        lemma_find_sub_matches(s, vis, 0);
        assert(matches_at(s, vis, p));
        lemma_count_pad(row[c], widths[c], rights[c]);
        if rights[c] {
            lemma_count_insert(s, p, (widths[c] - g) as nat);
        } else {
            lemma_count_insert(s, p + vis.len(), (widths[c] - g) as nat);
        }
    }
    lemma_count_join(cells, seq![' ', '|', ' '], '|');
    assert(count_char(seq![' ', '|', ' '], '|') == 1) by {
        assert(count_char(Seq::<char>::empty(), '|') == 0);
        assert(seq![' '].drop_last() =~= Seq::<char>::empty());
        assert(seq![' '].last() == ' ');
        assert(count_char(seq![' '], '|') == 0);
        assert(seq![' ', '|'].drop_last() =~= seq![' ']);
        assert(seq![' ', '|'].last() == '|');
        assert(count_char(seq![' ', '|'], '|') == 1);
        assert(seq![' ', '|', ' '].drop_last() =~= seq![' ', '|']);
        assert(seq![' ', '|', ' '].last() == ' ');
    }
    assert(count_char(seq!['|', ' '], '|') == 1) by {
        assert(count_char(Seq::<char>::empty(), '|') == 0);
        assert(seq!['|'].drop_last() =~= Seq::<char>::empty());
        assert(seq!['|'].last() == '|');
        assert(count_char(seq!['|'], '|') == 1);
        assert(seq!['|', ' '].drop_last() =~= seq!['|']);
        assert(seq!['|', ' '].last() == ' ');
    }
    assert(count_char(seq![' ', '|', '\n'], '|') == 1) by {
        assert(count_char(Seq::<char>::empty(), '|') == 0);
        assert(seq![' '].drop_last() =~= Seq::<char>::empty());
        assert(seq![' '].last() == ' ');
        assert(count_char(seq![' '], '|') == 0);
        assert(seq![' ', '|'].drop_last() =~= seq![' ']);
        assert(seq![' ', '|'].last() == '|');
        assert(count_char(seq![' ', '|'], '|') == 1);
        assert(seq![' ', '|', '\n'].drop_last() =~= seq![' ', '|']);
        assert(seq![' ', '|', '\n'].last() == '\n');
    }
    lemma_count_concat(seq!['|', ' '], join_cells(cells, seq![' ', '|', ' ']), '|');
    lemma_count_concat(
        seq!['|', ' '] + join_cells(cells, seq![' ', '|', ' ']),
        seq![' ', '|', '\n'],
        '|',
    );
    if row.len() <= 1 {
    } else {
        assert((cells.len() - 1) * 1 == cells.len() - 1) by (nonlinear_arith);
    }
}

/// Invalid-selection rejection is fully pinned: two index sequences
/// that are both strictly sorted by their decimal numerals and hold
/// the same values are the same sequence, so the rejected-index list
/// of a failing render call is unique.
pub proof fn lemma_sorted_numerals_unique(a: Seq<usize>, b: Seq<usize>)
    requires
        dec_sorted(a),
        dec_sorted(b),
        forall|x: usize| #[trigger] a.contains(x) <==> b.contains(x),
    ensures
        a =~= b,
    decreases a.len(),
{
    if a.len() == 0 {
        if b.len() > 0 {
            assert(b.contains(b[0]));
            assert(a.contains(b[0]));
            assert(false);
        }
        assert(a =~= b);
    } else {
        assert(a.contains(a[0]));
        assert(b.contains(a[0]));
        let j = choose|j: int| 0 <= j < b.len() && b[j] == a[0];
        assert(b.contains(b[0]));
        assert(a.contains(b[0]));
        let i = choose|i: int| 0 <= i < a.len() && a[i] == b[0];
        if a[0] != b[0] {
            assert(j != 0 && i != 0);
            assert(lex_lt(dec_str(b[0] as nat), dec_str(a[0] as nat)));
            assert(lex_lt(dec_str(a[0] as nat), dec_str(b[0] as nat)));
            lemma_lex_trans(
                dec_str(a[0] as nat),
                dec_str(b[0] as nat),
                dec_str(a[0] as nat),
            );
            lemma_lex_irrefl(dec_str(a[0] as nat));
            assert(false);
        }
        let at = a.drop_first();
        let bt = b.drop_first();
        assert forall|p: int, q: int| 0 <= p < q < at.len() implies lex_lt(
            dec_str(at[p] as nat),
            dec_str(at[q] as nat),
        ) by {
            assert(at[p] == a[p + 1] && at[q] == a[q + 1]);
        }
        assert forall|p: int, q: int| 0 <= p < q < bt.len() implies lex_lt(
            dec_str(bt[p] as nat),
            dec_str(bt[q] as nat),
        ) by {
            assert(bt[p] == b[p + 1] && bt[q] == b[q + 1]);
        }
        assert forall|x: usize| #[trigger] at.contains(x) <==> bt.contains(x) by {
            tail_membership(a, x);
            tail_membership(b, x);
        }
        lemma_sorted_numerals_unique(at, bt);
        assert forall|t: int| 0 <= t < a.len() implies a[t] == b[t] by {
            if t > 0 {
                assert(at[t - 1] == bt[t - 1]);
            }
        }
        assert(a =~= b);
    }
}

proof fn tail_membership(a: Seq<usize>, x: usize)
    requires
        a.len() > 0,
        dec_sorted(a),
    ensures
        a.drop_first().contains(x) <==> (a.contains(x) && x != a[0]),
{
    let at = a.drop_first();
    if at.contains(x) {
        let k = choose|k: int| 0 <= k < at.len() && at[k] == x;
        assert(a[k + 1] == x);
        assert(a.contains(x));
        assert(lex_lt(dec_str(a[0] as nat), dec_str(a[k + 1] as nat)));
        lemma_lex_irrefl(dec_str(a[0] as nat));
        assert(x != a[0]);
    }
    if a.contains(x) && x != a[0] {
        let k = choose|k: int| 0 <= k < a.len() && a[k] == x;
        assert(k != 0);
        assert(at[k - 1] == x);
        assert(at.contains(x));
    }
}

/// Idempotence, color-aware mode: the same holds of two successful
/// color-aware render calls.
pub proof fn lemma_render_colored_deterministic(
    v: VegView,
    hdr: Option<Seq<char>>,
    cols: Option<Seq<usize>>,
    out1: Seq<char>,
    out2: Seq<char>,
)
    requires
        crate::colored::markdown_with_colored_post(v, hdr, cols, Ok(out1)),
        crate::colored::markdown_with_colored_post(v, hdr, cols, Ok(out2)),
    ensures
        out1 == out2,
{
}

} // verus!
