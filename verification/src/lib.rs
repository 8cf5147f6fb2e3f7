//! Render sequences of records as GitHub-Flavored-Markdown pipe tables.
//!
//! A table is built from a two-line header definition (column titles,
//! then alignment markers) and a list of records, each contributing one
//! row of cells. Rendering computes per-column widths, pads every cell
//! per its column's alignment, and serializes the delimiter row from
//! dash runs. Columns can be projected, reordered or duplicated by
//! index. The [`colored`] module renders cells that carry terminal
//! escape sequences, measuring only their visible text.
use vstd::prelude::*;

pub mod colored;
pub mod laws;
pub mod layout;
pub mod text;

use crate::layout::char_len;
use crate::layout::col_width;
use crate::layout::col_width_upto;
use crate::layout::content_line;
use crate::layout::delim_cell;
use crate::layout::delim_line;
use crate::layout::header_grid;
use crate::layout::is_right;
use crate::layout::pad_spec;
use crate::layout::render_plain;
use crate::layout::render_upto;
use crate::layout::rights_of;
use crate::layout::select_spec;
use crate::layout::uniform;
use crate::layout::widths_of;
use crate::text::dec_of;
use crate::text::dec_sorted;
use crate::text::dec_str;
use crate::text::distinct_seq;
use crate::text::join_cells;
use crate::text::lemma_join_push;
use crate::text::lemma_repeat_char_concat;
use crate::text::pad_cell;
use crate::text::repeat_char;
use crate::text::sort_by_numeral;
use crate::text::spec_split;
use crate::text::split_char;
use crate::text::trim_str;
use vstd::string::StrSliceExecFns;
use vstd::string::StringExecFns;

verus! {

/// Trait that a record type implements to supply one table row:
/// one cell of text per column, in header order.
pub trait Table {
    fn row(&self) -> Vec<String>;
}

/// A `Vec`-like collection of records that renders as a markdown table.
pub struct Veg {
    header: String,
    rows: Vec<Vec<String>>,
}

/// The contents of a [`Veg`] as mathematical values: the header
/// definition and the stored data rows, as sequences of characters.
pub struct VegView {
    pub header: Seq<char>,
    pub rows: Seq<Seq<Seq<char>>>,
}

impl View for Veg {
    type V = VegView;

    closed spec fn view(&self) -> VegView {
        VegView { header: self.header@, rows: self.rows.deep_view() }
    }
}

/// Why a render call returned no table.
#[derive(Debug)]
pub enum Error {
    /// The requested column indices that lie outside the table,
    /// without duplicates, in the order their decimal numerals sort.
    InvalidColumnIndexes(Vec<usize>),
    /// A row's cell count differs from the first header line's field
    /// count, or the grid has fewer than two rows. Laying out such a
    /// grid has no defined meaning, so it is refused up front.
    RowWidthMismatch,
    /// A cell's visible text cannot be padded without splitting one of
    /// its escape sequences.
    UnpaddableCell,
}

/// The message text of [`Error::InvalidColumnIndexes`].
pub open spec fn invalid_message(v: Seq<usize>) -> Seq<char> {
    "Invalid column indexes: "@ + join_cells(v.map_values(|x: usize| dec_str(x as nat)), ", "@)
}

/// The message text of an [`Error`].
pub open spec fn error_message(e: Error) -> Seq<char> {
    match e {
        Error::InvalidColumnIndexes(v) => invalid_message(v@),
        Error::RowWidthMismatch => "Row width does not match the table header"@,
        Error::UnpaddableCell => "Cannot pad a cell around its escape sequences"@,
    }
}

impl Error {
    /// Render the error as text.
    pub fn message(&self) -> (m: String)
        ensures
            m@ == error_message(*self),
    {
        match self {
            Error::InvalidColumnIndexes(v) => {
                let ghost parts = v@.map_values(|x: usize| dec_str(x as nat));
                let mut m = String::new();
                m.append("Invalid column indexes: ");
                let mut i: usize = 0;
                proof {
                    assert(m@ =~= "Invalid column indexes: "@ + join_cells(parts.take(0), ", "@));
                }
                while i < v.len()
                    invariant
                        i <= v@.len(),
                        parts == v@.map_values(|x: usize| dec_str(x as nat)),
                        m@ == "Invalid column indexes: "@ + join_cells(parts.take(i as int), ", "@),
                    decreases v@.len() - i,
                {
                    proof {
                        lemma_join_push(parts.take(i as int), ", "@, parts[i as int]);
                        assert(parts.take(i + 1) =~= parts.take(i as int).push(parts[i as int]));
                    }
                    if i > 0 {
                        m.append(", ");
                    }
                    let d = dec_of(v[i]);
                    m.append(d.as_str());
                    i = i + 1;
                    proof {
                        assert(m@ =~= "Invalid column indexes: "@ + join_cells(
                            parts.take(i as int),
                            ", "@,
                        ));
                    }
                }
                proof {
                    assert(parts.take(v@.len() as int) =~= parts);
                }
                m
            },
            Error::RowWidthMismatch => {
                let m = "Row width does not match the table header";
                m.to_owned()
            },
            Error::UnpaddableCell => {
                let m = "Cannot pad a cell around its escape sequences";
                m.to_owned()
            },
        }
    }
}

/// The header definition a render call works from: the override when
/// one is given, the table's own otherwise.
pub open spec fn chosen_header(v: VegView, hdr: Option<Seq<char>>) -> Seq<char> {
    match hdr {
        Some(h) => h,
        None => v.header,
    }
}

/// The assembled grid: the header rows, then every stored data row.
pub open spec fn full_grid(v: VegView, hdr: Option<Seq<char>>) -> Seq<Seq<Seq<char>>> {
    header_grid(chosen_header(v, hdr)) + v.rows
}

/// Some requested index lies outside the first `ncols` columns.
pub open spec fn has_invalid(cols: Seq<usize>, ncols: int) -> bool {
    exists|k: int| 0 <= k < cols.len() && (#[trigger] cols[k]) as int >= ncols
}

/// The grid has its two header rows and every row has the column
/// count the first row sets.
pub open spec fn well_shaped(g: Seq<Seq<Seq<char>>>) -> bool {
    g.len() >= 2 && uniform(g, g[0].len() as int)
}

/// The grid a render call lays out: the assembled grid, projected
/// through the column selection when one is given.
pub open spec fn final_grid(v: VegView, hdr: Option<Seq<char>>, cols: Option<Seq<usize>>) -> Seq<
    Seq<Seq<char>>,
> {
    match cols {
        Some(cs) => select_spec(full_grid(v, hdr), cs),
        None => full_grid(v, hdr),
    }
}

/// What a plain-mode render call returns: the rendered table for a
/// well-shaped grid and a valid selection, and the exact error
/// otherwise. The invalid-index payload is pinned by membership,
/// distinctness and sortedness.
pub open spec fn markdown_with_post(
    v: VegView,
    hdr: Option<Seq<char>>,
    cols: Option<Seq<usize>>,
    r: Result<Seq<char>, Error>,
) -> bool {
    let g0 = full_grid(v, hdr);
    let nc = g0[0].len() as int;
    match r {
        Ok(out) => {
            &&& (cols is Some ==> !has_invalid(cols->0, nc))
            &&& well_shaped(g0)
            &&& out == render_plain(final_grid(v, hdr, cols))
        },
        Err(e) => match e {
            Error::InvalidColumnIndexes(inv) => {
                &&& cols is Some
                &&& has_invalid(cols->0, nc)
                &&& dec_sorted(inv@)
                &&& distinct_seq(inv@)
                &&& (forall|a: usize| #[trigger]
                    inv@.contains(a) <==> (cols->0.contains(a) && a as int >= nc))
            },
            Error::RowWidthMismatch => {
                &&& (cols is Some ==> !has_invalid(cols->0, nc))
                &&& !well_shaped(g0)
            },
            Error::UnpaddableCell => false,
        },
    }
}

/// Convert the header definition into the initial grid: the
/// definition split on line breaks, each line split on `|`, each
/// field trimmed.
pub fn process_header(s: &str) -> (g: Vec<Vec<String>>)
    ensures
        g.deep_view() == header_grid(s@),
        g@.len() >= 1,
{
    let lines = split_char(s, '\n');
    let mut g: Vec<Vec<String>> = Vec::new();
    let mut i: usize = 0;
    proof {
        assert(g.deep_view() =~= header_grid(s@).take(0));
    }
    while i < lines.len()
        invariant
            i <= lines@.len(),
            lines.deep_view() == spec_split(s@, '\n'),
            g.deep_view() == header_grid(s@).take(i as int),
            g@.len() == i,
        decreases lines@.len() - i,
    {
        let line = &lines[i];
        proof {
            assert(lines.deep_view()[i as int] == lines@[i as int]@);
        }
        let fields = split_char(line.as_str(), '|');
        let mut row: Vec<String> = Vec::new();
        let mut j: usize = 0;
        proof {
            assert(row.deep_view() =~= header_grid(s@)[i as int].take(0));
        }
        while j < fields.len()
            invariant
                j <= fields@.len(),
                i < lines@.len(),
                lines.deep_view() == spec_split(s@, '\n'),
                fields.deep_view() == spec_split(lines@[i as int]@, '|'),
                lines.deep_view()[i as int] == lines@[i as int]@,
                row.deep_view() == header_grid(s@)[i as int].take(j as int),
                row@.len() == j,
            decreases fields@.len() - j,
        {
            let f = &fields[j];
            proof {
                assert(fields.deep_view()[j as int] == fields@[j as int]@);
            }
            let t = trim_str(f.as_str());
            row.push(t);
            proof {
                assert(row.deep_view() =~= header_grid(s@)[i as int].take(j + 1));
            }
            j = j + 1;
        }
        proof {
            assert(row.deep_view() =~= header_grid(s@)[i as int]);
        }
        g.push(row);
        proof {
            assert(g.deep_view() =~= header_grid(s@).take(i + 1));
        }
        i = i + 1;
    }
    proof {
        crate::text::lemma_split_len(s@, '\n');
        assert(g.deep_view() =~= header_grid(s@));
    }
    g
}

/// Does `v` hold the value `x`?
fn contains_val(v: &Vec<usize>, x: usize) -> (b: bool)
    ensures
        b == v@.contains(x),
{
    let mut i: usize = 0;
    while i < v.len()
        invariant
            i <= v@.len(),
            forall|t: int| 0 <= t < i ==> v@[t] != x,
        decreases v@.len() - i,
    {
        if v[i] == x {
            return true;
        }
        i = i + 1;
    }
    false
}

/// The distinct requested indices that lie outside the table, sorted
/// into the order their decimal numerals take as text.
fn invalid_columns(cols: &[usize], ncols: usize) -> (inv: Vec<usize>)
    ensures
        dec_sorted(inv@),
        distinct_seq(inv@),
        forall|a: usize| #[trigger] inv@.contains(a) <==> (cols@.contains(a) && a >= ncols),
{
    let mut raw: Vec<usize> = Vec::new();
    let mut i: usize = 0;
    proof {
        assert(cols@.take(0) =~= Seq::<usize>::empty());
    }
    while i < cols.len()
        invariant
            i <= cols@.len(),
            distinct_seq(raw@),
            forall|a: usize| #[trigger]
                raw@.contains(a) <==> (cols@.take(i as int).contains(a) && a >= ncols),
        decreases cols@.len() - i,
    {
        let c = cols[i];
        let ghost old_raw = raw@;
        if c >= ncols && !contains_val(&raw, c) {
            raw.push(c);
        }
        proof {
            assert(cols@.take(i + 1) =~= cols@.take(i as int).push(cols@[i as int]));
            assert forall|a: usize| #[trigger]
                raw@.contains(a) <==> (cols@.take(i + 1).contains(a) && a >= ncols) by {
                if raw@.len() > old_raw.len() {
                    assert(raw@ =~= old_raw.push(c));
                    if raw@.contains(a) {
                        let t = choose|t: int| 0 <= t < raw@.len() && raw@[t] == a;
                        if t < old_raw.len() {
                            assert(old_raw[t] == a);
                        }
                    }
                    if old_raw.contains(a) {
                        let t = choose|t: int| 0 <= t < old_raw.len() && old_raw[t] == a;
                        assert(raw@[t] == a);
                    }
                    assert(raw@[old_raw.len() as int] == c);
                } else {
                    assert(raw@ == old_raw);
                }
                if cols@.take(i + 1).contains(a) && a >= ncols {
                    let t = choose|t: int| 0 <= t < i + 1 && #[trigger] cols@.take(i + 1)[t] == a;
                    if t < i {
                        assert(cols@.take(i as int)[t] == a);
                    } else {
                        assert(a == cols@[i as int]);
                    }
                }
                if cols@.take(i as int).contains(a) {
                    let t = choose|t: int| 0 <= t < i && #[trigger] cols@.take(i as int)[t] == a;
                    assert(cols@.take(i + 1)[t] == a);
                }
                if a == c && a >= ncols {
                    assert(cols@.take(i + 1)[i as int] == c);
                }
            }
        }
        i = i + 1;
    }
    proof {
        assert(cols@.take(cols@.len() as int) =~= cols@);
    }
    sort_by_numeral(raw)
}

/// The grid projected through the given column indices, every row
/// rebuilt in the requested order, duplicates kept.
fn select_grid(g: &Vec<Vec<String>>, cols: &[usize]) -> (out: Vec<Vec<String>>)
    requires
        forall|r: int, k: int|
            #![trigger g.deep_view()[r], cols@[k]]
            0 <= r < g@.len() && 0 <= k < cols@.len() ==> (cols@[k] as int)
                < g.deep_view()[r].len(),
    ensures
        out.deep_view() == select_spec(g.deep_view(), cols@),
{
    let ghost gd = g.deep_view();
    let mut out: Vec<Vec<String>> = Vec::new();
    let mut r: usize = 0;
    proof {
        assert(out.deep_view() =~= select_spec(gd, cols@).take(0));
    }
    while r < g.len()
        invariant
            r <= g@.len(),
            gd == g.deep_view(),
            forall|rr: int, k: int|
                #![trigger gd[rr], cols@[k]]
                0 <= rr < g@.len() && 0 <= k < cols@.len() ==> (cols@[k] as int) < gd[rr].len(),
            out.deep_view() == select_spec(gd, cols@).take(r as int),
        decreases g@.len() - r,
    {
        let row = &g[r];
        let mut nr: Vec<String> = Vec::new();
        let mut k: usize = 0;
        proof {
            assert(gd[r as int] == row.deep_view());
            assert(nr.deep_view() =~= select_spec(gd, cols@)[r as int].take(0));
        }
        while k < cols.len()
            invariant
                k <= cols@.len(),
                r < g@.len(),
                gd == g.deep_view(),
                gd[r as int] == row.deep_view(),
                forall|kk: int| 0 <= kk < cols@.len() ==> (cols@[kk] as int) < row.deep_view().len(),
                nr.deep_view() == select_spec(gd, cols@)[r as int].take(k as int),
                nr@.len() == k,
            decreases cols@.len() - k,
        {
            let c = cols[k];
            let cell = row[c].clone();
            nr.push(cell);
            proof {
                assert(row.deep_view()[c as int] == row@[c as int]@);
                assert(nr.deep_view() =~= select_spec(gd, cols@)[r as int].take(k + 1));
            }
            k = k + 1;
        }
        proof {
            assert(nr.deep_view() =~= select_spec(gd, cols@)[r as int]);
        }
        let ghost old_ov = out@;
        let ghost old_od = out.deep_view();
        let ghost nd = nr.deep_view();
        out.push(nr);
        proof {
            let ghost target = select_spec(gd, cols@).take(r + 1);
            assert(out@.len() == old_ov.len() + 1);
            assert(old_od.len() == old_ov.len());
            assert forall|t: int| 0 <= t < out@.len() implies out.deep_view()[t] == target[t] by {
                if t < old_ov.len() {
                    assert(out@[t] == old_ov[t]);
                    assert(out.deep_view()[t] == out@[t].deep_view());
                    assert(out.deep_view()[t] == old_od[t]);
                    assert(target[t] == select_spec(gd, cols@)[t]);
                    assert(old_od[t] == select_spec(gd, cols@).take(r as int)[t]);
                } else {
                    assert(out.deep_view()[t] == out@[t].deep_view());
                    assert(out.deep_view()[t] == nd);
                    assert(target[t] == select_spec(gd, cols@)[r as int]);
                }
            }
            assert(out.deep_view() =~= target);
        }
        r = r + 1;
    }
    proof {
        assert(out.deep_view() =~= select_spec(gd, cols@));
    }
    out
}

/// Is the grid well shaped: two header rows present, every row as
/// wide as the first?
fn check_shape(g: &Vec<Vec<String>>) -> (b: bool)
    requires
        g@.len() >= 1,
    ensures
        b == well_shaped(g.deep_view()),
{
    let ghost gd = g.deep_view();
    if g.len() < 2 {
        return false;
    }
    let ncols = g[0].len();
    proof {
        assert(gd[0] == g@[0].deep_view());
    }
    let mut r: usize = 1;
    while r < g.len()
        invariant
            1 <= r <= g@.len(),
            gd == g.deep_view(),
            g@.len() >= 2,
            ncols == gd[0].len(),
            forall|t: int| 0 <= t < r ==> (#[trigger] gd[t]).len() == ncols,
        decreases g@.len() - r,
    {
        let row = &g[r];
        proof {
            assert(gd[r as int] == row.deep_view());
        }
        if row.len() != ncols {
            proof {
                assert(gd[r as int].len() != gd[0].len());
            }
            return false;
        }
        r = r + 1;
    }
    proof {
        assert(uniform(gd, gd[0].len() as int));
    }
    true
}

/// The width of every column: the character count of its widest cell.
fn plain_widths(g: &Vec<Vec<String>>) -> (w: Vec<usize>)
    requires
        g@.len() >= 1,
        uniform(g.deep_view(), g.deep_view()[0].len() as int),
    ensures
        w@.len() == g.deep_view()[0].len(),
        forall|c: int|
            0 <= c < w@.len() ==> (#[trigger] w@[c]) as int == col_width(
                g.deep_view(),
                c,
                char_len(),
            ),
{
    let ghost gd = g.deep_view();
    let ncols = g[0].len();
    proof {
        assert(gd[0] == g@[0].deep_view());
    }
    let mut w: Vec<usize> = Vec::new();
    let mut c: usize = 0;
    while c < ncols
        invariant
            c <= ncols,
            gd == g.deep_view(),
            g@.len() >= 1,
            uniform(gd, gd[0].len() as int),
            ncols == gd[0].len(),
            w@.len() == c,
            forall|cc: int|
                0 <= cc < c ==> (#[trigger] w@[cc]) as int == col_width(gd, cc, char_len()),
        decreases ncols - c,
    {
        let mut best: usize = 0;
        let mut r: usize = 0;
        while r < g.len()
            invariant
                r <= g@.len(),
                c < ncols,
                gd == g.deep_view(),
                uniform(gd, gd[0].len() as int),
                ncols == gd[0].len(),
                best as int == col_width_upto(gd, c as int, r as int, char_len()),
            decreases g@.len() - r,
        {
            let row = &g[r];
            proof {
                assert(gd[r as int] == row.deep_view());
            }
            let l = row[c].as_str().unicode_len();
            proof {
                assert(row.deep_view()[c as int] == row@[c as int]@);
            }
            if l > best {
                best = l;
            }
            r = r + 1;
        }
        w.push(best);
        c = c + 1;
    }
    w
}

/// The right-alignment flag of every column: set when the alignment
/// cell ends in `:`.
pub(crate) fn right_flags(g: &Vec<Vec<String>>) -> (rf: Vec<bool>)
    requires
        g@.len() >= 2,
        uniform(g.deep_view(), g.deep_view()[0].len() as int),
    ensures
        rf@.len() == g.deep_view()[0].len(),
        forall|c: int| 0 <= c < rf@.len() ==> rf@[c] == is_right(g.deep_view(), c),
{
    let ghost gd = g.deep_view();
    let ncols = g[0].len();
    proof {
        assert(gd[0] == g@[0].deep_view());
        assert(gd[1] == g@[1].deep_view());
    }
    let row = &g[1];
    let mut rf: Vec<bool> = Vec::new();
    let mut c: usize = 0;
    while c < ncols
        invariant
            c <= ncols,
            gd == g.deep_view(),
            g@.len() >= 2,
            gd[1] == row.deep_view(),
            uniform(gd, gd[0].len() as int),
            ncols == gd[0].len(),
            rf@.len() == c,
            forall|cc: int| 0 <= cc < c ==> rf@[cc] == is_right(gd, cc),
        decreases ncols - c,
    {
        let cell = row[c].as_str();
        proof {
            assert(row.deep_view()[c as int] == row@[c as int]@);
        }
        let n = cell.unicode_len();
        let flag = n > 0 && cell.get_char(n - 1) == ':';
        rf.push(flag);
        c = c + 1;
    }
    rf
}

/// Serialize the grid with the given widths and alignment flags.
fn render_rows(g: &Vec<Vec<String>>, w: &Vec<usize>, rf: &Vec<bool>) -> (out: String)
    requires
        g@.len() >= 2,
        uniform(g.deep_view(), g.deep_view()[0].len() as int),
        w@.len() == g.deep_view()[0].len(),
        rf@.len() == g.deep_view()[0].len(),
    ensures
        out@ == render_upto(
            g.deep_view(),
            w@.map_values(|x: usize| x as int),
            rf@,
            g@.len() as int,
        ),
{
    let ghost gd = g.deep_view();
    let ghost ws = w@.map_values(|x: usize| x as int);
    let ghost rs = rf@;
    let ncols = g[0].len();
    proof {
        assert(gd[0] == g@[0].deep_view());
    }
    let mut out = String::new();
    let mut r: usize = 0;
    proof {
        assert(out@ =~= render_upto(gd, ws, rs, 0));
    }
    while r < g.len()
        invariant
            r <= g@.len(),
            gd == g.deep_view(),
            g@.len() >= 2,
            uniform(gd, gd[0].len() as int),
            ncols == gd[0].len(),
            ws == w@.map_values(|x: usize| x as int),
            rs == rf@,
            w@.len() == ncols,
            rf@.len() == ncols,
            out@ == render_upto(gd, ws, rs, r as int),
        decreases g@.len() - r,
    {
        let row = &g[r];
        proof {
            assert(gd[r as int] == row.deep_view());
        }
        let mut line = String::new();
        if r == 1 {
            let ghost dcells = Seq::new(ncols as nat, |c: int| delim_cell(gd[1][c], ws[c]));
            line.append("|");
            let mut c: usize = 0;
            proof {
                reveal_strlit("|");
                assert(line@ =~= seq!['|']);
            }
            while c < ncols
                invariant
                    c <= ncols,
                    r == 1,
                    r < g@.len(),
                    gd == g.deep_view(),
                    uniform(gd, gd[0].len() as int),
                    ncols == gd[0].len(),
                    gd[1] == row.deep_view(),
                    ws == w@.map_values(|x: usize| x as int),
                    w@.len() == ncols,
                    dcells == Seq::new(ncols as nat, |cc: int| delim_cell(gd[1][cc], ws[cc])),
                    c == 0 ==> line@ == seq!['|'],
                    c > 0 ==> line@ == seq!['|'] + join_cells(dcells.take(c as int), seq!['|']),
                decreases ncols - c,
            {
                proof {
                    reveal_strlit("|");
                    reveal_strlit("-");
                    reveal_strlit("--");
                    lemma_join_push(dcells.take(c as int), seq!['|'], dcells[c as int]);
                    assert(dcells.take(c + 1) =~= dcells.take(c as int).push(dcells[c as int]));
                }
                if c > 0 {
                    line.append("|");
                }
                let ghost line_pre = line@;
                let mark = row[c].as_str();
                proof {
                    assert(row.deep_view()[c as int] == row@[c as int]@);
                }
                let mlen = mark.unicode_len();
                let wc = w[c];
                if mlen >= 2 {
                    if mlen - 2 < wc {
                        let d = crate::text::dashes(wc - (mlen - 2));
                        line.append(d.as_str());
                    }
                } else if mlen == 1 {
                    let d = crate::text::dashes(wc);
                    line.append(d.as_str());
                    line.append("-");
                    proof {
                        lemma_repeat_char_concat('-', wc as nat, 1);
                        assert("-"@ =~= repeat_char('-', 1));
                    }
                } else {
                    let d = crate::text::dashes(wc);
                    line.append(d.as_str());
                    line.append("--");
                    proof {
                        lemma_repeat_char_concat('-', wc as nat, 2);
                        assert("--"@ =~= repeat_char('-', 2));
                    }
                }
                line.append(mark);
                proof {
                    assert(line@ =~= line_pre + dcells[c as int]);
                    if c == 0 {
                        assert(line@ =~= seq!['|'] + join_cells(dcells.take(1), seq!['|']));
                    } else {
                        assert(line@ =~= seq!['|'] + join_cells(dcells.take(c + 1), seq!['|']));
                    }
                }
                c = c + 1;
            }
            line.append("|\n");
            proof {
                reveal_strlit("|\n");
                assert(dcells.take(ncols as int) =~= dcells);
                assert(gd[1].len() == ncols);
                assert(dcells =~= Seq::new(gd[1].len(), |cc: int| delim_cell(gd[1][cc], ws[cc])));
                assert(line@ =~= delim_line(gd[1], ws));
            }
        } else {
            let ghost pcells = Seq::new(
                ncols as nat,
                |c: int| pad_spec(gd[r as int][c], ws[c], rs[c]),
            );
            line.append("| ");
            let mut c: usize = 0;
            proof {
                reveal_strlit("| ");
                assert(line@ =~= seq!['|', ' ']);
            }
            while c < ncols
                invariant
                    c <= ncols,
                    r != 1,
                    r < g@.len(),
                    gd == g.deep_view(),
                    uniform(gd, gd[0].len() as int),
                    ncols == gd[0].len(),
                    gd[r as int] == row.deep_view(),
                    ws == w@.map_values(|x: usize| x as int),
                    rs == rf@,
                    w@.len() == ncols,
                    rf@.len() == ncols,
                    pcells == Seq::new(
                        ncols as nat,
                        |cc: int| pad_spec(gd[r as int][cc], ws[cc], rs[cc]),
                    ),
                    c == 0 ==> line@ == seq!['|', ' '],
                    c > 0 ==> line@ == seq!['|', ' '] + join_cells(
                        pcells.take(c as int),
                        seq![' ', '|', ' '],
                    ),
                decreases ncols - c,
            {
                proof {
                    reveal_strlit(" | ");
                    lemma_join_push(pcells.take(c as int), seq![' ', '|', ' '], pcells[c as int]);
                    assert(pcells.take(c + 1) =~= pcells.take(c as int).push(pcells[c as int]));
                    assert(" | "@ =~= seq![' ', '|', ' ']);
                }
                if c > 0 {
                    line.append(" | ");
                }
                let ghost line_pre = line@;
                let cell = row[c].as_str();
                proof {
                    assert(row.deep_view()[c as int] == row@[c as int]@);
                }
                let p = pad_cell(cell, w[c], rf[c]);
                line.append(p.as_str());
                proof {
                    assert(p@ == pcells[c as int]);
                    assert(line@ =~= line_pre + pcells[c as int]);
                    if c == 0 {
                        assert(line@ =~= seq!['|', ' '] + join_cells(
                            pcells.take(1),
                            seq![' ', '|', ' '],
                        ));
                    } else {
                        assert(line@ =~= seq!['|', ' '] + join_cells(
                            pcells.take(c + 1),
                            seq![' ', '|', ' '],
                        ));
                    }
                }
                c = c + 1;
            }
            line.append(" |\n");
            proof {
                reveal_strlit(" |\n");
                assert(pcells.take(ncols as int) =~= pcells);
                assert(gd[r as int].len() == ncols);
                assert(pcells =~= Seq::new(
                    gd[r as int].len(),
                    |cc: int| pad_spec(gd[r as int][cc], ws[cc], rs[cc]),
                ));
                assert(line@ =~= content_line(gd[r as int], ws, rs));
            }
        }
        out.append(line.as_str());
        proof {
            assert(out@ =~= render_upto(gd, ws, rs, r + 1));
        }
        r = r + 1;
    }
    out
}

/// What [`prepare`] returns: the assembled, validated and projected
/// grid, or the exact error.
pub open spec fn prepare_post(
    h: Seq<char>,
    rows: Seq<Seq<Seq<char>>>,
    cols: Option<Seq<usize>>,
    res: Result<Seq<Seq<Seq<char>>>, Error>,
) -> bool {
    let g0 = header_grid(h) + rows;
    let nc = g0[0].len() as int;
    match res {
        Ok(g2) => {
            &&& (cols is Some ==> !has_invalid(cols->0, nc))
            &&& well_shaped(g0)
            &&& g2 == (match cols {
                Some(cs) => select_spec(g0, cs),
                None => g0,
            })
            &&& well_shaped(g2)
        },
        Err(e) => match e {
            Error::InvalidColumnIndexes(inv) => {
                &&& cols is Some
                &&& has_invalid(cols->0, nc)
                &&& dec_sorted(inv@)
                &&& distinct_seq(inv@)
                &&& (forall|a: usize| #[trigger]
                    inv@.contains(a) <==> (cols->0.contains(a) && a as int >= nc))
            },
            Error::RowWidthMismatch => {
                &&& (cols is Some ==> !has_invalid(cols->0, nc))
                &&& !well_shaped(g0)
            },
            Error::UnpaddableCell => false,
        },
    }
}

/// Assemble the grid from a header definition and the data rows,
/// validate the requested columns against it, check its shape, and
/// project it through the selection.
pub(crate) fn prepare(h: &str, rows: &Vec<Vec<String>>, columns: Option<&[usize]>) -> (res: Result<
    Vec<Vec<String>>,
    Error,
>)
    ensures
        prepare_post(
            h@,
            rows.deep_view(),
            match columns {
                Some(cs) => Some(cs@),
                None => None,
            },
            match res {
                Ok(g) => Ok(g.deep_view()),
                Err(e) => Err(e),
            },
        ),
{
    let ghost rv = rows.deep_view();
    let ghost g0 = header_grid(h@) + rv;
    let mut grid = process_header(h);
    let mut di: usize = 0;
    proof {
        assert(rv.take(0) =~= Seq::<Seq<Seq<char>>>::empty());
        assert(grid.deep_view() =~= header_grid(h@) + rv.take(0));
    }
    while di < rows.len()
        invariant
            di <= rv.len(),
            rv == rows.deep_view(),
            grid.deep_view() == header_grid(h@) + rv.take(di as int),
            grid@.len() >= 1,
        decreases rv.len() - di,
    {
        let srow = &rows[di];
        proof {
            assert(rows.deep_view()[di as int] == srow.deep_view());
        }
        let mut nrow: Vec<String> = Vec::new();
        let mut j: usize = 0;
        while j < srow.len()
            invariant
                j <= srow@.len(),
                nrow@.len() == j,
                forall|t: int| 0 <= t < j ==> nrow@[t] == srow@[t],
            decreases srow@.len() - j,
        {
            let cell = srow[j].clone();
            nrow.push(cell);
            j = j + 1;
        }
        proof {
            assert forall|t: int| 0 <= t < srow@.len() implies nrow.deep_view()[t]
                == srow.deep_view()[t] by {
                assert(nrow@[t] == srow@[t]);
            }
            assert(nrow.deep_view() =~= srow.deep_view());
            assert(srow.deep_view() == rv[di as int]);
        }
        let ghost old_gv = grid@;
        let ghost old_gd = grid.deep_view();
        let ghost nv = nrow@;
        let ghost nd = nrow.deep_view();
        grid.push(nrow);
        proof {
            assert(rv.take(di + 1) =~= rv.take(di as int).push(
                rv[di as int],
            ));
            let ghost hg = header_grid(h@);
            let ghost target = hg + rv.take(di + 1);
            assert(old_gd == hg + rv.take(di as int));
            assert(old_gd.len() == old_gv.len());
            assert(grid@.len() == old_gv.len() + 1);
            assert(target.len() == grid@.len());
            assert forall|t: int| 0 <= t < grid@.len() implies grid.deep_view()[t]
                == target[t] by {
                if t < old_gv.len() {
                    assert(grid@[t] == old_gv[t]);
                    assert(grid.deep_view()[t] == grid@[t].deep_view());
                    assert(grid.deep_view()[t] == old_gd[t]);
                    if t < hg.len() {
                        assert(target[t] == hg[t]);
                        assert(old_gd[t] == hg[t]);
                    } else {
                        assert(target[t] == rv.take(di + 1)[t - hg.len()]);
                        assert(old_gd[t] == rv.take(di as int)[t - hg.len()]);
                    }
                } else {
                    assert(grid@[t]@ == nv);
                    assert(grid.deep_view()[t] == grid@[t].deep_view());
                    assert(grid.deep_view()[t] == nd);
                    assert(target[t] == rv.take(di + 1)[di as int]);
                    assert(target[t] == rv[di as int]);
                    assert(nd == rv[di as int]);
                }
            }
            assert(grid.deep_view() =~= target);
        }
        di = di + 1;
    }
    proof {
        assert(rv.take(rv.len() as int) =~= rv);
        assert(grid.deep_view() =~= g0);
    }
    let ncols = grid[0].len();
    proof {
        assert(grid.deep_view()[0] == grid@[0].deep_view());
        assert(ncols == g0[0].len());
    }
    if let Some(cols) = columns {
        let inv = invalid_columns(cols, ncols);
        if inv.len() > 0 {
            proof {
                let a = inv@[0];
                assert(inv@.contains(a));
                let k = choose|k: int| 0 <= k < cols@.len() && cols@[k] == a;
                assert(has_invalid(cols@, ncols as int));
            }
            return Err(Error::InvalidColumnIndexes(inv));
        }
        proof {
            if has_invalid(cols@, ncols as int) {
                let k = choose|k: int|
                    0 <= k < cols@.len() && (#[trigger] cols@[k]) as int >= ncols as int;
                assert(cols@.contains(cols@[k]));
                assert(inv@.contains(cols@[k]));
            }
        }
    }
    if !check_shape(&grid) {
        return Err(Error::RowWidthMismatch);
    }
    let grid2 = match columns {
        Some(cols) => {
            proof {
                assert forall|r: int, k: int|
                    #![trigger grid.deep_view()[r], cols@[k]]
                    0 <= r < grid@.len() && 0 <= k < cols@.len() implies (cols@[k] as int)
                    < grid.deep_view()[r].len() by {
                    assert(cols@.contains(cols@[k]));
                    assert(grid.deep_view()[r].len() == ncols);
                }
            }
            select_grid(&grid, cols)
        },
        None => grid,
    };
    proof {
        assert(grid2.deep_view().len() >= 2);
        assert(uniform(grid2.deep_view(), grid2.deep_view()[0].len() as int));
    }
    Ok(grid2)
}

impl Veg {
    /// Create a [`Veg`] bound to a header definition.
    pub fn table(header: &str) -> (v: Veg)
        ensures
            v@.header == header@,
            v@.rows.len() == 0,
    {
        Veg { header: header.to_owned(), rows: Vec::new() }
    }

    /// Add a single record; its row is taken once, now.
    pub fn push(&mut self, item: Box<dyn Table>)
        ensures
            final (self)@.header == old(self)@.header,
            final (self)@.rows.len() == old(self)@.rows.len() + 1,
            final (self)@.rows.subrange(0, old(self)@.rows.len() as int) == old(self)@.rows,
    {
        let r = item.row();
        let ghost before = self@.rows;
        self.rows.push(r);
        proof {
            assert(self@.rows =~= before.push(r.deep_view()));
            assert(self@.rows.subrange(0, before.len() as int) =~= before);
        }
    }

    /// Add every record of `other`, in order, draining it.
    pub fn append(&mut self, other: &mut Vec<Box<dyn Table>>)
        ensures
            final (self)@.header == old(self)@.header,
            final (self)@.rows.len() == old(self)@.rows.len() + old(other)@.len(),
            final (self)@.rows.subrange(0, old(self)@.rows.len() as int) == old(self)@.rows,
            final (other)@.len() == 0,
    {
        let ghost total = other@.len();
        while other.len() > 0
            invariant
                other@.len() <= total,
                self@.header == old(self)@.header,
                self@.rows.len() == old(self)@.rows.len() + total - other@.len(),
                self@.rows.subrange(0, old(self)@.rows.len() as int) == old(self)@.rows,
            decreases other@.len(),
        {
            let item = other.remove(0);
            let r = item.row();
            let ghost before = self@.rows;
            self.rows.push(r);
            proof {
                assert(self@.rows =~= before.push(r.deep_view()));
                assert(self@.rows.subrange(0, old(self)@.rows.len() as int) =~= old(self)@.rows);
            }
        }
    }

    /// Return true if no record has been added.
    pub fn is_empty(&self) -> (b: bool)
        ensures
            b == (self@.rows.len() == 0),
    {
        self.rows.len() == 0
    }

    /// Generate the markdown table from the table's own header, with
    /// no column selection.
    pub fn markdown(&self) -> (r: Result<String, Error>)
        ensures
            markdown_with_post(
                self@,
                None,
                None,
                match r {
                    Ok(s) => Ok(s@),
                    Err(e) => Err(e),
                },
            ),
    {
        self.markdown_with(None, None)
    }

    /// Generate the markdown table, with an alternate header
    /// definition and/or a column projection.
    pub fn markdown_with(&self, header: Option<&str>, columns: Option<&[usize]>) -> (r: Result<
        String,
        Error,
    >)
        ensures
            markdown_with_post(
                self@,
                match header {
                    Some(h) => Some(h@),
                    None => None,
                },
                match columns {
                    Some(cs) => Some(cs@),
                    None => None,
                },
                match r {
                    Ok(s) => Ok(s@),
                    Err(e) => Err(e),
                },
            ),
    {
        let ghost hv: Option<Seq<char>> = match header {
            Some(h) => Some(h@),
            None => None,
        };
        let ghost cv: Option<Seq<usize>> = match columns {
            Some(cs) => Some(cs@),
            None => None,
        };
        let h: &str = match header {
            Some(h) => h,
            None => self.header.as_str(),
        };
        proof {
            assert(h@ == chosen_header(self@, hv));
            assert(header_grid(h@) + self.rows.deep_view() == full_grid(self@, hv));
        }
        match prepare(h, &self.rows, columns) {
            Err(e) => Err(e),
            Ok(grid2) => {
                let ghost g1 = final_grid(self@, hv, cv);
                proof {
                    assert(grid2.deep_view() == g1);
                }
                let w = plain_widths(&grid2);
                let rf = right_flags(&grid2);
                let out = render_rows(&grid2, &w, &rf);
                proof {
                    assert(w@.map_values(|x: usize| x as int) =~= widths_of(g1, char_len()));
                    assert(rf@ =~= rights_of(g1));
                    assert(out@ == render_plain(g1));
                }
                Ok(out)
            },
        }
    }
}

} // verus!
