//! Color-aware tables: cells may carry ANSI escape sequences. Column
//! widths count the visible text only (escape sequences stripped,
//! grapheme clusters counted as one unit), and the padding a cell
//! needs is inserted around its visible text, never inside an escape
//! sequence.
use vstd::prelude::*;

use crate::layout::col_width;
use crate::layout::col_width_upto;
use crate::layout::delim_cell;
use crate::layout::delim_line;
use crate::layout::pad_spec;
use crate::layout::rights_of;
use crate::layout::uniform;
use crate::layout::widths_of;
use crate::text::find_sub;
use crate::text::find_sub_str;
use crate::text::insert_at;
use crate::text::insert_spaces;
use crate::text::join_cells;
use crate::text::lemma_find_sub_matches;
use crate::text::lemma_join_push;
use crate::text::lemma_repeat_char_concat;
use crate::text::pad_cell;
use crate::text::repeat_char;
use crate::Error;
use crate::VegView;
use crate::chosen_header;
use crate::final_grid;
use crate::full_grid;
use crate::has_invalid;
use crate::header_grid;
use crate::prepare;
use crate::well_shaped;
use unicode_segmentation::UnicodeSegmentation;
use vstd::string::StrSliceExecFns;
use vstd::string::StringExecFns;

verus! {

/// What `strip_ansi_escapes::strip_str` leaves of `s`: its characters
/// with every ANSI escape sequence removed, a function of the
/// characters alone.
pub uninterp spec fn stripped(s: Seq<char>) -> Seq<char>;

/// How many extended grapheme clusters `unicode_segmentation` splits
/// `s` into: a function of the characters alone.
pub uninterp spec fn grapheme_count(s: Seq<char>) -> nat;

/// Relies on strip_ansi_escapes::strip_str: it removes ANSI escape
/// sequences and passes every other character through, so its result
/// depends on the input characters alone and is never longer than the
/// input; an empty input stays empty.
#[verifier::external_body]
fn strip_escapes(s: &str) -> (r: String)
    ensures
        r@ == stripped(s@),
        r@.len() <= s@.len(),
        s@.len() == 0 ==> r@.len() == 0,
{
    strip_ansi_escapes::strip_str(s)
}

/// Relies on unicode_segmentation::UnicodeSegmentation::graphemes with
/// extended clusters: the clusters partition the string, so their
/// count depends on the characters alone; an empty string has none.
#[verifier::external_body]
fn count_graphemes(s: &str) -> (n: usize)
    ensures
        n as nat == grapheme_count(s@),
        s@.len() == 0 ==> n == 0,
{
    s.graphemes(true).count()
}

/// The visible width of a cell: the grapheme clusters of its text
/// once every escape sequence is stripped.
pub open spec fn vis_len(s: Seq<char>) -> int {
    grapheme_count(stripped(s)) as int
}

/// The visible measure, for column-width computations.
pub open spec fn vis_measure() -> spec_fn(Seq<char>) -> int {
    (|s: Seq<char>| vis_len(s))
}

/// Measure a cell's visible width.
fn visible_width(s: &str) -> (n: usize)
    ensures
        n as int == vis_len(s@),
{
    let v = strip_escapes(s);
    count_graphemes(v.as_str())
}

/// The color-aware padded cell: the cell is first space-padded by
/// character count, then the remaining visible shortfall is inserted
/// immediately before (right alignment) or after (left alignment) the
/// first occurrence of its stripped text; with no occurrence, left
/// alignment falls back to the front. Nothing when the stripped text
/// is visibly wider than the column or, right-aligned, cannot be
/// located.
pub open spec fn colored_cell(cell: Seq<char>, w: int, right: bool) -> Option<Seq<char>> {
    let s = pad_spec(cell, w, right);
    let vis = stripped(s);
    let g = grapheme_count(vis) as int;
    if g > w {
        None
    } else {
        let fill = repeat_char(' ', (w - g) as nat);
        match find_sub(s, vis) {
            Some(p) => if right {
                Some(insert_at(s, p, fill))
            } else {
                Some(insert_at(s, p + vis.len(), fill))
            },
            None => if right {
                None
            } else {
                Some(insert_at(s, vis.len() as int, fill))
            },
        }
    }
}

/// Pad one cell, as [`colored_cell`] describes.
fn pad_cell_colored(cell: &str, w: usize, right: bool) -> (res: Option<String>)
    ensures
        match res {
            Some(out) => colored_cell(cell@, w as int, right) == Some(out@),
            None => colored_cell(cell@, w as int, right) is None,
        },
{
    let s = pad_cell(cell, w, right);
    let vis = strip_escapes(s.as_str());
    let g = count_graphemes(vis.as_str());
    if g > w {
        return None;
    }
    let fill_n = w - g;
    let vlen = vis.as_str().unicode_len();
    let slen = s.as_str().unicode_len();
    match find_sub_str(s.as_str(), vis.as_str()) {
        Some(p) => {
            proof {
                lemma_find_sub_matches(s@, vis@, 0);
            }
            if right {
                Some(insert_spaces(s.as_str(), p, fill_n))
            } else {
                Some(insert_spaces(s.as_str(), p + vlen, fill_n))
            }
        },
        None => {
            if right {
                None
            } else {
                Some(insert_spaces(s.as_str(), vlen, fill_n))
            }
        },
    }
}

/// Every cell of the row can be padded around its visible text.
pub open spec fn colored_row_ok(row: Seq<Seq<char>>, widths: Seq<int>, rights: Seq<bool>) -> bool {
    forall|c: int|
        0 <= c < row.len() ==> (#[trigger] colored_cell(row[c], widths[c], rights[c])) is Some
}

/// Every content row of the grid can be padded.
pub open spec fn colored_ok(g: Seq<Seq<Seq<char>>>, widths: Seq<int>, rights: Seq<bool>) -> bool {
    forall|r: int| 0 <= r < g.len() && r != 1 ==> colored_row_ok(#[trigger] g[r], widths, rights)
}

/// A color-aware content line: the padded cells joined by `" | "`,
/// wrapped in `"| "` and `" |"`, with a final line break.
pub open spec fn colored_content_line(
    row: Seq<Seq<char>>,
    widths: Seq<int>,
    rights: Seq<bool>,
) -> Seq<char> {
    seq!['|', ' '] + join_cells(
        Seq::new(row.len(), |c: int| colored_cell(row[c], widths[c], rights[c])->0),
        seq![' ', '|', ' '],
    ) + seq![' ', '|', '\n']
}

/// Line `i` of the color-aware table: the delimiter line for row one,
/// a color-aware content line for every other row.
pub open spec fn colored_line_of(
    g: Seq<Seq<Seq<char>>>,
    widths: Seq<int>,
    rights: Seq<bool>,
    i: int,
) -> Seq<char> {
    if i == 1 {
        delim_line(g[1], widths)
    } else {
        colored_content_line(g[i], widths, rights)
    }
}

/// The first `upto` color-aware lines, concatenated.
pub open spec fn render_colored_upto(
    g: Seq<Seq<Seq<char>>>,
    widths: Seq<int>,
    rights: Seq<bool>,
    upto: int,
) -> Seq<char>
    decreases upto,
{
    if upto <= 0 {
        Seq::empty()
    } else {
        render_colored_upto(g, widths, rights, upto - 1) + colored_line_of(
            g,
            widths,
            rights,
            upto - 1,
        )
    }
}

/// The whole table rendered color-aware: widths by visible width.
pub open spec fn render_colored(g: Seq<Seq<Seq<char>>>) -> Seq<char> {
    render_colored_upto(g, widths_of(g, vis_measure()), rights_of(g), g.len() as int)
}

/// The width of every column: the visible width of its widest cell.
fn vis_widths(g: &Vec<Vec<String>>) -> (w: Vec<usize>)
    requires
        g@.len() >= 1,
        uniform(g.deep_view(), g.deep_view()[0].len() as int),
    ensures
        w@.len() == g.deep_view()[0].len(),
        forall|c: int|
            0 <= c < w@.len() ==> (#[trigger] w@[c]) as int == col_width(
                g.deep_view(),
                c,
                vis_measure(),
            ),
{
    let ghost gd = g.deep_view();
    let ncols = g[0].len();
    proof {
        assert(gd[0] == g@[0].deep_view());
    }
    let mut w: Vec<usize> = Vec::new();
    let mut c: usize = 0;
    while c < ncols
        invariant
            c <= ncols,
            gd == g.deep_view(),
            g@.len() >= 1,
            uniform(gd, gd[0].len() as int),
            ncols == gd[0].len(),
            w@.len() == c,
            forall|cc: int|
                0 <= cc < c ==> (#[trigger] w@[cc]) as int == col_width(gd, cc, vis_measure()),
        decreases ncols - c,
    {
        let mut best: usize = 0;
        let mut r: usize = 0;
        while r < g.len()
            invariant
                r <= g@.len(),
                c < ncols,
                gd == g.deep_view(),
                uniform(gd, gd[0].len() as int),
                ncols == gd[0].len(),
                best as int == col_width_upto(gd, c as int, r as int, vis_measure()),
            decreases g@.len() - r,
        {
            let row = &g[r];
            proof {
                assert(gd[r as int] == row.deep_view());
            }
            let l = visible_width(row[c].as_str());
            proof {
                assert(row.deep_view()[c as int] == row@[c as int]@);
                assert(vis_measure()(gd[r as int][c as int]) == vis_len(row@[c as int]@));
            }
            if l > best {
                best = l;
            }
            r = r + 1;
        }
        w.push(best);
        c = c + 1;
    }
    w
}

/// Serialize the grid color-aware, or report that some cell cannot be
/// padded around its escape sequences.
fn render_rows_colored(g: &Vec<Vec<String>>, w: &Vec<usize>, rf: &Vec<bool>) -> (res: Option<
    String,
>)
    requires
        g@.len() >= 2,
        uniform(g.deep_view(), g.deep_view()[0].len() as int),
        w@.len() == g.deep_view()[0].len(),
        rf@.len() == g.deep_view()[0].len(),
    ensures
        match res {
            Some(out) => colored_ok(g.deep_view(), w@.map_values(|x: usize| x as int), rf@)
                && out@ == render_colored_upto(
                g.deep_view(),
                w@.map_values(|x: usize| x as int),
                rf@,
                g@.len() as int,
            ),
            None => !colored_ok(g.deep_view(), w@.map_values(|x: usize| x as int), rf@),
        },
{
    let ghost gd = g.deep_view();
    let ghost ws = w@.map_values(|x: usize| x as int);
    let ghost rs = rf@;
    let ncols = g[0].len();
    proof {
        assert(gd[0] == g@[0].deep_view());
    }
    let mut out = String::new();
    let mut r: usize = 0;
    proof {
        assert(out@ =~= render_colored_upto(gd, ws, rs, 0));
    }
    while r < g.len()
        invariant
            r <= g@.len(),
            gd == g.deep_view(),
            g@.len() >= 2,
            uniform(gd, gd[0].len() as int),
            ncols == gd[0].len(),
            ws == w@.map_values(|x: usize| x as int),
            rs == rf@,
            w@.len() == ncols,
            rf@.len() == ncols,
            out@ == render_colored_upto(gd, ws, rs, r as int),
            forall|rr: int| 0 <= rr < r && rr != 1 ==> colored_row_ok(#[trigger] gd[rr], ws, rs),
        decreases g@.len() - r,
    {
        let row = &g[r];
        proof {
            assert(gd[r as int] == row.deep_view());
        }
        let mut line = String::new();
        if r == 1 {
            let ghost dcells = Seq::new(ncols as nat, |c: int| delim_cell(gd[1][c], ws[c]));
            line.append("|");
            let mut c: usize = 0;
            proof {
                reveal_strlit("|");
                assert(line@ =~= seq!['|']);
            }
            while c < ncols
                invariant
                    c <= ncols,
                    r == 1,
                    r < g@.len(),
                    gd == g.deep_view(),
                    uniform(gd, gd[0].len() as int),
                    ncols == gd[0].len(),
                    gd[1] == row.deep_view(),
                    ws == w@.map_values(|x: usize| x as int),
                    w@.len() == ncols,
                    dcells == Seq::new(ncols as nat, |cc: int| delim_cell(gd[1][cc], ws[cc])),
                    c == 0 ==> line@ == seq!['|'],
                    c > 0 ==> line@ == seq!['|'] + join_cells(dcells.take(c as int), seq!['|']),
                decreases ncols - c,
            {
                proof {
                    reveal_strlit("|");
                    reveal_strlit("-");
                    reveal_strlit("--");
                    lemma_join_push(dcells.take(c as int), seq!['|'], dcells[c as int]);
                    assert(dcells.take(c + 1) =~= dcells.take(c as int).push(dcells[c as int]));
                }
                if c > 0 {
                    line.append("|");
                }
                let ghost line_pre = line@;
                let mark = row[c].as_str();
                proof {
                    assert(row.deep_view()[c as int] == row@[c as int]@);
                }
                let mlen = mark.unicode_len();
                let wc = w[c];
                if mlen >= 2 {
                    if mlen - 2 < wc {
                        let d = crate::text::dashes(wc - (mlen - 2));
                        line.append(d.as_str());
                    }
                } else if mlen == 1 {
                    let d = crate::text::dashes(wc);
                    line.append(d.as_str());
                    line.append("-");
                    proof {
                        lemma_repeat_char_concat('-', wc as nat, 1);
                        assert("-"@ =~= repeat_char('-', 1));
                    }
                } else {
                    let d = crate::text::dashes(wc);
                    line.append(d.as_str());
                    line.append("--");
                    proof {
                        lemma_repeat_char_concat('-', wc as nat, 2);
                        assert("--"@ =~= repeat_char('-', 2));
                    }
                }
                line.append(mark);
                proof {
                    assert(line@ =~= line_pre + dcells[c as int]);
                    if c == 0 {
                        assert(line@ =~= seq!['|'] + join_cells(dcells.take(1), seq!['|']));
                    } else {
                        assert(line@ =~= seq!['|'] + join_cells(dcells.take(c + 1), seq!['|']));
                    }
                }
                c = c + 1;
            }
            line.append("|\n");
            proof {
                reveal_strlit("|\n");
                assert(dcells.take(ncols as int) =~= dcells);
                assert(gd[1].len() == ncols);
                assert(dcells =~= Seq::new(gd[1].len(), |cc: int| delim_cell(gd[1][cc], ws[cc])));
                assert(line@ =~= delim_line(gd[1], ws));
            }
        } else {
            let ghost pcells = Seq::new(
                ncols as nat,
                |c: int| colored_cell(gd[r as int][c], ws[c], rs[c])->0,
            );
            line.append("| ");
            let mut c: usize = 0;
            proof {
                reveal_strlit("| ");
                assert(line@ =~= seq!['|', ' ']);
            }
            while c < ncols
                invariant
                    c <= ncols,
                    r != 1,
                    r < g@.len(),
                    gd == g.deep_view(),
                    uniform(gd, gd[0].len() as int),
                    ncols == gd[0].len(),
                    gd[r as int] == row.deep_view(),
                    ws == w@.map_values(|x: usize| x as int),
                    rs == rf@,
                    w@.len() == ncols,
                    rf@.len() == ncols,
                    pcells == Seq::new(
                        ncols as nat,
                        |cc: int| colored_cell(gd[r as int][cc], ws[cc], rs[cc])->0,
                    ),
                    forall|cc: int|
                        0 <= cc < c ==> (#[trigger] colored_cell(
                            gd[r as int][cc],
                            ws[cc],
                            rs[cc],
                        )) is Some,
                    c == 0 ==> line@ == seq!['|', ' '],
                    c > 0 ==> line@ == seq!['|', ' '] + join_cells(
                        pcells.take(c as int),
                        seq![' ', '|', ' '],
                    ),
                decreases ncols - c,
            {
                proof {
                    reveal_strlit(" | ");
                    lemma_join_push(pcells.take(c as int), seq![' ', '|', ' '], pcells[c as int]);
                    assert(pcells.take(c + 1) =~= pcells.take(c as int).push(pcells[c as int]));
                    assert(" | "@ =~= seq![' ', '|', ' ']);
                }
                let cell = row[c].as_str();
                proof {
                    assert(row.deep_view()[c as int] == row@[c as int]@);
                }
                let padded = pad_cell_colored(cell, w[c], rf[c]);
                match padded {
                    Some(p) => {
                        if c > 0 {
                            line.append(" | ");
                        }
                        let ghost line_pre = line@;
                        line.append(p.as_str());
                        proof {
                            assert(p@ == pcells[c as int]);
                            assert(line@ =~= line_pre + pcells[c as int]);
                            if c == 0 {
                                assert(line@ =~= seq!['|', ' '] + join_cells(
                                    pcells.take(1),
                                    seq![' ', '|', ' '],
                                ));
                            } else {
                                assert(line@ =~= seq!['|', ' '] + join_cells(
                                    pcells.take(c + 1),
                                    seq![' ', '|', ' '],
                                ));
                            }
                        }
                    },
                    None => {
                        proof {
                            assert(colored_cell(gd[r as int][c as int], ws[c as int], rs[c as int])
                                is None);
                            assert(!colored_row_ok(gd[r as int], ws, rs));
                            assert(!colored_ok(gd, ws, rs));
                        }
                        return None;
                    },
                }
                c = c + 1;
            }
            line.append(" |\n");
            proof {
                reveal_strlit(" |\n");
                assert(pcells.take(ncols as int) =~= pcells);
                assert(gd[r as int].len() == ncols);
                assert(pcells =~= Seq::new(
                    gd[r as int].len(),
                    |cc: int| colored_cell(gd[r as int][cc], ws[cc], rs[cc])->0,
                ));
                assert(line@ =~= colored_content_line(gd[r as int], ws, rs));
                assert(colored_row_ok(gd[r as int], ws, rs));
            }
        }
        out.append(line.as_str());
        proof {
            assert(out@ =~= render_colored_upto(gd, ws, rs, r + 1));
        }
        r = r + 1;
    }
    Some(out)
}

/// Trait that a record type implements to supply one table row: one
/// cell of text per column, escape sequences included, in header
/// order.
pub trait Table {
    fn row(&self) -> Vec<String>;
}

/// A `Vec`-like collection of records that renders as a markdown
/// table whose cells may carry escape sequences.
pub struct Veg {
    header: String,
    rows: Vec<Vec<String>>,
}

impl View for Veg {
    type V = VegView;

    closed spec fn view(&self) -> VegView {
        VegView { header: self.header@, rows: self.rows.deep_view() }
    }
}

/// What a color-aware render call returns: the rendered table for a
/// well-shaped grid, a valid selection and paddable cells, and the
/// exact error otherwise.
pub open spec fn markdown_with_colored_post(
    v: VegView,
    hdr: Option<Seq<char>>,
    cols: Option<Seq<usize>>,
    r: Result<Seq<char>, Error>,
) -> bool {
    let g0 = full_grid(v, hdr);
    let nc = g0[0].len() as int;
    let g1 = final_grid(v, hdr, cols);
    let ws = widths_of(g1, vis_measure());
    let rs = rights_of(g1);
    match r {
        Ok(out) => {
            &&& (cols is Some ==> !has_invalid(cols->0, nc))
            &&& well_shaped(g0)
            &&& colored_ok(g1, ws, rs)
            &&& out == render_colored(g1)
        },
        Err(e) => match e {
            Error::InvalidColumnIndexes(inv) => {
                &&& cols is Some
                &&& has_invalid(cols->0, nc)
                &&& crate::text::dec_sorted(inv@)
                &&& crate::text::distinct_seq(inv@)
                &&& (forall|a: usize| #[trigger]
                    inv@.contains(a) <==> (cols->0.contains(a) && a as int >= nc))
            },
            Error::RowWidthMismatch => {
                &&& (cols is Some ==> !has_invalid(cols->0, nc))
                &&& !well_shaped(g0)
            },
            Error::UnpaddableCell => {
                &&& (cols is Some ==> !has_invalid(cols->0, nc))
                &&& well_shaped(g0)
                &&& !colored_ok(g1, ws, rs)
            },
        },
    }
}

impl Veg {
    /// Create a [`Veg`] bound to a header definition.
    pub fn table(header: &str) -> (v: Veg)
        ensures
            v@.header == header@,
            v@.rows.len() == 0,
    {
        Veg { header: header.to_owned(), rows: Vec::new() }
    }

    /// Add a single record; its row is taken once, now.
    pub fn push(&mut self, item: Box<dyn Table>)
        ensures
            final (self)@.header == old(self)@.header,
            final (self)@.rows.len() == old(self)@.rows.len() + 1,
            final (self)@.rows.subrange(0, old(self)@.rows.len() as int) == old(self)@.rows,
    {
        let r = item.row();
        let ghost before = self@.rows;
        self.rows.push(r);
        proof {
            assert(self@.rows =~= before.push(r.deep_view()));
            assert(self@.rows.subrange(0, before.len() as int) =~= before);
        }
    }

    /// Add every record of `other`, in order, draining it.
    pub fn append(&mut self, other: &mut Vec<Box<dyn Table>>)
        ensures
            final (self)@.header == old(self)@.header,
            final (self)@.rows.len() == old(self)@.rows.len() + old(other)@.len(),
            final (self)@.rows.subrange(0, old(self)@.rows.len() as int) == old(self)@.rows,
            final (other)@.len() == 0,
    {
        let ghost total = other@.len();
        while other.len() > 0
            invariant
                other@.len() <= total,
                self@.header == old(self)@.header,
                self@.rows.len() == old(self)@.rows.len() + total - other@.len(),
                self@.rows.subrange(0, old(self)@.rows.len() as int) == old(self)@.rows,
            decreases other@.len(),
        {
            let item = other.remove(0);
            let r = item.row();
            let ghost before = self@.rows;
            self.rows.push(r);
            proof {
                assert(self@.rows =~= before.push(r.deep_view()));
                assert(self@.rows.subrange(0, old(self)@.rows.len() as int) =~= old(self)@.rows);
            }
        }
    }

    /// Return true if no record has been added.
    pub fn is_empty(&self) -> (b: bool)
        ensures
            b == (self@.rows.len() == 0),
    {
        self.rows.len() == 0
    }

    /// Generate the markdown table from the table's own header, with
    /// no column selection.
    pub fn markdown(&self) -> (r: Result<String, Error>)
        ensures
            markdown_with_colored_post(
                self@,
                None,
                None,
                match r {
                    Ok(s) => Ok(s@),
                    Err(e) => Err(e),
                },
            ),
    {
        self.markdown_with(None, None)
    }

    /// Generate the markdown table, with an alternate header
    /// definition and/or a column projection.
    pub fn markdown_with(&self, header: Option<&String>, columns: Option<&[usize]>) -> (r: Result<
        String,
        Error,
    >)
        ensures
            markdown_with_colored_post(
                self@,
                match header {
                    Some(h) => Some(h@),
                    None => None,
                },
                match columns {
                    Some(cs) => Some(cs@),
                    None => None,
                },
                match r {
                    Ok(s) => Ok(s@),
                    Err(e) => Err(e),
                },
            ),
    {
        let ghost hv: Option<Seq<char>> = match header {
            Some(h) => Some(h@),
            None => None,
        };
        let ghost cv: Option<Seq<usize>> = match columns {
            Some(cs) => Some(cs@),
            None => None,
        };
        let h: &str = match header {
            Some(h) => h.as_str(),
            None => self.header.as_str(),
        };
        proof {
            assert(h@ == chosen_header(self@, hv));
            assert(header_grid(h@) + self.rows.deep_view() == full_grid(self@, hv));
        }
        match prepare(h, &self.rows, columns) {
            Err(e) => Err(e),
            Ok(grid2) => {
                let ghost g1 = final_grid(self@, hv, cv);
                proof {
                    assert(grid2.deep_view() == g1);
                }
                let w = vis_widths(&grid2);
                let rf = crate::right_flags(&grid2);
                match render_rows_colored(&grid2, &w, &rf) {
                    Some(out) => {
                        proof {
                            assert(w@.map_values(|x: usize| x as int) =~= widths_of(
                                g1,
                                vis_measure(),
                            ));
                            assert(rf@ =~= rights_of(g1));
                            assert(out@ == render_colored(g1));
                        }
                        Ok(out)
                    },
                    None => {
                        proof {
                            assert(w@.map_values(|x: usize| x as int) =~= widths_of(
                                g1,
                                vis_measure(),
                            ));
                            assert(rf@ =~= rights_of(g1));
                        }
                        Err(Error::UnpaddableCell)
                    },
                }
            },
        }
    }
}

} // verus!
