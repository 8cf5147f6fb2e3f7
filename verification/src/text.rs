//! Verified text utilities: character runs, padding, splitting, trimming,
//! decimal formatting and lexicographic ordering of character sequences.
use vstd::prelude::*;
use vstd::string::StrSliceExecFns;
use vstd::string::StringExecFns;

verus! {

/// A run of `n` copies of the character `c`.
pub open spec fn repeat_char(c: char, n: nat) -> Seq<char> {
    Seq::new(n, |i: int| c)
}

/// The Unicode `White_Space` characters, the ones `str::trim` removes.
pub open spec fn is_wspace(c: char) -> bool {
    let u = c as u32;
    (0x9 <= u && u <= 0xD) || u == 0x20 || u == 0x85 || u == 0xA0 || u == 0x1680 || (0x2000 <= u
        && u <= 0x200A) || u == 0x2028 || u == 0x2029 || u == 0x202F || u == 0x205F || u == 0x3000
}

/// Left-aligned padding: the text, then spaces out to width `w`.
pub open spec fn pad_right(s: Seq<char>, w: int) -> Seq<char> {
    if s.len() >= w {
        s
    } else {
        s + repeat_char(' ', (w - s.len()) as nat)
    }
}

/// Right-aligned padding: spaces out to width `w`, then the text.
pub open spec fn pad_left(s: Seq<char>, w: int) -> Seq<char> {
    if s.len() >= w {
        s
    } else {
        repeat_char(' ', (w - s.len()) as nat) + s
    }
}

pub proof fn lemma_repeat_char_concat(c: char, a: nat, b: nat)
    ensures
        repeat_char(c, a) + repeat_char(c, b) =~= repeat_char(c, a + b),
{
}

/// Decide [`is_wspace`] on a concrete character.
pub fn is_wspace_exec(c: char) -> (b: bool)
    ensures
        b == is_wspace(c),
{
    let u = c as u32;
    (0x9 <= u && u <= 0xD) || u == 0x20 || u == 0x85 || u == 0xA0 || u == 0x1680 || (0x2000 <= u
        && u <= 0x200A) || u == 0x2028 || u == 0x2029 || u == 0x202F || u == 0x205F || u == 0x3000
}

/// Build a run of `n` spaces.
pub fn spaces(n: usize) -> (r: String)
    ensures
        r@ == repeat_char(' ', n as nat),
{
    proof {
        reveal_strlit(" ");
    }
    let mut r = String::new();
    let mut i: usize = 0;
    while i < n
        invariant
            i <= n,
            r@ =~= repeat_char(' ', i as nat),
        decreases n - i,
    {
        r.append(" ");
        i = i + 1;
        proof {
            reveal_strlit(" ");
            assert(r@ =~= repeat_char(' ', i as nat));
        }
    }
    r
}

/// Build a run of `n` dashes.
pub fn dashes(n: usize) -> (r: String)
    ensures
        r@ == repeat_char('-', n as nat),
{
    proof {
        reveal_strlit("-");
    }
    let mut r = String::new();
    let mut i: usize = 0;
    while i < n
        invariant
            i <= n,
            r@ =~= repeat_char('-', i as nat),
        decreases n - i,
    {
        r.append("-");
        i = i + 1;
        proof {
            reveal_strlit("-");
            assert(r@ =~= repeat_char('-', i as nat));
        }
    }
    r
}

/// Pad `s` with spaces out to width `w`: on the left when `right` is
/// set (right alignment), otherwise on the right.
pub fn pad_cell(s: &str, w: usize, right: bool) -> (r: String)
    ensures
        right ==> r@ == pad_left(s@, w as int),
        !right ==> r@ == pad_right(s@, w as int),
{
    let n = s.unicode_len();
    if n >= w {
        s.to_owned()
    } else {
        let fill = spaces(w - n);
        if right {
            let r = fill.concat(s);
            proof {
                assert(r@ =~= pad_left(s@, w as int));
            }
            r
        } else {
            let r = s.to_owned().concat(fill.as_str());
            proof {
                assert(r@ =~= pad_right(s@, w as int));
            }
            r
        }
    }
}

} // verus!

verus! {

/// The fields of `s` between occurrences of the separator `sep`:
/// always one more field than there are separators, fields may be empty.
pub open spec fn spec_split(s: Seq<char>, sep: char) -> Seq<Seq<char>>
    decreases s.len(),
{
    if s.len() == 0 {
        seq![Seq::<char>::empty()]
    } else if s[0] == sep {
        seq![Seq::<char>::empty()] + spec_split(s.drop_first(), sep)
    } else {
        let rest = spec_split(s.drop_first(), sep);
        seq![seq![s[0]] + rest[0]] + rest.drop_first()
    }
}

pub proof fn lemma_split_len(s: Seq<char>, sep: char)
    ensures
        spec_split(s, sep).len() >= 1,
    decreases s.len(),
{
    if s.len() > 0 {
        lemma_split_len(s.drop_first(), sep);
    }
}

/// Appending one character extends the last field, or opens a new
/// empty one when the character is the separator.
pub proof fn lemma_split_push(s: Seq<char>, sep: char, c: char)
    ensures
        c == sep ==> spec_split(s.push(c), sep) =~= spec_split(s, sep).push(
            Seq::<char>::empty(),
        ),
        c != sep ==> spec_split(s.push(c), sep) =~= spec_split(s, sep).update(
            spec_split(s, sep).len() - 1,
            spec_split(s, sep).last().push(c),
        ),
    decreases s.len(),
{
    lemma_split_len(s, sep);
    if s.len() == 0 {
        assert(s.push(c).drop_first() =~= Seq::<char>::empty());
        if c == sep {
            assert(spec_split(s.push(c), sep) =~= seq![Seq::<char>::empty()] + spec_split(
                Seq::<char>::empty(),
                sep,
            ));
        } else {
            assert(spec_split(Seq::<char>::empty(), sep) =~= seq![Seq::<char>::empty()]);
            assert(s.push(c).len() == 1 && s.push(c)[0] == c);
            assert(spec_split(s.push(c), sep) =~= seq![
                seq![c] + spec_split(Seq::<char>::empty(), sep)[0],
            ] + spec_split(Seq::<char>::empty(), sep).drop_first());
            assert(seq![c] + spec_split(Seq::<char>::empty(), sep)[0] =~= seq![c]);
            assert(spec_split(s, sep).last().push(c) =~= seq![c]);
            assert(spec_split(s.push(c), sep) =~= spec_split(s, sep).update(
                0,
                spec_split(s, sep).last().push(c),
            ));
        }
    } else {
        lemma_split_push(s.drop_first(), sep, c);
        lemma_split_len(s.drop_first(), sep);
        assert(s.push(c).drop_first() =~= s.drop_first().push(c));
        assert(s.push(c)[0] == s[0]);
        if s[0] == sep {
            if c == sep {
                assert(spec_split(s.push(c), sep) =~= spec_split(s, sep).push(
                    Seq::<char>::empty(),
                ));
            } else {
                assert(spec_split(s.push(c), sep) =~= spec_split(s, sep).update(
                    spec_split(s, sep).len() - 1,
                    spec_split(s, sep).last().push(c),
                ));
            }
        } else {
            let rest = spec_split(s.drop_first(), sep);
            let restc = spec_split(s.drop_first().push(c), sep);
            if c == sep {
                assert(restc =~= rest.push(Seq::<char>::empty()));
                assert(restc[0] == rest[0]);
                assert(spec_split(s.push(c), sep) =~= spec_split(s, sep).push(
                    Seq::<char>::empty(),
                ));
            } else {
                assert(restc =~= rest.update(rest.len() - 1, rest.last().push(c)));
                if rest.len() == 1 {
                    assert(spec_split(s.push(c), sep) =~= spec_split(s, sep).update(
                        spec_split(s, sep).len() - 1,
                        spec_split(s, sep).last().push(c),
                    ));
                } else {
                    assert(restc[0] == rest[0]);
                    assert(spec_split(s.push(c), sep) =~= spec_split(s, sep).update(
                        spec_split(s, sep).len() - 1,
                        spec_split(s, sep).last().push(c),
                    ));
                }
            }
        }
    }
}

/// Split `s` on the character `sep`, as [`spec_split`] describes.
pub fn split_char(s: &str, sep: char) -> (parts: Vec<String>)
    ensures
        parts.deep_view() == spec_split(s@, sep),
        parts@.len() >= 1,
{
    let n = s.unicode_len();
    let mut parts: Vec<String> = Vec::new();
    let mut cur: String = String::new();
    let mut i: usize = 0;
    proof {
        assert(s@.take(0) =~= Seq::<char>::empty());
        assert(parts.deep_view().push(cur@) =~= spec_split(s@.take(0), sep));
    }
    while i < n
        invariant
            i <= n,
            n == s@.len(),
            parts.deep_view().push(cur@) == spec_split(s@.take(i as int), sep),
        decreases n - i,
    {
        let c = s.get_char(i);
        proof {
            lemma_split_push(s@.take(i as int), sep, c);
            assert(s@.take(i + 1) =~= s@.take(i as int).push(c));
        }
        if c == sep {
            let ghost before = parts.deep_view();
            parts.push(cur);
            cur = String::new();
            proof {
                assert(parts.deep_view() =~= before.push(spec_split(s@.take(i as int), sep).last()));
                assert(parts.deep_view().push(cur@) =~= spec_split(s@.take(i + 1), sep));
            }
        } else {
            let piece = s.substring_char(i, i + 1);
            cur.append(piece);
            proof {
                assert(cur@ =~= spec_split(s@.take(i as int), sep).last().push(c));
                assert(parts.deep_view().push(cur@) =~= spec_split(s@.take(i + 1), sep));
            }
        }
        i = i + 1;
    }
    let ghost before = parts.deep_view();
    parts.push(cur);
    proof {
        assert(s@.take(n as int) =~= s@);
        assert(parts.deep_view() =~= before.push(cur@));
    }
    parts
}

/// `s` without its leading whitespace.
pub open spec fn ltrim(s: Seq<char>) -> Seq<char>
    decreases s.len(),
{
    if s.len() > 0 && is_wspace(s[0]) {
        ltrim(s.drop_first())
    } else {
        s
    }
}

/// `s` without its trailing whitespace.
pub open spec fn rtrim(s: Seq<char>) -> Seq<char>
    decreases s.len(),
{
    if s.len() > 0 && is_wspace(s.last()) {
        rtrim(s.drop_last())
    } else {
        s
    }
}

/// `s` without leading and trailing whitespace, as `str::trim` leaves it.
pub open spec fn trim_spec(s: Seq<char>) -> Seq<char> {
    rtrim(ltrim(s))
}

/// Trim surrounding whitespace, as [`trim_spec`] describes.
pub fn trim_str(s: &str) -> (r: String)
    ensures
        r@ == trim_spec(s@),
{
    let n = s.unicode_len();
    let mut a: usize = 0;
    proof {
        assert(s@.skip(0) =~= s@);
    }
    while a < n && is_wspace_exec(s.get_char(a))
        invariant
            a <= n,
            n == s@.len(),
            ltrim(s@) == ltrim(s@.skip(a as int)),
        decreases n - a,
    {
        proof {
            assert(s@.skip(a as int).drop_first() =~= s@.skip(a + 1));
        }
        a = a + 1;
    }
    proof {
        if a == n {
            assert(s@.skip(a as int) =~= Seq::<char>::empty());
        }
        assert(ltrim(s@) == s@.skip(a as int));
    }
    let mut b: usize = n;
    while b > a && is_wspace_exec(s.get_char(b - 1))
        invariant
            a <= b <= n,
            n == s@.len(),
            ltrim(s@) == s@.skip(a as int),
            rtrim(s@.skip(a as int)) == rtrim(s@.subrange(a as int, b as int)),
        decreases b,
    {
        proof {
            assert(s@.subrange(a as int, b as int).drop_last() =~= s@.subrange(
                a as int,
                b - 1,
            ));
        }
        b = b - 1;
    }
    proof {
        assert(rtrim(s@.subrange(a as int, b as int)) == s@.subrange(a as int, b as int));
    }
    s.substring_char(a, b).to_owned()
}

} // verus!

verus! {

/// The digit character for a value below ten.
pub open spec fn dec_digit(d: int) -> char {
    if d == 0 {
        '0'
    } else if d == 1 {
        '1'
    } else if d == 2 {
        '2'
    } else if d == 3 {
        '3'
    } else if d == 4 {
        '4'
    } else if d == 5 {
        '5'
    } else if d == 6 {
        '6'
    } else if d == 7 {
        '7'
    } else if d == 8 {
        '8'
    } else {
        '9'
    }
}

/// The decimal numeral of `n`, without leading zeroes.
pub open spec fn dec_str(n: nat) -> Seq<char>
    decreases n,
{
    if n < 10 {
        seq![dec_digit(n as int)]
    } else {
        dec_str(n / 10).push(dec_digit((n % 10) as int))
    }
}

/// One digit as a string.
fn digit_str(d: usize) -> (r: String)
    requires
        d < 10,
    ensures
        r@ =~= seq![dec_digit(d as int)],
{
    proof {
        reveal_strlit("0");
        reveal_strlit("1");
        reveal_strlit("2");
        reveal_strlit("3");
        reveal_strlit("4");
        reveal_strlit("5");
        reveal_strlit("6");
        reveal_strlit("7");
        reveal_strlit("8");
        reveal_strlit("9");
    }
    let r: &str = if d == 0 {
        "0"
    } else if d == 1 {
        "1"
    } else if d == 2 {
        "2"
    } else if d == 3 {
        "3"
    } else if d == 4 {
        "4"
    } else if d == 5 {
        "5"
    } else if d == 6 {
        "6"
    } else if d == 7 {
        "7"
    } else if d == 8 {
        "8"
    } else {
        "9"
    };
    r.to_owned()
}

/// The decimal numeral of `n`, as [`dec_str`] describes.
pub fn dec_of(n: usize) -> (r: String)
    ensures
        r@ == dec_str(n as nat),
    decreases n,
{
    if n < 10 {
        digit_str(n)
    } else {
        let mut r = dec_of(n / 10);
        let d = digit_str(n % 10);
        r.append(d.as_str());
        proof {
            assert(r@ =~= dec_str((n / 10) as nat).push(dec_digit((n % 10) as int)));
        }
        r
    }
}

/// Strict lexicographic order on character sequences, by scalar value,
/// the order in which `str` sorts.
pub open spec fn lex_lt(a: Seq<char>, b: Seq<char>) -> bool
    decreases a.len(),
{
    if b.len() == 0 {
        false
    } else if a.len() == 0 {
        true
    } else if a[0] < b[0] {
        true
    } else if a[0] == b[0] {
        lex_lt(a.drop_first(), b.drop_first())
    } else {
        false
    }
}

pub proof fn lemma_lex_connected(a: Seq<char>, b: Seq<char>)
    ensures
        !lex_lt(a, b) && !lex_lt(b, a) ==> a =~= b,
    decreases a.len(),
{
    if a.len() == 0 || b.len() == 0 {
        if a.len() == 0 && b.len() == 0 {
            assert(a =~= b);
        } else {
            assert(lex_lt(a, b) || lex_lt(b, a));
        }
    } else if a[0] != b[0] {
        let x: char = a[0];
        let y: char = b[0];
        assert(x < y || y < x);
        assert(lex_lt(a, b) || lex_lt(b, a));
    } else {
        lemma_lex_connected(a.drop_first(), b.drop_first());
        if !lex_lt(a, b) && !lex_lt(b, a) {
            assert(!lex_lt(a.drop_first(), b.drop_first()));
            assert(!lex_lt(b.drop_first(), a.drop_first()));
            assert(a.drop_first() == b.drop_first());
            assert(a.len() == b.len());
            assert forall|j: int| 0 <= j < a.len() implies a[j] == b[j] by {
                if j > 0 {
                    assert(a[j] == a.drop_first()[j - 1]);
                    assert(b[j] == b.drop_first()[j - 1]);
                }
            }
            assert(a =~= b);
        }
    }
}

pub proof fn lemma_lex_trans(a: Seq<char>, b: Seq<char>, c: Seq<char>)
    ensures
        lex_lt(a, b) && lex_lt(b, c) ==> lex_lt(a, c),
    decreases a.len(),
{
    if a.len() > 0 && b.len() > 0 && c.len() > 0 {
        lemma_lex_trans(a.drop_first(), b.drop_first(), c.drop_first());
    }
}

/// Decide [`lex_lt`] on concrete strings.
pub fn lex_less(a: &str, b: &str) -> (r: bool)
    ensures
        r == lex_lt(a@, b@),
{
    let na = a.unicode_len();
    let nb = b.unicode_len();
    let mut i: usize = 0;
    proof {
        assert(a@.skip(0) =~= a@);
        assert(b@.skip(0) =~= b@);
    }
    while i < na && i < nb
        invariant
            i <= na,
            i <= nb,
            na == a@.len(),
            nb == b@.len(),
            lex_lt(a@, b@) == lex_lt(a@.skip(i as int), b@.skip(i as int)),
            forall|j: int| 0 <= j < i ==> a@[j] == b@[j],
        decreases na - i,
    {
        let ca = a.get_char(i);
        let cb = b.get_char(i);
        if ca < cb {
            return true;
        }
        if ca != cb {
            return false;
        }
        proof {
            assert(a@.skip(i as int).drop_first() =~= a@.skip(i + 1));
            assert(b@.skip(i as int).drop_first() =~= b@.skip(i + 1));
        }
        i = i + 1;
    }
    proof {
        if i >= na {
            assert(a@.skip(i as int) =~= Seq::<char>::empty());
        } else {
            assert(b@.skip(i as int) =~= Seq::<char>::empty());
        }
    }
    na < nb
}

} // verus!

verus! {

/// `t` occurs in `s` at position `p`.
pub open spec fn matches_at(s: Seq<char>, t: Seq<char>, p: int) -> bool {
    0 <= p && p + t.len() <= s.len() && (forall|j: int| 0 <= j < t.len() ==> s[p + j] == t[j])
}

/// The least position at or after `p` where `t` occurs in `s`.
pub open spec fn find_sub_from(s: Seq<char>, t: Seq<char>, p: int) -> Option<int>
    decreases s.len() - p,
{
    if p < 0 || p + t.len() > s.len() {
        None
    } else if matches_at(s, t, p) {
        Some(p)
    } else {
        find_sub_from(s, t, p + 1)
    }
}

/// The least position where `t` occurs in `s`, if it occurs at all.
pub open spec fn find_sub(s: Seq<char>, t: Seq<char>) -> Option<int> {
    find_sub_from(s, t, 0)
}

/// Search for `t` in `s`, as [`find_sub`] describes.
pub fn find_sub_str(s: &str, t: &str) -> (r: Option<usize>)
    ensures
        match r {
            Some(p) => find_sub(s@, t@) == Some(p as int),
            None => find_sub(s@, t@) is None,
        },
{
    let n = s.unicode_len();
    let m = t.unicode_len();
    if m > n {
        return None;
    }
    let mut p: usize = 0;
    while p <= n - m
        invariant
            n == s@.len(),
            m == t@.len(),
            m <= n,
            p <= n - m + 1,
            find_sub(s@, t@) == find_sub_from(s@, t@, p as int),
        decreases n + 1 - p,
    {
        let mut k: usize = 0;
        let mut ok = true;
        while k < m && ok
            invariant
                n == s@.len(),
                m == t@.len(),
                p + m <= n,
                k <= m,
                ok ==> forall|j: int| 0 <= j < k ==> s@[p + j] == t@[j],
                !ok ==> !matches_at(s@, t@, p as int),
            decreases m - k + (if ok { 1int } else { 0int }),
        {
            if s.get_char(p + k) != t.get_char(k) {
                ok = false;
            } else {
                k = k + 1;
            }
        }
        if ok {
            proof {
                assert(matches_at(s@, t@, p as int));
            }
            return Some(p);
        }
        proof {
            assert(m > 0);
        }
        p = p + 1;
    }
    proof {
        assert(find_sub_from(s@, t@, p as int) is None);
    }
    None
}

pub proof fn lemma_find_sub_matches(s: Seq<char>, t: Seq<char>, p: int)
    requires
        find_sub_from(s, t, p) is Some,
    ensures
        matches_at(s, t, find_sub_from(s, t, p)->0),
    decreases s.len() - p,
{
    if !(p < 0 || p + t.len() > s.len()) && !matches_at(s, t, p) {
        lemma_find_sub_matches(s, t, p + 1);
    }
}

/// `s` with `t` inserted at position `p`.
pub open spec fn insert_at(s: Seq<char>, p: int, t: Seq<char>) -> Seq<char> {
    s.take(p) + t + s.skip(p)
}

/// Insert a run of `n` spaces into `s` at position `p`.
pub fn insert_spaces(s: &str, p: usize, n: usize) -> (r: String)
    requires
        p <= s@.len(),
    ensures
        r@ == insert_at(s@, p as int, repeat_char(' ', n as nat)),
{
    let len = s.unicode_len();
    let mut r = s.substring_char(0, p).to_owned();
    let fill = spaces(n);
    r.append(fill.as_str());
    r.append(s.substring_char(p, len));
    proof {
        assert(r@ =~= insert_at(s@, p as int, repeat_char(' ', n as nat)));
    }
    r
}

/// The cells joined by `sep`: nothing for no cells, otherwise the
/// cells with `sep` between each neighbouring pair.
pub open spec fn join_cells(cells: Seq<Seq<char>>, sep: Seq<char>) -> Seq<char>
    decreases cells.len(),
{
    if cells.len() == 0 {
        Seq::empty()
    } else if cells.len() == 1 {
        cells[0]
    } else {
        cells[0] + sep + join_cells(cells.drop_first(), sep)
    }
}

pub proof fn lemma_join_push(cells: Seq<Seq<char>>, sep: Seq<char>, x: Seq<char>)
    ensures
        cells.len() == 0 ==> join_cells(cells.push(x), sep) == x,
        cells.len() > 0 ==> join_cells(cells.push(x), sep) =~= join_cells(cells, sep) + sep + x,
    decreases cells.len(),
{
    if cells.len() == 0 {
        assert(join_cells(cells.push(x), sep) == cells.push(x)[0]);
        assert(cells.push(x)[0] == x);
    } else if cells.len() == 1 {
        assert(cells.push(x).drop_first() =~= seq![x]);
        assert(join_cells(seq![x], sep) == x);
        assert(cells.push(x)[0] == cells[0]);
        assert(join_cells(cells.push(x), sep) == cells[0] + sep + x);
    } else {
        lemma_join_push(cells.drop_first(), sep, x);
        assert(cells.push(x).drop_first() =~= cells.drop_first().push(x));
        assert(cells.push(x)[0] == cells[0]);
        assert(join_cells(cells.push(x), sep) =~= join_cells(cells, sep) + sep + x);
    }
}

/// No value occurs twice.
pub open spec fn distinct_seq(v: Seq<usize>) -> bool {
    forall|i: int, j: int| 0 <= i < j < v.len() ==> v[i] != v[j]
}

/// Strictly ascending in the lexicographic order of decimal numerals.
pub open spec fn dec_sorted(v: Seq<usize>) -> bool {
    forall|i: int, j: int|
        0 <= i < j < v.len() ==> lex_lt(dec_str(v[i] as nat), dec_str(v[j] as nat))
}

pub proof fn lemma_dec_len(n: nat)
    ensures
        dec_str(n).len() >= 1,
    decreases n,
{
    if n >= 10 {
        lemma_dec_len(n / 10);
    }
}

pub proof fn lemma_dec_injective(a: nat, b: nat)
    ensures
        dec_str(a) == dec_str(b) ==> a == b,
    decreases a,
{
    if dec_str(a) == dec_str(b) && a != b {
        lemma_dec_len(a);
        lemma_dec_len(b);
        if a < 10 && b < 10 {
            assert(dec_str(a)[0] == dec_digit(a as int));
            assert(dec_str(b)[0] == dec_digit(b as int));
            assert(false);
        } else if a < 10 && b >= 10 {
            lemma_dec_len(b / 10);
            assert(dec_str(b).len() >= 2);
            assert(false);
        } else if a >= 10 && b < 10 {
            lemma_dec_len(a / 10);
            assert(dec_str(a).len() >= 2);
            assert(false);
        } else {
            lemma_dec_injective(a / 10, b / 10);
            assert(dec_str(a).last() == dec_digit((a % 10) as int));
            assert(dec_str(b).last() == dec_digit((b % 10) as int));
            assert(a % 10 == b % 10);
            assert(dec_str(a).drop_last() =~= dec_str(a / 10));
            assert(dec_str(b).drop_last() =~= dec_str(b / 10));
            assert(a / 10 == b / 10);
            assert(false);
        }
    }
}

proof fn lemma_remove_at(s: Seq<usize>, m: int)
    requires
        0 <= m < s.len(),
        distinct_seq(s),
    ensures
        distinct_seq(s.remove(m)),
        forall|a: usize| #[trigger] s.remove(m).contains(a) <==> (s.contains(a) && a != s[m]),
{
    let t = s.remove(m);
    assert forall|a: usize| #[trigger] t.contains(a) implies s.contains(a) && a != s[m] by {
        let i = choose|i: int| 0 <= i < t.len() && t[i] == a;
        if i < m {
            assert(s[i] == a);
        } else {
            assert(s[i + 1] == a);
        }
    }
    assert forall|a: usize| s.contains(a) && a != s[m] implies #[trigger] t.contains(a) by {
        let i = choose|i: int| 0 <= i < s.len() && s[i] == a;
        if i < m {
            assert(t[i] == a);
        } else {
            assert(i != m);
            assert(t[i - 1] == a);
        }
    }
}

pub proof fn lemma_lex_irrefl(a: Seq<char>)
    ensures
        !lex_lt(a, a),
    decreases a.len(),
{
    if a.len() > 0 {
        lemma_lex_irrefl(a.drop_first());
    }
}

/// Sort distinct values into the lexicographic order of their decimal
/// numerals, the order in which their rendered forms sort as text.
pub fn sort_by_numeral(v: Vec<usize>) -> (r: Vec<usize>)
    requires
        distinct_seq(v@),
    ensures
        dec_sorted(r@),
        distinct_seq(r@),
        forall|a: usize| #[trigger] r@.contains(a) <==> v@.contains(a),
{
    let mut rest = v;
    let mut out: Vec<usize> = Vec::new();
    while rest.len() > 0
        invariant
            distinct_seq(rest@),
            distinct_seq(out@),
            dec_sorted(out@),
            forall|a: usize|
                (#[trigger] rest@.contains(a) || #[trigger] out@.contains(a)) <==> v@.contains(a),
            forall|a: usize| #[trigger] rest@.contains(a) ==> !out@.contains(a),
            forall|i: int, j: int|
                0 <= i < rest@.len() && 0 <= j < out@.len() ==> lex_lt(
                    dec_str(out@[j] as nat),
                    dec_str(rest@[i] as nat),
                ),
        decreases rest@.len(),
    {
        let mut m: usize = 0;
        let mut k: usize = 1;
        proof {
            lemma_lex_irrefl(dec_str(rest@[0] as nat));
        }
        while k < rest.len()
            invariant
                m < k,
                k <= rest@.len(),
                rest@.len() > 0,
                forall|t: int|
                    0 <= t < k ==> !lex_lt(
                        dec_str(rest@[t] as nat),
                        #[trigger] dec_str(rest@[m as int] as nat),
                    ),
            decreases rest@.len() - k,
        {
            let dk = dec_of(rest[k]);
            let dm = dec_of(rest[m]);
            if lex_less(dk.as_str(), dm.as_str()) {
                proof {
                    let dks = dec_str(rest@[k as int] as nat);
                    let dms = dec_str(rest@[m as int] as nat);
                    lemma_lex_irrefl(dks);
                    assert forall|t: int| 0 <= t < k + 1 implies !lex_lt(
                        dec_str(rest@[t] as nat),
                        dks,
                    ) by {
                        if t < k {
                            let dts = dec_str(rest@[t] as nat);
                            lemma_lex_trans(dts, dks, dms);
                        }
                    }
                }
                m = k;
            }
            k = k + 1;
        }
        let ghost old_rest = rest@;
        let ghost old_out = out@;
        let ghost mm = m as int;
        proof {
            assert(forall|t: int|
                0 <= t < old_rest.len() ==> !lex_lt(
                    dec_str(old_rest[t] as nat),
                    #[trigger] dec_str(old_rest[mm] as nat),
                ));
        }
        let x = rest.remove(m);
        out.push(x);
        proof {
            lemma_remove_at(old_rest, mm);
            assert(rest@ =~= old_rest.remove(mm));
            assert(out@ =~= old_out.push(x));
            assert(old_rest[mm] == x);
            assert(old_rest.contains(x));
            assert forall|a: usize| #[trigger] out@.contains(a) <==> (old_out.contains(a) || a
                == x) by {
                if out@.contains(a) {
                    let i = choose|i: int| 0 <= i < out@.len() && out@[i] == a;
                    if i < old_out.len() {
                        assert(old_out[i] == a);
                    }
                } else {
                }
                if old_out.contains(a) {
                    let i = choose|i: int| 0 <= i < old_out.len() && old_out[i] == a;
                    assert(out@[i] == a);
                }
                assert(out@[old_out.len() as int] == x);
            }
            assert forall|i: int, j: int|
                0 <= i < rest@.len() && 0 <= j < out@.len() implies lex_lt(
                dec_str(out@[j] as nat),
                dec_str(rest@[i] as nat),
            ) by {
                assert(rest@.contains(rest@[i]));
                let a = rest@[i];
                assert(old_rest.contains(a) && a != x);
                let oi = choose|t: int| 0 <= t < old_rest.len() && old_rest[t] == a;
                if j < old_out.len() {
                    assert(old_out.contains(old_out[j]));
                    assert(lex_lt(dec_str(out@[j] as nat), dec_str(a as nat)));
                } else {
                    assert(out@[j] == x);
                    assert(!lex_lt(dec_str(old_rest[oi] as nat), dec_str(x as nat)));
                    lemma_lex_connected(dec_str(a as nat), dec_str(x as nat));
                    lemma_dec_injective(a as nat, x as nat);
                    assert(lex_lt(dec_str(x as nat), dec_str(a as nat)));
                }
            }
            assert forall|i: int, j: int| 0 <= i < j < out@.len() implies lex_lt(
                dec_str(out@[i] as nat),
                dec_str(out@[j] as nat),
            ) by {
                if j < old_out.len() {
                    assert(lex_lt(dec_str(old_out[i] as nat), dec_str(old_out[j] as nat)));
                } else {
                    assert(out@[j] == x);
                    assert(out@[i] == old_out[i]);
                    assert(old_rest.contains(x));
                    assert(lex_lt(dec_str(old_out[i] as nat), dec_str(x as nat)));
                }
            }
            assert forall|i: int, j: int| 0 <= i < j < out@.len() implies out@[i] != out@[j] by {
                if j == old_out.len() as int {
                    assert(old_out.contains(old_out[i]));
                    assert(!old_out.contains(x));
                }
            }
        }
    }
    proof {
        assert forall|a: usize| #[trigger] out@.contains(a) <==> v@.contains(a) by {
            assert(!rest@.contains(a));
        }
    }
    out
}

} // verus!
