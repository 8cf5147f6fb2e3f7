// Plain-mode table rendering, exercised through the public API.
use veg::Error;
use veg::Table;
use veg::Veg;

struct Pair {
    a: String,
    b: String,
}

impl Pair {
    fn new(a: &str, b: &str) -> Box<Pair> {
        Box::new(Pair { a: a.to_string(), b: b.to_string() })
    }
}

impl Table for Pair {
    fn row(&self) -> Vec<String> {
        vec![self.a.clone(), self.b.clone()]
    }
}

struct Ragged;

impl Table for Ragged {
    fn row(&self) -> Vec<String> {
        vec!["only one cell".to_string()]
    }
}

#[test]
fn right_aligned_two_columns() {
    let mut v = Veg::table("x|y\n-:|-:");
    v.push(Pair::new("-2.0", "4.0"));
    v.push(Pair::new("0.0", "0.0"));
    let m = v.markdown().unwrap();
    assert_eq!(m, "|    x |   y |\n|-----:|----:|\n| -2.0 | 4.0 |\n|  0.0 | 0.0 |\n");
}

#[test]
fn rendering_is_idempotent() {
    let mut v = Veg::table("x|y\n-:|-:");
    v.push(Pair::new("-2.0", "4.0"));
    v.push(Pair::new("0.0", "0.0"));
    let first = v.markdown().unwrap();
    let second = v.markdown().unwrap();
    assert_eq!(first, second);
    let third = v.markdown_with(None, Some(&[1, 0])).unwrap();
    let fourth = v.markdown_with(None, Some(&[1, 0])).unwrap();
    assert_eq!(third, fourth);
}

#[test]
fn column_count_in_every_line() {
    let mut v = Veg::table("a|b|c\n|-:|");
    v.push(Box::new(Pair3));
    let m = v.markdown().unwrap();
    for line in m.lines() {
        assert_eq!(line.matches('|').count(), 4);
    }
}

struct Pair3;

impl Table for Pair3 {
    fn row(&self) -> Vec<String> {
        vec!["one".to_string(), "two".to_string(), "three".to_string()]
    }
}

#[test]
fn selection_reorders_and_duplicates() {
    let mut v = Veg::table("a|b\n|");
    v.push(Pair::new("x", "yy"));
    let m = v.markdown_with(None, Some(&[1, 0, 0])).unwrap();
    assert_eq!(m, "| b  | a | a |\n|----|---|---|\n| yy | x | x |\n");
}

#[test]
fn selection_keeps_each_column_content() {
    let mut v = Veg::table("a|b\n|");
    v.push(Pair::new("x", "yy"));
    let full = v.markdown().unwrap();
    let swapped = v.markdown_with(None, Some(&[1, 0])).unwrap();
    let full_cells: Vec<Vec<&str>> =
        full.lines().map(|l| l.trim_matches('|').split('|').map(|c| c.trim()).collect()).collect();
    let swapped_cells: Vec<Vec<&str>> = swapped
        .lines()
        .map(|l| l.trim_matches('|').split('|').map(|c| c.trim()).collect())
        .collect();
    for i in 0..full_cells.len() {
        if i == 1 {
            continue;
        }
        assert_eq!(swapped_cells[i][0], full_cells[i][1]);
        assert_eq!(swapped_cells[i][1], full_cells[i][0]);
    }
}

#[test]
fn invalid_selection_is_rejected_sorted() {
    let mut v = Veg::table("a|b\n|");
    v.push(Pair::new("x", "yy"));
    let e = v.markdown_with(None, Some(&[0, 5, 2, 10, 5])).unwrap_err();
    match &e {
        Error::InvalidColumnIndexes(ix) => {
            // distinct out-of-range values, in the order of their numerals
            assert_eq!(ix, &vec![10usize, 2, 5]);
        }
        _ => panic!("expected invalid column indexes"),
    }
    assert_eq!(e.message(), "Invalid column indexes: 10, 2, 5");
}

#[test]
fn ragged_row_is_rejected() {
    let mut v = Veg::table("a|b\n|");
    v.push(Box::new(Ragged));
    let e = v.markdown().unwrap_err();
    assert!(matches!(e, Error::RowWidthMismatch));
    assert_eq!(e.message(), "Row width does not match the table header");
}

#[test]
fn single_line_header_without_rows_is_rejected() {
    let v = Veg::table("a|b");
    let e = v.markdown().unwrap_err();
    assert!(matches!(e, Error::RowWidthMismatch));
}

#[test]
fn header_fields_are_trimmed() {
    let mut v = Veg::table(" a | b \n -: | ");
    v.push(Pair::new("x", "y"));
    let m = v.markdown().unwrap();
    assert_eq!(m, "|  a | b |\n|---:|---|\n|  x | y |\n");
}

#[test]
fn header_override_is_used() {
    let mut v = Veg::table("a|b\n|");
    v.push(Pair::new("x", "y"));
    let m = v.markdown_with(Some("long a|b\n-:|"), None).unwrap();
    assert_eq!(m, "| long a | b |\n|-------:|---|\n|      x | y |\n");
}

#[test]
fn empty_and_append() {
    let mut v = Veg::table("a|b\n|");
    assert!(v.is_empty());
    let mut items: Vec<Box<dyn Table>> = vec![Pair::new("1", "2"), Pair::new("3", "4")];
    v.append(&mut items);
    assert!(items.is_empty());
    assert!(!v.is_empty());
    let m = v.markdown().unwrap();
    assert_eq!(m, "| a | b |\n|---|---|\n| 1 | 2 |\n| 3 | 4 |\n");
}

#[test]
fn process_header_splits_and_trims() {
    let g = veg::process_header(" x |y\n-:| ");
    assert_eq!(g, vec![vec!["x".to_string(), "y".to_string()], vec![
        "-:".to_string(),
        "".to_string()
    ]]);
}

#[test]
fn wide_marker_sets_column_width() {
    // the alignment marker itself takes part in the width scan
    let mut v = Veg::table("a\n-----:");
    v.push(Box::new(One));
    let m = v.markdown().unwrap();
    assert_eq!(m, "|      a |\n|-------:|\n|      z |\n");
}

struct One;

impl Table for One {
    fn row(&self) -> Vec<String> {
        vec!["z".to_string()]
    }
}
