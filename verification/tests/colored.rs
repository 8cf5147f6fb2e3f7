// Color-aware rendering: visible widths, escape-preserving padding.
use colored::ColoredString;
use colored::Colorize;
use veg::colored::Table;
use veg::colored::Veg;
use veg::Error;

// A record of two coordinates, colored by sign.
struct Point {
    x: f32,
    y: f32,
}

impl Point {
    fn new(x: f32, y: f32) -> Box<Point> {
        Box::new(Point { x, y })
    }
}

impl Table for Point {
    fn row(&self) -> Vec<String> {
        [self.x, self.y]
            .iter()
            .map(|&x| {
                let s = format!("{x:.1}");
                if x < 0.0 {
                    s.red().to_string()
                } else if x > 0.0 {
                    s.green().to_string()
                } else {
                    ColoredString::from(s).to_string()
                }
            })
            .collect()
    }
}

#[test]
fn it_works() {
    let mut v = Veg::table(&format!("{}|{}\n-:|-:", "x".cyan(), "y".magenta()));
    v.push(Point::new(-2.0, 4.0));
    v.append(&mut vec![
        Point::new(-1.5, 3.0),
        Point::new(-1.0, 2.0),
        Point::new(-0.5, 1.0),
        Point::new(0.0, 0.0),
        Point::new(0.5, -1.0),
        Point::new(1.0, -2.0),
        Point::new(1.5, -3.0),
        Point::new(2.0, -4.0),
    ]);
    let m = v.markdown().unwrap();
    println!("{m}");
}

struct Raw(Vec<String>);

impl Table for Raw {
    fn row(&self) -> Vec<String> {
        self.0.clone()
    }
}

fn raw(cells: &[&str]) -> Box<Raw> {
    Box::new(Raw(cells.iter().map(|c| c.to_string()).collect()))
}

#[test]
fn escapes_do_not_count_toward_width() {
    let mut v = Veg::table("h\n-:");
    v.push(raw(&["\u{1b}[31mab\u{1b}[0m"]));
    let m = v.markdown().unwrap();
    assert_eq!(m, "|  h |\n|---:|\n| \u{1b}[31mab\u{1b}[0m |\n");
}

#[test]
fn right_padding_lands_before_visible_text() {
    let mut v = Veg::table("h\n-:");
    v.push(raw(&["\u{1b}[31mab\u{1b}[0m"]));
    v.push(raw(&["\u{1b}[31mz\u{1b}[0m"]));
    let m = v.markdown().unwrap();
    assert_eq!(
        m,
        "|  h |\n|---:|\n| \u{1b}[31mab\u{1b}[0m |\n| \u{1b}[31m z\u{1b}[0m |\n"
    );
}

#[test]
fn left_padding_lands_after_visible_text() {
    let mut v = Veg::table("h\n");
    v.push(raw(&["ab"]));
    v.push(raw(&["\u{1b}[31mz\u{1b}[0m"]));
    let m = v.markdown().unwrap();
    assert_eq!(m, "| h  |\n|----|\n| ab |\n| \u{1b}[31mz \u{1b}[0m |\n");
}

#[test]
fn stripped_padded_output_matches_plain_mode() {
    // colored output, once stripped, equals the plain render of the
    // stripped cells
    let mut c = Veg::table("h\n-:");
    c.push(raw(&["\u{1b}[31mab\u{1b}[0m"]));
    c.push(raw(&["\u{1b}[32mz\u{1b}[0m"]));
    let colored_out = c.markdown().unwrap();

    let mut p = veg::Veg::table("h\n-:");
    p.push(Box::new(PlainRaw(vec!["ab".to_string()])));
    p.push(Box::new(PlainRaw(vec!["z".to_string()])));
    let plain_out = p.markdown().unwrap();

    assert_eq!(strip_ansi_escapes::strip_str(&colored_out), plain_out);
}

struct PlainRaw(Vec<String>);

impl veg::Table for PlainRaw {
    fn row(&self) -> Vec<String> {
        self.0.clone()
    }
}

#[test]
fn grapheme_clusters_count_once() {
    // four code points, two visible columns
    let mut v = Veg::table("xy\n");
    v.push(raw(&["A\u{0336}B\u{0336}"]));
    let m = v.markdown().unwrap();
    assert_eq!(m, "| xy |\n|----|\n| A\u{0336}B\u{0336} |\n");
}

#[test]
fn interleaved_escapes_cannot_be_right_padded() {
    let mut v = Veg::table("h\n-:");
    v.push(raw(&["a\u{1b}[31mb\u{1b}[0m"]));
    let e = v.markdown().unwrap_err();
    assert!(matches!(e, Error::UnpaddableCell));
    assert_eq!(e.message(), "Cannot pad a cell around its escape sequences");
}

#[test]
fn colored_invalid_selection() {
    let mut v = Veg::table("a|b\n|");
    v.push(raw(&["x", "y"]));
    let e = v.markdown_with(None, Some(&[3, 2])).unwrap_err();
    match &e {
        Error::InvalidColumnIndexes(ix) => assert_eq!(ix, &vec![2usize, 3]),
        _ => panic!("expected invalid column indexes"),
    }
    assert_eq!(e.message(), "Invalid column indexes: 2, 3");
}

#[test]
fn colored_selection_and_override() {
    let mut v = Veg::table("a|b\n|");
    v.push(raw(&["x", "yy"]));
    let hdr = "B|A\n-:|".to_string();
    let m = v.markdown_with(Some(&hdr), Some(&[1, 0])).unwrap();
    assert_eq!(m, "| A  |  B |\n|----|---:|\n| yy |  x |\n");
}
