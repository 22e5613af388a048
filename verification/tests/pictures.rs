use icfpc2020::parser::parse_lisp;
use icfpc2020::recognize::{prepare_char_templates, RecognitionResult, RecognizedChar, Recognizer};
use icfpc2020::visualize::{
    collect_list_of_coords, collect_list_of_list_of_coords, create_bitmap, create_bitmap_with_offset, draw,
    multidraw, multidraw_from_e,
};

const GALAXY: &str = "..###..\n.....#.\n.###..#\n#.#.#.#\n#..###.\n.#.....\n..###..";

fn glyph_points(dx: i32, dy: i32) -> String {
    let mut pts = vec![];
    for (y, line) in GALAXY.lines().enumerate() {
        for (x, c) in line.chars().enumerate() {
            if c == '#' {
                pts.push(format!("<{}, {}>", x as i32 + dx, y as i32 + dy));
            }
        }
    }
    format!("[{}]", pts.join(", "))
}

#[test]
fn points_are_collected() {
    let e = parse_lisp("[<1, 2>, <-1, -1>]").unwrap().0;
    assert_eq!(collect_list_of_coords(&e), Some(vec![(1, 2), (-1, -1)]));
    let e = parse_lisp("[[<1, 2>], []]").unwrap().0;
    assert_eq!(collect_list_of_list_of_coords(&e), Some(vec![vec![(1, 2)], vec![]]));
    let e = parse_lisp("[1, 2]").unwrap().0;
    assert_eq!(collect_list_of_coords(&e), None);
}

#[test]
fn bitmaps_of_points() {
    let pts = vec![(1, 2), (-1, -1)];
    let (bmp, corner) = create_bitmap_with_offset(&pts).unwrap();
    assert_eq!(corner, (-1, -1));
    assert_eq!(bmp.len(), 4);
    assert_eq!(bmp[0], vec![true, false, false]);
    assert_eq!(bmp[3], vec![false, false, true]);
    assert_eq!(create_bitmap(&vec![]).unwrap(), vec![Vec::<bool>::new()]);
    assert!(create_bitmap(&vec![(0, 0), (1 << 40, 1 << 40)]).is_none());
}

#[test]
fn drawings_as_text() {
    let pts = vec![(1, 2), (-1, -1)];
    assert_eq!(
        draw(&pts, "t").unwrap(),
        "---------- t ----------\n#  \n   \n   \n  #\n--------------------\n"
    );
    assert_eq!(draw(&vec![], "e").unwrap(), "---------- e ----------\n\n--------------------\n");
}

#[test]
fn templates_are_prepared() {
    let t = prepare_char_templates();
    assert_eq!(t.len(), 1);
    assert_eq!(t[0].0, "galaxy");
    assert_eq!(t[0].1.len(), 7);
    assert_eq!(t[0].1[0], vec![false, false, true, true, true, false, false]);
}

#[test]
fn galaxy_glyph_is_recognized() {
    let r = Recognizer::new();
    let e = parse_lisp(&format!("[{}, []]", glyph_points(10, 20))).unwrap().0;
    let found = r.recognize(&e).unwrap();
    assert_eq!(found.filter_command("gal"), "13 23");
    assert_eq!(found.filter_command(""), "");
    assert_eq!(found.filter_command("zzz"), "zzz");
    let twice = parse_lisp(&format!("[{}, {}]", glyph_points(10, 20), glyph_points(0, 0))).unwrap().0;
    assert_eq!(r.recognize(&twice).unwrap().filter_command("galaxy"), "galaxy");
    assert_eq!(RecognitionResult::new_empty().filter_command("galaxy"), "galaxy");
}

#[test]
fn glyph_names() {
    assert!(RecognizedChar::Char("galaxy".to_string()).starts_with("gal"));
    assert!(!RecognizedChar::Char("galaxy".to_string()).starts_with("x"));
    assert!(!RecognizedChar::Num(5).starts_with(""));
}

#[test]
fn number_glyphs_are_detected() {
    let r = Recognizer::new();
    let bmp = vec![
        vec![false, true, false],
        vec![true, true, false],
        vec![false, false, false],
    ];
    assert_eq!(r.detect_chars(&bmp), vec![(0, 0, vec![true])]);
    let bmp = vec![vec![false, true], vec![true, false]];
    assert_eq!(r.detect_chars(&bmp), vec![(0, 0, vec![false])]);
}

#[test]
fn corners_inside_a_glyph_are_passed_over() {
    let r = Recognizer::new();
    // the clear cell at (1, 1) has a frame of its own, but lies inside the
    // glyph whose corner is (0, 0)
    let bmp = vec![
        vec![false, true, true],
        vec![true, false, true],
        vec![true, true, true],
    ];
    assert_eq!(r.detect_chars(&bmp), vec![(0, 0, vec![false, true, true, true])]);
    // two glyphs side by side are both found, in reading order
    let bmp = vec![
        vec![false, true, false, true],
        vec![true, true, true, false],
        vec![false, false, false, false],
    ];
    assert_eq!(r.detect_chars(&bmp), vec![(0, 0, vec![true]), (2, 0, vec![false])]);
}

#[test]
fn several_drawings() {
    let v = vec![vec![(0, 0)], vec![]];
    assert_eq!(
        multidraw(&v).unwrap(),
        "---------- 0 ----------\n#\n--------------------\n---------- 1 ----------\n\n--------------------\n"
    );
    assert!(multidraw(&vec![vec![(0, 0), (1 << 40, 1 << 40)]]).is_none());
    let e = parse_lisp("[[<5, 5>]]").unwrap().0;
    assert_eq!(multidraw_from_e(&e).unwrap(), "---------- 0 ----------\n#\n--------------------\n");
    let e = parse_lisp("[1]").unwrap().0;
    assert!(multidraw_from_e(&e).is_none());
}
