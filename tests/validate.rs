use text_circle::grid::{chars_of, character_to_pave_with, distinct_characters, lines, Location};
use text_circle::ring::{missing_background_characters, required_background_at};
use text_circle::search::{edge_square, path_out_of_circle, PathStep};
use text_circle::text::br_separated_tuples;
use text_circle::validate_text_circle;

const ESCAPE: &str = "Invalid. There should not be a path from inside the circle to outside:<br><br><code>";

#[test]
fn empty_input_is_reported() {
    assert_eq!(validate_text_circle(""), "Invalid. The input is empty.");
}

#[test]
fn two_characters_on_one_line_are_not_square() {
    assert_eq!(validate_text_circle("ab"), "Invalid. The input is not square.");
}

#[test]
fn ragged_rows_are_not_square() {
    assert_eq!(validate_text_circle("...\n..\n..."), "Invalid. The input is not square.");
}

#[test]
fn even_side_is_reported() {
    assert_eq!(
        validate_text_circle("....\n....\n....\n...."),
        "Invalid. The side length of the square is not odd."
    );
}

#[test]
fn one_symbol_is_reported() {
    assert_eq!(
        validate_text_circle("...\n...\n..."),
        "Invalid. The input does not contain 2 distinct characters."
    );
}

#[test]
fn three_symbols_are_reported() {
    assert_eq!(
        validate_text_circle("abc\nabc\nabc"),
        "Invalid. The input does not contain 2 distinct characters."
    );
}

#[test]
fn misplaced_cells_are_listed_in_row_major_order() {
    assert_eq!(
        validate_text_circle(".....\n..#..\n.#...\n.....\n....."),
        "Invalid. The following positions (x, y) from (0, 0) at left top should be background character \".\":<br>(2, 1)<br>(1, 2)"
    );
}

#[test]
fn diamond_with_gap_leaks_through_the_gap() {
    let out = validate_text_circle(".....\n.#.#.\n#...#\n.#.#.\n..#..");
    let want = format!("{ESCAPE}..X..<br>.#X#.<br>#.X.#<br>.#.#.<br>..#..</code>");
    assert_eq!(out, want);
}

#[test]
fn closed_diamond_is_valid() {
    assert_eq!(
        validate_text_circle("..#..\n.#.#.\n#...#\n.#.#.\n..#.."),
        "This is a valid text circle of radius 2."
    );
}

#[test]
fn full_band_ring_is_valid() {
    assert_eq!(
        validate_text_circle("#####\n##.##\n#...#\n##.##\n#####"),
        "This is a valid text circle of radius 2."
    );
}

#[test]
fn ring_of_radius_three_is_valid() {
    let text = "..###..\n.#...#.\n#.....#\n#.....#\n#.....#\n.#...#.\n..###..";
    assert_eq!(validate_text_circle(text), "This is a valid text circle of radius 3.");
}

#[test]
fn gap_in_radius_three_ring_leaks() {
    let text = "..#.#..\n.#...#.\n#.....#\n#.....#\n#.....#\n.#...#.\n..###..";
    let out = validate_text_circle(text);
    assert!(out.starts_with(ESCAPE));
    assert!(out.ends_with("</code>"));
    let diagram = &out[ESCAPE.len()..out.len() - "</code>".len()];
    let rows: Vec<&str> = diagram.split("<br>").collect();
    assert_eq!(rows.len(), 7);
    assert_eq!(rows[0], "..#X#..");
    for (y, row) in rows.iter().enumerate() {
        let original: Vec<char> = text.lines().nth(y).unwrap().chars().collect();
        for (x, c) in row.chars().enumerate() {
            if c == 'X' {
                assert_eq!(original[x], '.');
            } else {
                assert_eq!(c, original[x]);
            }
        }
    }
    let paved: usize = rows.iter().map(|r| r.chars().filter(|&c| c == 'X').count()).sum();
    assert_eq!(paved, 4);
}

#[test]
fn smallest_grid_leaks_left_first() {
    assert_eq!(
        validate_text_circle("#.#\n...\n#.#"),
        format!("{ESCAPE}#.#<br>XX.<br>#.#</code>")
    );
}

#[test]
fn paving_falls_back_to_dot() {
    assert_eq!(
        validate_text_circle("#X#\nXXX\n#X#"),
        format!("{ESCAPE}#X#<br>..X<br>#X#</code>")
    );
}

#[test]
fn trailing_newline_is_ignored() {
    assert_eq!(
        validate_text_circle("..#..\n.#.#.\n#...#\n.#.#.\n..#..\n"),
        "This is a valid text circle of radius 2."
    );
}

#[test]
fn centre_is_required_background() {
    for r in 1..6usize {
        assert!(required_background_at(r, r, r));
    }
}

#[test]
fn classification_is_repeatable() {
    for r in 1..5usize {
        for y in 0..=2 * r {
            for x in 0..=2 * r {
                assert_eq!(required_background_at(x, y, r), required_background_at(x, y, r));
            }
        }
    }
}

#[test]
fn classification_band_of_radius_two() {
    assert!(required_background_at(2, 1, 2));
    assert!(!required_background_at(0, 0, 2));
    assert!(!required_background_at(2, 0, 2));
    assert!(!required_background_at(1, 1, 2));
    assert!(required_background_at(0, 0, 3));
    assert!(!required_background_at(0, 3, 3));
}

#[test]
fn lines_split_like_str_lines() {
    let cs = chars_of("ab\r\ncd\n\nef\n");
    let rows = lines(&cs);
    let want: Vec<Vec<char>> = vec![vec!['a', 'b'], vec!['c', 'd'], vec![], vec!['e', 'f']];
    assert_eq!(rows, want);
}

#[test]
fn distinct_characters_skip_line_feeds() {
    let d = distinct_characters(&lines(&chars_of("ab\nba\n")));
    assert_eq!(d, vec!['a', 'b']);
}

#[test]
fn distinct_characters_in_order_of_first_appearance() {
    assert_eq!(distinct_characters(&lines(&chars_of(".#.\n#.#\n.#."))), vec!['.', '#']);
    assert_eq!(distinct_characters(&lines(&chars_of("ba\nab"))), vec!['b', 'a']);
    assert_eq!(distinct_characters(&lines(&chars_of(""))), vec![]);
}

#[test]
fn distinct_characters_drop_carriage_returns_of_line_ends() {
    assert_eq!(distinct_characters(&lines(&chars_of("a\r\nb"))), vec!['a', 'b']);
}

#[test]
fn windows_line_ends_make_the_same_grid() {
    assert_eq!(
        validate_text_circle("#.#\r\n...\r\n#.#"),
        format!("{ESCAPE}#.#<br>XX.<br>#.#</code>")
    );
    assert_eq!(
        validate_text_circle("..#..\r\n.#.#.\r\n#...#\r\n.#.#.\r\n..#..\r\n"),
        "This is a valid text circle of radius 2."
    );
}

#[test]
fn paving_prefers_hash_then_x() {
    assert_eq!(character_to_pave_with(&vec!['.', 'o']), '#');
    assert_eq!(character_to_pave_with(&vec!['#', '.']), 'X');
    assert_eq!(character_to_pave_with(&vec!['X', '#']), '.');
}

#[test]
fn positions_are_listed_with_br() {
    let cells = vec![Location::new(12, 3), Location::new(0, 40)];
    assert_eq!(br_separated_tuples(&cells), "(12, 3)<br>(0, 40)");
}

#[test]
fn missing_background_lists_cells() {
    let g = lines(&chars_of("#.#\n.#.\n#.#"));
    let m = missing_background_characters(&g);
    assert_eq!(m, vec![]);
    let g = lines(&chars_of("...\n...\n...\n"));
    assert!(missing_background_characters(&g).is_empty());
}

#[test]
fn search_finds_walk_to_edge() {
    let g = lines(&chars_of(".....\n.#.#.\n#...#\n.#.#.\n..#.."));
    let p = path_out_of_circle(&g).unwrap();
    assert_eq!(p, vec![Location::new(2, 2), Location::new(2, 1), Location::new(2, 0)]);
    let g = lines(&chars_of("..#..\n.#.#.\n#...#\n.#.#.\n..#.."));
    assert!(path_out_of_circle(&g).is_none());
}

#[test]
fn edges_of_a_five_grid() {
    assert!(edge_square(&Location::new(0, 2), 5));
    assert!(edge_square(&Location::new(4, 4), 5));
    assert!(!edge_square(&Location::new(1, 3), 5));
}

#[test]
fn path_step_keeps_fields() {
    let s = PathStep::new(Location::new(1, 2), Some(Location::new(1, 1)), 3);
    assert_eq!(s.location, Location::new(1, 2));
    assert_eq!(s.parent, Some(Location::new(1, 1)));
    assert_eq!(s.distance, 3);
}

#[test]
fn full_band_ring_with_top_gap_leaks_straight_up() {
    assert_eq!(
        validate_text_circle("##.##\n##.##\n#...#\n##.##\n#####"),
        format!("{ESCAPE}##X##<br>##X##<br>#.X.#<br>##.##<br>#####</code>")
    );
}
