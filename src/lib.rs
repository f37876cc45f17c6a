//! Validation of ASCII-art text circles: a square grid of two symbols that
//! should draw a ring of one symbol on a background of the other.
pub mod grid;
pub mod ring;
pub mod search;
pub mod text;

use vstd::prelude::*;
use crate::grid::{
    lines_of, is_square, symbols, radius, background, view_rows, chars_of, lines,
    distinct_characters, character_to_pave_with, paving_glyph, positions, pieces,
    lemma_paving_glyph_unused, row_major, lemma_row_major_contains,
};
use crate::ring::{
    misplaced, misplaced_upto, misplaced_in_row, required_background, missing_background_characters,
};
use crate::search::{
    is_escape, is_shortest_escape, has_escape, is_open, adjacent, in_grid, on_edge, path_out_of_circle,
};
use crate::text::{
    joined, cell_text, decimal, diagram, paved_rows, push_str, push_decimal, br_separated_tuples, path_diagram,
    string_of,
};

verus! {

/// The report on empty text.
pub open spec fn msg_empty() -> Seq<char> {
    "Invalid. The input is empty."@
}

/// The report on rows of the wrong length.
pub open spec fn msg_not_square() -> Seq<char> {
    "Invalid. The input is not square."@
}

/// The report on a square of even side.
pub open spec fn msg_even_side() -> Seq<char> {
    "Invalid. The side length of the square is not odd."@
}

/// The report on a grid of more or fewer than two symbols.
pub open spec fn msg_symbol_count() -> Seq<char> {
    "Invalid. The input does not contain 2 distinct characters."@
}

/// The report on cells that should hold the background character `bg`.
pub open spec fn msg_misplaced(bg: char, cells: Seq<(int, int)>) -> Seq<char> {
    "Invalid. The following positions (x, y) from (0, 0) at left top should be background character \""@
        + seq![bg] + "\":<br>"@ + joined(cells.map_values(|c: (int, int)| cell_text(c)), "<br>"@)
}

/// The report on an escape path, drawn in `diagram`.
pub open spec fn msg_escape(diagram: Seq<char>) -> Seq<char> {
    "Invalid. There should not be a path from inside the circle to outside:<br><br><code>"@ + diagram
        + "</code>"@
}

/// The report on a valid circle of radius `r`.
pub open spec fn msg_valid(r: nat) -> Seq<char> {
    "This is a valid text circle of radius "@ + decimal(r) + "."@
}

/// `out` is a correct report on the text `s`: the first requirement that fails
/// decides it, and a grid that passes them all is valid unless a walk over
/// background cells leads from its centre to its edge, in which case the
/// report draws a shortest such walk.
pub open spec fn is_report(s: Seq<char>, out: Seq<char>) -> bool {
    let g = lines_of(s);
    let h = g.len() as int;
    if s.len() == 0 {
        out == msg_empty()
    } else if !is_square(g) {
        out == msg_not_square()
    } else if h % 2 == 0 {
        out == msg_even_side()
    } else if symbols(s).len() != 2 {
        out == msg_symbol_count()
    } else if misplaced(g).len() > 0 {
        out == msg_misplaced(background(g), misplaced(g))
    } else if has_escape(g) {
        exists|p: Seq<(int, int)>|
            is_shortest_escape(g, p) && out == msg_escape(diagram(g, p, paving_glyph(symbols(s))))
    } else {
        out == msg_valid(radius(h) as nat)
    }
}

/// Whether every row of `g` holds as many characters as there are rows.
pub fn square(g: &Vec<Vec<char>>) -> (b: bool)
    ensures
        b == is_square(view_rows(g@)),
{
    let h = g.len();
    let mut y: usize = 0;
    while y < h
        invariant
            h == g.len(),
            y <= h,
            forall|j: int| 0 <= j < y ==> (#[trigger] view_rows(g@)[j]).len() == h,
        decreases h - y,
    {
        if g[y].len() != h {
            assert(view_rows(g@)[y as int] == g@[y as int]@);
            return false;
        }
        assert(view_rows(g@)[y as int] == g@[y as int]@);
        y += 1;
    }
    true
}

/// Examines a text circle and reports, in words, that it is valid and of which
/// radius, or why it is not.
pub fn validate_text_circle(s: &str) -> (out: String)
    ensures
        is_report(s@, out@),
{
    let cs = chars_of(s);
    let mut out: Vec<char> = Vec::new();
    if cs.len() == 0 {
        push_str(&mut out, "Invalid. The input is empty.");
        return string_of(&out);
    }
    let g = lines(&cs);
    let ghost gv = view_rows(g@);
    if !square(&g) {
        push_str(&mut out, "Invalid. The input is not square.");
        return string_of(&out);
    }
    let h = g.len();
    if h % 2 != 1 {
        push_str(&mut out, "Invalid. The side length of the square is not odd.");
        return string_of(&out);
    }
    let used = distinct_characters(&g);
    if used.len() != 2 {
        push_str(&mut out, "Invalid. The input does not contain 2 distinct characters.");
        return string_of(&out);
    }
    let missing = missing_background_characters(&g);
    if missing.len() > 0 {
        let r = h / 2;
        assert(gv[r as int] == g@[r as int]@);
        assert(gv[r as int].len() == h);
        let bg = g[r][r];
        push_str(
            &mut out,
            "Invalid. The following positions (x, y) from (0, 0) at left top should be background character \"",
        );
        out.push(bg);
        push_str(&mut out, "\":<br>");
        let listed = br_separated_tuples(&missing);
        let mut listed_chars = chars_of(listed.as_str());
        let ghost before = out@;
        let ghost added = listed_chars@;
        out.append(&mut listed_chars);
        assert(out@ =~= before + added);
        assert(out@ =~= msg_misplaced(background(gv), misplaced(gv)));
        return string_of(&out);
    }
    match path_out_of_circle(&g) {
        Some(path) => {
            let glyph = character_to_pave_with(&used);
            let d = path_diagram(&g, &path, glyph);
            push_str(&mut out, "Invalid. There should not be a path from inside the circle to outside:<br><br><code>");
            let mut dc = chars_of(d.as_str());
            let ghost before = out@;
            let ghost added = dc@;
            out.append(&mut dc);
            assert(out@ =~= before + added);
            push_str(&mut out, "</code>");
            assert(out@ =~= msg_escape(diagram(gv, positions(path@), paving_glyph(symbols(s@)))));
            string_of(&out)
        },
        None => {
            push_str(&mut out, "This is a valid text circle of radius ");
            push_decimal(&mut out, h / 2);
            push_str(&mut out, ".");
            string_of(&out)
        },
    }
}

proof fn lemma_no_text_no_lines(s: Seq<char>)
    requires
        s.len() == 0,
    ensures
        lines_of(s).len() == 0,
{
    assert(pieces(s) == seq![Seq::<char>::empty()]);
}

/// On a square grid of odd side with two symbols and every required cell
/// holding the background, the report either draws an escape walk or states
/// that the circle is valid with radius half the side, and never both.
pub proof fn law_escape_or_valid(s: Seq<char>, out: Seq<char>)
    requires
        is_square(lines_of(s)),
        lines_of(s).len() % 2 == 1,
        symbols(s).len() == 2,
        misplaced(lines_of(s)).len() == 0,
        is_report(s, out),
    ensures
        ({
            let g = lines_of(s);
            let escape = exists|p: Seq<(int, int)>|
                is_shortest_escape(g, p) && out == msg_escape(diagram(g, p, paving_glyph(symbols(s))));
            let valid = out == msg_valid(radius(g.len() as int) as nat);
            escape != valid
        }),
{
    if s.len() == 0 {
        lemma_no_text_no_lines(s);
    }
    reveal_strlit("Invalid. There should not be a path from inside the circle to outside:<br><br><code>");
    reveal_strlit("This is a valid text circle of radius ");
    let g = lines_of(s);
    if exists|p: Seq<(int, int)>|
        is_shortest_escape(g, p) && out == msg_escape(diagram(g, p, paving_glyph(symbols(s)))) {
        let p = choose|p: Seq<(int, int)>|
            is_shortest_escape(g, p) && out == msg_escape(diagram(g, p, paving_glyph(symbols(s))));
        assert(out[0] == 'I');
        assert(msg_valid(radius(g.len() as int) as nat)[0] == 'T');
    }
}

/// Where the glyph is none of the grid's characters, the paved rows show it
/// exactly on the cells of the walk.
pub proof fn lemma_glyph_marks_path(g: Seq<Seq<char>>, p: Seq<(int, int)>, glyph: char)
    requires
        is_square(g),
        !row_major(g).to_set().contains(glyph),
    ensures
        forall|x: int, y: int|
            0 <= x < g.len() && 0 <= y < g.len() ==> (#[trigger] paved_rows(g, p, glyph)[y][x] == glyph
                <==> p.contains((x, y))),
{
    assert forall|x: int, y: int| 0 <= x < g.len() && 0 <= y < g.len() implies (#[trigger] paved_rows(
        g,
        p,
        glyph,
    )[y][x] == glyph <==> p.contains((x, y))) by {
        if !p.contains((x, y)) {
            assert(g[y].len() == g.len());
            lemma_row_major_contains(g, y, x);
        }
    }
}

/// A report that draws an escape walk paves it with a glyph that is neither
/// of the grid's two symbols, along a shortest walk of background cells, each
/// next to the one before, from the centre to the edge; the glyph shows on
/// the cells of that walk and nowhere else.
pub proof fn law_escape_drawn_apart(s: Seq<char>, out: Seq<char>)
    requires
        is_square(lines_of(s)),
        lines_of(s).len() % 2 == 1,
        symbols(s).len() == 2,
        misplaced(lines_of(s)).len() == 0,
        has_escape(lines_of(s)),
        is_report(s, out),
    ensures
        exists|p: Seq<(int, int)>|
            {
                &&& is_shortest_escape(lines_of(s), p)
                &&& out == msg_escape(diagram(lines_of(s), p, paving_glyph(symbols(s))))
                &&& forall|x: int, y: int|
                    0 <= x < lines_of(s).len() && 0 <= y < lines_of(s).len() ==> (#[trigger] paved_rows(
                        lines_of(s),
                        p,
                        paving_glyph(symbols(s)),
                    )[y][x] == paving_glyph(symbols(s)) <==> p.contains((x, y)))
            },
        !symbols(s).contains(paving_glyph(symbols(s))),
{
    let g = lines_of(s);
    let glyph = paving_glyph(symbols(s));
    if s.len() == 0 {
        lemma_no_text_no_lines(s);
    }
    assert(symbols(s).finite());
    lemma_paving_glyph_unused(symbols(s));
    let p = choose|p: Seq<(int, int)>|
        is_shortest_escape(g, p) && out == msg_escape(diagram(g, p, glyph));
    lemma_glyph_marks_path(g, p, glyph);
}

/// A grid whose background cells are exactly those where the background is
/// required, all others holding the ring symbol.
pub open spec fn is_perfect_ring(g: Seq<Seq<char>>) -> bool {
    let h = g.len() as int;
    &&& is_square(g)
    &&& h % 2 == 1
    &&& h >= 3
    &&& forall|x: int, y: int|
        0 <= x < h && 0 <= y < h ==> (#[trigger] g[y][x] == background(g) <==> required_background(
            x,
            y,
            radius(h),
        ))
}

proof fn lemma_abs_bound(a: int, r: int)
    requires
        r >= 1,
        a * a <= (r - 1) * (r - 1),
    ensures
        -(r - 1) <= a <= r - 1,
{
    if a > r - 1 {
        assert(a * a > (r - 1) * (r - 1)) by (nonlinear_arith)
            requires a > r - 1, r >= 1;
    }
    if a < -(r - 1) {
        assert(a * a > (r - 1) * (r - 1)) by (nonlinear_arith)
            requires a < -(r - 1), r >= 1;
    }
}

/// One step from a cell at distance at most `r - 1` from the centre stays
/// under distance `r + 1`.
proof fn lemma_step_stays_near(a: int, b: int, a2: int, b2: int, r: int)
    requires
        r >= 1,
        a * a + b * b <= (r - 1) * (r - 1),
        (a2 == a && (b2 == b + 1 || b2 == b - 1)) || (b2 == b && (a2 == a + 1 || a2 == a - 1)),
    ensures
        a2 * a2 + b2 * b2 < (r + 1) * (r + 1),
{
    assert(a * a >= 0 && b * b >= 0) by (nonlinear_arith);
    lemma_abs_bound(a, r);
    lemma_abs_bound(b, r);
    if a2 == a {
        assert(b2 * b2 <= b * b + 2 * (r - 1) + 1) by (nonlinear_arith)
            requires b2 == b + 1 || b2 == b - 1, -(r - 1) <= b <= r - 1;
    } else {
        assert(a2 * a2 <= a * a + 2 * (r - 1) + 1) by (nonlinear_arith)
            requires a2 == a + 1 || a2 == a - 1, -(r - 1) <= a <= r - 1;
    }
    assert((r - 1) * (r - 1) + 2 * (r - 1) + 1 < (r + 1) * (r + 1)) by (nonlinear_arith)
        requires r >= 1;
}

/// Every cell of an escape walk in a perfect ring lies at distance at most `r - 1`.
proof fn lemma_walk_stays_inside(g: Seq<Seq<char>>, p: Seq<(int, int)>, i: int)
    requires
        is_perfect_ring(g),
        is_escape(g, p),
        0 <= i < p.len(),
    ensures
        ({
            let r = radius(g.len() as int);
            (p[i].0 - r) * (p[i].0 - r) + (p[i].1 - r) * (p[i].1 - r) <= (r - 1) * (r - 1)
        }),
    decreases i,
{
    let r = radius(g.len() as int);
    if i == 0 {
        assert((r - 1) * (r - 1) >= 0) by (nonlinear_arith);
    } else {
        lemma_walk_stays_inside(g, p, i - 1);
        let j = i - 1;
        assert(adjacent(p[j], p[j + 1]));
        assert(is_open(g, background(g), p[i]));
        let c = p[i];
        assert(g[c.1][c.0] == background(g));
        assert(required_background(c.0, c.1, r));
        lemma_step_stays_near(p[j].0 - r, p[j].1 - r, c.0 - r, c.1 - r, r);
    }
}

/// A perfect ring has no escape walk.
pub proof fn lemma_perfect_ring_closed(g: Seq<Seq<char>>)
    requires
        is_perfect_ring(g),
    ensures
        !has_escape(g),
{
    if has_escape(g) {
        let p = choose|p: Seq<(int, int)>| is_escape(g, p);
        let r = radius(g.len() as int);
        lemma_walk_stays_inside(g, p, p.len() - 1);
        let c = p.last();
        assert(is_open(g, background(g), p[p.len() - 1]));
        let a = c.0 - r;
        let b = c.1 - r;
        assert(a == -r || a == r || b == -r || b == r);
        assert(a * a + b * b >= r * r) by (nonlinear_arith)
            requires a == -r || a == r || b == -r || b == r;
        assert((r - 1) * (r - 1) < r * r) by (nonlinear_arith)
            requires r >= 1;
    }
}

/// In a perfect ring no cell is misplaced.
/// Every cell where the background is required holds it.
pub open spec fn background_in_place(g: Seq<Seq<char>>) -> bool {
    let h = g.len() as int;
    &&& is_square(g)
    &&& forall|x: int, y: int|
        0 <= x < h && 0 <= y < h && required_background(x, y, radius(h)) ==> #[trigger] g[y][x]
            == background(g)
}

proof fn lemma_in_place(g: Seq<Seq<char>>, m: nat)
    requires
        background_in_place(g),
        m <= g.len(),
    ensures
        misplaced_upto(g, background(g), radius(g.len() as int), m).len() == 0,
    decreases m,
{
    if m > 0 {
        lemma_in_place(g, (m - 1) as nat);
        lemma_row_in_place(g, m - 1, g[m - 1].len());
    }
}

proof fn lemma_row_in_place(g: Seq<Seq<char>>, y: int, n: nat)
    requires
        background_in_place(g),
        0 <= y < g.len(),
        n <= g.len(),
    ensures
        misplaced_in_row(g[y], y, background(g), radius(g.len() as int), n).len() == 0,
    decreases n,
{
    if n > 0 {
        lemma_row_in_place(g, y, (n - 1) as nat);
        let x = n - 1;
        if required_background(x, y, radius(g.len() as int)) {
            assert(g[y][x] == background(g));
        }
    }
}

/// A perfectly drawn ring of two symbols is reported valid, with radius half its side.
pub proof fn law_perfect_ring_valid(s: Seq<char>, out: Seq<char>)
    requires
        is_perfect_ring(lines_of(s)),
        symbols(s).len() == 2,
        is_report(s, out),
    ensures
        out == msg_valid(radius(lines_of(s).len() as int) as nat),
{
    let g = lines_of(s);
    if s.len() == 0 {
        lemma_no_text_no_lines(s);
    }
    assert(background_in_place(g));
    lemma_in_place(g, g.len());
    lemma_perfect_ring_closed(g);
}

/// A perfect ring of side at least three whose one cell straight above the
/// centre, on the top edge, holds the background character.
pub open spec fn is_ring_with_top_gap(g: Seq<Seq<char>>) -> bool {
    let h = g.len() as int;
    let r = radius(h);
    &&& is_square(g)
    &&& h % 2 == 1
    &&& h >= 3
    &&& g[0][r] == background(g)
    &&& forall|x: int, y: int|
        0 <= x < h && 0 <= y < h && (x, y) != (r, 0int) ==> (#[trigger] g[y][x] == background(g)
            <==> required_background(x, y, r))
}

/// The walk from the centre `(r, r)` straight up to `(r, 0)`.
pub open spec fn straight_up(r: int) -> Seq<(int, int)> {
    Seq::new((r + 1) as nat, |i: int| (r, r - i))
}

spec fn offset(a: int) -> int {
    if a >= 0 {
        a
    } else {
        -a
    }
}

/// Steps, along rows and columns, from the centre `(r, r)` to `c`.
spec fn steps_from_centre(c: (int, int), r: int) -> int {
    offset(c.0 - r) + offset(c.1 - r)
}

proof fn lemma_walk_reach(g: Seq<Seq<char>>, q: Seq<(int, int)>, i: int)
    requires
        is_escape(g, q),
        0 <= i < q.len(),
    ensures
        steps_from_centre(q[i], radius(g.len() as int)) <= i,
    decreases i,
{
    if i > 0 {
        lemma_walk_reach(g, q, i - 1);
        let j = i - 1;
        assert(adjacent(q[j], q[j + 1]));
    }
}

proof fn lemma_ring_with_top_gap_straight(g: Seq<Seq<char>>)
    requires
        is_ring_with_top_gap(g),
    ensures
        is_escape(g, straight_up(radius(g.len() as int))),
{
    let r = radius(g.len() as int);
    let p = straight_up(r);
    let bg = background(g);
    assert forall|i: int| 0 <= i < p.len() implies #[trigger] is_open(g, bg, p[i]) by {
        if i < r {
            assert(i * i <= (r - 1) * (r - 1)) by (nonlinear_arith)
                requires 0 <= i <= r - 1;
            assert((r - r) * (r - r) + (r - i - r) * (r - i - r) == i * i) by (nonlinear_arith);
            assert(required_background(r, r - i, r));
            assert(g[r - i][r] == bg);
        }
    }
    assert forall|i: int| 0 <= i < p.len() - 1 implies #[trigger] adjacent(p[i], p[i + 1]) by {}
}

proof fn lemma_edge_cells_closed(g: Seq<Seq<char>>, c: (int, int))
    requires
        is_ring_with_top_gap(g),
        in_grid(g.len() as int, c),
        c != (radius(g.len() as int), 0int),
        steps_from_centre(c, radius(g.len() as int)) == radius(g.len() as int),
        on_edge(g.len() as int, c),
    ensures
        !is_open(g, background(g), c),
{
    let r = radius(g.len() as int);
    let a = c.0 - r;
    let b = c.1 - r;
    assert((a == 0 && (b == r || b == -r)) || (b == 0 && (a == r || a == -r)));
    assert(a * a + b * b == r * r) by (nonlinear_arith)
        requires (a == 0 && (b == r || b == -r)) || (b == 0 && (a == r || a == -r));
    assert(r * r < (r + 1) * (r + 1) && r * r > (r - 1) * (r - 1)) by (nonlinear_arith)
        requires r >= 1;
    assert(!required_background(c.0, c.1, r));
    assert(g[c.1][c.0] != background(g));
}

proof fn lemma_short_walk_straight(g: Seq<Seq<char>>, q: Seq<(int, int)>, i: int)
    requires
        is_ring_with_top_gap(g),
        is_escape(g, q),
        q.len() == radius(g.len() as int) + 1,
        q.last() == (radius(g.len() as int), 0int),
        0 <= i < q.len(),
    ensures
        q[i] == (radius(g.len() as int), radius(g.len() as int) - i),
    decreases q.len() - i,
{
    if i < q.len() - 1 {
        lemma_short_walk_straight(g, q, i + 1);
        lemma_walk_reach(g, q, i);
        assert(adjacent(q[i], q[i + 1]));
    }
}

/// A perfect ring with a one-cell gap straight above the centre leaks
/// through the gap: the report draws the straight walk from the centre up to
/// the gap, paved with a glyph that is neither symbol.
pub proof fn law_top_gap_leaks_straight_up(s: Seq<char>, out: Seq<char>)
    requires
        is_ring_with_top_gap(lines_of(s)),
        symbols(s).len() == 2,
        is_report(s, out),
    ensures
        out == msg_escape(
            diagram(lines_of(s), straight_up(radius(lines_of(s).len() as int)), paving_glyph(symbols(s))),
        ),
        !symbols(s).contains(paving_glyph(symbols(s))),
{
    let g = lines_of(s);
    let h = g.len() as int;
    let r = radius(h);
    let glyph = paving_glyph(symbols(s));
    if s.len() == 0 {
        lemma_no_text_no_lines(s);
    }
    assert(symbols(s).finite());
    lemma_paving_glyph_unused(symbols(s));
    assert(r * r < (r + 1) * (r + 1) && r * r > (r - 1) * (r - 1)) by (nonlinear_arith)
        requires r >= 1;
    assert((r - r) * (r - r) + (0 - r) * (0 - r) == r * r) by (nonlinear_arith);
    assert(!required_background(r, 0, r));
    assert(background_in_place(g));
    lemma_in_place(g, g.len());
    lemma_ring_with_top_gap_straight(g);
    let up = straight_up(r);
    assert(has_escape(g));
    let p = choose|p: Seq<(int, int)>|
        is_shortest_escape(g, p) && out == msg_escape(diagram(g, p, glyph));
    assert(p.len() <= up.len());
    lemma_walk_reach(g, p, p.len() - 1);
    let c = p.last();
    assert(is_open(g, background(g), p[p.len() - 1]));
    assert(p.len() == r + 1);
    if c != (r, 0int) {
        lemma_edge_cells_closed(g, c);
    }
    assert forall|i: int| 0 <= i < p.len() implies p[i] == up[i] by {
        lemma_short_walk_straight(g, p, i);
    }
    assert(p =~= up);
}

} // verus!
