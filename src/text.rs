//! The report texts: decimal numbers, joined lists and the path diagram.
use vstd::prelude::*;
use crate::grid::{Location, positions, view_rows, is_square};

verus! {

/// Combines the views of strings.
pub open spec fn views(parts: Seq<String>) -> Seq<Seq<char>> {
    parts.map_values(|p: String| p@)
}

/// The parts, with `sep` between each two.
pub open spec fn joined(parts: Seq<Seq<char>>, sep: Seq<char>) -> Seq<char>
    decreases parts.len(),
{
    if parts.len() == 0 {
        seq![]
    } else if parts.len() == 1 {
        parts[0]
    } else {
        joined(parts.drop_last(), sep) + sep + parts.last()
    }
}

/// Relies on `itertools::join`: the items written one after another, with
/// `sep` between each two.
#[verifier::external_body]
fn join_strings(parts: &Vec<String>, sep: &str) -> (r: String)
    ensures
        r@ == joined(views(parts@), sep@),
{
    itertools::join(parts, sep)
}

/// Relies on `String: FromIterator<&char>`: the characters in order.
#[verifier::external_body]
pub(crate) fn string_of(v: &Vec<char>) -> (r: String)
    ensures
        r@ == v@,
{
    v.iter().collect()
}

/// Appends the characters of `s` to `out`.
pub fn push_str(out: &mut Vec<char>, s: &str)
    ensures
        final(out)@ == old(out)@ + s@,
{
    let n = s.unicode_len();
    let ghost start = out@;
    let mut i: usize = 0;
    while i < n
        invariant
            n == s@.len(),
            i <= n,
            out@ == start + s@.take(i as int),
        decreases n - i,
    {
        out.push(s.get_char(i));
        i += 1;
        assert(out@ =~= start + s@.take(i as int));
    }
    assert(s@.take(n as int) =~= s@);
}

/// The decimal digit for `d`.
pub open spec fn digit(d: int) -> char {
    if d == 0 {
        '0'
    } else if d == 1 {
        '1'
    } else if d == 2 {
        '2'
    } else if d == 3 {
        '3'
    } else if d == 4 {
        '4'
    } else if d == 5 {
        '5'
    } else if d == 6 {
        '6'
    } else if d == 7 {
        '7'
    } else if d == 8 {
        '8'
    } else {
        '9'
    }
}

/// The decimal numeral of `n`, without leading zeros.
pub open spec fn decimal(n: nat) -> Seq<char>
    decreases n,
{
    if n < 10 {
        seq![digit(n as int)]
    } else {
        decimal(n / 10).push(digit((n % 10) as int))
    }
}

fn digit_char(d: usize) -> (c: char)
    requires
        d < 10,
    ensures
        c == digit(d as int),
{
    if d == 0 {
        '0'
    } else if d == 1 {
        '1'
    } else if d == 2 {
        '2'
    } else if d == 3 {
        '3'
    } else if d == 4 {
        '4'
    } else if d == 5 {
        '5'
    } else if d == 6 {
        '6'
    } else if d == 7 {
        '7'
    } else if d == 8 {
        '8'
    } else {
        '9'
    }
}

/// Appends the decimal numeral of `n` to `out`.
pub fn push_decimal(out: &mut Vec<char>, n: usize)
    ensures
        final(out)@ == old(out)@ + decimal(n as nat),
    decreases n,
{
    if n >= 10 {
        push_decimal(out, n / 10);
    }
    out.push(digit_char(n % 10));
    assert(out@ =~= old(out)@ + decimal(n as nat));
}

/// How a cell is written in a list of positions: `(x, y)`.
pub open spec fn cell_text(c: (int, int)) -> Seq<char> {
    "("@ + decimal(c.0 as nat) + ", "@ + decimal(c.1 as nat) + ")"@
}

/// The positions of `cells`, each as `(x, y)`, separated by `<br>`.
pub fn br_separated_tuples(cells: &Vec<Location>) -> (r: String)
    ensures
        r@ == joined(positions(cells@).map_values(|c: (int, int)| cell_text(c)), "<br>"@),
{
    let mut parts: Vec<String> = Vec::new();
    let mut i: usize = 0;
    while i < cells.len()
        invariant
            i <= cells.len(),
            views(parts@) == positions(cells@).take(i as int).map_values(|c: (int, int)| cell_text(c)),
        decreases cells.len() - i,
    {
        let c = cells[i];
        let mut t: Vec<char> = Vec::new();
        push_str(&mut t, "(");
        push_decimal(&mut t, c.x);
        push_str(&mut t, ", ");
        push_decimal(&mut t, c.y);
        push_str(&mut t, ")");
        let ghost before = parts@;
        parts.push(string_of(&t));
        assert(views(parts@) =~= views(before).push(cell_text(c.pos())));
        i += 1;
        assert(views(parts@) =~= positions(cells@).take(i as int).map_values(|c: (int, int)| cell_text(c)));
    }
    assert(positions(cells@).take(cells.len() as int) =~= positions(cells@));
    join_strings(&parts, "<br>")
}

/// Whether `path` passes through `(x, y)`.
fn on_path(path: &Vec<Location>, x: usize, y: usize) -> (b: bool)
    ensures
        b == positions(path@).contains((x as int, y as int)),
{
    let mut i: usize = 0;
    while i < path.len()
        invariant
            i <= path.len(),
            forall|j: int| 0 <= j < i ==> positions(path@)[j] != (x as int, y as int),
        decreases path.len() - i,
    {
        if path[i].x == x && path[i].y == y {
            assert(positions(path@)[i as int] == (x as int, y as int));
            return true;
        }
        i += 1;
    }
    false
}

/// The rows of the grid with every cell of `path` shown as `glyph`.
pub open spec fn paved_rows(g: Seq<Seq<char>>, path: Seq<(int, int)>, glyph: char) -> Seq<Seq<char>> {
    Seq::new(
        g.len(),
        |y: int|
            Seq::new(
                g.len(),
                |x: int|
                    if path.contains((x, y)) {
                        glyph
                    } else {
                        g[y][x]
                    },
            ),
    )
}

/// The grid with every cell of `path` shown as `glyph`, rows separated by `<br>`.
pub open spec fn diagram(g: Seq<Seq<char>>, path: Seq<(int, int)>, glyph: char) -> Seq<char> {
    joined(paved_rows(g, path, glyph), "<br>"@)
}

/// Renders the square grid `g` with the cells of `path` paved with `glyph`.
pub fn path_diagram(g: &Vec<Vec<char>>, path: &Vec<Location>, glyph: char) -> (d: String)
    requires
        is_square(view_rows(g@)),
    ensures
        d@ == diagram(view_rows(g@), positions(path@), glyph),
{
    let ghost gv = view_rows(g@);
    let ghost want = paved_rows(gv, positions(path@), glyph);
    let h = g.len();
    let mut rows: Vec<String> = Vec::new();
    let mut y: usize = 0;
    while y < h
        invariant
            gv == view_rows(g@),
            is_square(gv),
            h == gv.len(),
            want == paved_rows(gv, positions(path@), glyph),
            y <= h,
            views(rows@) == want.take(y as int),
        decreases h - y,
    {
        assert(gv[y as int] == g@[y as int]@);
        assert(gv[y as int].len() == h);
        let mut row: Vec<char> = Vec::new();
        let mut x: usize = 0;
        while x < h
            invariant
                gv == view_rows(g@),
                gv[y as int] == g@[y as int]@,
                gv[y as int].len() == h,
                h == gv.len(),
                y < h,
                want == paved_rows(gv, positions(path@), glyph),
                x <= h,
                row@ == want[y as int].take(x as int),
            decreases h - x,
        {
            if on_path(path, x, y) {
                row.push(glyph);
            } else {
                row.push(g[y][x]);
            }
            x += 1;
            assert(row@ =~= want[y as int].take(x as int));
        }
        assert(row@ =~= want[y as int]);
        let ghost before = rows@;
        rows.push(string_of(&row));
        assert(views(rows@) =~= views(before).push(row@));
        y += 1;
        assert(views(rows@) =~= want.take(y as int));
    }
    assert(want.take(h as int) =~= want);
    join_strings(&rows, "<br>")
}

} // verus!
