//! The geometry of a ring: which cells must hold the background character.
use vstd::prelude::*;
use crate::grid::{Location, positions, view_rows, is_square, radius, background};

verus! {

/// Whether the cell `(x, y)` lies at distance at most `r - 1` or at least
/// `r + 1` from the centre `(r, r)`, stated on squared distances, which for
/// the non-negative bounds here is the same comparison.
pub open spec fn required_background(x: int, y: int, r: int) -> bool {
    let d2 = (x - r) * (x - r) + (y - r) * (y - r);
    d2 >= (r + 1) * (r + 1) || (r >= 1 && d2 <= (r - 1) * (r - 1))
}

/// The classification depends on the cell and the radius alone: two
/// answers that `required_background_at` may give for the same arguments agree.
pub proof fn law_classification_repeatable(x: int, y: int, r: int, b1: bool, b2: bool)
    requires
        b1 == required_background(x, y, r),
        b2 == required_background(x, y, r),
    ensures
        b1 == b2,
{
}

/// The centre of a grid of radius at least one must hold the background character.
pub proof fn lemma_centre_required(r: int)
    requires
        r >= 1,
    ensures
        required_background(r, r, r),
{
    assert((r - 1) * (r - 1) >= 0) by (nonlinear_arith);
}

/// Whether cell `x` of row `y` holds another character than `bg` where the
/// background is required.
pub open spec fn is_misplaced(row: Seq<char>, x: int, y: int, bg: char, r: int) -> bool {
    row[x] != bg && required_background(x, y, r)
}

/// The misplaced cells among the first `n` of row `y`, from the left.
pub open spec fn misplaced_in_row(row: Seq<char>, y: int, bg: char, r: int, n: nat) -> Seq<(int, int)>
    decreases n,
{
    if n == 0 {
        seq![]
    } else {
        let prev = misplaced_in_row(row, y, bg, r, (n - 1) as nat);
        if is_misplaced(row, n - 1, y, bg, r) {
            prev.push((n - 1, y))
        } else {
            prev
        }
    }
}

/// The misplaced cells of the first `m` rows, in row-major order.
pub open spec fn misplaced_upto(g: Seq<Seq<char>>, bg: char, r: int, m: nat) -> Seq<(int, int)>
    decreases m,
{
    if m == 0 {
        seq![]
    } else {
        misplaced_upto(g, bg, r, (m - 1) as nat) + misplaced_in_row(
            g[m - 1],
            m - 1,
            bg,
            r,
            g[m - 1].len(),
        )
    }
}

/// Every cell that should hold the background character and does not, in
/// row-major order.
pub open spec fn misplaced(g: Seq<Seq<char>>) -> Seq<(int, int)> {
    misplaced_upto(g, background(g), radius(g.len() as int), g.len())
}

/// Decides `required_background(x, y, r)` for a cell within the grid of radius `r`.
pub fn required_background_at(x: usize, y: usize, r: usize) -> (b: bool)
    requires
        x <= 2 * r,
        y <= 2 * r,
        2 * r + 1 <= usize::MAX,
    ensures
        b == required_background(x as int, y as int, r as int),
{
    let dx: u128 = if x >= r { (x - r) as u128 } else { (r - x) as u128 };
    let dy: u128 = if y >= r { (y - r) as u128 } else { (r - y) as u128 };
    let rr: u128 = r as u128;
    assert(rr < 0x8000_0000_0000_0000);
    assert(dx <= rr && dy <= rr);
    assert(dx * dx <= rr * rr) by (nonlinear_arith)
        requires dx <= rr;
    assert(dy * dy <= rr * rr) by (nonlinear_arith)
        requires dy <= rr;
    assert(rr * rr < 0x4000_0000_0000_0000_0000_0000_0000_0000) by (nonlinear_arith)
        requires rr < 0x8000_0000_0000_0000;
    assert((rr + 1) * (rr + 1) <= 0x4000_0000_0000_0000_0000_0000_0000_0000) by (nonlinear_arith)
        requires rr < 0x8000_0000_0000_0000;
    let d2: u128 = dx * dx + dy * dy;
    assert(dx * dx == (x - r) * (x - r)) by (nonlinear_arith)
        requires dx == x - r || dx == r - x;
    assert(dy * dy == (y - r) * (y - r)) by (nonlinear_arith)
        requires dy == y - r || dy == r - y;
    let outer: u128 = (rr + 1) * (rr + 1);
    if d2 >= outer {
        true
    } else if r >= 1 {
        assert((rr - 1) * (rr - 1) <= rr * rr) by (nonlinear_arith)
            requires rr >= 1;
        let inner: u128 = (rr - 1) * (rr - 1);
        d2 <= inner
    } else {
        false
    }
}

/// The cells of a square grid that should hold the background character and
/// do not, in row-major order.
pub fn missing_background_characters(g: &Vec<Vec<char>>) -> (m: Vec<Location>)
    requires
        is_square(view_rows(g@)),
        g.len() % 2 == 1,
    ensures
        positions(m@) == misplaced(view_rows(g@)),
{
    let ghost gv = view_rows(g@);
    let h = g.len();
    let r = h / 2;
    assert(gv[r as int] == g@[r as int]@);
    assert(gv[r as int].len() == h);
    let bg = g[r][r];
    let mut m: Vec<Location> = Vec::new();
    let mut y: usize = 0;
    while y < h
        invariant
            gv == view_rows(g@),
            is_square(gv),
            h == g.len(),
            h == gv.len(),
            r == radius(h as int),
            bg == background(gv),
            y <= h,
            positions(m@) == misplaced_upto(gv, bg, r as int, y as nat),
        decreases h - y,
    {
        let row = &g[y];
        assert(gv[y as int] == g@[y as int]@);
        assert(row@.len() == h);
        let ghost before = positions(m@);
        let mut x: usize = 0;
        while x < h
            invariant
                gv == view_rows(g@),
                row@ == gv[y as int],
                row@.len() == h,
                h == g.len(),
                r == h / 2,
                y < h,
                x <= h,
                positions(m@) == before + misplaced_in_row(row@, y as int, bg, r as int, x as nat),
            decreases h - x,
        {
            let ghost prev = m@;
            if row[x] != bg && required_background_at(x, y, r) {
                m.push(Location::new(x, y));
                assert(positions(m@) =~= positions(prev).push((x as int, y as int)));
            }
            assert(positions(m@) =~= before + misplaced_in_row(row@, y as int, bg, r as int, (x + 1) as nat));
            x += 1;
        }
        assert(positions(m@) =~= misplaced_upto(gv, bg, r as int, (y + 1) as nat));
        y += 1;
    }
    m
}

} // verus!
