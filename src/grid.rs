//! The grid model: splitting text into rows of characters, and the
//! structural facts about a grid (side, squareness, symbols, centre).
use itertools::Itertools;
use vstd::prelude::*;

verus! {

/// A cell of the grid: `x` is the column, `y` the row, from the top left.
#[derive(Clone, Copy, Debug, PartialEq, Eq, Structural)]
pub struct Location {
    pub x: usize,
    pub y: usize,
}

impl Location {
    pub open spec fn pos(self) -> (int, int) {
        (self.x as int, self.y as int)
    }

    pub fn new(x: usize, y: usize) -> (l: Location)
        ensures
            l.x == x,
            l.y == y,
    {
        Location { x, y }
    }
}

/// The positions of a sequence of locations.
pub open spec fn positions(ls: Seq<Location>) -> Seq<(int, int)> {
    ls.map_values(|l: Location| l.pos())
}

/// The radius of a grid of side `h`.
pub open spec fn radius(h: int) -> int {
    h / 2
}

/// The background character: the one at the centre.
pub open spec fn background(g: Seq<Seq<char>>) -> char {
    g[radius(g.len() as int)][radius(g.len() as int)]
}


/// The rows of a grid, as sequences of characters.
pub open spec fn view_rows(rows: Seq<Vec<char>>) -> Seq<Seq<char>> {
    rows.map_values(|r: Vec<char>| r@)
}

/// A line with its final carriage return removed, if it has one.
pub open spec fn strip_cr(l: Seq<char>) -> Seq<char> {
    if l.len() > 0 && l.last() == '\r' {
        l.drop_last()
    } else {
        l
    }
}

/// The pieces of `s` between line feeds, always one more than the number of
/// line feeds; a piece closed by a line feed loses a trailing carriage return.
pub open spec fn pieces(s: Seq<char>) -> Seq<Seq<char>>
    decreases s.len(),
{
    if s.len() == 0 {
        seq![Seq::empty()]
    } else {
        let p = pieces(s.drop_last());
        if s.last() == '\n' {
            p.update(p.len() - 1, strip_cr(p.last())).push(Seq::empty())
        } else {
            p.update(p.len() - 1, p.last().push(s.last()))
        }
    }
}

/// The lines of `s`: its pieces, without the empty one after a final line feed.
pub open spec fn lines_of(s: Seq<char>) -> Seq<Seq<char>> {
    let p = pieces(s);
    if p.last().len() == 0 {
        p.drop_last()
    } else {
        p
    }
}

pub proof fn lemma_pieces_len(s: Seq<char>)
    ensures
        pieces(s).len() >= 1,
    decreases s.len(),
{
    if s.len() > 0 {
        lemma_pieces_len(s.drop_last());
    }
}

/// Every row holds as many characters as there are rows.
pub open spec fn is_square(g: Seq<Seq<char>>) -> bool {
    forall|y: int| 0 <= y < g.len() ==> #[trigger] g[y].len() == g.len()
}

/// The characters of the rows, row after row.
pub open spec fn row_major(g: Seq<Seq<char>>) -> Seq<char>
    decreases g.len(),
{
    if g.len() == 0 {
        seq![]
    } else {
        row_major(g.drop_last()) + g.last()
    }
}

/// The symbols of the text: the characters of its lines.
pub open spec fn symbols(s: Seq<char>) -> Set<char> {
    row_major(lines_of(s)).to_set()
}

/// Every cell of the rows is among their characters.
pub proof fn lemma_row_major_contains(g: Seq<Seq<char>>, y: int, x: int)
    requires
        0 <= y < g.len(),
        0 <= x < g[y].len(),
    ensures
        row_major(g).contains(g[y][x]),
    decreases g.len(),
{
    let pre = row_major(g.drop_last());
    if y == g.len() - 1 {
        assert(row_major(g)[pre.len() + x] == g[y][x]);
    } else {
        lemma_row_major_contains(g.drop_last(), y, x);
        let i = pre.index_of(g[y][x]);
        assert(row_major(g)[i] == g[y][x]);
    }
}

/// The items of `v` in order, each at its first occurrence only.
pub open spec fn first_occurrences(v: Seq<char>) -> Seq<char>
    decreases v.len(),
{
    if v.len() == 0 {
        seq![]
    } else {
        let p = first_occurrences(v.drop_last());
        if p.contains(v.last()) {
            p
        } else {
            p.push(v.last())
        }
    }
}

pub proof fn lemma_first_occurrences(v: Seq<char>)
    ensures
        first_occurrences(v).no_duplicates(),
        first_occurrences(v).to_set() == v.to_set(),
    decreases v.len(),
{
    if v.len() > 0 {
        let w = v.drop_last();
        lemma_first_occurrences(w);
        let p = first_occurrences(w);
        assert(v == w.push(v.last()));
        assert(v.to_set() =~= w.to_set().insert(v.last())) by {
            assert forall|c: char| v.to_set().contains(c) implies w.to_set().insert(v.last()).contains(c) by {
                let i = v.index_of(c);
                if i < w.len() {
                    assert(w[i] == c);
                }
            }
            assert forall|c: char| w.to_set().contains(c) implies v.to_set().contains(c) by {
                let i = w.index_of(c);
                assert(v[i] == c);
            }
            assert(v[v.len() - 1] == v.last());
        }
        if p.contains(v.last()) {
            assert(p.to_set() =~= v.to_set());
        } else {
            let q = p.push(v.last());
            assert(q.to_set() =~= v.to_set()) by {
                assert forall|c: char| q.to_set().contains(c) implies p.to_set().insert(v.last()).contains(c) by {
                    let i = q.index_of(c);
                    if i < p.len() {
                        assert(p[i] == c);
                    }
                }
                assert forall|c: char| p.to_set().contains(c) implies q.to_set().contains(c) by {
                    let i = p.index_of(c);
                    assert(q[i] == c);
                }
                assert(q[q.len() - 1] == v.last());
            }
            assert forall|i: int, j: int| 0 <= i < q.len() && 0 <= j < q.len() && i != j implies q[i] != q[j] by {
                if i < p.len() && j < p.len() {
                } else if i < p.len() {
                    assert(p.contains(q[i]));
                } else {
                    assert(p.contains(q[j]));
                }
            }
        }
    }
}

/// The characters of `s`, in order.
pub fn chars_of(s: &str) -> (r: Vec<char>)
    ensures
        r@ == s@,
{
    let n = s.unicode_len();
    let mut r: Vec<char> = Vec::new();
    let mut i: usize = 0;
    while i < n
        invariant
            n == s@.len(),
            i <= n,
            r@ == s@.take(i as int),
        decreases n - i,
    {
        r.push(s.get_char(i));
        i += 1;
        assert(r@ =~= s@.take(i as int));
    }
    assert(r@ =~= s@);
    r
}

/// Splits text into its lines, as `str::lines` does.
pub fn lines(s: &Vec<char>) -> (rows: Vec<Vec<char>>)
    ensures
        view_rows(rows@) == lines_of(s@),
{
    let mut rows: Vec<Vec<char>> = Vec::new();
    let mut cur: Vec<char> = Vec::new();
    let mut i: usize = 0;
    while i < s.len()
        invariant
            i <= s.len(),
            view_rows(rows@).push(cur@) == pieces(s@.take(i as int)),
        decreases s.len() - i,
    {
        let c = s[i];
        let ghost before = s@.take(i as int);
        assert(s@.take(i as int + 1).drop_last() =~= before);
        proof {
            lemma_pieces_len(before);
        }
        if c == '\n' {
            let n = cur.len();
            if n > 0 && cur[n - 1] == '\r' {
                cur.pop();
            }
            let ghost old_rows = view_rows(rows@);
            rows.push(cur);
            cur = Vec::new();
            assert(view_rows(rows@) =~= old_rows.push(strip_cr(pieces(before).last())));
            assert(view_rows(rows@).push(cur@) =~= pieces(s@.take(i as int + 1)));
        } else {
            cur.push(c);
            assert(view_rows(rows@).push(cur@) =~= pieces(s@.take(i as int + 1)));
        }
        i += 1;
    }
    assert(s@.take(s.len() as int) =~= s@);
    if cur.len() > 0 {
        let ghost old_rows = view_rows(rows@);
        rows.push(cur);
        assert(view_rows(rows@) =~= old_rows.push(cur@));
    } else {
        assert(view_rows(rows@) =~= pieces(s@).drop_last());
    }
    rows
}

/// Relies on `Itertools::unique`: the items of `v` in order, each at its
/// first occurrence only.
#[verifier::external_body]
fn unique_chars(v: &Vec<char>) -> (r: Vec<char>)
    ensures
        r@ == first_occurrences(v@),
{
    v.iter().copied().unique().collect()
}

/// The distinct characters of the rows, in order of first appearance.
pub fn distinct_characters(g: &Vec<Vec<char>>) -> (d: Vec<char>)
    ensures
        d@ == first_occurrences(row_major(view_rows(g@))),
        d@.no_duplicates(),
        d@.to_set() == row_major(view_rows(g@)).to_set(),
        d@.len() == row_major(view_rows(g@)).to_set().len(),
{
    let ghost gv = view_rows(g@);
    let mut flat: Vec<char> = Vec::new();
    let mut y: usize = 0;
    while y < g.len()
        invariant
            gv == view_rows(g@),
            y <= g.len(),
            flat@ == row_major(gv.take(y as int)),
        decreases g.len() - y,
    {
        let row = &g[y];
        assert(gv[y as int] == row@);
        let ghost start = flat@;
        let mut x: usize = 0;
        while x < row.len()
            invariant
                x <= row.len(),
                flat@ == start + row@.take(x as int),
            decreases row.len() - x,
        {
            flat.push(row[x]);
            x += 1;
            assert(flat@ =~= start + row@.take(x as int));
        }
        assert(row@.take(row.len() as int) =~= row@);
        assert(gv.take(y + 1).drop_last() =~= gv.take(y as int));
        y += 1;
    }
    assert(gv.take(g.len() as int) =~= gv);
    let d = unique_chars(&flat);
    proof {
        lemma_first_occurrences(flat@);
        d@.unique_seq_to_set();
    }
    d
}

/// Whether `c` occurs in `v`.
pub fn mentions(v: &Vec<char>, c: char) -> (b: bool)
    ensures
        b == v@.contains(c),
{
    let mut i: usize = 0;
    while i < v.len()
        invariant
            i <= v.len(),
            forall|j: int| 0 <= j < i ==> v@[j] != c,
        decreases v.len() - i,
    {
        if v[i] == c {
            return true;
        }
        i += 1;
    }
    false
}

/// The first of `#`, `X` and `.` that is not among `used`.
pub open spec fn paving_glyph(used: Set<char>) -> char {
    if !used.contains('#') {
        '#'
    } else if !used.contains('X') {
        'X'
    } else {
        '.'
    }
}

/// Of two symbols, the paving glyph is neither.
pub proof fn lemma_paving_glyph_unused(used: Set<char>)
    requires
        used.finite(),
        used.len() == 2,
    ensures
        !used.contains(paving_glyph(used)),
{
    if used.contains('#') && used.contains('X') && used.contains('.') {
        let three = set!['#', 'X', '.'];
        assert(three.len() == 3) by {
            assert(set!['#'].len() == 1);
            assert(set!['#', 'X'].len() == 2);
        }
        vstd::set_lib::lemma_len_subset(three, used);
    }
}

/// The glyph that paves a path: the first of `#`, `X` and `.` that the
/// grid does not use.
pub fn character_to_pave_with(used: &Vec<char>) -> (c: char)
    ensures
        c == paving_glyph(used@.to_set()),
{
    if !mentions(used, '#') {
        '#'
    } else if !mentions(used, 'X') {
        'X'
    } else {
        '.'
    }
}

} // verus!
