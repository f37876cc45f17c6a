//! The search for an escape path: a breadth-first search from the centre
//! over background cells that stops at the first cell on the grid's edge.
use vstd::prelude::*;
use vstd::set_lib::{set_int_range, lemma_int_range, lemma_len_subset};
use crate::grid::{Location, positions, view_rows, is_square, radius, background};

verus! {

/// A cell reached by the search, the cell it was reached from (none for the
/// centre) and its number of steps from the centre.
#[derive(Clone, Copy, Debug, PartialEq, Eq, Structural)]
pub struct PathStep {
    pub location: Location,
    pub parent: Option<Location>,
    pub distance: usize,
}

impl PathStep {
    pub fn new(location: Location, parent: Option<Location>, distance: usize) -> (s: PathStep)
        ensures
            s.location == location,
            s.parent == parent,
            s.distance == distance,
    {
        PathStep { location, parent, distance }
    }
}

pub open spec fn in_grid(h: int, c: (int, int)) -> bool {
    0 <= c.0 < h && 0 <= c.1 < h
}

/// A cell of the grid that holds the background character `bg`.
pub open spec fn is_open(g: Seq<Seq<char>>, bg: char, c: (int, int)) -> bool {
    in_grid(g.len() as int, c) && g[c.1][c.0] == bg
}

/// Cells at Manhattan distance one.
pub open spec fn adjacent(a: (int, int), b: (int, int)) -> bool {
    (a.0 == b.0 && (a.1 == b.1 + 1 || b.1 == a.1 + 1)) || (a.1 == b.1 && (a.0 == b.0 + 1 || b.0
        == a.0 + 1))
}

/// A cell in the outermost row or column of a grid of side `h`.
pub open spec fn on_edge(h: int, c: (int, int)) -> bool {
    c.0 == 0 || c.1 == 0 || c.0 == h - 1 || c.1 == h - 1
}

/// A sequence of background cells, each adjacent to the next.
pub open spec fn is_walk(g: Seq<Seq<char>>, bg: char, p: Seq<(int, int)>) -> bool {
    &&& forall|i: int| 0 <= i < p.len() ==> #[trigger] is_open(g, bg, p[i])
    &&& forall|i: int| 0 <= i < p.len() - 1 ==> #[trigger] adjacent(p[i], p[i + 1])
}

/// A walk over background cells from the centre of `g` to a cell on its edge.
pub open spec fn is_escape(g: Seq<Seq<char>>, p: Seq<(int, int)>) -> bool {
    let h = g.len() as int;
    &&& p.len() > 0
    &&& p[0] == (radius(h), radius(h))
    &&& on_edge(h, p.last())
    &&& is_walk(g, background(g), p)
}

/// Some walk leads from the centre of `g` to its edge.
pub open spec fn has_escape(g: Seq<Seq<char>>) -> bool {
    exists|p: Seq<(int, int)>| is_escape(g, p)
}

/// The index of the step that reached cell `c`, if any.
pub open spec fn slot_at(slot: Seq<Vec<Option<usize>>>, c: (int, int)) -> Option<usize> {
    slot[c.1]@[c.0]
}

/// Cell `c` was reached by step `k`.
pub open spec fn reached_by(slot: Seq<Vec<Option<usize>>>, c: (int, int), k: int) -> bool {
    slot_at(slot, c) is Some && slot_at(slot, c)->0 as int == k
}

/// The search's record: every step reached an open cell that `slot` points
/// back to, and every step but the first came from an earlier step next to it.
pub open spec fn well_formed(
    g: Seq<Seq<char>>,
    steps: Seq<PathStep>,
    slot: Seq<Vec<Option<usize>>>,
) -> bool {
    let h = g.len() as int;
    let bg = background(g);
    &&& slot.len() == h
    &&& forall|y: int| 0 <= y < h ==> (#[trigger] slot[y])@.len() == h
    &&& steps.len() > 0
    &&& steps[0].location.pos() == (radius(h), radius(h))
    &&& steps[0].distance == 0
    &&& forall|k: int|
        0 <= k < steps.len() ==> {
            &&& is_open(g, bg, (#[trigger] steps[k]).location.pos())
            &&& reached_by(slot, steps[k].location.pos(), k)
            &&& steps[k].distance <= k
        }
    &&& forall|c: (int, int)|
        in_grid(h, c) && (#[trigger] slot_at(slot, c)) is Some ==> {
            &&& (slot_at(slot, c)->0 as int) < steps.len()
            &&& steps[slot_at(slot, c)->0 as int].location.pos() == c
        }
    &&& forall|k: int|
        0 < k < steps.len() ==> {
            let p = (#[trigger] steps[k]).parent->0.pos();
            &&& steps[k].parent is Some
            &&& in_grid(h, p)
            &&& slot_at(slot, p) is Some
            &&& (slot_at(slot, p)->0 as int) < k
            &&& adjacent(p, steps[k].location.pos())
            &&& steps[k].distance == steps[slot_at(slot, p)->0 as int].distance + 1
        }
}

/// Whether `l` lies on the edge of a grid of side `h`.
pub fn edge_square(l: &Location, h: usize) -> (b: bool)
    requires
        h >= 1,
    ensures
        b == on_edge(h as int, l.pos()),
{
    l.x == 0 || l.y == 0 || l.x == h - 1 || l.y == h - 1
}

/// Pushes `(x, y)` onto `out` when it holds `bg` and the search has not reached it.
fn consider(
    g: &Vec<Vec<char>>,
    slot: &Vec<Vec<Option<usize>>>,
    bg: char,
    x: usize,
    y: usize,
    out: &mut Vec<Location>,
)
    requires
        is_square(view_rows(g@)),
        slot@.len() == g.len(),
        forall|j: int| 0 <= j < g.len() ==> (#[trigger] slot@[j])@.len() == g.len(),
        x < g.len(),
        y < g.len(),
    ensures
        ({
            let c = (x as int, y as int);
            if is_open(view_rows(g@), bg, c) && slot_at(slot@, c) is None {
                final(out)@ == old(out)@.push(Location { x, y })
            } else {
                final(out)@ == old(out)@
            }
        }),
{
    let ghost gv = view_rows(g@);
    assert(gv[y as int] == g@[y as int]@);
    assert(gv[y as int].len() == g.len());
    if g[y][x] == bg && slot[y][x].is_none() {
        out.push(Location::new(x, y));
    }
}

/// The cells next to `c` that hold `bg` and that the search has not reached.
pub fn neighbours_in_unfound(
    g: &Vec<Vec<char>>,
    slot: &Vec<Vec<Option<usize>>>,
    bg: char,
    c: Location,
) -> (n: Vec<Location>)
    requires
        is_square(view_rows(g@)),
        slot@.len() == g.len(),
        forall|j: int| 0 <= j < g.len() ==> (#[trigger] slot@[j])@.len() == g.len(),
        in_grid(g.len() as int, c.pos()),
    ensures
        n@.no_duplicates(),
        forall|i: int|
            0 <= i < n.len() ==> {
                &&& is_open(view_rows(g@), bg, (#[trigger] n@[i]).pos())
                &&& slot_at(slot@, n@[i].pos()) is None
                &&& adjacent(c.pos(), n@[i].pos())
            },
        forall|d: (int, int)|
            is_open(view_rows(g@), bg, d) && slot_at(slot@, d) is None && #[trigger] adjacent(
                c.pos(),
                d,
            ) ==> positions(n@).contains(d),
{
    let h = g.len();
    let mut n: Vec<Location> = Vec::new();
    if c.x > 0 {
        consider(g, slot, bg, c.x - 1, c.y, &mut n);
    }
    let ghost n1 = n@;
    if c.x + 1 < h {
        consider(g, slot, bg, c.x + 1, c.y, &mut n);
    }
    let ghost n2 = n@;
    if c.y > 0 {
        consider(g, slot, bg, c.x, c.y - 1, &mut n);
    }
    let ghost n3 = n@;
    if c.y + 1 < h {
        consider(g, slot, bg, c.x, c.y + 1, &mut n);
    }
    proof {
        let ps = positions(n@);
        assert forall|d: (int, int)|
            is_open(view_rows(g@), bg, d) && slot_at(slot@, d) is None && #[trigger] adjacent(
                c.pos(),
                d,
            ) implies ps.contains(d) by {
            if d == (c.x - 1, c.y as int) {
                assert(ps[n1.len() - 1] == d);
            } else if d == (c.x + 1, c.y as int) {
                assert(ps[n2.len() - 1] == d);
            } else if d == (c.x as int, c.y - 1) {
                assert(ps[n3.len() - 1] == d);
            } else {
                assert(ps[n.len() - 1] == d);
            }
        }
    }
    n
}

/// A walk over background cells that starts at the centre.
pub open spec fn from_centre(g: Seq<Seq<char>>, q: Seq<(int, int)>) -> bool {
    let h = g.len() as int;
    &&& q.len() > 0
    &&& q[0] == (radius(h), radius(h))
    &&& is_walk(g, background(g), q)
}

/// An escape walk no longer than any other.
pub open spec fn is_shortest_escape(g: Seq<Seq<char>>, p: Seq<(int, int)>) -> bool {
    &&& is_escape(g, p)
    &&& forall|q: Seq<(int, int)>| #[trigger] is_escape(g, q) ==> p.len() <= q.len()
}

/// The distance of each reached cell is no more than the steps of any walk
/// from the centre to it.
#[verifier::opaque]
pub open spec fn recorded_shortest(g: Seq<Seq<char>>, steps: Seq<PathStep>, slot: Seq<Vec<Option<usize>>>) -> bool {
    forall|q: Seq<(int, int)>|
        #[trigger] from_centre(g, q) && slot_at(slot, q.last()) is Some ==> steps[slot_at(
            slot,
            q.last(),
        )->0 as int].distance <= q.len() - 1
}

/// Distances grow along the steps, and those not yet expanded from `head`
/// on span at most two values.
#[verifier::opaque]
pub open spec fn layered(steps: Seq<PathStep>, head: int) -> bool {
    &&& forall|k1: int, k2: int|
        0 <= k1 <= k2 < steps.len() ==> #[trigger] steps[k1].distance <= #[trigger] steps[k2].distance
    &&& head < steps.len() ==> steps.last().distance <= steps[head].distance + 1
}

/// Every walk from the centre to a cell that `slot` has not reached takes
/// more than `d` steps.
#[verifier::opaque]
pub open spec fn unreached_beyond(g: Seq<Seq<char>>, slot: Seq<Vec<Option<usize>>>, d: int) -> bool {
    forall|q: Seq<(int, int)>|
        #[trigger] from_centre(g, q) && slot_at(slot, q.last()) is None ==> q.len() - 1 >= d + 1
}

/// A cell whose step has been expanded.
pub open spec fn processed(slot: Seq<Vec<Option<usize>>>, head: int, c: (int, int)) -> bool {
    slot_at(slot, c) is Some && (slot_at(slot, c)->0 as int) < head
}

/// The first cell of a walk from the centre that has not been expanded has
/// been reached, by a step from `head` on.
proof fn lemma_frontier_on_walk(
    g: Seq<Seq<char>>,
    steps: Seq<PathStep>,
    slot: Seq<Vec<Option<usize>>>,
    head: int,
    q: Seq<(int, int)>,
    i: int,
) -> (t: int)
    requires
        well_formed(g, steps, slot),
        expanded(g, steps, slot, head),
        0 <= head,
        from_centre(g, q),
        0 <= i < q.len(),
        !processed(slot, head, q[i]),
    ensures
        0 <= t <= i,
        slot_at(slot, q[t]) is Some,
        slot_at(slot, q[t])->0 as int >= head,
    decreases i,
{
    if i == 0 {
        assert(reached_by(slot, steps[0].location.pos(), 0));
        0
    } else if processed(slot, head, q[i - 1]) {
        let j = i - 1;
        assert(adjacent(q[j], q[j + 1]));
        assert(is_open(g, background(g), q[i]));
        assert(is_open(g, background(g), q[j]));
        let k = slot_at(slot, q[j])->0 as int;
        assert(steps[k].location.pos() == q[j]);
        assert(adjacent(steps[k].location.pos(), q[i]));
        i
    } else {
        lemma_frontier_on_walk(g, steps, slot, head, q, i - 1)
    }
}

/// A non-empty prefix of a walk from the centre is one too.
proof fn lemma_prefix_from_centre(g: Seq<Seq<char>>, q: Seq<(int, int)>, n: int)
    requires
        from_centre(g, q),
        0 < n <= q.len(),
    ensures
        from_centre(g, q.take(n)),
{
    let pre = q.take(n);
    assert forall|i: int| 0 <= i < pre.len() implies #[trigger] is_open(g, background(g), pre[i]) by {
        assert(pre[i] == q[i]);
    }
    assert forall|i: int| 0 <= i < pre.len() - 1 implies #[trigger] adjacent(pre[i], pre[i + 1]) by {
        assert(pre[i] == q[i]);
        assert(pre[i + 1] == q[i + 1]);
    }
}

/// A walk from the centre to a cell not yet expanded has at least as many
/// steps as the step at `head`; more, if the cell has not been reached.
#[verifier::rlimit(30)]
proof fn lemma_walk_at_least(
    g: Seq<Seq<char>>,
    steps: Seq<PathStep>,
    slot: Seq<Vec<Option<usize>>>,
    head: int,
    q: Seq<(int, int)>,
)
    requires
        well_formed(g, steps, slot),
        expanded(g, steps, slot, head),
        recorded_shortest(g, steps, slot),
        layered(steps, head),
        0 <= head < steps.len(),
        from_centre(g, q),
        !processed(slot, head, q.last()),
    ensures
        q.len() - 1 >= steps[head].distance,
        slot_at(slot, q.last()) is None ==> q.len() - 1 >= steps[head].distance + 1,
{
    reveal(recorded_shortest);
    reveal(layered);
    let t = lemma_frontier_on_walk(g, steps, slot, head, q, q.len() - 1);
    let pre = q.take(t + 1);
    assert(pre.last() == q[t]);
    lemma_prefix_from_centre(g, q, t + 1);
    assert(is_open(g, background(g), q[t]));
    let k = slot_at(slot, q[t])->0 as int;
    assert(k < steps.len());
    assert(steps[head].distance <= steps[k].distance);
}

/// The steps before `head` lie off the edge, and each of their open neighbours
/// has been reached.
pub open spec fn expanded(g: Seq<Seq<char>>, steps: Seq<PathStep>, slot: Seq<Vec<Option<usize>>>, head: int) -> bool {
    &&& forall|k: int| 0 <= k < head ==> !on_edge(g.len() as int, (#[trigger] steps[k]).location.pos())
    &&& forall|k: int, c: (int, int)|
        0 <= k < head && #[trigger] adjacent(steps[k].location.pos(), c) && is_open(g, background(g), c)
            ==> #[trigger] slot_at(slot, c) is Some
}

/// Every cell of a walk from the centre has been reached, once all steps are expanded.
proof fn lemma_walk_reached(
    g: Seq<Seq<char>>,
    steps: Seq<PathStep>,
    slot: Seq<Vec<Option<usize>>>,
    q: Seq<(int, int)>,
    i: int,
)
    requires
        well_formed(g, steps, slot),
        expanded(g, steps, slot, steps.len() as int),
        is_escape(g, q),
        0 <= i < q.len(),
    ensures
        slot_at(slot, q[i]) is Some,
    decreases i,
{
    let h = g.len() as int;
    if i == 0 {
        assert(steps[0].location.pos() == q[0]);
    } else {
        lemma_walk_reached(g, steps, slot, q, i - 1);
        assert(is_open(g, background(g), q[i - 1]));
        let k = slot_at(slot, q[i - 1])->0 as int;
        assert(steps[k].location.pos() == q[i - 1]);
        let j = i - 1;
        assert(adjacent(q[j], q[j + 1]));
        assert(j + 1 == i);
        assert(is_open(g, background(g), q[i]));
        assert(adjacent(steps[k].location.pos(), q[i]));
    }
}

/// Once all steps are expanded without meeting the edge, no walk leads out.
proof fn lemma_no_escape(g: Seq<Seq<char>>, steps: Seq<PathStep>, slot: Seq<Vec<Option<usize>>>)
    requires
        well_formed(g, steps, slot),
        expanded(g, steps, slot, steps.len() as int),
    ensures
        !has_escape(g),
{
    if has_escape(g) {
        let q = choose|q: Seq<(int, int)>| is_escape(g, q);
        lemma_walk_reached(g, steps, slot, q, q.len() - 1);
        assert(is_open(g, background(g), q[q.len() - 1]));
        let k = slot_at(slot, q.last())->0 as int;
        assert(steps[k].location.pos() == q.last());
    }
}

/// The walk from the centre to the cell of step `k`, read off the parents.
fn route_to(
    g: &Vec<Vec<char>>,
    steps: &Vec<PathStep>,
    slot: &Vec<Vec<Option<usize>>>,
    k: usize,
) -> (p: Vec<Location>)
    requires
        well_formed(view_rows(g@), steps@, slot@),
        k < steps.len(),
    ensures
        p.len() > 0,
        positions(p@)[0] == steps@[0].location.pos(),
        positions(p@).last() == steps@[k as int].location.pos(),
        p.len() == steps@[k as int].distance + 1,
        is_walk(view_rows(g@), background(view_rows(g@)), positions(p@)),
{
    let ghost gv = view_rows(g@);
    let ghost bg = background(gv);
    let mut back: Vec<Location> = Vec::new();
    let mut cur: usize = k;
    back.push(steps[cur].location);
    while cur > 0
        invariant
            well_formed(gv, steps@, slot@),
            gv == view_rows(g@),
            bg == background(gv),
            cur < steps.len(),
            back.len() > 0,
            back@[0] == steps@[k as int].location,
            back@.last() == steps@[cur as int].location,
            back.len() == steps@[k as int].distance - steps@[cur as int].distance + 1,
            forall|i: int| 0 <= i < back.len() ==> #[trigger] is_open(gv, bg, back@[i].pos()),
            forall|i: int|
                0 <= i < back.len() - 1 ==> #[trigger] adjacent(back@[i + 1].pos(), back@[i].pos()),
        decreases cur,
    {
        let p = steps[cur].parent.unwrap();
        assert(slot_at(slot@, p.pos()) is Some);
        let j = slot[p.y][p.x].unwrap();
        assert(steps@[j as int].location.pos() == p.pos());
        back.push(steps[j].location);
        cur = j;
    }
    let n = back.len();
    let mut p: Vec<Location> = Vec::new();
    let mut i: usize = 0;
    while i < n
        invariant
            n == back.len(),
            i <= n,
            p.len() == i,
            forall|t: int| 0 <= t < i ==> p@[t] == back@[n - 1 - t],
        decreases n - i,
    {
        p.push(back[n - 1 - i]);
        i += 1;
    }
    proof {
        let ps = positions(p@);
        assert forall|t: int| 0 <= t < ps.len() implies #[trigger] is_open(gv, bg, ps[t]) by {
            assert(ps[t] == back@[n - 1 - t].pos());
        }
        assert forall|t: int| 0 <= t < ps.len() - 1 implies #[trigger] adjacent(ps[t], ps[t + 1]) by {
            assert(ps[t] == back@[n - 1 - t].pos());
            assert(ps[t + 1] == back@[n - 1 - (t + 1)].pos());
            assert(adjacent(back@[(n - 1 - (t + 1)) + 1].pos(), back@[n - 1 - (t + 1)].pos()));
        }
    }
    p
}

/// The cell `(x, y)` of a grid of side `h` numbered in row-major order.
spec fn cell_index(h: int, c: (int, int)) -> int {
    c.1 * h + c.0
}

proof fn lemma_cell_index(h: int, a: (int, int), b: (int, int))
    requires
        in_grid(h, a),
        in_grid(h, b),
    ensures
        0 <= cell_index(h, a) < h * h,
        cell_index(h, a) == cell_index(h, b) ==> a == b,
{
    assert(0 <= a.1 * h + a.0 < h * h) by (nonlinear_arith)
        requires 0 <= a.0 < h, 0 <= a.1 < h;
    if cell_index(h, a) == cell_index(h, b) {
        assert(a.1 == b.1) by (nonlinear_arith)
            requires a.1 * h + a.0 == b.1 * h + b.0, 0 <= a.0 < h, 0 <= b.0 < h, 0 <= a.1, 0 <= b.1;
    }
}

/// The search never holds more steps than the grid has cells.
proof fn lemma_steps_bounded(g: Seq<Seq<char>>, steps: Seq<PathStep>, slot: Seq<Vec<Option<usize>>>)
    requires
        well_formed(g, steps, slot),
    ensures
        steps.len() <= g.len() * g.len(),
{
    let h = g.len() as int;
    let idx = Seq::new(steps.len(), |k: int| cell_index(h, steps[k].location.pos()));
    assert forall|i: int, j: int| 0 <= i < idx.len() && 0 <= j < idx.len() && i != j implies idx[i] != idx[j] by {
        lemma_cell_index(h, steps[i].location.pos(), steps[j].location.pos());
        assert(reached_by(slot, steps[i].location.pos(), i));
        assert(reached_by(slot, steps[j].location.pos(), j));
    }
    assert(idx.no_duplicates());
    idx.unique_seq_to_set();
    assert forall|v: int| idx.to_set().contains(v) implies set_int_range(0, h * h).contains(v) by {
        let k = idx.index_of(v);
        lemma_cell_index(h, steps[k].location.pos(), steps[k].location.pos());
    }
    lemma_int_range(0, h * h);
    lemma_len_subset(idx.to_set(), set_int_range(0, h * h));
}

/// An `h` by `h` table with no cell reached.
fn empty_slots(h: usize) -> (slot: Vec<Vec<Option<usize>>>)
    ensures
        slot@.len() == h,
        forall|y: int| 0 <= y < h ==> (#[trigger] slot@[y])@.len() == h,
        forall|c: (int, int)| in_grid(h as int, c) ==> #[trigger] slot_at(slot@, c) is None,
{
    let mut row: Vec<Option<usize>> = Vec::new();
    let mut x: usize = 0;
    while x < h
        invariant
            x <= h,
            row@.len() == x,
            forall|i: int| 0 <= i < x ==> row@[i] is None,
        decreases h - x,
    {
        row.push(None);
        x += 1;
    }
    let mut slot: Vec<Vec<Option<usize>>> = Vec::new();
    let mut y: usize = 0;
    while y < h
        invariant
            y <= h,
            row@.len() == h,
            forall|i: int| 0 <= i < h ==> row@[i] is None,
            slot@.len() == y,
            forall|j: int| 0 <= j < y ==> (#[trigger] slot@[j])@ == row@,
        decreases h - y,
    {
        slot.push(row.clone());
        y += 1;
    }
    slot
}

/// Expands step `head`: every open cell next to it that the search has not
/// reached becomes a new step, reached from it.
/// After the cells next to step `head` have been recorded, step `head`
/// counts as expanded and the distances stay layered.
proof fn lemma_expand_done(
    gv: Seq<Seq<char>>,
    old_steps: Seq<PathStep>,
    old_slot: Seq<Vec<Option<usize>>>,
    steps: Seq<PathStep>,
    slot: Seq<Vec<Option<usize>>>,
    found: Seq<(int, int)>,
    head: int,
    d: int,
)
    requires
        0 <= head < old_steps.len(),
        old_steps.len() <= steps.len(),
        d == old_steps[head].distance,
        expanded(gv, old_steps, old_slot, head),
        !on_edge(gv.len() as int, old_steps[head].location.pos()),
        layered(old_steps, head),
        forall|k: int| 0 <= k < old_steps.len() ==> steps[k] == old_steps[k],
        forall|k: int| old_steps.len() <= k < steps.len() ==> (#[trigger] steps[k]).distance == d + 1,
        forall|c: (int, int)|
            in_grid(gv.len() as int, c) && (#[trigger] slot_at(old_slot, c)) is Some ==> slot_at(slot, c) == slot_at(old_slot, c),
        forall|c: (int, int)|
            is_open(gv, background(gv), c) && slot_at(old_slot, c) is None && #[trigger] adjacent(
                old_steps[head].location.pos(),
                c,
            ) ==> found.contains(c),
        forall|i: int| 0 <= i < found.len() ==> slot_at(slot, #[trigger] found[i]) is Some,
    ensures
        expanded(gv, steps, slot, head + 1),
        layered(steps, head + 1),
{
    let bg = background(gv);
    let h = gv.len() as int;
    reveal(layered);
        assert forall|k: int, c: (int, int)|
            0 <= k < head + 1 && #[trigger] adjacent(steps[k].location.pos(), c) && is_open(gv, bg, c)
                implies #[trigger] slot_at(slot, c) is Some by {
            if k < head {
                assert(steps[k] == old_steps[k]);
                assert(slot_at(old_slot, c) is Some);
            } else if slot_at(old_slot, c) is None {
                let i = found.index_of(c);
                assert(found[i] == c);
            }
        }
        assert forall|k: int| 0 <= k < head + 1 implies !on_edge(h as int, (#[trigger] steps[k]).location.pos()) by {
            assert(steps[k] == old_steps[k]);
        }
        assert forall|k1: int, k2: int|
            0 <= k1 <= k2 < steps.len() implies #[trigger] steps[k1].distance <= #[trigger] steps[k2].distance by {
            if k2 < old_steps.len() {
                assert(steps[k1] == old_steps[k1]);
                assert(steps[k2] == old_steps[k2]);
            } else if k1 < old_steps.len() {
                assert(steps[k1] == old_steps[k1]);
                assert(old_steps[k1].distance <= old_steps.last().distance);
            }
        }
        if head + 1 < steps.len() {
            if steps.len() > old_steps.len() {
                assert(steps.last().distance == d + 1);
            } else {
                assert(steps.last() == old_steps.last());
            }
            assert(old_steps[head as int].distance <= steps[head + 1].distance);
        }
    }
/// Records that the search reached `n` from `cand`, the step at `head`.
fn add_step(
    g: &Vec<Vec<char>>,
    steps: &mut Vec<PathStep>,
    slot: &mut Vec<Vec<Option<usize>>>,
    n: Location,
    cand: PathStep,
    head: usize,
    start: Ghost<Seq<Vec<Option<usize>>>>,
)
    requires
        well_formed(view_rows(g@), old(steps)@, old(slot)@),
        recorded_shortest(view_rows(g@), old(steps)@, old(slot)@),
        head < old(steps).len(),
        cand == old(steps)@[head as int],
        is_open(view_rows(g@), background(view_rows(g@)), n.pos()),
        slot_at(old(slot)@, n.pos()) is None,
        slot_at(start@, n.pos()) is None,
        adjacent(cand.location.pos(), n.pos()),
        unreached_beyond(view_rows(g@), start@, cand.distance as int),
        forall|c: (int, int)|
            in_grid(g.len() as int, c) && (#[trigger] slot_at(old(slot)@, c)) is Some && slot_at(start@, c) is None
                ==> old(steps)@[slot_at(old(slot)@, c)->0 as int].distance == cand.distance + 1,
    ensures
        well_formed(view_rows(g@), final(steps)@, final(slot)@),
        recorded_shortest(view_rows(g@), final(steps)@, final(slot)@),
        final(steps)@ == old(steps)@.push(PathStep { location: n, parent: Some(cand.location), distance: (cand.distance + 1) as usize }),
        forall|c: (int, int)| in_grid(g.len() as int, c) ==> #[trigger] slot_at(final(slot)@, c) == if c == n.pos() {
            Some(old(steps)@.len() as usize)
        } else {
            slot_at(old(slot)@, c)
        },
        forall|c: (int, int)|
            in_grid(g.len() as int, c) && (#[trigger] slot_at(final(slot)@, c)) is Some && slot_at(start@, c) is None
                ==> final(steps)@[slot_at(final(slot)@, c)->0 as int].distance == cand.distance + 1,
{
    let ghost gv = view_rows(g@);
    let ghost bg = background(gv);
    let h = g.len();
    let k = steps.len();
    let ghost prev_slot = slot@;
    let ghost prev_steps = steps@;
    assert(slot_at(prev_slot, cand.location.pos()) == Some(head));
    assert(cand.distance <= head);
    slot[n.y][n.x] = Some(k);
    assert forall|c: (int, int)| in_grid(h as int, c) implies #[trigger] slot_at(slot@, c) == if c == n.pos() {
        Some(k)
    } else {
        slot_at(prev_slot, c)
    } by {
        if c.1 != n.y {
            assert(slot@[c.1] == prev_slot[c.1]);
        }
    }
    steps.push(PathStep::new(n, Some(cand.location), cand.distance + 1));
    assert forall|k2: int| 0 <= k2 < prev_steps.len() implies steps@[k2] == prev_steps[k2] && reached_by(slot@, prev_steps[k2].location.pos(), k2) by {
        assert(reached_by(prev_slot, prev_steps[k2].location.pos(), k2));
    }
    proof {
        let hh = h as int;
        assert(steps@[0] == prev_steps[0]);
        assert(steps@[k as int].location.pos() == n.pos());
        assert(slot@.len() == hh);
        assert(forall|y: int| 0 <= y < hh ==> (#[trigger] slot@[y])@.len() == hh) by {
            assert(forall|y: int| 0 <= y < hh && y != n.y ==> slot@[y] == prev_slot[y]);
        };
        assert(forall|k2: int|
            0 <= k2 < steps@.len() ==> {
                &&& is_open(gv, bg, (#[trigger] steps@[k2]).location.pos())
                &&& reached_by(slot@, steps@[k2].location.pos(), k2)
                &&& steps@[k2].distance <= k2
            });
        assert(forall|c: (int, int)|
            in_grid(hh, c) && (#[trigger] slot_at(slot@, c)) is Some ==> {
                &&& (slot_at(slot@, c)->0 as int) < steps@.len()
                &&& steps@[slot_at(slot@, c)->0 as int].location.pos() == c
            });
        assert(forall|k2: int|
            0 < k2 < steps@.len() ==> {
                let p = (#[trigger] steps@[k2]).parent->0.pos();
                &&& steps@[k2].parent is Some
                &&& in_grid(hh, p)
                &&& slot_at(slot@, p) is Some
                &&& (slot_at(slot@, p)->0 as int) < k2
                &&& adjacent(p, steps@[k2].location.pos())
            });
    }
    assert(recorded_shortest(gv, steps@, slot@)) by {
        reveal(recorded_shortest);
        reveal(unreached_beyond);
        assert forall|q: Seq<(int, int)>|
            #[trigger] from_centre(gv, q) && slot_at(slot@, q.last()) is Some implies steps@[slot_at(
                slot@,
                q.last(),
            )->0 as int].distance <= q.len() - 1 by {
            assert(is_open(gv, bg, q[q.len() - 1]));
            if q.last() != n.pos() {
                assert(slot_at(slot@, q.last()) == slot_at(prev_slot, q.last()));
            }
        }
    }
    assert(steps@ =~= prev_steps.push(PathStep { location: n, parent: Some(cand.location), distance: (cand.distance + 1) as usize }));
}

#[verifier::spinoff_prover]
fn expand(g: &Vec<Vec<char>>, steps: &mut Vec<PathStep>, slot: &mut Vec<Vec<Option<usize>>>, head: usize)
    requires
        is_square(view_rows(g@)),
        well_formed(view_rows(g@), old(steps)@, old(slot)@),
        head < old(steps).len(),
        expanded(view_rows(g@), old(steps)@, old(slot)@, head as int),
        !on_edge(g.len() as int, old(steps)@[head as int].location.pos()),
        recorded_shortest(view_rows(g@), old(steps)@, old(slot)@),
        layered(old(steps)@, head as int),
    ensures
        well_formed(view_rows(g@), final(steps)@, final(slot)@),
        expanded(view_rows(g@), final(steps)@, final(slot)@, head + 1),
        final(steps)@.len() >= old(steps)@.len(),
        recorded_shortest(view_rows(g@), final(steps)@, final(slot)@),
        layered(final(steps)@, head + 1),
{
    let ghost gv = view_rows(g@);
    let h = g.len();
    let r = h / 2;
    assert(is_open(gv, background(gv), steps@[0].location.pos()));
    assert(gv[r as int] == g@[r as int]@);
    assert(gv[r as int].len() == h);
    let bg = g[r][r];
    let cand = steps[head];
    let nbrs = neighbours_in_unfound(g, slot, bg, cand.location);
    let ghost old_steps = steps@;
    let ghost old_slot = slot@;
    let ghost d = cand.distance as int;
    assert(unreached_beyond(gv, old_slot, d)) by {
        reveal(unreached_beyond);
        assert forall|q: Seq<(int, int)>|
            #[trigger] from_centre(gv, q) && slot_at(old_slot, q.last()) is None implies q.len() - 1 >= d + 1 by {
            lemma_walk_at_least(gv, old_steps, old_slot, head as int, q);
        }
    }
    let mut j: usize = 0;
    while j < nbrs.len()
        invariant
            gv == view_rows(g@),
            h == gv.len(),
            bg == background(gv),
            head < old_steps.len(),
            cand == old_steps[head as int],
            well_formed(gv, steps@, slot@),
            j <= nbrs.len(),
            steps.len() == old_steps.len() + j,
            forall|k: int| 0 <= k < old_steps.len() ==> steps@[k] == old_steps[k],
            forall|c: (int, int)|
                in_grid(h as int, c) && (#[trigger] slot_at(old_slot, c)) is Some ==> slot_at(slot@, c) == slot_at(old_slot, c),
            nbrs@.no_duplicates(),
            forall|i: int|
                0 <= i < nbrs.len() ==> {
                    &&& is_open(gv, bg, (#[trigger] nbrs@[i]).pos())
                    &&& slot_at(old_slot, nbrs@[i].pos()) is None
                    &&& adjacent(cand.location.pos(), nbrs@[i].pos())
                },
            forall|i: int| 0 <= i < j ==> slot_at(slot@, (#[trigger] nbrs@[i]).pos()) is Some,
            forall|i: int| j <= i < nbrs.len() ==> slot_at(slot@, (#[trigger] nbrs@[i]).pos()) is None,
            d == cand.distance,
            unreached_beyond(gv, old_slot, d),
            recorded_shortest(gv, steps@, slot@),
            forall|k: int| old_steps.len() <= k < steps.len() ==> (#[trigger] steps@[k]).distance == d + 1,
            forall|c: (int, int)|
                in_grid(h as int, c) && (#[trigger] slot_at(slot@, c)) is Some && slot_at(old_slot, c) is None
                    ==> steps@[slot_at(slot@, c)->0 as int].distance == d + 1,
            layered(old_steps, head as int),
        decreases nbrs.len() - j,
    {
        let n = nbrs[j];
        let ghost prev_slot = slot@;
        let ghost prev_steps = steps@;
        add_step(g, steps, slot, n, cand, head, Ghost(old_slot));
        assert forall|i: int| j < i < nbrs.len() implies slot_at(slot@, (#[trigger] nbrs@[i]).pos()) is None by {
            assert(nbrs@[i] != nbrs@[j as int]);
            assert(is_open(gv, bg, nbrs@[i].pos()));
        }
        assert forall|i: int| 0 <= i < j + 1 implies slot_at(slot@, (#[trigger] nbrs@[i]).pos()) is Some by {
            assert(is_open(gv, bg, nbrs@[i].pos()));
        }
        assert forall|c: (int, int)|
            in_grid(h as int, c) && (#[trigger] slot_at(old_slot, c)) is Some implies slot_at(slot@, c) == slot_at(old_slot, c) by {
            assert(slot_at(prev_slot, c) is Some);
        }
        j += 1;
    }
    proof {
        lemma_expand_done(gv, old_steps, old_slot, steps@, slot@, positions(nbrs@), head as int, d);
    }
}

/// Searches breadth-first from the centre of a square grid of odd side, over
/// cells holding the background character, for a cell on the edge, and
/// returns the walk to the first one reached.
pub fn path_out_of_circle(g: &Vec<Vec<char>>) -> (p: Option<Vec<Location>>)
    requires
        is_square(view_rows(g@)),
        g.len() % 2 == 1,
    ensures
        match p {
            Some(p) => is_shortest_escape(view_rows(g@), positions(p@)),
            None => !has_escape(view_rows(g@)),
        },
{
    let ghost gv = view_rows(g@);
    let h = g.len();
    let r = h / 2;
    assert(gv[r as int] == g@[r as int]@);
    assert(gv[r as int].len() == h);
    let bg = g[r][r];
    let centre = Location::new(r, r);
    let mut slot = empty_slots(h);
    let ghost old_slot = slot;
    slot[r][r] = Some(0);
    let mut steps: Vec<PathStep> = Vec::new();
    steps.push(PathStep::new(centre, None, 0));
    let mut head: usize = 0;
    assert forall|c: (int, int)| in_grid(h as int, c) implies #[trigger] slot_at(slot@, c) == if c == (r as int, r as int) {
        Some(0usize)
    } else {
        None
    } by {
        if c.1 != r {
            assert(slot@[c.1] == old_slot@[c.1]);
        } else {
            assert(slot@[c.1]@ == old_slot@[c.1]@.update(r as int, Some(0usize)));
        }
        assert(slot_at(old_slot@, c) is None);
    }
    assert(gv[r as int][r as int] == bg);
    assert(recorded_shortest(gv, steps@, slot@)) by {
        reveal(recorded_shortest);
        assert forall|q: Seq<(int, int)>|
            #[trigger] from_centre(gv, q) && slot_at(slot@, q.last()) is Some implies steps@[slot_at(
                slot@,
                q.last(),
            )->0 as int].distance <= q.len() - 1 by {
            assert(is_open(gv, bg, q[q.len() - 1]));
        }
    }
    assert(layered(steps@, 0)) by {
        reveal(layered);
    }
    loop
        invariant
            gv == view_rows(g@),
            is_square(gv),
            h == g.len(),
            h == gv.len(),
            h % 2 == 1,
            r == radius(h as int),
            bg == background(gv),
            well_formed(gv, steps@, slot@),
            head <= steps.len(),
            expanded(gv, steps@, slot@, head as int),
            recorded_shortest(gv, steps@, slot@),
            layered(steps@, head as int),
        decreases gv.len() * gv.len() - head,
    {
        proof {
            lemma_steps_bounded(gv, steps@, slot@);
        }
        if head == steps.len() {
            proof {
                lemma_no_escape(gv, steps@, slot@);
            }
            return None;
        }
        let cand = steps[head];
        if edge_square(&cand.location, h) {
            let p = route_to(g, &steps, &slot, head);
            proof {
                assert forall|q: Seq<(int, int)>| #[trigger] is_escape(gv, q) implies positions(p@).len() <= q.len() by {
                    assert(from_centre(gv, q));
                    if processed(slot@, head as int, q.last()) {
                        assert(is_open(gv, bg, q[q.len() - 1]));
                        let k = slot_at(slot@, q.last())->0 as int;
                        assert(steps@[k].location.pos() == q.last());
                    }
                    lemma_walk_at_least(gv, steps@, slot@, head as int, q);
                }
            }
            return Some(p);
        }
        expand(g, &mut steps, &mut slot, head);
        proof {
            lemma_steps_bounded(gv, steps@, slot@);
        }
        head += 1;
    }
}

} // verus!
