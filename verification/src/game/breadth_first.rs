//! The unweighted distance field: a breadth-first sweep from all sources at
//! once.

use crate::game::cost_field::{
    blank_field, fits, is_target, lemma_diagonal_of_one, lemma_longer_route, lemma_route_adds_up,
    lemma_route_ends_on_grid, lemma_route_start, lemma_shorter_route, Field, Rules, Search,
};
use crate::game::game::set_cell;
use crate::game::grid::{
    direction_count, neighbor, neighbor_count, rectangular, step_target, Terrain, MAX_CELLS,
};
use std::collections::VecDeque;
use vstd::prelude::*;

verus! {

impl Search {
    /// `route` is a route, and no route to the same cell has fewer steps.
    pub open spec fn fewest_steps(self, route: Seq<(int, int)>) -> bool {
        &&& self.is_route(route)
        &&& forall|other: Seq<(int, int)>|
            #[trigger] self.is_route(other) && other.last() == route.last() ==> other.len()
                >= route.len()
    }

    /// `field` is an unweighted distance field of the problem: a cell that a
    /// route leads to holds the cost of a route to it with the fewest steps,
    /// and a cell that no route leads to holds nothing.
    ///
    /// Where several routes have the fewest steps and differ in cost (which
    /// takes diagonal steps), the field may hold the cost of any of them; but
    /// it follows that route: every cell of the route holds the cost of the
    /// route up to it, so that each cell but a source has a neighbour whose
    /// distance and the cost of the step from it add up to its own.
    pub open spec fn fewest_steps_field(self, field: Field) -> bool {
        &&& field.len() == self.height
        &&& forall|y: int| 0 <= y < self.height ==> (#[trigger] field[y]).len() == self.width
        &&& forall|x: int, y: int|
            0 <= x < self.width && 0 <= y < self.height ==> match #[trigger] field[y][x] {
                Some(d) => exists|route: Seq<(int, int)>|
                    #[trigger] self.fewest_steps(route) && route.last() == (x, y) && self.route_cost(
                        route,
                    ) == d && self.traces(field, route),
                None => forall|route: Seq<(int, int)>|
                    #[trigger] self.is_route(route) ==> route.last() != (x, y),
            }
    }
}

/// The number of cells of a row that have a distance.
spec fn row_marks(row: Seq<Option<u32>>) -> int
    decreases row.len(),
{
    if row.len() == 0 {
        0
    } else {
        row_marks(row.drop_last()) + if row.last() is Some {
            1int
        } else {
            0int
        }
    }
}

/// The number of cells that have a distance.
spec fn marks(field: Field) -> int
    decreases field.len(),
{
    if field.len() == 0 {
        0
    } else {
        marks(field.drop_last()) + row_marks(field.last())
    }
}

proof fn lemma_row_marks(row: Seq<Option<u32>>, x: int, v: Option<u32>)
    requires
        0 <= x < row.len(),
        row[x] is None,
        v is Some,
    ensures
        row_marks(row.update(x, v)) == row_marks(row) + 1,
    decreases row.len(),
{
    let updated = row.update(x, v);
    if x == row.len() - 1 {
        assert(updated.drop_last() =~= row.drop_last());
    } else {
        assert(updated.drop_last() =~= row.drop_last().update(x, v));
        lemma_row_marks(row.drop_last(), x, v);
    }
}

proof fn lemma_marks(field: Field, x: int, y: int, v: Option<u32>)
    requires
        0 <= y < field.len(),
        0 <= x < field[y].len(),
        field[y][x] is None,
        v is Some,
    ensures
        marks(set_cell(field, x, y, v)) == marks(field) + 1,
    decreases field.len(),
{
    let updated = set_cell(field, x, y, v);
    if y == field.len() - 1 {
        assert(updated.drop_last() =~= field.drop_last());
        lemma_row_marks(field[y], x, v);
    } else {
        let shorter = field.drop_last();
        assert(shorter[y] == field[y]);
        assert(updated.drop_last().len() == set_cell(shorter, x, y, v).len());
        assert forall|j: int| 0 <= j < shorter.len() implies updated.drop_last()[j] == set_cell(
            shorter,
            x,
            y,
            v,
        )[j] by {
            assert(updated.drop_last()[j] == updated[j]);
        }
        assert(updated.drop_last() =~= set_cell(shorter, x, y, v));
        lemma_marks(field.drop_last(), x, y, v);
    }
}

proof fn lemma_row_marks_bound(row: Seq<Option<u32>>)
    ensures
        0 <= row_marks(row) <= row.len(),
    decreases row.len(),
{
    if row.len() > 0 {
        lemma_row_marks_bound(row.drop_last());
    }
}

proof fn lemma_marks_bound(field: Field, width: int)
    requires
        forall|y: int| 0 <= y < field.len() ==> (#[trigger] field[y]).len() == width,
    ensures
        0 <= marks(field) <= width * field.len(),
    decreases field.len(),
{
    if field.len() > 0 {
        lemma_marks_bound(field.drop_last(), width);
        lemma_row_marks_bound(field.last());
        assert(width * field.len() == width * (field.len() - 1) + width) by (nonlinear_arith);
    } else {
        assert(width * 0 == 0);
    }
}

/// The cell that a queue entry names.
spec fn cell_of(e: (u32, u32)) -> (int, int) {
    (e.0 as int, e.1 as int)
}

/// Every cell with a distance has a level, is reached by a route of as many
/// steps as its level and of the cost that is its distance, and costs no more
/// than twice its level.
spec fn traced(s: Search, field: Field, level_of: spec_fn((int, int)) -> int) -> bool {
    forall|x: int, y: int|
        0 <= x < s.width && 0 <= y < s.height && (#[trigger] field[y][x]) is Some ==> {
            &&& level_of((x, y)) >= 0
            &&& field[y][x]->0 <= 2 * level_of((x, y))
            &&& exists|route: Seq<(int, int)>|
                #[trigger] s.is_route(route) && route.last() == (x, y) && s.route_cost(route)
                    == field[y][x]->0 && route.len() == level_of((x, y)) + 1 && s.traces(
                    field,
                    route,
                )
        }
}

/// The cell that the step from `c` in direction `k` leads to has been seen,
/// at a level no more than one above that of `c`, if it can be entered at all.
spec fn edge_seen(
    s: Search,
    field: Field,
    level_of: spec_fn((int, int)) -> int,
    c: (int, int),
    k: int,
) -> bool {
    let t = step_target(c.0, c.1, k);
    s.in_bounds(t) && s.may_enter(t) ==> field[t.1][t.0] is Some && level_of(t) <= level_of(c) + 1
}

spec fn processed(s: Search, field: Field, level_of: spec_fn((int, int)) -> int, c: (int, int)) -> bool {
    forall|k: int| 0 <= k < direction_count(s.rules.diagonal) ==> edge_seen(s, field, level_of, c, k)
}

/// What holds of the sweep. `level` is the level of the cell taken off the
/// queue last, `pops` the number of cells taken off so far, and `current`
/// the cell that is being expanded, if any, with `k` of its directions tried.
#[verifier::opaque]
spec fn sweeping(
    s: Search,
    field: Field,
    level_of: spec_fn((int, int)) -> int,
    queue: Seq<(u32, u32)>,
    level: int,
    pops: int,
    current: Option<(int, int)>,
    k: int,
) -> bool {
    &&& fits(s, field)
    &&& traced(s, field, level_of)
    &&& forall|x: int, y: int|
        0 <= x < s.width && 0 <= y < s.height && s.is_source((x, y)) ==> (#[trigger] field[y][x]) is Some
            && level_of((x, y)) == 0
    &&& forall|i: int|
        0 <= i < queue.len() ==> {
            &&& s.in_bounds(cell_of(#[trigger] queue[i]))
            &&& field[queue[i].1 as int][queue[i].0 as int] is Some
            &&& level <= level_of(cell_of(queue[i])) <= level + 1
        }
    &&& forall|i: int, j: int|
        0 <= i < j < queue.len() ==> level_of(cell_of(#[trigger] queue[i])) <= level_of(
            cell_of(#[trigger] queue[j]),
        )
    &&& forall|x: int, y: int|
        0 <= x < s.width && 0 <= y < s.height && (#[trigger] field[y][x]) is Some ==> level_of((x, y))
            <= level + 1 && level_of((x, y)) <= pops
    &&& forall|x: int, y: int|
        0 <= x < s.width && 0 <= y < s.height && (#[trigger] field[y][x]) is Some && Some((x, y))
            != current ==> processed(s, field, level_of, (x, y)) || queue.contains(
            (x as u32, y as u32),
        )
    &&& pops + queue.len() == marks(field)
    &&& level >= 0
    &&& match current {
        Some(c) => {
            &&& s.in_bounds(c)
            &&& field[c.1][c.0] is Some
            &&& level_of(c) == level
            &&& level + 1 <= pops
            &&& forall|j: int| 0 <= j < k ==> edge_seen(s, field, level_of, c, j)
        },
        None => true,
    }
}

/// In an unweighted search a step costs 1, or 2 if it is diagonal.
proof fn lemma_unweighted_step(s: Search, from: (int, int), to: (int, int))
    requires
        !s.rules.weighted,
    ensures
        s.step_cost(from, to) == if from.0 != to.0 && from.1 != to.1 {
            2int
        } else {
            1int
        },
{
    lemma_diagonal_of_one();
}

/// Taking the first cell off the queue makes it the cell to expand.
proof fn lemma_dequeued(
    s: Search,
    field: Field,
    level_of: spec_fn((int, int)) -> int,
    queue: Seq<(u32, u32)>,
    level: int,
    pops: int,
)
    requires
        s.wf(),
        sweeping(s, field, level_of, queue, level, pops, None, 0),
        queue.len() > 0,
    ensures
        s.in_bounds(cell_of(queue[0])),
        field[queue[0].1 as int][queue[0].0 as int] is Some,
        0 <= pops < s.width * s.height,
        sweeping(
            s,
            field,
            level_of,
            queue.subrange(1, queue.len() as int),
            level_of(cell_of(queue[0])),
            pops + 1,
            Some(cell_of(queue[0])),
            0,
        ),
{
    reveal(sweeping);
    lemma_marks_bound(field, s.width);
    let rest = queue.subrange(1, queue.len() as int);
    let c = cell_of(queue[0]);
    let next = level_of(c);
    assert(field[c.1][c.0] is Some);
    assert forall|i: int| 0 <= i < rest.len() implies {
        &&& s.in_bounds(cell_of(#[trigger] rest[i]))
        &&& field[rest[i].1 as int][rest[i].0 as int] is Some
        &&& next <= level_of(cell_of(rest[i])) <= next + 1
    } by {
        assert(rest[i] == queue[i + 1]);
        assert(level_of(cell_of(queue[0])) <= level_of(cell_of(queue[i + 1])));
    }
    assert forall|i: int, j: int| 0 <= i < j < rest.len() implies level_of(cell_of(#[trigger] rest[i]))
        <= level_of(cell_of(#[trigger] rest[j])) by {
        assert(rest[i] == queue[i + 1] && rest[j] == queue[j + 1]);
    }
    assert forall|x: int, y: int|
        0 <= x < s.width && 0 <= y < s.height && (#[trigger] field[y][x]) is Some && Some((x, y))
            != Some(c) implies processed(s, field, level_of, (x, y)) || rest.contains(
        (x as u32, y as u32),
    ) by {
        if !processed(s, field, level_of, (x, y)) {
            let e = (x as u32, y as u32);
            assert(queue.contains(e));
            let i = choose|i: int| 0 <= i < queue.len() && queue[i] == e;
            assert(i != 0);
            assert(rest[i - 1] == e);
        }
    }
}

/// A step to a cell that has been seen, or that cannot be entered, needs no
/// work.
proof fn lemma_seen(
    s: Search,
    field: Field,
    level_of: spec_fn((int, int)) -> int,
    queue: Seq<(u32, u32)>,
    level: int,
    pops: int,
    c: (int, int),
    k: int,
)
    requires
        sweeping(s, field, level_of, queue, level, pops, Some(c), k),
        ({
            let t = step_target(c.0, c.1, k);
            !s.in_bounds(t) || !s.may_enter(t) || field[t.1][t.0] is Some
        }),
    ensures
        sweeping(s, field, level_of, queue, level, pops, Some(c), k + 1),
{
    reveal(sweeping);
    assert forall|j: int| 0 <= j < k + 1 implies edge_seen(s, field, level_of, c, j) by {}
}

/// The distance that a newly seen cell gets fits in 32 bits.
proof fn lemma_room(
    s: Search,
    field: Field,
    level_of: spec_fn((int, int)) -> int,
    queue: Seq<(u32, u32)>,
    level: int,
    pops: int,
    c: (int, int),
    k: int,
)
    requires
        s.wf(),
        s.width * s.height <= MAX_CELLS,
        sweeping(s, field, level_of, queue, level, pops, Some(c), k),
    ensures
        s.in_bounds(c),
        field[c.1][c.0] is Some,
        field[c.1][c.0]->0 + 2 <= u32::MAX,
{
    reveal(sweeping);
    lemma_marks_bound(field, s.width);
}

/// Giving a distance to a cell that had none, and putting it at the back of
/// the queue, keeps what the sweep relies on.
proof fn lemma_newly_seen(
    s: Search,
    field: Field,
    level_of: spec_fn((int, int)) -> int,
    queue: Seq<(u32, u32)>,
    level: int,
    pops: int,
    c: (int, int),
    k: int,
    t: (u32, u32),
    d: u32,
)
    requires
        s.wf(),
        !s.rules.weighted,
        sweeping(s, field, level_of, queue, level, pops, Some(c), k),
        0 <= k < direction_count(s.rules.diagonal),
        cell_of(t) == step_target(c.0, c.1, k),
        s.in_bounds(cell_of(t)),
        s.may_enter(cell_of(t)),
        field[t.1 as int][t.0 as int] is None,
        d == field[c.1][c.0]->0 + s.step_cost(c, cell_of(t)),
    ensures
        sweeping(
            s,
            set_cell(field, t.0 as int, t.1 as int, Some(d)),
            |b: (int, int)|
                if b == cell_of(t) {
                    level + 1
                } else {
                    level_of(b)
                },
            queue.push(t),
            level,
            pops,
            Some(c),
            k + 1,
        ),
        marks(set_cell(field, t.0 as int, t.1 as int, Some(d))) == marks(field) + 1,
{
    reveal(sweeping);
    let tc = cell_of(t);
    let seen = set_cell(field, tc.0, tc.1, Some(d));
    let levels = |b: (int, int)|
        if b == cell_of(t) {
            level + 1
        } else {
            level_of(b)
        };
    let longer = queue.push(t);
    lemma_marks(field, tc.0, tc.1, Some(d));
    lemma_unweighted_step(s, c, tc);
    assert(fits(s, seen));
    assert forall|x: int, y: int| 0 <= x < s.width && 0 <= y < s.height implies (#[trigger] seen[y][x])
        == if (x, y) == tc {
        Some(d)
    } else {
        field[y][x]
    } by {}
    assert(field[c.1][c.0] is Some);
    let route = choose|route: Seq<(int, int)>|
        #[trigger] s.is_route(route) && route.last() == c && s.route_cost(route) == field[c.1][c.0]->0
            && route.len() == level_of(c) + 1 && s.traces(field, route);
    assert(s.is_step(c, tc));
    lemma_longer_route(s, route, tc);
    // A field that follows a route still follows it once the new cell has its
    // distance: the route does not pass the new cell.
    assert forall|r: Seq<(int, int)>| s.is_route(r) && s.traces(field, r) implies #[trigger] s.traces(
        seen,
        r,
    ) by {
        assert forall|i: int| 0 <= i < r.len() implies seen[(#[trigger] r[i]).1][r[i].0] == Some(
            s.route_cost(r.take(i + 1)) as u32,
        ) && 0 <= s.route_cost(r.take(i + 1)) <= u32::MAX by {
            lemma_route_start(s, r, i + 1);
            lemma_route_ends_on_grid(s, r.take(i + 1));
            assert(r.take(i + 1).last() == r[i]);
            assert(field[r[i].1][r[i].0] is Some);
            assert(r[i] != tc);
        }
    }
    assert forall|x: int, y: int|
        0 <= x < s.width && 0 <= y < s.height && (#[trigger] seen[y][x]) is Some implies {
        &&& levels((x, y)) >= 0
        &&& seen[y][x]->0 <= 2 * levels((x, y))
        &&& exists|route: Seq<(int, int)>|
            #[trigger] s.is_route(route) && route.last() == (x, y) && s.route_cost(route)
                == seen[y][x]->0 && route.len() == levels((x, y)) + 1 && s.traces(seen, route)
    } by {
        if (x, y) == tc {
            let longer_route = route.push(tc);
            assert(s.traces(seen, route));
            assert(s.traces(seen, longer_route)) by {
                assert forall|i: int| 0 <= i < longer_route.len() implies seen[(
                #[trigger] longer_route[i]).1][longer_route[i].0] == Some(
                    s.route_cost(longer_route.take(i + 1)) as u32,
                ) && 0 <= s.route_cost(longer_route.take(i + 1)) <= u32::MAX by {
                    if i < route.len() {
                        assert(longer_route.take(i + 1) =~= route.take(i + 1));
                        assert(longer_route[i] == route[i]);
                    } else {
                        assert(longer_route.take(i + 1) =~= longer_route);
                    }
                }
            }
            assert(s.is_route(longer_route) && longer_route.last() == tc && s.route_cost(
                longer_route,
            ) == d && longer_route.len() == levels(tc) + 1 && s.traces(seen, longer_route));
        } else {
            assert(field[y][x] is Some);
            let old_route = choose|r: Seq<(int, int)>|
                #[trigger] s.is_route(r) && r.last() == (x, y) && s.route_cost(r) == field[y][x]->0
                    && r.len() == level_of((x, y)) + 1 && s.traces(field, r);
            assert(s.traces(seen, old_route));
            assert(s.is_route(old_route) && old_route.last() == (x, y) && s.route_cost(old_route)
                == seen[y][x]->0 && old_route.len() == levels((x, y)) + 1 && s.traces(
                seen,
                old_route,
            ));
        }
    }
    assert forall|x: int, y: int|
        0 <= x < s.width && 0 <= y < s.height && s.is_source((x, y)) implies (#[trigger] seen[y][x]) is Some
        && levels((x, y)) == 0 by {
        assert(field[y][x] is Some);
    }
    assert forall|i: int| 0 <= i < longer.len() implies {
        &&& s.in_bounds(cell_of(#[trigger] longer[i]))
        &&& seen[longer[i].1 as int][longer[i].0 as int] is Some
        &&& level <= levels(cell_of(longer[i])) <= level + 1
    } by {
        if i < queue.len() {
            assert(longer[i] == queue[i]);
            assert(field[queue[i].1 as int][queue[i].0 as int] is Some);
        }
    }
    assert forall|i: int, j: int| 0 <= i < j < longer.len() implies levels(cell_of(#[trigger] longer[i]))
        <= levels(cell_of(#[trigger] longer[j])) by {
        assert(longer[i] == queue[i]);
        assert(field[queue[i].1 as int][queue[i].0 as int] is Some);
        if j < queue.len() {
            assert(longer[j] == queue[j]);
            assert(field[queue[j].1 as int][queue[j].0 as int] is Some);
        }
    }
    assert forall|x: int, y: int|
        0 <= x < s.width && 0 <= y < s.height && (#[trigger] seen[y][x]) is Some implies levels((x, y))
        <= level + 1 && levels((x, y)) <= pops by {
        if (x, y) != tc {
            assert(field[y][x] is Some);
        }
    }
    // Cells that were done with stay so: none of their steps leads to the new cell.
    assert forall|b: (int, int), j: int|
        s.in_bounds(b) && field[b.1][b.0] is Some && edge_seen(s, field, level_of, b, j)
        implies #[trigger] edge_seen(s, seen, levels, b, j) by {
        let u = step_target(b.0, b.1, j);
        if s.in_bounds(u) && s.may_enter(u) {
            assert(field[u.1][u.0] is Some);
            assert(u != tc);
            assert(seen[u.1][u.0] == field[u.1][u.0]);
        }
    }
    assert forall|x: int, y: int|
        0 <= x < s.width && 0 <= y < s.height && (#[trigger] seen[y][x]) is Some && Some((x, y))
            != Some(c) implies processed(s, seen, levels, (x, y)) || longer.contains(
        (x as u32, y as u32),
    ) by {
        if (x, y) == tc {
            assert(longer[queue.len() as int] == t);
        } else {
            assert(field[y][x] is Some);
            if processed(s, field, level_of, (x, y)) {
                assert forall|j: int| 0 <= j < direction_count(s.rules.diagonal) implies edge_seen(
                    s,
                    seen,
                    levels,
                    (x, y),
                    j,
                ) by {
                    assert(edge_seen(s, field, level_of, (x, y), j));
                }
            } else {
                let e = (x as u32, y as u32);
                assert(queue.contains(e));
                let i = choose|i: int| 0 <= i < queue.len() && queue[i] == e;
                assert(longer[i] == e);
            }
        }
    }
    assert forall|j: int| 0 <= j < k + 1 implies edge_seen(s, seen, levels, c, j) by {
        if j < k {
            assert(edge_seen(s, field, level_of, c, j));
        }
    }
}

/// Once all directions have been tried, the expanded cell is done with.
proof fn lemma_swept_cell(
    s: Search,
    field: Field,
    level_of: spec_fn((int, int)) -> int,
    queue: Seq<(u32, u32)>,
    level: int,
    pops: int,
    c: (int, int),
)
    requires
        s.wf(),
        sweeping(
            s,
            field,
            level_of,
            queue,
            level,
            pops,
            Some(c),
            direction_count(s.rules.diagonal),
        ),
    ensures
        sweeping(s, field, level_of, queue, level, pops, None, 0),
{
    reveal(sweeping);
    assert(processed(s, field, level_of, c));
    assert forall|x: int, y: int|
        0 <= x < s.width && 0 <= y < s.height && (#[trigger] field[y][x]) is Some implies processed(
        s,
        field,
        level_of,
        (x, y),
    ) || queue.contains((x as u32, y as u32)) by {
        if (x, y) != c {
            assert(Some((x, y)) != Some(c));
        }
    }
}

/// Once the queue is empty, every route leads to a cell that has been seen,
/// at a level no larger than the number of its steps.
proof fn lemma_levels_least(
    s: Search,
    field: Field,
    level_of: spec_fn((int, int)) -> int,
    level: int,
    pops: int,
    route: Seq<(int, int)>,
)
    requires
        s.wf(),
        sweeping(s, field, level_of, Seq::empty(), level, pops, None, 0),
        s.is_route(route),
    ensures
        s.in_bounds(route.last()),
        field[route.last().1][route.last().0] is Some,
        level_of(route.last()) <= route.len() - 1,
    decreases route.len(),
{
    reveal(sweeping);
    if route.len() == 1 {
        let c = route[0];
        assert(field[c.1][c.0] is Some);
    } else {
        let shorter = route.drop_last();
        lemma_shorter_route(s, route);
        lemma_levels_least(s, field, level_of, level, pops, shorter);
        let c = shorter.last();
        let t = route.last();
        assert(field[c.1][c.0] is Some);
        assert(!Seq::<(u32, u32)>::empty().contains((c.0 as u32, c.1 as u32)));
        assert(processed(s, field, level_of, c));
        let k = choose|k: int|
            0 <= k < direction_count(s.rules.diagonal) && #[trigger] step_target(c.0, c.1, k) == t;
        assert(edge_seen(s, field, level_of, c, k));
    }
}

/// A sweep that has emptied its queue has found an unweighted distance
/// field.
proof fn lemma_sweep_complete(
    s: Search,
    field: Field,
    level_of: spec_fn((int, int)) -> int,
    level: int,
    pops: int,
)
    requires
        s.wf(),
        sweeping(s, field, level_of, Seq::empty(), level, pops, None, 0),
    ensures
        s.fewest_steps_field(field),
{
    assert(fits(s, field) && traced(s, field, level_of)) by {
        reveal(sweeping);
    }
    assert forall|x: int, y: int| 0 <= x < s.width && 0 <= y < s.height implies match #[trigger] field[y][x] {
        Some(d) => exists|route: Seq<(int, int)>|
            #[trigger] s.fewest_steps(route) && route.last() == (x, y) && s.route_cost(route) == d
                && s.traces(field, route),
        None => forall|route: Seq<(int, int)>|
            #[trigger] s.is_route(route) ==> route.last() != (x, y),
    } by {
        assert forall|other: Seq<(int, int)>|
            #[trigger] s.is_route(other) && other.last() == (x, y) implies field[y][x] is Some
            && level_of((x, y)) <= other.len() - 1 by {
            lemma_levels_least(s, field, level_of, level, pops, other);
        }
        if field[y][x] is Some {
            let route = choose|route: Seq<(int, int)>|
                #[trigger] s.is_route(route) && route.last() == (x, y) && s.route_cost(route)
                    == field[y][x]->0 && route.len() == level_of((x, y)) + 1 && s.traces(
                    field,
                    route,
                );
            assert(s.fewest_steps(route));
        }
    }
}

/// The field and the queue with which the sweep starts: the sources at
/// distance zero and in the queue, no other cell with a distance.
fn seed(terrain: &Vec<Vec<Terrain>>, width: u32, height: u32, rules: Rules) -> (start: (
    Vec<Vec<Option<u32>>>,
    VecDeque<(u32, u32)>,
))
    requires
        rectangular(terrain@, width as int, height as int),
    ensures
        rectangular(start.0@, width as int, height as int),
        sweeping(
            Search { terrain: terrain@, width: width as int, height: height as int, rules },
            start.0.deep_view(),
            |c: (int, int)| 0int,
            start.1@,
            0,
            0,
            None,
            0,
        ),
{
    let ghost s = Search { terrain: terrain@, width: width as int, height: height as int, rules };
    let mut field = blank_field(width, height);
    let mut queue: VecDeque<(u32, u32)> = VecDeque::new();
    proof {
        lemma_no_marks(field.deep_view());
    }
    let mut y: u32 = 0;
    while y < height
        invariant
            y <= height,
            s == (Search { terrain: terrain@, width: width as int, height: height as int, rules }),
            s.wf(),
            rectangular(field@, width as int, height as int),
            forall|c: int, r: int|
                0 <= c < width && 0 <= r < height ==> (#[trigger] field.deep_view()[r][c]) == if r < y
                    && s.is_source((c, r)) {
                    Some(0u32)
                } else {
                    None
                },
            forall|i: int|
                0 <= i < queue@.len() ==> s.in_bounds(cell_of(#[trigger] queue@[i])) && queue@[i].1 < y
                    && s.is_source(cell_of(queue@[i])),
            forall|c: int, r: int|
                0 <= c < width && 0 <= r < y && s.is_source((c, r)) ==> queue@.contains(
                    (c as u32, r as u32),
                ),
            queue@.len() == marks(field.deep_view()),
        decreases height - y,
    {
        let mut x: u32 = 0;
        while x < width
            invariant
                x <= width,
                y < height,
                s == (Search { terrain: terrain@, width: width as int, height: height as int, rules }),
                s.wf(),
                rectangular(field@, width as int, height as int),
                forall|c: int, r: int|
                    0 <= c < width && 0 <= r < height ==> (#[trigger] field.deep_view()[r][c]) == if (r
                        < y || (r == y && c < x)) && s.is_source((c, r)) {
                        Some(0u32)
                    } else {
                        None
                    },
                forall|i: int|
                    0 <= i < queue@.len() ==> s.in_bounds(cell_of(#[trigger] queue@[i])) && (queue@[i].1
                        < y || (queue@[i].1 == y && queue@[i].0 < x)) && s.is_source(
                        cell_of(queue@[i]),
                    ),
                forall|c: int, r: int|
                    0 <= c < width && 0 <= r < height && (r < y || (r == y && c < x)) && s.is_source(
                        (c, r),
                    ) ==> queue@.contains((c as u32, r as u32)),
                queue@.len() == marks(field.deep_view()),
            decreases width - x,
        {
            if is_target(rules.target, terrain[y as usize][x as usize]) {
                let ghost before = field.deep_view();
                let ghost waiting = queue@;
                field[y as usize][x as usize] = Some(0);
                queue.push_back((x, y));
                proof {
                    assert(field.deep_view() =~~= set_cell(before, x as int, y as int, Some(0u32)));
                    lemma_marks(before, x as int, y as int, Some(0u32));
                    assert forall|i: int| 0 <= i < queue@.len() implies s.in_bounds(
                        cell_of(#[trigger] queue@[i]),
                    ) && (queue@[i].1 < y || (queue@[i].1 == y && queue@[i].0 < x + 1)) && s.is_source(
                        cell_of(queue@[i]),
                    ) by {
                        if i < waiting.len() {
                            assert(queue@[i] == waiting[i]);
                        }
                    }
                    assert forall|c: int, r: int|
                        0 <= c < width && 0 <= r < height && (r < y || (r == y && c < x + 1))
                            && s.is_source((c, r)) implies queue@.contains((c as u32, r as u32)) by {
                        if c == x && r == y {
                            assert(queue@[waiting.len() as int] == (x, y));
                        } else {
                            let e = (c as u32, r as u32);
                            assert(waiting.contains(e));
                            let i = choose|i: int| 0 <= i < waiting.len() && waiting[i] == e;
                            assert(queue@[i] == e);
                        }
                    }
                }
            }
            x = x + 1;
        }
        y = y + 1;
    }
    proof {
        reveal(sweeping);
        let f = field.deep_view();
        let level_of = |c: (int, int)| 0int;
        assert(fits(s, f));
        assert forall|c: int, r: int|
            0 <= c < s.width && 0 <= r < s.height && (#[trigger] f[r][c]) is Some implies {
            &&& level_of((c, r)) >= 0
            &&& f[r][c]->0 <= 2 * level_of((c, r))
            &&& exists|route: Seq<(int, int)>|
                #[trigger] s.is_route(route) && route.last() == (c, r) && s.route_cost(route)
                    == f[r][c]->0 && route.len() == level_of((c, r)) + 1 && s.traces(f, route)
        } by {
            let route = seq![(c, r)];
            assert(route.take(1) =~= route);
            assert(s.traces(f, route));
            assert(s.is_route(route) && route.last() == (c, r) && s.route_cost(route) == 0
                && route.len() == 1);
        }
        assert forall|i: int| 0 <= i < queue@.len() implies f[(
        #[trigger] queue@[i]).1 as int][queue@[i].0 as int] is Some by {
            assert(s.is_source(cell_of(queue@[i])));
        }
    }
    (field, queue)
}

/// A field in which no cell has a distance has no marks.
proof fn lemma_no_marks(field: Field)
    requires
        forall|y: int, x: int|
            0 <= y < field.len() && 0 <= x < field[y].len() ==> (#[trigger] field[y][x]) is None,
    ensures
        marks(field) == 0,
    decreases field.len(),
{
    if field.len() > 0 {
        lemma_no_marks(field.drop_last());
        lemma_no_row_marks(field.last());
    }
}

proof fn lemma_no_row_marks(row: Seq<Option<u32>>)
    requires
        forall|x: int| 0 <= x < row.len() ==> (#[trigger] row[x]) is None,
    ensures
        row_marks(row) == 0,
    decreases row.len(),
{
    if row.len() > 0 {
        lemma_no_row_marks(row.drop_last());
    }
}

/// Tries the step from `(x, y)` in direction `k`: a cell that can be entered
/// and has no distance yet gets one, a step beyond that of `(x, y)`, and
/// joins the queue.
fn sweep_step(
    terrain: &Vec<Vec<Terrain>>,
    width: u32,
    height: u32,
    rules: Rules,
    field: &mut Vec<Vec<Option<u32>>>,
    queue: &mut VecDeque<(u32, u32)>,
    x: u32,
    y: u32,
    k: usize,
    Ghost(level_of): Ghost<spec_fn((int, int)) -> int>,
    Ghost(level): Ghost<int>,
    Ghost(pops): Ghost<int>,
) -> (levels: Ghost<spec_fn((int, int)) -> int>)
    requires
        rectangular(terrain@, width as int, height as int),
        width as int * height as int <= MAX_CELLS,
        !rules.weighted,
        k < direction_count(rules.diagonal),
        rectangular(old(field)@, width as int, height as int),
        sweeping(
            Search { terrain: terrain@, width: width as int, height: height as int, rules },
            old(field).deep_view(),
            level_of,
            old(queue)@,
            level,
            pops,
            Some((x as int, y as int)),
            k as int,
        ),
    ensures
        rectangular(final(field)@, width as int, height as int),
        sweeping(
            Search { terrain: terrain@, width: width as int, height: height as int, rules },
            final(field).deep_view(),
            levels@,
            final(queue)@,
            level,
            pops,
            Some((x as int, y as int)),
            k as int + 1,
        ),
{
    let ghost s = Search { terrain: terrain@, width: width as int, height: height as int, rules };
    let ghost c = (x as int, y as int);
    let ghost f = field.deep_view();
    let ghost q = queue@;
    proof {
        lemma_room(s, f, level_of, q, level, pops, c, k as int);
    }
    match neighbor(x, y, k, width, height) {
        Some((nx, ny)) => {
            let ghost t = (nx as int, ny as int);
            assert(f[t.1][t.0] == field@[t.1]@[t.0]);
            let open = terrain[ny as usize][nx as usize] != Terrain::Blocked;
            let unseen = field[ny as usize][nx as usize].is_none();
            if open && unseen {
                assert(f[c.1][c.0] == field@[c.1]@[c.0]);
                let here = match field[y as usize][x as usize] {
                    Some(d) => d,
                    None => 0,
                };
                let step: u32 = if nx != x && ny != y {
                    2
                } else {
                    1
                };
                proof {
                    lemma_unweighted_step(s, c, t);
                }
                let d = here + step;
                proof {
                    lemma_newly_seen(s, f, level_of, q, level, pops, c, k as int, (nx, ny), d);
                }
                field[ny as usize][nx as usize] = Some(d);
                queue.push_back((nx, ny));
                proof {
                    assert(field.deep_view() =~~= set_cell(f, t.0, t.1, Some(d)));
                }
                Ghost(
                    |b: (int, int)|
                        if b == cell_of((nx, ny)) {
                            level + 1
                        } else {
                            level_of(b)
                        },
                )
            } else {
                proof {
                    lemma_seen(s, f, level_of, q, level, pops, c, k as int);
                }
                Ghost(level_of)
            }
        },
        None => {
            proof {
                lemma_seen(s, f, level_of, q, level, pops, c, k as int);
            }
            Ghost(level_of)
        },
    }
}

/// An unweighted distance field of `terrain` under `rules`: a breadth-first
/// sweep from all sources at once. A cardinal step costs 1, a diagonal step
/// costs 2, and blocked cells are never entered.
pub fn unweighted_distances(terrain: &Vec<Vec<Terrain>>, width: u32, height: u32, rules: Rules) -> (field:
    Vec<Vec<Option<u32>>>)
    requires
        rectangular(terrain@, width as int, height as int),
        width as int * height as int <= MAX_CELLS,
        !rules.weighted,
    ensures
        rectangular(field@, width as int, height as int),
        (Search {
            terrain: terrain@,
            width: width as int,
            height: height as int,
            rules,
        }).fewest_steps_field(field.deep_view()),
{
    let ghost s = Search { terrain: terrain@, width: width as int, height: height as int, rules };
    let n = neighbor_count(rules.diagonal);
    let (mut field, mut queue) = seed(terrain, width, height, rules);
    let ghost mut level_of: spec_fn((int, int)) -> int = |c: (int, int)| 0int;
    let ghost mut level: int = 0;
    let ghost mut pops: int = 0;
    let mut more = true;
    while more
        invariant
            s == (Search { terrain: terrain@, width: width as int, height: height as int, rules }),
            rectangular(terrain@, width as int, height as int),
            width as int * height as int <= MAX_CELLS,
            !rules.weighted,
            n == direction_count(rules.diagonal),
            rectangular(field@, width as int, height as int),
            sweeping(s, field.deep_view(), level_of, queue@, level, pops, None, 0),
            !more ==> queue@.len() == 0,
            0 <= pops <= s.width * s.height,
        decreases
                s.width * s.height - pops + (if more {
                    1int
                } else {
                    0int
                }),
    {
        let ghost waiting = queue@;
        match queue.pop_front() {
            None => {
                more = false;
            },
            Some((x, y)) => {
                proof {
                    lemma_dequeued(s, field.deep_view(), level_of, waiting, level, pops);
                    level = level_of((x as int, y as int));
                    pops = pops + 1;
                }
                let mut k: usize = 0;
                while k < n
                    invariant
                        k <= n,
                        n == direction_count(rules.diagonal),
                        s == (Search {
                            terrain: terrain@,
                            width: width as int,
                            height: height as int,
                            rules,
                        }),
                        rectangular(terrain@, width as int, height as int),
                        width as int * height as int <= MAX_CELLS,
                        !rules.weighted,
                        rectangular(field@, width as int, height as int),
                        sweeping(
                            s,
                            field.deep_view(),
                            level_of,
                            queue@,
                            level,
                            pops,
                            Some((x as int, y as int)),
                            k as int,
                        ),
                    decreases n - k,
                {
                    let levels = sweep_step(
                        terrain,
                        width,
                        height,
                        rules,
                        &mut field,
                        &mut queue,
                        x,
                        y,
                        k,
                        Ghost(level_of),
                        Ghost(level),
                        Ghost(pops),
                    );
                    proof {
                        level_of = levels@;
                    }
                    k = k + 1;
                }
                proof {
                    lemma_swept_cell(
                        s,
                        field.deep_view(),
                        level_of,
                        queue@,
                        level,
                        pops,
                        (x as int, y as int),
                    );
                }
            },
        }
    }
    proof {
        assert(queue@ =~= Seq::<(u32, u32)>::empty());
        lemma_sweep_complete(s, field.deep_view(), level_of, level, pops);
    }
    field
}

/// In an unweighted search without diagonal steps a route costs as much as
/// it has steps.
pub proof fn lemma_cardinal_cost_counts_steps(s: Search, route: Seq<(int, int)>)
    requires
        !s.rules.weighted,
        !s.rules.diagonal,
        s.is_route(route),
    ensures
        s.route_cost(route) == route.len() - 1,
    decreases route.len(),
{
    if route.len() >= 2 {
        lemma_shorter_route(s, route);
        lemma_cardinal_cost_counts_steps(s, route.drop_last());
        let from = route[route.len() - 2];
        let to = route.last();
        lemma_unweighted_step(s, from, to);
        let k = choose|k: int|
            0 <= k < direction_count(s.rules.diagonal) && #[trigger] step_target(from.0, from.1, k)
                == to;
        assert(from.0 == to.0 || from.1 == to.1);
    }
}

/// Without diagonal steps the unweighted field holds the cost of the cheapest
/// route to each cell.
pub proof fn lemma_cardinal_sweep_is_exact(s: Search, field: Field)
    requires
        !s.rules.weighted,
        !s.rules.diagonal,
        s.fewest_steps_field(field),
    ensures
        s.least_cost_field(field),
{
    assert forall|x: int, y: int| 0 <= x < s.width && 0 <= y < s.height implies match #[trigger] field[y][x] {
        Some(d) => s.is_distance((x, y), d as int),
        None => forall|route: Seq<(int, int)>|
            #[trigger] s.is_route(route) && route.last() == (x, y) ==> s.route_cost(route)
                > u32::MAX,
    } by {
        if field[y][x] is Some {
            let d = field[y][x]->0;
            let route = choose|route: Seq<(int, int)>|
                #[trigger] s.fewest_steps(route) && route.last() == (x, y) && s.route_cost(route)
                    == d;
            lemma_cardinal_cost_counts_steps(s, route);
            assert(s.is_route(route));
            assert forall|other: Seq<(int, int)>|
                #[trigger] s.is_route(other) && other.last() == (x, y) implies s.route_cost(other)
                >= d by {
                lemma_cardinal_cost_counts_steps(s, other);
            }
        }
    }
}

/// In an unweighted field, too, every source has distance zero.
pub proof fn lemma_swept_sources_at_zero(s: Search, field: Field, c: (int, int))
    requires
        s.fewest_steps_field(field),
        s.in_bounds(c),
        s.is_source(c),
    ensures
        field[c.1][c.0] == Some(0u32),
{
    let start = seq![c];
    assert(s.is_route(start) && start.last() == c);
    assert(field[c.1][c.0] is Some);
    let route = choose|route: Seq<(int, int)>|
        #[trigger] s.fewest_steps(route) && route.last() == c && s.route_cost(route)
            == field[c.1][c.0]->0;
    assert(route.len() <= start.len());
}

/// In an unweighted field, too, every cell with a distance that is no source
/// has a neighbour whose distance, no larger than its own, and the cost of
/// the step from it add up to its own.
pub proof fn lemma_swept_has_predecessor(s: Search, field: Field, c: (int, int))
    requires
        s.fewest_steps_field(field),
        s.in_bounds(c),
        field[c.1][c.0] is Some,
        !s.is_source(c),
    ensures
        exists|p: (int, int)|
            #[trigger] s.adds_up(field, p, c) && field[p.1][p.0]->0 <= field[c.1][c.0]->0,
{
    let route = choose|route: Seq<(int, int)>|
        #[trigger] s.fewest_steps(route) && route.last() == c && s.route_cost(route)
            == field[c.1][c.0]->0 && s.traces(field, route);
    lemma_route_adds_up(s, field, route, route.len() - 2);
    assert(s.adds_up(field, route[route.len() - 2], c));
}

/// An unweighted field can be followed back from every cell with a distance.
pub proof fn lemma_swept_is_stepwise(s: Search, field: Field)
    requires
        s.fewest_steps_field(field),
    ensures
        s.stepwise(field),
{
    assert forall|c: (int, int)|
        #[trigger] s.in_bounds(c) && field[c.1][c.0] is Some && !s.is_source(c) implies exists|
        p: (int, int),
    |
        #[trigger] s.adds_up(field, p, c) && field[p.1][p.0]->0 <= field[c.1][c.0]->0 by {
        lemma_swept_has_predecessor(s, field, c);
    }
}

} // verus!
