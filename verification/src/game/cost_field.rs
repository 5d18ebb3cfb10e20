//! Distance fields: for every cell the cost of the cheapest route from the
//! nearest road or shelter.

use crate::game::frontier::Frontier;
use crate::game::grid::{
    direction_count, neighbor, neighbor_count, rectangular, step_target, Terrain,
};
use crate::game::game::set_cell;
use crate::game::State;
use vstd::multiset::Multiset;
use vstd::prelude::*;

verus! {

/// The class of cells that a distance field measures the distance to.
#[derive(Clone, Copy, Debug, PartialEq, Eq, Structural)]
pub enum Target {
    Road,
    Shelter,
}

/// How a search steps and what a step costs.
#[derive(Clone, Copy, Debug)]
pub struct Rules {
    /// The cells of this class are the sources, at distance zero.
    pub target: Target,
    /// Whether steps are priced by the terrain they enter. If not, every
    /// cardinal step costs 1 and blocked cells are never entered.
    pub weighted: bool,
    /// Whether steps to the four diagonal neighbours exist.
    pub diagonal: bool,
    /// The price of entering a blocked cell in a weighted search.
    pub blocked_penalty: u32,
}

/// A search problem: the terrain, its dimensions and the rules.
pub struct Search {
    pub terrain: Seq<Vec<Terrain>>,
    pub width: int,
    pub height: int,
    pub rules: Rules,
}

/// A distance field as plain values: `field[y][x]` is the distance of `(x, y)`.
pub type Field = Seq<Seq<Option<u32>>>;

/// `n` is `c` times the square root of two, rounded up to a whole number.
pub open spec fn root2_ceiling(c: int, n: int) -> bool {
    &&& n >= 0
    &&& n * n >= 2 * c * c
    &&& (n == 0 || (n - 1) * (n - 1) < 2 * c * c)
}

/// The cost of a diagonal step whose cardinal counterpart costs `c`: `c`
/// times the square root of two, rounded up.
pub open spec fn diagonal_cost(c: int) -> int {
    choose|n: int| root2_ceiling(c, n)
}

impl Search {
    pub open spec fn in_bounds(self, c: (int, int)) -> bool {
        0 <= c.0 < self.width && 0 <= c.1 < self.height
    }

    pub open spec fn terrain_at(self, c: (int, int)) -> Terrain {
        self.terrain[c.1]@[c.0]
    }

    /// The terrain has the dimensions of the problem, and they fit in 32
    /// bits.
    pub open spec fn wf(self) -> bool {
        &&& 0 <= self.width <= u32::MAX
        &&& 0 <= self.height <= u32::MAX
        &&& self.terrain.len() == self.height
        &&& forall|y: int| 0 <= y < self.height ==> (#[trigger] self.terrain[y])@.len() == self.width
    }

    /// Cell `c` is one that distances are measured from.
    pub open spec fn is_source(self, c: (int, int)) -> bool {
        match self.rules.target {
            Target::Road => self.terrain_at(c) == Terrain::Road,
            Target::Shelter => self.terrain_at(c) is Shelter,
        }
    }

    /// The cost of a cardinal step onto terrain `dest`.
    pub open spec fn entry_cost(self, dest: Terrain) -> int {
        if !self.rules.weighted {
            1
        } else {
            match dest {
                Terrain::Blocked => self.rules.blocked_penalty as int,
                Terrain::Road => 1,
                Terrain::Shelter(_) => if self.rules.target == Target::Shelter {
                    0
                } else {
                    1
                },
                Terrain::Custom(cost) => cost as int,
            }
        }
    }

    /// The cost of the step from `from` to its neighbour `to`.
    pub open spec fn step_cost(self, from: (int, int), to: (int, int)) -> int {
        let base = self.entry_cost(self.terrain_at(to));
        if from.0 != to.0 && from.1 != to.1 {
            diagonal_cost(base)
        } else {
            base
        }
    }

    /// A search may step onto `c`: any cell when weighted, any but a blocked
    /// one when not.
    pub open spec fn may_enter(self, c: (int, int)) -> bool {
        self.rules.weighted || self.terrain_at(c) != Terrain::Blocked
    }

    /// `to` is a cell of the grid, a neighbour of `from`, and may be entered.
    pub open spec fn is_step(self, from: (int, int), to: (int, int)) -> bool {
        &&& self.in_bounds(to)
        &&& self.may_enter(to)
        &&& exists|k: int|
            0 <= k < direction_count(self.rules.diagonal) && #[trigger] step_target(from.0, from.1, k)
                == to
    }

    /// `route` starts on a source and goes on by steps.
    pub open spec fn is_route(self, route: Seq<(int, int)>) -> bool {
        &&& route.len() >= 1
        &&& self.in_bounds(route[0])
        &&& self.is_source(route[0])
        &&& forall|i: int| 0 <= i < route.len() - 1 ==> self.is_step(#[trigger] route[i], route[i + 1])
    }

    /// The sum of the costs of the steps of `route`.
    pub open spec fn route_cost(self, route: Seq<(int, int)>) -> int
        decreases route.len(),
    {
        if route.len() <= 1 {
            0
        } else {
            self.route_cost(route.drop_last()) + self.step_cost(
                route[route.len() - 2],
                route[route.len() - 1],
            )
        }
    }

    /// `field` follows `route`: every cell of the route holds the cost of the
    /// route up to that cell.
    pub open spec fn traces(self, field: Field, route: Seq<(int, int)>) -> bool {
        forall|i: int|
            0 <= i < route.len() ==> field[(#[trigger] route[i]).1][route[i].0] == Some(
                self.route_cost(route.take(i + 1)) as u32,
            ) && 0 <= self.route_cost(route.take(i + 1)) <= u32::MAX
    }

    /// Some route to `c` costs exactly `d`.
    pub open spec fn reaches(self, c: (int, int), d: int) -> bool {
        exists|route: Seq<(int, int)>|
            #[trigger] self.is_route(route) && route.last() == c && self.route_cost(route) == d
    }

    /// `d` is the cost of the cheapest route to `c`.
    pub open spec fn is_distance(self, c: (int, int), d: int) -> bool {
        &&& self.reaches(c, d)
        &&& forall|route: Seq<(int, int)>|
            #[trigger] self.is_route(route) && route.last() == c ==> self.route_cost(route) >= d
    }

    /// `field` holds the cost of the cheapest route to each cell: a cell
    /// holds that cost where it fits in 32 bits, and nothing where no route
    /// costs that little.
    pub open spec fn least_cost_field(self, field: Field) -> bool {
        &&& field.len() == self.height
        &&& forall|y: int| 0 <= y < self.height ==> (#[trigger] field[y]).len() == self.width
        &&& forall|x: int, y: int|
            0 <= x < self.width && 0 <= y < self.height ==> match #[trigger] field[y][x] {
                Some(d) => self.is_distance((x, y), d as int),
                None => forall|route: Seq<(int, int)>|
                    #[trigger] self.is_route(route) && route.last() == (x, y) ==> self.route_cost(
                        route,
                    ) > u32::MAX,
            }
    }
}

/// Some whole number is `c` times the square root of two, rounded up; it lies
/// between 0 and `n` for any `n` whose square reaches twice the square of `c`.
proof fn lemma_root_exists(c: int, n: int)
    requires
        n >= 0,
        n * n >= 2 * c * c,
    ensures
        exists|m: int| 0 <= m <= n && root2_ceiling(c, m),
    decreases n,
{
    if n == 0 || (n - 1) * (n - 1) < 2 * c * c {
        assert(root2_ceiling(c, n));
    } else {
        lemma_root_exists(c, n - 1);
    }
}

/// Only one number is `c` times the square root of two, rounded up.
proof fn lemma_root_unique(c: int, n: int, m: int)
    requires
        root2_ceiling(c, n),
        root2_ceiling(c, m),
    ensures
        n == m,
{
    if n < m {
        assert(n * n <= (m - 1) * (m - 1)) by (nonlinear_arith)
            requires
                0 <= n <= m - 1,
        ;
    } else if m < n {
        assert(m * m <= (n - 1) * (n - 1)) by (nonlinear_arith)
            requires
                0 <= m <= n - 1,
        ;
    }
}

/// The cost of a diagonal step lies between the cost of its cardinal
/// counterpart and twice that cost.
pub proof fn lemma_diagonal_cost_bounds(c: int)
    requires
        c >= 0,
    ensures
        root2_ceiling(c, diagonal_cost(c)),
        c <= diagonal_cost(c) <= 2 * c,
{
    assert((2 * c) * (2 * c) >= 2 * c * c) by (nonlinear_arith)
        requires
            c >= 0,
    ;
    lemma_root_exists(c, 2 * c);
    let m = choose|m: int| 0 <= m <= 2 * c && root2_ceiling(c, m);
    lemma_root_unique(c, m, diagonal_cost(c));
    if m < c {
        assert(m * m < 2 * c * c) by (nonlinear_arith)
            requires
                0 <= m < c,
        ;
    }
}

/// A diagonal step costs 2 where a cardinal step costs 1.
pub proof fn lemma_diagonal_of_one()
    ensures
        diagonal_cost(1) == 2,
{
    lemma_diagonal_cost_bounds(1);
    assert(root2_ceiling(1, 2));
    lemma_root_unique(1, 2, diagonal_cost(1));
}

/// The cost of a diagonal step whose cardinal counterpart costs `c`.
pub fn diagonal_step_cost(c: u32) -> (cost: u64)
    ensures
        cost == diagonal_cost(c as int),
{
    if c == 0 {
        proof {
            assert(root2_ceiling(0, 0));
            lemma_diagonal_cost_bounds(0);
        }
        return 0;
    }
    let wide: u128 = c as u128;
    assert(wide * wide <= 0xffff_ffff * 0xffff_ffff) by (nonlinear_arith)
        requires
            0 <= wide <= 0xffff_ffff,
    ;
    let goal: u128 = 2 * (wide * wide);
    assert(goal == 2 * c * c) by (nonlinear_arith)
        requires
            goal == 2 * (wide * wide),
            wide == c,
    ;
    let mut low: u128 = wide;
    let mut high: u128 = 2 * wide;
    assert(low * low < goal) by (nonlinear_arith)
        requires
            low == wide,
            goal == 2 * (wide * wide),
            wide > 0,
    ;
    assert(high * high >= goal) by (nonlinear_arith)
        requires
            high == 2 * wide,
            goal == 2 * (wide * wide),
            wide > 0,
    ;
    while high - low > 1
        invariant
            0 < low < high <= 2 * wide,
            wide <= 0xffff_ffff,
            low * low < goal,
            high * high >= goal,
        decreases high - low,
    {
        let mid: u128 = low + (high - low) / 2;
        assert(mid * mid <= 0x2_0000_0000 * 0x2_0000_0000) by (nonlinear_arith)
            requires
                0 <= mid <= 0x2_0000_0000,
        ;
        if mid * mid >= goal {
            high = mid;
        } else {
            low = mid;
        }
    }
    proof {
        assert(high - 1 == low);
        assert(root2_ceiling(c as int, high as int));
        lemma_diagonal_cost_bounds(c as int);
        lemma_root_unique(c as int, high as int, diagonal_cost(c as int));
    }
    high as u64
}

/// The cost of a cardinal step onto terrain `dest`.
pub fn entry_cost_of(rules: &Rules, dest: Terrain) -> (cost: u32)
    ensures
        forall|s: Search| s.rules == *rules ==> cost == #[trigger] s.entry_cost(dest),
{
    if !rules.weighted {
        1
    } else {
        match dest {
            Terrain::Blocked => rules.blocked_penalty,
            Terrain::Road => 1,
            Terrain::Shelter(_) => if rules.target == Target::Shelter {
                0
            } else {
                1
            },
            Terrain::Custom(cost) => cost,
        }
    }
}

/// Whether terrain `here` belongs to the class that `target` names.
pub fn is_target(target: Target, here: Terrain) -> (hit: bool)
    ensures
        hit == match target {
            Target::Road => here == Terrain::Road,
            Target::Shelter => here is Shelter,
        },
{
    match target {
        Target::Road => here == Terrain::Road,
        Target::Shelter => matches!(here, Terrain::Shelter(_)),
    }
}

/// What a cell weighs in the measure by which the searches end: its distance,
/// or more than any distance where it has none.
spec fn weight(d: Option<u32>) -> int {
    match d {
        Some(v) => v as int,
        None => 0x1_0000_0000,
    }
}

spec fn row_weight(row: Seq<Option<u32>>) -> int
    decreases row.len(),
{
    if row.len() == 0 {
        0
    } else {
        row_weight(row.drop_last()) + weight(row.last())
    }
}

spec fn field_weight(field: Field) -> int
    decreases field.len(),
{
    if field.len() == 0 {
        0
    } else {
        field_weight(field.drop_last()) + row_weight(field.last())
    }
}

proof fn lemma_row_weight(row: Seq<Option<u32>>, x: int, v: Option<u32>)
    requires
        0 <= x < row.len(),
    ensures
        row_weight(row.update(x, v)) == row_weight(row) - weight(row[x]) + weight(v),
        row_weight(row) >= 0,
    decreases row.len(),
{
    let updated = row.update(x, v);
    if x == row.len() - 1 {
        assert(updated.drop_last() =~= row.drop_last());
        if row.len() > 1 {
            lemma_row_weight(row.drop_last(), 0, row[0]);
        }
    } else {
        assert(updated.drop_last() =~= row.drop_last().update(x, v));
        lemma_row_weight(row.drop_last(), x, v);
    }
}

proof fn lemma_field_weight(field: Field, x: int, y: int, v: Option<u32>)
    requires
        0 <= y < field.len(),
        0 <= x < field[y].len(),
    ensures
        field_weight(set_cell(field, x, y, v)) == field_weight(field) - weight(field[y][x]) + weight(
            v,
        ),
        field_weight(field) >= 0,
    decreases field.len(),
{
    let updated = set_cell(field, x, y, v);
    lemma_field_nonnegative(field.drop_last());
    if y == field.len() - 1 {
        assert(updated.drop_last() =~= field.drop_last());
        lemma_row_weight(field[y], x, v);
    } else {
        let shorter = field.drop_last();
        assert(shorter[y] == field[y]);
        assert(updated.drop_last().len() == set_cell(shorter, x, y, v).len());
        assert forall|j: int| 0 <= j < shorter.len() implies updated.drop_last()[j] == set_cell(
            shorter,
            x,
            y,
            v,
        )[j] by {
            assert(updated.drop_last()[j] == updated[j]);
        }
        assert(updated.drop_last() =~= set_cell(shorter, x, y, v));
        lemma_field_weight(field.drop_last(), x, y, v);
        lemma_row_nonnegative(field.last());
    }
}

proof fn lemma_row_nonnegative(row: Seq<Option<u32>>)
    ensures
        row_weight(row) >= 0,
    decreases row.len(),
{
    if row.len() > 0 {
        lemma_row_nonnegative(row.drop_last());
    }
}

proof fn lemma_field_nonnegative(field: Field)
    ensures
        field_weight(field) >= 0,
    decreases field.len(),
{
    if field.len() > 0 {
        lemma_field_nonnegative(field.drop_last());
        lemma_row_nonnegative(field.last());
    }
}

/// `field` has the dimensions of the problem.
pub(crate) open spec fn fits(s: Search, field: Field) -> bool {
    &&& field.len() == s.height
    &&& forall|y: int| 0 <= y < s.height ==> (#[trigger] field[y]).len() == s.width
}

/// Every distance in `field` is the cost of some route.
spec fn sound(s: Search, field: Field) -> bool {
    forall|x: int, y: int|
        0 <= x < s.width && 0 <= y < s.height && (#[trigger] field[y][x]) is Some ==> s.reaches(
            (x, y),
            field[y][x]->0 as int,
        )
}

/// Every source has distance zero.
spec fn sources_zero(s: Search, field: Field) -> bool {
    forall|x: int, y: int|
        0 <= x < s.width && 0 <= y < s.height && s.is_source((x, y)) ==> (#[trigger] field[y][x])
            == Some(0u32)
}

/// The step from `c`, reached at cost `d`, in direction `k` cannot lower the
/// distance of the cell it leads to.
spec fn edge_relaxed(s: Search, field: Field, c: (int, int), d: int, k: int) -> bool {
    let t = step_target(c.0, c.1, k);
    s.in_bounds(t) && s.may_enter(t) && d + s.step_cost(c, t) <= u32::MAX ==> field[t.1][t.0] is Some
        && field[t.1][t.0]->0 <= d + s.step_cost(c, t)
}

/// No step from `c`, reached at cost `d`, can lower a distance.
spec fn relaxed(s: Search, field: Field, c: (int, int), d: int) -> bool {
    forall|k: int| 0 <= k < direction_count(s.rules.diagonal) ==> edge_relaxed(s, field, c, d, k)
}

/// Every state waiting in `waiting` names a cell of the grid, costs what some
/// route to that cell costs, and no less than the distance of the cell.
spec fn entries_valid(s: Search, field: Field, waiting: Multiset<State>) -> bool {
    forall|e: State| #[trigger]
        waiting.count(e) > 0 ==> {
            &&& s.in_bounds((e.x as int, e.y as int))
            &&& field[e.y as int][e.x as int] is Some
            &&& field[e.y as int][e.x as int]->0 <= e.cost
            &&& s.reaches((e.x as int, e.y as int), e.cost as int)
        }
}

/// Every cell with a distance, `skip` apart, is either done with (no step
/// from it can lower a distance) or waits in `waiting` at its distance.
spec fn pending_or_relaxed(
    s: Search,
    field: Field,
    waiting: Multiset<State>,
    skip: Option<(int, int)>,
) -> bool {
    forall|x: int, y: int|
        0 <= x < s.width && 0 <= y < s.height && (#[trigger] field[y][x]) is Some && Some((x, y))
            != skip ==> relaxed(s, field, (x, y), field[y][x]->0 as int) || waiting.count(
            State { cost: field[y][x]->0, x: x as u32, y: y as u32 },
        ) > 0
}

/// Costs are never negative.
pub proof fn lemma_step_cost_nonnegative(s: Search, from: (int, int), to: (int, int))
    ensures
        s.step_cost(from, to) >= 0,
{
    let base = s.entry_cost(s.terrain_at(to));
    lemma_diagonal_cost_bounds(base);
}

/// A route without its last cell is a route, and costs no more.
pub proof fn lemma_shorter_route(s: Search, route: Seq<(int, int)>)
    requires
        s.is_route(route),
        route.len() >= 2,
    ensures
        s.is_route(route.drop_last()),
        s.route_cost(route.drop_last()) <= s.route_cost(route),
        s.route_cost(route) == s.route_cost(route.drop_last()) + s.step_cost(
            route[route.len() - 2],
            route.last(),
        ),
        s.is_step(route[route.len() - 2], route.last()),
{
    let shorter = route.drop_last();
    assert forall|i: int| 0 <= i < shorter.len() - 1 implies s.is_step(
        #[trigger] shorter[i],
        shorter[i + 1],
    ) by {
        assert(s.is_step(route[i], route[i + 1]));
    }
    lemma_step_cost_nonnegative(s, route[route.len() - 2], route.last());
    assert(s.is_step(route[route.len() - 2], route[route.len() - 2 + 1]));
}

/// A route that goes on by one step is a route, and costs the step more.
pub proof fn lemma_longer_route(s: Search, route: Seq<(int, int)>, to: (int, int))
    requires
        s.is_route(route),
        s.is_step(route.last(), to),
    ensures
        s.is_route(route.push(to)),
        s.route_cost(route.push(to)) == s.route_cost(route) + s.step_cost(route.last(), to),
{
    let longer = route.push(to);
    assert(longer.drop_last() =~= route);
    assert forall|i: int| 0 <= i < longer.len() - 1 implies s.is_step(
        #[trigger] longer[i],
        longer[i + 1],
    ) by {
        if i < route.len() - 1 {
            assert(s.is_step(route[i], route[i + 1]));
        }
    }
}

/// Where no step can lower a distance, no route costs less than the distance
/// of the cell it leads to.
proof fn lemma_routes_cost_more(s: Search, field: Field, route: Seq<(int, int)>)
    requires
        s.wf(),
        fits(s, field),
        sources_zero(s, field),
        pending_or_relaxed(s, field, Multiset::empty(), None),
        s.is_route(route),
        s.route_cost(route) <= u32::MAX,
    ensures
        s.in_bounds(route.last()),
        field[route.last().1][route.last().0] is Some,
        field[route.last().1][route.last().0]->0 <= s.route_cost(route),
    decreases route.len(),
{
    if route.len() == 1 {
        let c = route[0];
        assert(field[c.1][c.0] == Some(0u32));
    } else {
        let shorter = route.drop_last();
        lemma_shorter_route(s, route);
        lemma_routes_cost_more(s, field, shorter);
        let c = shorter.last();
        let t = route.last();
        let d = field[c.1][c.0]->0 as int;
        assert(field[c.1][c.0] is Some);
        assert(relaxed(s, field, c, d));
        let k = choose|k: int|
            0 <= k < direction_count(s.rules.diagonal) && #[trigger] step_target(c.0, c.1, k) == t;
        assert(edge_relaxed(s, field, c, d, k));
    }
}

/// What holds of the weighted search between two expansions: the field has
/// the dimensions of the problem, every distance in it is the cost of some
/// route, the sources are at zero, the frontier is valid, and every cell with
/// a distance is done with or waits on the frontier.
#[verifier::opaque]
spec fn searching(s: Search, field: Field, waiting: Multiset<State>) -> bool {
    &&& fits(s, field)
    &&& sound(s, field)
    &&& sources_zero(s, field)
    &&& entries_valid(s, field, waiting)
    &&& pending_or_relaxed(s, field, waiting, None)
}

/// What holds of the weighted search while it expands cell `c`, taken off the
/// frontier at its distance `cost`, once the steps in the first `k`
/// directions have been tried.
#[verifier::opaque]
spec fn expanding(
    s: Search,
    field: Field,
    waiting: Multiset<State>,
    c: (int, int),
    cost: u32,
    k: int,
) -> bool {
    &&& fits(s, field)
    &&& sound(s, field)
    &&& sources_zero(s, field)
    &&& entries_valid(s, field, waiting)
    &&& pending_or_relaxed(s, field, waiting, Some(c))
    &&& s.in_bounds(c)
    &&& field[c.1][c.0] == Some(cost)
    &&& forall|j: int| 0 <= j < k ==> edge_relaxed(s, field, c, cost as int, j)
}

/// A search that has nothing left on the frontier has found the weighted
/// distance field.
proof fn lemma_search_complete(s: Search, field: Field)
    requires
        s.wf(),
        searching(s, field, Multiset::empty()),
    ensures
        s.least_cost_field(field),
{
    reveal(searching);
    assert forall|x: int, y: int| 0 <= x < s.width && 0 <= y < s.height implies match #[trigger] field[y][x] {
        Some(d) => s.is_distance((x, y), d as int),
        None => forall|route: Seq<(int, int)>|
            #[trigger] s.is_route(route) && route.last() == (x, y) ==> s.route_cost(route)
                > u32::MAX,
    } by {
        assert forall|route: Seq<(int, int)>|
            #[trigger] s.is_route(route) && route.last() == (x, y) && s.route_cost(route)
                <= u32::MAX implies field[y][x] is Some && field[y][x]->0 <= s.route_cost(route) by {
            lemma_routes_cost_more(s, field, route);
        }
        if field[y][x] is Some {
            assert(s.reaches((x, y), field[y][x]->0 as int));
        }
    }
}

/// Taking a state off the frontier: the state names a cell of the grid that
/// has a distance no larger than the cost of the state. If the distance is
/// smaller, the state is stale and the search goes on without it; if not,
/// the cell is ready to be expanded.
proof fn lemma_taken(s: Search, field: Field, waiting: Multiset<State>, state: State)
    requires
        s.wf(),
        searching(s, field, waiting),
        waiting.count(state) > 0,
    ensures
        s.in_bounds((state.x as int, state.y as int)),
        field[state.y as int][state.x as int] is Some,
        field[state.y as int][state.x as int]->0 <= state.cost,
        field[state.y as int][state.x as int]->0 < state.cost ==> searching(
            s,
            field,
            waiting.remove(state),
        ),
        field[state.y as int][state.x as int]->0 == state.cost ==> expanding(
            s,
            field,
            waiting.remove(state),
            (state.x as int, state.y as int),
            state.cost,
            0,
        ),
{
    broadcast use vstd::multiset::group_multiset_axioms;

    reveal(searching);
    reveal(expanding);
    let rest = waiting.remove(state);
    let c = (state.x as int, state.y as int);
    assert forall|e: State| #[trigger] rest.count(e) > 0 implies waiting.count(e) > 0 by {}
    assert(entries_valid(s, field, rest));
    assert forall|x: int, y: int|
        0 <= x < s.width && 0 <= y < s.height && (#[trigger] field[y][x]) is Some && ((x, y) != c
            || field[y][x]->0 != state.cost) implies relaxed(s, field, (x, y), field[y][x]->0 as int)
        || rest.count(State { cost: field[y][x]->0, x: x as u32, y: y as u32 }) > 0 by {
        let e = State { cost: field[y][x]->0, x: x as u32, y: y as u32 };
        assert(e != state);
        assert(rest.count(e) == waiting.count(e));
    }
}

/// Once the steps in all directions have been tried, the expanded cell is
/// done with.
proof fn lemma_expanded(s: Search, field: Field, waiting: Multiset<State>, c: (int, int), cost: u32)
    requires
        expanding(s, field, waiting, c, cost, direction_count(s.rules.diagonal)),
    ensures
        searching(s, field, waiting),
{
    reveal(searching);
    reveal(expanding);
    assert(relaxed(s, field, c, cost as int));
    assert forall|x: int, y: int|
        0 <= x < s.width && 0 <= y < s.height && (#[trigger] field[y][x]) is Some implies relaxed(
        s,
        field,
        (x, y),
        field[y][x]->0 as int,
    ) || waiting.count(State { cost: field[y][x]->0, x: x as u32, y: y as u32 }) > 0 by {
        if (x, y) != c {
            assert(Some((x, y)) != Some(c));
        }
    }
}

/// A step that cannot lower a distance needs no work.
proof fn lemma_step_tried(
    s: Search,
    field: Field,
    waiting: Multiset<State>,
    c: (int, int),
    cost: u32,
    k: int,
)
    requires
        expanding(s, field, waiting, c, cost, k),
        edge_relaxed(s, field, c, cost as int, k),
    ensures
        expanding(s, field, waiting, c, cost, k + 1),
{
    reveal(expanding);
}

/// Lowering the distance of the cell that a step leads to, and putting that
/// cell on the frontier, keeps what the search relies on.
proof fn lemma_lowering(
    s: Search,
    field: Field,
    waiting: Multiset<State>,
    c: (int, int),
    cost: u32,
    k: int,
    t: (u32, u32),
    lower: u32,
)
    requires
        s.wf(),
        expanding(s, field, waiting, c, cost, k),
        0 <= k < direction_count(s.rules.diagonal),
        (t.0 as int, t.1 as int) == step_target(c.0, c.1, k),
        s.in_bounds((t.0 as int, t.1 as int)),
        s.may_enter((t.0 as int, t.1 as int)),
        lower == cost + s.step_cost(c, (t.0 as int, t.1 as int)),
        field[t.1 as int][t.0 as int] is None || lower < field[t.1 as int][t.0 as int]->0,
    ensures
        expanding(
            s,
            set_cell(field, t.0 as int, t.1 as int, Some(lower)),
            waiting.insert(State { cost: lower, x: t.0, y: t.1 }),
            c,
            cost,
            k + 1,
        ),
        field_weight(set_cell(field, t.0 as int, t.1 as int, Some(lower))) < field_weight(field),
        field_weight(set_cell(field, t.0 as int, t.1 as int, Some(lower))) >= 0,
{
    broadcast use vstd::multiset::group_multiset_axioms;

    reveal(expanding);
    let tc = (t.0 as int, t.1 as int);
    let lowered = set_cell(field, tc.0, tc.1, Some(lower));
    let fresh = State { cost: lower, x: t.0, y: t.1 };
    let longer = waiting.insert(fresh);
    lemma_field_weight(field, tc.0, tc.1, Some(lower));
    lemma_field_nonnegative(lowered);
    assert(tc != c);
    assert(fits(s, lowered));
    assert forall|x: int, y: int| 0 <= x < s.width && 0 <= y < s.height implies (
    #[trigger] lowered[y][x]) == if (x, y) == tc {
        Some(lower)
    } else {
        field[y][x]
    } by {}
    // The new distance is the cost of a route.
    assert(s.reaches(c, cost as int));
    let route = choose|route: Seq<(int, int)>|
        #[trigger] s.is_route(route) && route.last() == c && s.route_cost(route) == cost;
    assert(s.is_step(c, tc));
    lemma_longer_route(s, route, tc);
    assert(s.reaches(tc, lower as int)) by {
        assert(s.is_route(route.push(tc)) && route.push(tc).last() == tc);
    }
    assert(sound(s, lowered));
    assert(sources_zero(s, lowered)) by {
        assert forall|x: int, y: int|
            0 <= x < s.width && 0 <= y < s.height && s.is_source((x, y)) implies (
        #[trigger] lowered[y][x]) == Some(0u32) by {
            assert(field[y][x] == Some(0u32));
        }
    }
    assert forall|e: State| #[trigger] longer.count(e) > 0 implies {
        &&& s.in_bounds((e.x as int, e.y as int))
        &&& lowered[e.y as int][e.x as int] is Some
        &&& lowered[e.y as int][e.x as int]->0 <= e.cost
        &&& s.reaches((e.x as int, e.y as int), e.cost as int)
    } by {
        if e != fresh {
            assert(waiting.count(e) > 0);
        }
    }
    // Lowering a distance keeps relaxed steps relaxed.
    assert forall|b: (int, int), d: int, j: int|
        s.in_bounds(b) && edge_relaxed(s, field, b, d, j) implies #[trigger] edge_relaxed(
        s,
        lowered,
        b,
        d,
        j,
    ) by {
        let u = step_target(b.0, b.1, j);
        if s.in_bounds(u) {
            assert(lowered[u.1][u.0] == if u == tc {
                Some(lower)
            } else {
                field[u.1][u.0]
            });
        }
    }
    assert forall|x: int, y: int|
        0 <= x < s.width && 0 <= y < s.height && (#[trigger] lowered[y][x]) is Some && Some((x, y))
            != Some(c) implies relaxed(s, lowered, (x, y), lowered[y][x]->0 as int) || longer.count(
        State { cost: lowered[y][x]->0, x: x as u32, y: y as u32 },
    ) > 0 by {
        if (x, y) == tc {
            assert(State { cost: lowered[y][x]->0, x: x as u32, y: y as u32 } == fresh);
        } else {
            let d = field[y][x]->0;
            assert(field[y][x] is Some);
            if relaxed(s, field, (x, y), d as int) {
                assert forall|j: int| 0 <= j < direction_count(s.rules.diagonal) implies edge_relaxed(
                    s,
                    lowered,
                    (x, y),
                    d as int,
                    j,
                ) by {
                    assert(edge_relaxed(s, field, (x, y), d as int, j));
                }
            } else {
                assert(waiting.count(State { cost: d, x: x as u32, y: y as u32 }) > 0);
            }
        }
    }
    assert forall|j: int| 0 <= j < k + 1 implies edge_relaxed(s, lowered, c, cost as int, j) by {
        if j < k {
            assert(edge_relaxed(s, field, c, cost as int, j));
        } else {
            assert(lowered[tc.1][tc.0] == Some(lower));
        }
    }
}

/// A field of `height` rows of `width` cells, none with a distance.
pub fn blank_field(width: u32, height: u32) -> (field: Vec<Vec<Option<u32>>>)
    ensures
        rectangular(field@, width as int, height as int),
        forall|x: int, y: int|
            0 <= x < width && 0 <= y < height ==> (#[trigger] field.deep_view()[y][x]) is None,
{
    let mut field: Vec<Vec<Option<u32>>> = Vec::new();
    let mut y: u32 = 0;
    while y < height
        invariant
            y <= height,
            field@.len() == y,
            forall|r: int| 0 <= r < y ==> (#[trigger] field@[r])@.len() == width,
            forall|r: int, c: int| 0 <= r < y && 0 <= c < width ==> (#[trigger] field@[r]@[c]) is None,
        decreases height - y,
    {
        let mut row: Vec<Option<u32>> = Vec::new();
        let mut x: u32 = 0;
        while x < width
            invariant
                x <= width,
                row@.len() == x,
                forall|c: int| 0 <= c < x ==> (#[trigger] row@[c]) is None,
            decreases width - x,
        {
            row.push(None);
            x = x + 1;
        }
        field.push(row);
        y = y + 1;
    }
    assert forall|x: int, y: int| 0 <= x < width && 0 <= y < height implies (
    #[trigger] field.deep_view()[y][x]) is None by {
        assert(field.deep_view()[y][x] == field@[y]@[x]);
    }
    field
}

/// The field and the frontier with which the weighted search starts: the
/// sources at distance zero and on the frontier, no other cell with a
/// distance.
fn seed(terrain: &Vec<Vec<Terrain>>, width: u32, height: u32, rules: Rules) -> (start: (
    Vec<Vec<Option<u32>>>,
    Frontier,
))
    requires
        rectangular(terrain@, width as int, height as int),
    ensures
        rectangular(start.0@, width as int, height as int),
        start.1.wf(),
        searching(
            Search { terrain: terrain@, width: width as int, height: height as int, rules },
            start.0.deep_view(),
            start.1@,
        ),
{
    let ghost s = Search { terrain: terrain@, width: width as int, height: height as int, rules };
    let mut field = blank_field(width, height);
    let mut frontier = Frontier::new();
    let mut y: u32 = 0;
    while y < height
        invariant
            y <= height,
            s == (Search { terrain: terrain@, width: width as int, height: height as int, rules }),
            s.wf(),
            rectangular(field@, width as int, height as int),
            frontier.wf(),
            forall|c: int, r: int|
                0 <= c < width && 0 <= r < height ==> (#[trigger] field.deep_view()[r][c]) == if r < y
                    && s.is_source((c, r)) {
                    Some(0u32)
                } else {
                    None
                },
            forall|e: State| #[trigger]
                frontier@.count(e) > 0 ==> e.cost == 0 && s.in_bounds((e.x as int, e.y as int)) && e.y
                    < y && s.is_source((e.x as int, e.y as int)),
            forall|c: int, r: int|
                0 <= c < width && 0 <= r < y && s.is_source((c, r)) ==> frontier@.count(
                    State { cost: 0, x: c as u32, y: r as u32 },
                ) > 0,
        decreases height - y,
    {
        let mut x: u32 = 0;
        while x < width
            invariant
                x <= width,
                y < height,
                s == (Search { terrain: terrain@, width: width as int, height: height as int, rules }),
                s.wf(),
                rectangular(field@, width as int, height as int),
                frontier.wf(),
                forall|c: int, r: int|
                    0 <= c < width && 0 <= r < height ==> (#[trigger] field.deep_view()[r][c]) == if (r
                        < y || (r == y && c < x)) && s.is_source((c, r)) {
                        Some(0u32)
                    } else {
                        None
                    },
                forall|e: State| #[trigger]
                    frontier@.count(e) > 0 ==> e.cost == 0 && s.in_bounds((e.x as int, e.y as int)) && (
                    e.y < y || (e.y == y && e.x < x)) && s.is_source((e.x as int, e.y as int)),
                forall|c: int, r: int|
                    0 <= c < width && 0 <= r < height && (r < y || (r == y && c < x)) && s.is_source(
                        (c, r),
                    ) ==> frontier@.count(State { cost: 0, x: c as u32, y: r as u32 }) > 0,
            decreases width - x,
        {
            if is_target(rules.target, terrain[y as usize][x as usize]) {
                let ghost before = field.deep_view();
                let ghost waiting = frontier@;
                field[y as usize][x as usize] = Some(0);
                frontier.push(State { cost: 0, x, y });
                proof {
                    broadcast use vstd::multiset::group_multiset_axioms;

                    assert(field.deep_view() =~~= set_cell(before, x as int, y as int, Some(0u32)));
                    assert forall|e: State| #[trigger] frontier@.count(e) > 0 implies e.cost == 0
                        && s.in_bounds((e.x as int, e.y as int)) && (e.y < y || (e.y == y && e.x < x
                        + 1)) && s.is_source((e.x as int, e.y as int)) by {
                        if e != (State { cost: 0, x, y }) {
                            assert(waiting.count(e) > 0);
                        }
                    }
                    assert forall|c: int, r: int|
                        0 <= c < width && 0 <= r < height && (r < y || (r == y && c < x + 1))
                            && s.is_source((c, r)) implies frontier@.count(
                        State { cost: 0, x: c as u32, y: r as u32 },
                    ) > 0 by {
                        if !(c == x && r == y) {
                            assert(waiting.count(State { cost: 0, x: c as u32, y: r as u32 }) > 0);
                        }
                    }
                }
            }
            x = x + 1;
        }
        y = y + 1;
    }
    proof {
        reveal(searching);
        let f = field.deep_view();
        assert(fits(s, f));
        assert forall|c: int, r: int|
            0 <= c < s.width && 0 <= r < s.height && (#[trigger] f[r][c]) is Some implies s.reaches(
            (c, r),
            f[r][c]->0 as int,
        ) by {
            let route = seq![(c, r)];
            assert(s.is_route(route) && route.last() == (c, r) && s.route_cost(route) == 0);
        }
        assert forall|e: State| #[trigger] frontier@.count(e) > 0 implies {
            &&& s.in_bounds((e.x as int, e.y as int))
            &&& f[e.y as int][e.x as int] is Some
            &&& f[e.y as int][e.x as int]->0 <= e.cost
            &&& s.reaches((e.x as int, e.y as int), e.cost as int)
        } by {
            assert(f[e.y as int][e.x as int] == Some(0u32));
        }
    }
    (field, frontier)
}

/// Tries the step from `(x, y)`, taken off the frontier at its distance
/// `cost`, in direction `k`: where the step lowers the distance of the cell it
/// leads to, the cell gets the lower distance and joins the frontier.
fn try_step(
    terrain: &Vec<Vec<Terrain>>,
    width: u32,
    height: u32,
    rules: Rules,
    field: &mut Vec<Vec<Option<u32>>>,
    frontier: &mut Frontier,
    x: u32,
    y: u32,
    cost: u32,
    k: usize,
)
    requires
        rectangular(terrain@, width as int, height as int),
        rules.weighted,
        k < direction_count(rules.diagonal),
        rectangular(old(field)@, width as int, height as int),
        old(frontier).wf(),
        expanding(
            Search { terrain: terrain@, width: width as int, height: height as int, rules },
            old(field).deep_view(),
            old(frontier)@,
            (x as int, y as int),
            cost,
            k as int,
        ),
        field_weight(old(field).deep_view()) >= 0,
    ensures
        rectangular(final(field)@, width as int, height as int),
        final(frontier).wf(),
        expanding(
            Search { terrain: terrain@, width: width as int, height: height as int, rules },
            final(field).deep_view(),
            final(frontier)@,
            (x as int, y as int),
            cost,
            k as int + 1,
        ),
        field_weight(final(field).deep_view()) >= 0,
        2 * field_weight(final(field).deep_view()) + final(frontier)@.len() <= 2 * field_weight(
            old(field).deep_view(),
        ) + old(frontier)@.len(),
{
    let ghost s = Search { terrain: terrain@, width: width as int, height: height as int, rules };
    let ghost c = (x as int, y as int);
    let ghost f = field.deep_view();
    let ghost w = frontier@;
    match neighbor(x, y, k, width, height) {
        Some((nx, ny)) => {
            let ghost t = (nx as int, ny as int);
            let base = entry_cost_of(&rules, terrain[ny as usize][nx as usize]);
            assert(base == s.entry_cost(s.terrain_at(t)));
            let step: u64 = if nx != x && ny != y {
                diagonal_step_cost(base)
            } else {
                base as u64
            };
            proof {
                lemma_diagonal_cost_bounds(base as int);
            }
            assert(step == s.step_cost(c, t));
            let next: u64 = cost as u64 + step;
            assert(f[t.1][t.0] == field@[t.1]@[t.0]);
            let lowers = next <= u32::MAX as u64 && match field[ny as usize][nx as usize] {
                Some(current) => next < current as u64,
                None => true,
            };
            if lowers {
                let lower = next as u32;
                proof {
                    lemma_lowering(s, f, w, c, cost, k as int, (nx, ny), lower);
                }
                field[ny as usize][nx as usize] = Some(lower);
                frontier.push(State { cost: lower, x: nx, y: ny });
                proof {
                    broadcast use vstd::multiset::group_multiset_axioms;

                    assert(field.deep_view() =~~= set_cell(f, t.0, t.1, Some(lower)));
                    assert(frontier@.len() == w.len() + 1);
                }
            } else {
                proof {
                    assert(edge_relaxed(s, f, c, cost as int, k as int));
                    lemma_step_tried(s, f, w, c, cost, k as int);
                }
            }
        },
        None => {
            proof {
                assert(edge_relaxed(s, f, c, cost as int, k as int));
                lemma_step_tried(s, f, w, c, cost, k as int);
            }
        },
    }
}

/// The weighted distance field of `terrain` under `rules`: a search from all
/// sources at once that always expands a state of least cost.
pub fn weighted_distances(terrain: &Vec<Vec<Terrain>>, width: u32, height: u32, rules: Rules) -> (field:
    Vec<Vec<Option<u32>>>)
    requires
        rectangular(terrain@, width as int, height as int),
        rules.weighted,
    ensures
        rectangular(field@, width as int, height as int),
        (Search {
            terrain: terrain@,
            width: width as int,
            height: height as int,
            rules,
        }).least_cost_field(field.deep_view()),
{
    let ghost s = Search { terrain: terrain@, width: width as int, height: height as int, rules };
    let n = neighbor_count(rules.diagonal);
    let (mut field, mut frontier) = seed(terrain, width, height, rules);
    let mut more = true;
    proof {
        lemma_field_nonnegative(field.deep_view());
    }
    while more
        invariant
            s == (Search { terrain: terrain@, width: width as int, height: height as int, rules }),
            rectangular(terrain@, width as int, height as int),
            rules.weighted,
            n == direction_count(rules.diagonal),
            rectangular(field@, width as int, height as int),
            frontier.wf(),
            searching(s, field.deep_view(), frontier@),
            !more ==> frontier@.len() == 0,
            field_weight(field.deep_view()) >= 0,
        decreases
                2 * field_weight(field.deep_view()) + frontier@.len() + (if more {
                    1int
                } else {
                    0int
                }),
    {
        let ghost waiting = frontier@;
        let ghost before = field.deep_view();
        match frontier.pop() {
            None => {
                more = false;
            },
            Some(state) => {
                proof {
                    broadcast use vstd::multiset::group_multiset_axioms;

                    lemma_taken(s, before, waiting, state);
                    assert(frontier@.len() == waiting.len() - 1);
                }
                let cost = state.cost;
                let x = state.x;
                let y = state.y;
                assert(before[y as int][x as int] == field@[y as int]@[x as int]);
                let stale = match field[y as usize][x as usize] {
                    Some(current) => cost > current,
                    None => false,
                };
                if !stale {
                    let mut k: usize = 0;
                    while k < n
                        invariant
                            k <= n,
                            n == direction_count(rules.diagonal),
                            s == (Search {
                                terrain: terrain@,
                                width: width as int,
                                height: height as int,
                                rules,
                            }),
                            rectangular(terrain@, width as int, height as int),
                            rules.weighted,
                            rectangular(field@, width as int, height as int),
                            frontier.wf(),
                            expanding(
                                s,
                                field.deep_view(),
                                frontier@,
                                (x as int, y as int),
                                cost,
                                k as int,
                            ),
                            field_weight(field.deep_view()) >= 0,
                            2 * field_weight(field.deep_view()) + frontier@.len() <= 2 * field_weight(
                                before,
                            ) + waiting.len() - 1,
                        decreases n - k,
                    {
                        try_step(terrain, width, height, rules, &mut field, &mut frontier, x, y, cost, k);
                        k = k + 1;
                    }
                    proof {
                        lemma_expanded(s, field.deep_view(), frontier@, (x as int, y as int), cost);
                    }
                }
            },
        }
    }
    proof {
        broadcast use vstd::multiset::group_multiset_axioms;

        assert(frontier@ =~= Multiset::<State>::empty());
        lemma_search_complete(s, field.deep_view());
    }
    field
}

/// Every source has distance zero.
pub proof fn lemma_sources_at_zero(s: Search, field: Field, c: (int, int))
    requires
        s.least_cost_field(field),
        s.in_bounds(c),
        s.is_source(c),
    ensures
        field[c.1][c.0] == Some(0u32),
{
    let route = seq![c];
    assert(s.is_route(route) && route.last() == c && s.route_cost(route) == 0);
    assert(field[c.1][c.0] is Some);
}

/// Along a cheapest route every cell holds the cost of the route up to it:
/// where `route` is a cheapest route to its last cell, its first `i + 1`
/// cells are a cheapest route to the cell at index `i`.
pub proof fn lemma_cheapest_route_starts_cheapest(
    s: Search,
    field: Field,
    route: Seq<(int, int)>,
    i: int,
)
    requires
        s.wf(),
        s.least_cost_field(field),
        s.is_route(route),
        field[route.last().1][route.last().0] is Some,
        field[route.last().1][route.last().0]->0 == s.route_cost(route),
        0 <= i < route.len(),
    ensures
        s.is_route(route.take(i + 1)),
        s.in_bounds(route[i]),
        field[route[i].1][route[i].0] is Some,
        field[route[i].1][route[i].0]->0 == s.route_cost(route.take(i + 1)),
    decreases route.len() - i,
{
    if i == route.len() - 1 {
        assert(route.take(i + 1) =~= route);
        lemma_route_ends_on_grid(s, route);
    } else {
        lemma_cheapest_route_starts_cheapest(s, field, route, i + 1);
        let longer = route.take(i + 2);
        let shorter = route.take(i + 1);
        assert(longer.drop_last() =~= shorter);
        lemma_shorter_route(s, longer);
        lemma_route_ends_on_grid(s, shorter);
        let c = route[i];
        let t = route[i + 1];
        assert(shorter.last() == c && longer.last() == t);
        assert(s.route_cost(shorter) <= u32::MAX);
        assert(field[c.1][c.0] is Some);
        let d = field[c.1][c.0]->0;
        assert(s.is_distance(c, d as int));
        if d < s.route_cost(shorter) {
            let cheaper = choose|cheaper: Seq<(int, int)>|
                #[trigger] s.is_route(cheaper) && cheaper.last() == c && s.route_cost(cheaper) == d;
            lemma_longer_route(s, cheaper, t);
            assert(s.is_distance(t, field[t.1][t.0]->0 as int));
            assert(s.is_route(cheaper.push(t)) && cheaper.push(t).last() == t);
        }
    }
}

/// A route ends on the grid.
pub proof fn lemma_route_ends_on_grid(s: Search, route: Seq<(int, int)>)
    requires
        s.is_route(route),
    ensures
        s.in_bounds(route.last()),
{
    if route.len() >= 2 {
        assert(s.is_step(route[route.len() - 2], route[route.len() - 2 + 1]));
    }
}

/// The first cells of a route are a route.
pub proof fn lemma_route_start(s: Search, route: Seq<(int, int)>, n: int)
    requires
        s.is_route(route),
        1 <= n <= route.len(),
    ensures
        s.is_route(route.take(n)),
{
    let start = route.take(n);
    assert forall|m: int| 0 <= m < start.len() - 1 implies s.is_step(#[trigger] start[m], start[m + 1]) by {
        assert(s.is_step(route[m], route[m + 1]));
    }
}

/// No route costs less than nothing.
pub proof fn lemma_route_cost_nonnegative(s: Search, route: Seq<(int, int)>)
    requires
        s.is_route(route),
    ensures
        s.route_cost(route) >= 0,
    decreases route.len(),
{
    if route.len() >= 2 {
        lemma_shorter_route(s, route);
        lemma_route_cost_nonnegative(s, route.drop_last());
    }
}

/// The cost of a route does not fall as the route goes on.
pub proof fn lemma_cost_rises_along_route(s: Search, route: Seq<(int, int)>, i: int, j: int)
    requires
        s.is_route(route),
        0 <= i <= j < route.len(),
    ensures
        0 <= s.route_cost(route.take(i + 1)) <= s.route_cost(route.take(j + 1)),
    decreases j - i,
{
    lemma_route_start(s, route, i + 1);
    lemma_route_cost_nonnegative(s, route.take(i + 1));
    if i < j {
        let longer = route.take(j + 1);
        lemma_route_start(s, route, j + 1);
        assert(longer.drop_last() =~= route.take(j));
        lemma_shorter_route(s, longer);
        lemma_cost_rises_along_route(s, route, i, j - 1);
    }
}

/// Distances do not fall along a cheapest route, from the source outward:
/// where `route` is a cheapest route to its last cell and the cell at index
/// `i` comes no later than the cell at index `j`, both cells have a distance,
/// and the first has one no larger than the second.
pub proof fn lemma_distances_rise_along_cheapest_route(
    s: Search,
    field: Field,
    route: Seq<(int, int)>,
    i: int,
    j: int,
)
    requires
        s.wf(),
        s.least_cost_field(field),
        s.is_route(route),
        field[route.last().1][route.last().0] is Some,
        field[route.last().1][route.last().0]->0 == s.route_cost(route),
        0 <= i <= j < route.len(),
    ensures
        field[route[i].1][route[i].0] is Some,
        field[route[j].1][route[j].0] is Some,
        0 <= field[route[i].1][route[i].0]->0 <= field[route[j].1][route[j].0]->0,
{
    lemma_cheapest_route_starts_cheapest(s, field, route, i);
    lemma_cheapest_route_starts_cheapest(s, field, route, j);
    lemma_cost_rises_along_route(s, route, i, j);
}

impl Search {
    /// The distance of `c` is that of its neighbour `p` and the cost of the
    /// step from `p` onto `c` together.
    pub open spec fn adds_up(self, field: Field, p: (int, int), c: (int, int)) -> bool {
        &&& self.in_bounds(p)
        &&& self.is_step(p, c)
        &&& field[p.1][p.0] is Some
        &&& field[c.1][c.0] is Some
        &&& field[p.1][p.0]->0 + self.step_cost(p, c) == field[c.1][c.0]->0
    }

    /// The field can be followed back: every cell with a distance that is no
    /// source has a neighbour whose distance, no larger than its own, and the
    /// cost of the step from it add up to its own.
    pub open spec fn stepwise(self, field: Field) -> bool {
        forall|c: (int, int)|
            #[trigger] self.in_bounds(c) && field[c.1][c.0] is Some && !self.is_source(c)
                ==> exists|p: (int, int)|
                #[trigger] self.adds_up(field, p, c) && field[p.1][p.0]->0 <= field[c.1][c.0]->0
    }
}

/// Along a route that the field follows, the distance of each cell and the
/// cost of the step onto the next add up to the distance of the next; and the
/// route begins on a source at distance zero.
pub proof fn lemma_route_adds_up(s: Search, field: Field, route: Seq<(int, int)>, i: int)
    requires
        s.is_route(route),
        s.traces(field, route),
        0 <= i < route.len() - 1,
    ensures
        s.adds_up(field, route[i], route[i + 1]),
        field[route[i].1][route[i].0]->0 <= field[route[i + 1].1][route[i + 1].0]->0,
        s.is_source(route[0]),
        field[route[0].1][route[0].0] == Some(0u32),
{
    let longer = route.take(i + 2);
    lemma_route_start(s, route, i + 2);
    lemma_route_start(s, route, i + 1);
    lemma_route_ends_on_grid(s, route.take(i + 1));
    assert(longer.drop_last() =~= route.take(i + 1));
    lemma_shorter_route(s, longer);
    assert(longer[longer.len() - 2] == route[i] && longer.last() == route[i + 1]);
    assert(route.take(i + 1).last() == route[i]);
    assert(s.is_step(route[i], route[i + 1]));
    assert(s.route_cost(route.take(1)) == 0);
    lemma_step_cost_nonnegative(s, route[i], route[i + 1]);
}

/// The least-cost field follows, to every cell with a distance, a cheapest
/// route.
pub proof fn lemma_least_cost_follows_a_route(s: Search, field: Field, c: (int, int))
    requires
        s.wf(),
        s.least_cost_field(field),
        s.in_bounds(c),
        field[c.1][c.0] is Some,
    ensures
        exists|route: Seq<(int, int)>|
            #[trigger] s.is_route(route) && route.last() == c && s.traces(field, route),
{
    let d = field[c.1][c.0]->0;
    assert(s.is_distance(c, d as int));
    let route = choose|route: Seq<(int, int)>|
        #[trigger] s.is_route(route) && route.last() == c && s.route_cost(route) == d;
    assert forall|i: int| 0 <= i < route.len() implies field[(#[trigger] route[i]).1][route[i].0]
        == Some(s.route_cost(route.take(i + 1)) as u32) && 0 <= s.route_cost(route.take(i + 1))
        <= u32::MAX by {
        lemma_cheapest_route_starts_cheapest(s, field, route, i);
    }
    assert(s.is_route(route) && route.last() == c && s.traces(field, route));
}

/// In the least-cost field every cell with a distance that is no source has
/// a neighbour whose distance, no larger than its own, and the cost of the
/// step from it add up to its own.
pub proof fn lemma_least_cost_has_predecessor(s: Search, field: Field, c: (int, int))
    requires
        s.wf(),
        s.least_cost_field(field),
        s.in_bounds(c),
        field[c.1][c.0] is Some,
        !s.is_source(c),
    ensures
        exists|p: (int, int)|
            #[trigger] s.adds_up(field, p, c) && field[p.1][p.0]->0 <= field[c.1][c.0]->0,
{
    lemma_least_cost_follows_a_route(s, field, c);
    let route = choose|route: Seq<(int, int)>|
        #[trigger] s.is_route(route) && route.last() == c && s.traces(field, route);
    lemma_route_adds_up(s, field, route, route.len() - 2);
    assert(s.adds_up(field, route[route.len() - 2], c));
}

/// The least-cost field can be followed back from every cell with a
/// distance.
pub proof fn lemma_least_cost_is_stepwise(s: Search, field: Field)
    requires
        s.wf(),
        s.least_cost_field(field),
    ensures
        s.stepwise(field),
{
    assert forall|c: (int, int)|
        #[trigger] s.in_bounds(c) && field[c.1][c.0] is Some && !s.is_source(c) implies exists|
        p: (int, int),
    |
        #[trigger] s.adds_up(field, p, c) && field[p.1][p.0]->0 <= field[c.1][c.0]->0 by {
        lemma_least_cost_has_predecessor(s, field, c);
    }
}

} // verus!
