//! When a cell without a distance is a cell that no route leads to.

use crate::game::cost_field::{
    lemma_route_ends_on_grid, lemma_route_start, lemma_shorter_route, Field, Search,
};
use vstd::prelude::*;
use vstd::set_lib::{lemma_int_range, lemma_len_subset, set_int_range};

verus! {

/// Wherever a route leads, a route without a repeated cell leads there too.
pub proof fn lemma_direct_route(s: Search, route: Seq<(int, int)>)
    requires
        s.is_route(route),
    ensures
        exists|direct: Seq<(int, int)>|
            #[trigger] s.is_route(direct) && direct.last() == route.last() && direct.no_duplicates(),
    decreases route.len(),
{
    if route.no_duplicates() {
        assert(s.is_route(route) && route.last() == route.last() && route.no_duplicates());
    } else {
        let (i, j) = choose|i: int, j: int|
            0 <= i < route.len() && 0 <= j < route.len() && i != j && route[i] == route[j];
        let (a, b) = if i < j {
            (i, j)
        } else {
            (j, i)
        };
        let shorter = route.take(a + 1) + route.skip(b + 1);
        assert(shorter.len() == route.len() - (b - a));
        assert forall|m: int| 0 <= m < shorter.len() - 1 implies s.is_step(
            #[trigger] shorter[m],
            shorter[m + 1],
        ) by {
            if m < a {
                assert(s.is_step(route[m], route[m + 1]));
            } else if m == a {
                assert(shorter[m] == route[b]);
                assert(shorter[m + 1] == route[b + 1]);
                assert(s.is_step(route[b], route[b + 1]));
            } else {
                assert(shorter[m] == route[m + (b - a)]);
                assert(shorter[m + 1] == route[m + (b - a) + 1]);
                assert(s.is_step(route[m + (b - a)], route[m + (b - a) + 1]));
            }
        }
        assert(shorter[0] == route[0]);
        assert(shorter.last() == route.last()) by {
            if b == route.len() - 1 {
                assert(shorter.last() == route[a]);
            } else {
                assert(shorter.last() == route[shorter.len() - 1 + (b - a)]);
            }
        }
        lemma_direct_route(s, shorter);
    }
}

/// A route whose steps cost no more than `bound` each costs no more than
/// `bound` times the number of its steps.
pub proof fn lemma_route_cost_bound(s: Search, route: Seq<(int, int)>, bound: int)
    requires
        s.is_route(route),
        forall|from: (int, int), to: (int, int)|
            s.in_bounds(to) ==> #[trigger] s.step_cost(from, to) <= bound,
    ensures
        s.route_cost(route) <= (route.len() - 1) * bound,
    decreases route.len(),
{
    if route.len() >= 2 {
        lemma_shorter_route(s, route);
        lemma_route_cost_bound(s, route.drop_last(), bound);
        lemma_route_ends_on_grid(s, route);
        assert(s.step_cost(route[route.len() - 2], route.last()) <= bound);
        assert((route.len() - 2) * bound + bound == (route.len() - 1) * bound) by (nonlinear_arith);
    } else {
        assert((route.len() - 1) * bound == 0) by (nonlinear_arith)
            requires
                route.len() == 1,
        ;
    }
}

/// The place of cell `c` when the cells of a grid `width` wide are counted
/// row by row.
spec fn place(c: (int, int), width: int) -> int {
    c.1 * width + c.0
}

/// A route without a repeated cell has no more cells than the grid.
pub proof fn lemma_direct_route_length(s: Search, route: Seq<(int, int)>)
    requires
        s.wf(),
        s.is_route(route),
        route.no_duplicates(),
    ensures
        route.len() <= s.width * s.height,
{
    let width = s.width;
    let height = s.height;
    let places = Seq::new(route.len(), |m: int| place(route[m], width));
    assert forall|m: int| 0 <= m < route.len() implies s.in_bounds(#[trigger] route[m]) by {
        lemma_route_start(s, route, m + 1);
        lemma_route_ends_on_grid(s, route.take(m + 1));
    }
    assert forall|m: int| 0 <= m < places.len() implies 0 <= #[trigger] places[m] < width * height by {
        let c = route[m];
        assert(s.in_bounds(c));
        assert(0 <= c.1 * width + c.0 < width * height) by (nonlinear_arith)
            requires
                0 <= c.0 < width,
                0 <= c.1 < height,
        ;
    }
    assert forall|m: int, n: int| 0 <= m < places.len() && 0 <= n < places.len() && m != n implies places[m]
        != places[n] by {
        let c = route[m];
        let d = route[n];
        assert(s.in_bounds(c) && s.in_bounds(d));
        if places[m] == places[n] {
            assert(c.1 == d.1 && c.0 == d.0) by (nonlinear_arith)
                requires
                    c.1 * width + c.0 == d.1 * width + d.0,
                    0 <= c.0 < width,
                    0 <= d.0 < width,
                    0 <= c.1,
                    0 <= d.1,
            ;
            assert(route[m] == route[n]);
        }
    }
    assert(width * height >= 0) by (nonlinear_arith)
        requires
            width >= 0,
            height >= 0,
    ;
    places.unique_seq_to_set();
    lemma_int_range(0, width * height);
    assert(places.to_set().subset_of(set_int_range(0, width * height))) by {
        assert forall|v: int| places.to_set().contains(v) implies set_int_range(
            0,
            width * height,
        ).contains(v) by {
            let m = choose|m: int| 0 <= m < places.len() && places[m] == v;
            assert(0 <= places[m] < width * height);
        }
    }
    lemma_len_subset(places.to_set(), set_int_range(0, width * height));
}

/// Where steps are cheap enough for every cell of the grid to have a distance
/// that fits in 32 bits, a cell without a distance is a cell that no route
/// leads to.
///
/// Steps are cheap enough where the cost of a step, at most `bound`, times the
/// number of cells is no more than `u32::MAX`.
pub proof fn lemma_absent_means_unreachable(
    s: Search,
    field: Field,
    c: (int, int),
    bound: int,
    route: Seq<(int, int)>,
)
    requires
        s.wf(),
        s.least_cost_field(field),
        s.in_bounds(c),
        field[c.1][c.0] is None,
        bound >= 0,
        forall|from: (int, int), to: (int, int)|
            s.in_bounds(to) ==> #[trigger] s.step_cost(from, to) <= bound,
        s.width * s.height * bound <= u32::MAX,
        s.is_route(route),
    ensures
        route.last() != c,
{
    if route.last() == c {
        lemma_direct_route(s, route);
        let direct = choose|direct: Seq<(int, int)>|
            #[trigger] s.is_route(direct) && direct.last() == route.last() && direct.no_duplicates();
        lemma_direct_route_length(s, direct);
        lemma_route_cost_bound(s, direct, bound);
        assert((direct.len() - 1) * bound <= s.width * s.height * bound) by (nonlinear_arith)
            requires
                direct.len() <= s.width * s.height,
                bound >= 0,
        ;
        assert(s.route_cost(direct) > u32::MAX);
    }
}

} // verus!
