//! The coherence of the world: who is listed where, and who is admitted to
//! which shelter. The lemmas show that moves and deaths keep it.

use crate::game::agent::{Agent, AgentType};
use crate::game::game::{
    apply_move, listed_in, moved_agent, refreshed, set_cell, Move, World,
};
use crate::game::grid::Terrain;
use vstd::prelude::*;

verus! {

/// Agent `a` stands on a shelter cell.
pub open spec fn on_shelter(terrain: Seq<Vec<Terrain>>, a: Agent) -> bool {
    terrain[a.y as int]@[a.x as int] is Shelter
}

/// Some agent with identifier `id` stands on `(x, y)`.
pub open spec fn stands_on(agents: Seq<Agent>, id: usize, x: int, y: int) -> bool {
    exists|i: int|
        0 <= i < agents.len() && (#[trigger] agents[i]).id == id && agents[i].x == x
            && agents[i].y == y
}

/// `id` is among the agents admitted to `shelter_id`.
pub open spec fn registered(
    registry: Map<u32, Seq<(usize, AgentType)>>,
    shelter_id: u32,
    id: usize,
) -> bool {
    exists|k: int|
        0 <= k < listed_in(registry, shelter_id).len() && (#[trigger] listed_in(
            registry,
            shelter_id,
        )[k]).0 == id
}

/// The world has the shape of a `width` by `height` grid and every agent
/// stands on it.
pub open spec fn shaped(w: World, terrain: Seq<Vec<Terrain>>, width: int, height: int) -> bool {
    &&& terrain.len() == height
    &&& forall|y: int| 0 <= y < height ==> (#[trigger] terrain[y])@.len() == width
    &&& w.occupancy.len() == height
    &&& forall|y: int| 0 <= y < height ==> (#[trigger] w.occupancy[y]).len() == width
    &&& forall|i: int|
        0 <= i < w.agents.len() ==> 0 <= (#[trigger] w.agents[i]).x < width && 0 <= w.agents[i].y
            < height
}

/// The bookkeeping of the world agrees with the agents:
/// - no two agents share an identifier;
/// - whoever a cell lists stands on it, and a shelter cell lists nobody;
/// - no cell lists an identifier twice;
/// - an agent that stands on a cell other than a shelter is listed there;
/// - an agent that stands on a shelter cell is admitted to that shelter;
/// - no identifier is admitted twice, to one shelter or to two;
/// - an agent that is admitted to a shelter stands on a shelter cell.
pub open spec fn coherent(w: World, terrain: Seq<Vec<Terrain>>, width: int, height: int) -> bool {
    &&& forall|i: int, j: int|
        0 <= i < j < w.agents.len() ==> (#[trigger] w.agents[i]).id != (#[trigger] w.agents[j]).id
    &&& forall|x: int, y: int, k: int|
        0 <= x < width && 0 <= y < height && 0 <= k < w.occupancy[y][x].len() ==> stands_on(
            w.agents,
            #[trigger] w.occupancy[y][x][k],
            x,
            y,
        ) && !(terrain[y]@[x] is Shelter)
    &&& forall|x: int, y: int|
        0 <= x < width && 0 <= y < height ==> (#[trigger] w.occupancy[y][x]).no_duplicates()
    &&& forall|i: int|
        0 <= i < w.agents.len() && !on_shelter(terrain, #[trigger] w.agents[i])
            ==> w.occupancy[w.agents[i].y as int][w.agents[i].x as int].contains(w.agents[i].id)
    &&& forall|i: int|
        0 <= i < w.agents.len() && on_shelter(terrain, #[trigger] w.agents[i]) ==> registered(
            w.registry,
            terrain[w.agents[i].y as int]@[w.agents[i].x as int]->Shelter_0,
            w.agents[i].id,
        )
    &&& forall|s1: u32, k1: int, s2: u32, k2: int|
        0 <= k1 < listed_in(w.registry, s1).len() && 0 <= k2 < listed_in(w.registry, s2).len() && (s1
            != s2 || k1 != k2) ==> (#[trigger] listed_in(w.registry, s1)[k1]).0 != (
        #[trigger] listed_in(w.registry, s2)[k2]).0
    &&& forall|shelter_id: u32, i: int|
        0 <= i < w.agents.len() && #[trigger] registered(w.registry, shelter_id, w.agents[i].id)
            ==> on_shelter(terrain, w.agents[i])
}

/// The world without the agent at index `i`: the agent is gone and its cell
/// no longer lists it. The shelter registry keeps what it has.
pub open spec fn without_agent(w: World, i: int) -> World {
    let a = w.agents[i];
    World {
        agents: w.agents.remove(i),
        occupancy: set_cell(
            w.occupancy,
            a.x as int,
            a.y as int,
            w.occupancy[a.y as int][a.x as int].remove_value(a.id),
        ),
        registry: w.registry,
    }
}

/// Taking a value out of a list without repetitions leaves a list without
/// repetitions that lacks the value and keeps every other entry.
pub proof fn lemma_remove_value(s: Seq<usize>, v: usize)
    requires
        s.no_duplicates(),
    ensures
        s.remove_value(v).no_duplicates(),
        !s.remove_value(v).contains(v),
        forall|e: usize| e != v ==> (s.remove_value(v).contains(e) <==> s.contains(e)),
        forall|k: int| 0 <= k < s.remove_value(v).len() ==> s.contains(#[trigger] s.remove_value(v)[k]),
{
    s.index_of_first_ensures(v);
    let r = s.remove_value(v);
    match s.index_of_first(v) {
        Some(i) => {
            assert(r == s.remove(i));
            assert forall|k: int| 0 <= k < r.len() implies s.contains(#[trigger] r[k]) && r[k]
                != v by {
                if k < i {
                    assert(r[k] == s[k]);
                } else {
                    assert(r[k] == s[k + 1]);
                }
            }
            assert forall|e: usize| e != v && s.contains(e) implies r.contains(e) by {
                let k = choose|k: int| 0 <= k < s.len() && s[k] == e;
                if k < i {
                    assert(r[k] == e);
                } else {
                    assert(r[k - 1] == e);
                }
            }
            assert forall|a: int, b: int| 0 <= a < r.len() && 0 <= b < r.len() && a != b implies r[a]
                != r[b] by {
                let a2 = if a < i { a } else { a + 1 };
                let b2 = if b < i { b } else { b + 1 };
                assert(r[a] == s[a2] && r[b] == s[b2]);
            }
        },
        None => {},
    }
}

/// Committing the move of an agent that stands on no shelter keeps the world
/// coherent.
pub proof fn lemma_move_keeps_coherence(
    w: World,
    terrain: Seq<Vec<Terrain>>,
    width: int,
    height: int,
    mv: Move,
)
    requires
        shaped(w, terrain, width, height),
        coherent(w, terrain, width, height),
        mv.agent < w.agents.len(),
        0 <= mv.x < width,
        0 <= mv.y < height,
        !on_shelter(terrain, w.agents[mv.agent as int]),
    ensures
        shaped(apply_move(w, terrain, mv), terrain, width, height),
        coherent(apply_move(w, terrain, mv), terrain, width, height),
{
    let a = w.agents[mv.agent as int];
    let dest = terrain[mv.y as int]@[mv.x as int];
    let w2 = apply_move(w, terrain, mv);
    let px = a.x as int;
    let py = a.y as int;
    let tx = mv.x as int;
    let ty = mv.y as int;
    let vacated = set_cell(w.occupancy, px, py, w.occupancy[py][px].remove_value(a.id));
    lemma_remove_value(w.occupancy[py][px], a.id);
    assert(w2.agents[mv.agent as int] == moved_agent(a, mv, dest));
    assert(w2.agents[mv.agent as int].id == a.id);
    assert(shaped(w2, terrain, width, height));

    // The identifier of the mover is listed nowhere in `vacated`.
    assert forall|x: int, y: int| 0 <= x < width && 0 <= y < height implies !(
    #[trigger] vacated[y][x]).contains(a.id) by {
        if vacated[y][x].contains(a.id) {
            if x == px && y == py {
            } else {
                let k = choose|k: int| 0 <= k < w.occupancy[y][x].len() && w.occupancy[y][x][k] == a.id;
                assert(stands_on(w.agents, w.occupancy[y][x][k], x, y));
                let j = choose|j: int|
                    0 <= j < w.agents.len() && (#[trigger] w.agents[j]).id == a.id && w.agents[j].x == x
                        && w.agents[j].y == y;
                assert(j == mv.agent);
            }
        }
    }

    assert forall|x: int, y: int, k: int|
        0 <= x < width && 0 <= y < height && 0 <= k < w2.occupancy[y][x].len() implies stands_on(
        w2.agents,
        #[trigger] w2.occupancy[y][x][k],
        x,
        y,
    ) && !(terrain[y]@[x] is Shelter) by {
        let id = w2.occupancy[y][x][k];
        if !(dest is Shelter) && x == tx && y == ty && k == vacated[y][x].len() {
            assert(id == a.id);
            assert(w2.agents[mv.agent as int].x == x && w2.agents[mv.agent as int].y == y);
        } else {
            assert(vacated[y][x][k] == id);
            assert(vacated[y][x].contains(id));
            assert(id != a.id);
            assert(w.occupancy[y][x].contains(id));
            let k0 = choose|k0: int| 0 <= k0 < w.occupancy[y][x].len() && w.occupancy[y][x][k0] == id;
            assert(stands_on(w.agents, w.occupancy[y][x][k0], x, y));
            let j = choose|j: int|
                0 <= j < w.agents.len() && (#[trigger] w.agents[j]).id == id && w.agents[j].x == x
                    && w.agents[j].y == y;
            assert(j != mv.agent);
            assert(w2.agents[j] == w.agents[j]);
        }
    }

    assert forall|x: int, y: int| 0 <= x < width && 0 <= y < height implies (
    #[trigger] w2.occupancy[y][x]).no_duplicates() by {
        assert(vacated[y][x].no_duplicates());
        assert(!vacated[y][x].contains(a.id));
        if !(dest is Shelter) && x == tx && y == ty {
            let list = vacated[y][x];
            assert(w2.occupancy[y][x] == list.push(a.id));
            assert forall|p: int, q: int|
                0 <= p < list.len() + 1 && 0 <= q < list.len() + 1 && p != q implies list.push(a.id)[p]
                != list.push(a.id)[q] by {
                if p < list.len() {
                    assert(list.contains(list[p]));
                }
                if q < list.len() {
                    assert(list.contains(list[q]));
                }
            }
        }
    }

    assert forall|i: int|
        0 <= i < w2.agents.len() && !on_shelter(terrain, #[trigger] w2.agents[i])
        implies w2.occupancy[w2.agents[i].y as int][w2.agents[i].x as int].contains(
        w2.agents[i].id,
    ) by {
        let b = w2.agents[i];
        let x = b.x as int;
        let y = b.y as int;
        if i == mv.agent {
            assert(w2.occupancy[y][x] == vacated[y][x].push(a.id));
            assert(w2.occupancy[y][x][vacated[y][x].len() as int] == a.id);
        } else {
            assert(b == w.agents[i]);
            assert(b.id != a.id);
            assert(w.occupancy[y][x].contains(b.id));
            assert(vacated[y][x].contains(b.id));
            let k = choose|k: int| 0 <= k < vacated[y][x].len() && vacated[y][x][k] == b.id;
            assert(w2.occupancy[y][x][k] == b.id);
        }
    }

    // The mover was admitted nowhere.
    assert forall|s: u32| !registered(w.registry, s, a.id) by {
        if registered(w.registry, s, a.id) {
            assert(on_shelter(terrain, w.agents[mv.agent as int]));
        }
    }

    match dest {
        Terrain::Shelter(sid) => {
            let old_list = listed_in(w.registry, sid);
            let new_list = old_list.push((a.id, a.agent_type));
            assert(listed_in(w2.registry, sid) == new_list);
            assert forall|s: u32| s != sid implies listed_in(w2.registry, s) == listed_in(
                w.registry,
                s,
            ) by {}
            assert forall|s: u32, id: usize| registered(w.registry, s, id) implies registered(
                w2.registry,
                s,
                id,
            ) by {
                let k = choose|k: int|
                    0 <= k < listed_in(w.registry, s).len() && (#[trigger] listed_in(w.registry, s)[k]).0
                        == id;
                assert(listed_in(w2.registry, s)[k].0 == id);
            }
            assert(new_list[old_list.len() as int].0 == a.id);
            assert(registered(w2.registry, sid, a.id));
            assert forall|s: u32, id: usize|
                registered(w2.registry, s, id) && id != a.id implies registered(w.registry, s, id) by {
                let k = choose|k: int|
                    0 <= k < listed_in(w2.registry, s).len() && (#[trigger] listed_in(
                        w2.registry,
                        s,
                    )[k]).0 == id;
                assert(listed_in(w.registry, s)[k].0 == id);
            }
            assert forall|s1: u32, k1: int, s2: u32, k2: int|
                0 <= k1 < listed_in(w2.registry, s1).len() && 0 <= k2 < listed_in(
                    w2.registry,
                    s2,
                ).len() && (s1 != s2 || k1 != k2) implies (#[trigger] listed_in(w2.registry, s1)[k1]).0
                != (#[trigger] listed_in(w2.registry, s2)[k2]).0 by {
                let fresh1 = s1 == sid && k1 == old_list.len();
                let fresh2 = s2 == sid && k2 == old_list.len();
                if fresh1 && !fresh2 {
                    assert(listed_in(w.registry, s2)[k2] == listed_in(w2.registry, s2)[k2]);
                    if listed_in(w.registry, s2)[k2].0 == a.id {
                        assert(registered(w.registry, s2, a.id));
                    }
                } else if fresh2 && !fresh1 {
                    assert(listed_in(w.registry, s1)[k1] == listed_in(w2.registry, s1)[k1]);
                    if listed_in(w.registry, s1)[k1].0 == a.id {
                        assert(registered(w.registry, s1, a.id));
                    }
                } else {
                    assert(listed_in(w.registry, s1)[k1] == listed_in(w2.registry, s1)[k1]);
                    assert(listed_in(w.registry, s2)[k2] == listed_in(w2.registry, s2)[k2]);
                }
            }
        },
        _ => {
            assert(w2.registry == w.registry);
        },
    }

    assert forall|i: int|
        0 <= i < w2.agents.len() && on_shelter(terrain, #[trigger] w2.agents[i]) implies registered(
        w2.registry,
        terrain[w2.agents[i].y as int]@[w2.agents[i].x as int]->Shelter_0,
        w2.agents[i].id,
    ) by {
        if i != mv.agent {
            assert(w2.agents[i] == w.agents[i]);
            assert(registered(
                w.registry,
                terrain[w.agents[i].y as int]@[w.agents[i].x as int]->Shelter_0,
                w.agents[i].id,
            ));
        }
    }

    assert forall|shelter_id: u32, i: int|
        0 <= i < w2.agents.len() && #[trigger] registered(
            w2.registry,
            shelter_id,
            w2.agents[i].id,
        ) implies on_shelter(terrain, w2.agents[i]) by {
        if i != mv.agent {
            assert(w2.agents[i] == w.agents[i]);
            assert(w.agents[i].id != a.id);
            assert(registered(w.registry, shelter_id, w.agents[i].id));
        } else {
            if !(dest is Shelter) {
                assert(registered(w.registry, shelter_id, a.id));
            }
        }
    }

    assert forall|i: int, j: int| 0 <= i < j < w2.agents.len() implies (#[trigger] w2.agents[i]).id
        != (#[trigger] w2.agents[j]).id by {
        assert(w2.agents[i].id == w.agents[i].id);
        assert(w2.agents[j].id == w.agents[j].id);
    }
}

/// The death of an agent keeps the world coherent.
pub proof fn lemma_death_keeps_coherence(
    w: World,
    terrain: Seq<Vec<Terrain>>,
    width: int,
    height: int,
    i: int,
)
    requires
        shaped(w, terrain, width, height),
        coherent(w, terrain, width, height),
        0 <= i < w.agents.len(),
    ensures
        shaped(without_agent(w, i), terrain, width, height),
        coherent(without_agent(w, i), terrain, width, height),
        forall|j: int|
            0 <= j < without_agent(w, i).agents.len() ==> (#[trigger] without_agent(
                w,
                i,
            ).agents[j]).id != w.agents[i].id,
{
    let a = w.agents[i];
    let w2 = without_agent(w, i);
    let px = a.x as int;
    let py = a.y as int;
    lemma_remove_value(w.occupancy[py][px], a.id);
    assert forall|j: int| 0 <= j < w2.agents.len() implies (#[trigger] w2.agents[j]) == w.agents[if j
        < i {
        j
    } else {
        j + 1
    }] by {}
    assert(shaped(w2, terrain, width, height));

    assert forall|x: int, y: int| 0 <= x < width && 0 <= y < height implies !(
    #[trigger] w2.occupancy[y][x]).contains(a.id) by {
        if w2.occupancy[y][x].contains(a.id) {
            if x == px && y == py {
            } else {
                let k = choose|k: int| 0 <= k < w.occupancy[y][x].len() && w.occupancy[y][x][k] == a.id;
                assert(stands_on(w.agents, w.occupancy[y][x][k], x, y));
                let j = choose|j: int|
                    0 <= j < w.agents.len() && (#[trigger] w.agents[j]).id == a.id && w.agents[j].x == x
                        && w.agents[j].y == y;
                assert(j == i);
            }
        }
    }

    assert forall|x: int, y: int, k: int|
        0 <= x < width && 0 <= y < height && 0 <= k < w2.occupancy[y][x].len() implies stands_on(
        w2.agents,
        #[trigger] w2.occupancy[y][x][k],
        x,
        y,
    ) && !(terrain[y]@[x] is Shelter) by {
        let id = w2.occupancy[y][x][k];
        assert(w2.occupancy[y][x].contains(id));
        assert(id != a.id);
        assert(w.occupancy[y][x].contains(id));
        let k0 = choose|k0: int| 0 <= k0 < w.occupancy[y][x].len() && w.occupancy[y][x][k0] == id;
        assert(stands_on(w.agents, w.occupancy[y][x][k0], x, y));
        let j = choose|j: int|
            0 <= j < w.agents.len() && (#[trigger] w.agents[j]).id == id && w.agents[j].x == x
                && w.agents[j].y == y;
        assert(j != i);
        let j2 = if j < i { j } else { j - 1 };
        assert(w2.agents[j2] == w.agents[j]);
    }

    assert forall|x: int, y: int| 0 <= x < width && 0 <= y < height implies (
    #[trigger] w2.occupancy[y][x]).no_duplicates() by {
        assert(w.occupancy[y][x].no_duplicates());
    }

    assert forall|j: int|
        0 <= j < w2.agents.len() && !on_shelter(terrain, #[trigger] w2.agents[j])
        implies w2.occupancy[w2.agents[j].y as int][w2.agents[j].x as int].contains(
        w2.agents[j].id,
    ) by {
        let j0 = if j < i { j } else { j + 1 };
        let b = w.agents[j0];
        assert(w2.agents[j] == b);
        assert(b.id != a.id);
        assert(w.occupancy[b.y as int][b.x as int].contains(b.id));
    }

    assert forall|j: int|
        0 <= j < w2.agents.len() && on_shelter(terrain, #[trigger] w2.agents[j]) implies registered(
        w2.registry,
        terrain[w2.agents[j].y as int]@[w2.agents[j].x as int]->Shelter_0,
        w2.agents[j].id,
    ) by {
        let j0 = if j < i { j } else { j + 1 };
        assert(w2.agents[j] == w.agents[j0]);
        assert(on_shelter(terrain, w.agents[j0]));
    }

    assert forall|shelter_id: u32, j: int|
        0 <= j < w2.agents.len() && #[trigger] registered(
            w2.registry,
            shelter_id,
            w2.agents[j].id,
        ) implies on_shelter(terrain, w2.agents[j]) by {
        let j0 = if j < i { j } else { j + 1 };
        assert(w2.agents[j] == w.agents[j0]);
        assert(registered(w.registry, shelter_id, w.agents[j0].id));
    }

    assert forall|p: int, q: int| 0 <= p < q < w2.agents.len() implies (#[trigger] w2.agents[p]).id
        != (#[trigger] w2.agents[q]).id by {
        let p0 = if p < i { p } else { p + 1 };
        let q0 = if q < i { q } else { q + 1 };
        assert(w2.agents[p] == w.agents[p0] && w2.agents[q] == w.agents[q0]);
    }

    assert forall|j: int| 0 <= j < w2.agents.len() implies (#[trigger] w2.agents[j]).id != a.id by {
        let j0 = if j < i { j } else { j + 1 };
        assert(w2.agents[j] == w.agents[j0]);
    }
}

/// In a coherent world no cell lists an identifier that no agent has: an
/// agent that is gone is listed nowhere.
pub proof fn lemma_absent_not_listed(
    w: World,
    terrain: Seq<Vec<Terrain>>,
    width: int,
    height: int,
    id: usize,
    x: int,
    y: int,
)
    requires
        coherent(w, terrain, width, height),
        forall|i: int| 0 <= i < w.agents.len() ==> (#[trigger] w.agents[i]).id != id,
        0 <= x < width,
        0 <= y < height,
    ensures
        !w.occupancy[y][x].contains(id),
{
    if w.occupancy[y][x].contains(id) {
        let k = choose|k: int| 0 <= k < w.occupancy[y][x].len() && w.occupancy[y][x][k] == id;
        assert(stands_on(w.agents, w.occupancy[y][x][k], x, y));
    }
}

/// Restoring the budgets keeps the world coherent: coherence does not read
/// them.
pub proof fn lemma_refresh_keeps_coherence(
    w: World,
    terrain: Seq<Vec<Terrain>>,
    width: int,
    height: int,
)
    requires
        coherent(w, terrain, width, height),
    ensures
        coherent(
            World { agents: w.agents.map_values(|a: Agent| refreshed(a)), ..w },
            terrain,
            width,
            height,
        ),
{
    let w2 = World { agents: w.agents.map_values(|a: Agent| refreshed(a)), ..w };
    assert forall|i: int| 0 <= i < w.agents.len() implies (#[trigger] w2.agents[i]) == refreshed(
        w.agents[i],
    ) by {}
    assert forall|x: int, y: int, k: int|
        0 <= x < width && 0 <= y < height && 0 <= k < w2.occupancy[y][x].len() implies stands_on(
        w2.agents,
        #[trigger] w2.occupancy[y][x][k],
        x,
        y,
    ) && !(terrain[y]@[x] is Shelter) by {
        assert(stands_on(w.agents, w.occupancy[y][x][k], x, y));
        let j = choose|j: int|
            0 <= j < w.agents.len() && (#[trigger] w.agents[j]).id == w.occupancy[y][x][k]
                && w.agents[j].x == x && w.agents[j].y == y;
        assert(w2.agents[j] == refreshed(w.agents[j]));
    }
    assert forall|i: int|
        0 <= i < w2.agents.len() && !on_shelter(terrain, #[trigger] w2.agents[i])
        implies w2.occupancy[w2.agents[i].y as int][w2.agents[i].x as int].contains(
        w2.agents[i].id,
    ) by {
        assert(w2.agents[i] == refreshed(w.agents[i]));
        assert(!on_shelter(terrain, w.agents[i]));
    }
    assert forall|i: int|
        0 <= i < w2.agents.len() && on_shelter(terrain, #[trigger] w2.agents[i]) implies registered(
        w2.registry,
        terrain[w2.agents[i].y as int]@[w2.agents[i].x as int]->Shelter_0,
        w2.agents[i].id,
    ) by {
        assert(w2.agents[i] == refreshed(w.agents[i]));
        assert(on_shelter(terrain, w.agents[i]));
    }
    assert forall|shelter_id: u32, i: int|
        0 <= i < w2.agents.len() && #[trigger] registered(
            w2.registry,
            shelter_id,
            w2.agents[i].id,
        ) implies on_shelter(terrain, w2.agents[i]) by {
        assert(w2.agents[i] == refreshed(w.agents[i]));
        assert(registered(w.registry, shelter_id, w.agents[i].id));
    }
    assert forall|i: int, j: int| 0 <= i < j < w2.agents.len() implies (#[trigger] w2.agents[i]).id
        != (#[trigger] w2.agents[j]).id by {
        assert(w2.agents[i] == refreshed(w.agents[i]));
        assert(w2.agents[j] == refreshed(w.agents[j]));
    }
}

/// In a coherent world no cell lists an agent that stands on a shelter cell.
pub proof fn lemma_sheltered_not_listed(
    w: World,
    terrain: Seq<Vec<Terrain>>,
    width: int,
    height: int,
    i: int,
    x: int,
    y: int,
)
    requires
        coherent(w, terrain, width, height),
        0 <= i < w.agents.len(),
        on_shelter(terrain, w.agents[i]),
        0 <= x < width,
        0 <= y < height,
    ensures
        !w.occupancy[y][x].contains(w.agents[i].id),
{
    let id = w.agents[i].id;
    if w.occupancy[y][x].contains(id) {
        let k = choose|k: int| 0 <= k < w.occupancy[y][x].len() && w.occupancy[y][x][k] == id;
        assert(stands_on(w.agents, w.occupancy[y][x][k], x, y));
        let j = choose|j: int|
            0 <= j < w.agents.len() && (#[trigger] w.agents[j]).id == id && w.agents[j].x == x
                && w.agents[j].y == y;
        assert(j == i);
    }
}

/// In a coherent world an agent that stands on a shelter cell is admitted
/// exactly once: to the shelter of its cell, and any two entries of the
/// register that name the agent are the same entry.
pub proof fn lemma_sheltered_admitted_once(
    w: World,
    terrain: Seq<Vec<Terrain>>,
    width: int,
    height: int,
    i: int,
    s1: u32,
    k1: int,
    s2: u32,
    k2: int,
)
    requires
        coherent(w, terrain, width, height),
        0 <= i < w.agents.len(),
        on_shelter(terrain, w.agents[i]),
        0 <= k1 < listed_in(w.registry, s1).len(),
        0 <= k2 < listed_in(w.registry, s2).len(),
        listed_in(w.registry, s1)[k1].0 == w.agents[i].id,
        listed_in(w.registry, s2)[k2].0 == w.agents[i].id,
    ensures
        registered(
            w.registry,
            terrain[w.agents[i].y as int]@[w.agents[i].x as int]->Shelter_0,
            w.agents[i].id,
        ),
        s1 == s2,
        k1 == k2,
{
}

/// The world after agent `a` has arrived: it joins the agents as the last
/// one, and is admitted to the shelter if its cell is one, and listed on its
/// cell if not.
pub open spec fn arrived(w: World, terrain: Seq<Vec<Terrain>>, a: Agent) -> World {
    let here = terrain[a.y as int]@[a.x as int];
    World {
        agents: w.agents.push(a),
        occupancy: if here is Shelter {
            w.occupancy
        } else {
            set_cell(
                w.occupancy,
                a.x as int,
                a.y as int,
                w.occupancy[a.y as int][a.x as int].push(a.id),
            )
        },
        registry: match here {
            Terrain::Shelter(shelter_id) => w.registry.insert(
                shelter_id,
                listed_in(w.registry, shelter_id).push((a.id, a.agent_type)),
            ),
            _ => w.registry,
        },
    }
}

/// Every identifier that the world knows, of an agent or of somebody admitted
/// to a shelter, is below `bound`.
pub open spec fn ids_below(w: World, bound: int) -> bool {
    &&& forall|i: int| 0 <= i < w.agents.len() ==> (#[trigger] w.agents[i]).id < bound
    &&& forall|shelter_id: u32, k: int|
        0 <= k < listed_in(w.registry, shelter_id).len() ==> (#[trigger] listed_in(
            w.registry,
            shelter_id,
        )[k]).0 < bound
}

/// The arrival of an agent with an identifier that the world does not know
/// keeps the world coherent.
pub proof fn lemma_arrival_keeps_coherence(
    w: World,
    terrain: Seq<Vec<Terrain>>,
    width: int,
    height: int,
    a: Agent,
)
    requires
        shaped(w, terrain, width, height),
        coherent(w, terrain, width, height),
        0 <= a.x < width,
        0 <= a.y < height,
        ids_below(w, a.id as int),
    ensures
        shaped(arrived(w, terrain, a), terrain, width, height),
        coherent(arrived(w, terrain, a), terrain, width, height),
        ids_below(arrived(w, terrain, a), a.id + 1),
{
    let w2 = arrived(w, terrain, a);
    let here = terrain[a.y as int]@[a.x as int];
    let ax = a.x as int;
    let ay = a.y as int;
    let n = w.agents.len() as int;
    assert forall|i: int| 0 <= i < n implies (#[trigger] w2.agents[i]) == w.agents[i] by {}
    assert(w2.agents[n] == a);
    assert(shaped(w2, terrain, width, height));

    // Nobody was listed or admitted under the new identifier.
    assert forall|x: int, y: int| 0 <= x < width && 0 <= y < height implies !(
    #[trigger] w.occupancy[y][x]).contains(a.id) by {
        if w.occupancy[y][x].contains(a.id) {
            let k = choose|k: int| 0 <= k < w.occupancy[y][x].len() && w.occupancy[y][x][k] == a.id;
            assert(stands_on(w.agents, w.occupancy[y][x][k], x, y));
        }
    }
    assert forall|s: u32| !registered(w.registry, s, a.id) by {
        if registered(w.registry, s, a.id) {
            let k = choose|k: int|
                0 <= k < listed_in(w.registry, s).len() && (#[trigger] listed_in(w.registry, s)[k]).0
                    == a.id;
            assert(listed_in(w.registry, s)[k].0 < a.id);
        }
    }

    assert forall|x: int, y: int, k: int|
        0 <= x < width && 0 <= y < height && 0 <= k < w2.occupancy[y][x].len() implies stands_on(
        w2.agents,
        #[trigger] w2.occupancy[y][x][k],
        x,
        y,
    ) && !(terrain[y]@[x] is Shelter) by {
        let id = w2.occupancy[y][x][k];
        if !(here is Shelter) && x == ax && y == ay && k == w.occupancy[y][x].len() {
            assert(w2.agents[n].id == id && w2.agents[n].x == x && w2.agents[n].y == y);
        } else {
            assert(w.occupancy[y][x][k] == id);
            assert(stands_on(w.agents, w.occupancy[y][x][k], x, y));
            let j = choose|j: int|
                0 <= j < w.agents.len() && (#[trigger] w.agents[j]).id == id && w.agents[j].x == x
                    && w.agents[j].y == y;
            assert(w2.agents[j] == w.agents[j]);
        }
    }

    assert forall|x: int, y: int| 0 <= x < width && 0 <= y < height implies (
    #[trigger] w2.occupancy[y][x]).no_duplicates() by {
        assert(w.occupancy[y][x].no_duplicates());
        if !(here is Shelter) && x == ax && y == ay {
            let list = w.occupancy[y][x];
            assert(!list.contains(a.id));
            assert forall|p: int, q: int|
                0 <= p < list.len() + 1 && 0 <= q < list.len() + 1 && p != q implies list.push(a.id)[p]
                != list.push(a.id)[q] by {
                if p < list.len() {
                    assert(list.contains(list[p]));
                }
                if q < list.len() {
                    assert(list.contains(list[q]));
                }
            }
        }
    }

    assert forall|i: int|
        0 <= i < w2.agents.len() && !on_shelter(terrain, #[trigger] w2.agents[i])
        implies w2.occupancy[w2.agents[i].y as int][w2.agents[i].x as int].contains(
        w2.agents[i].id,
    ) by {
        let b = w2.agents[i];
        let x = b.x as int;
        let y = b.y as int;
        if i == n {
            assert(w2.occupancy[y][x][w.occupancy[y][x].len() as int] == a.id);
        } else {
            assert(b == w.agents[i]);
            assert(w.occupancy[y][x].contains(b.id));
            let k = choose|k: int| 0 <= k < w.occupancy[y][x].len() && w.occupancy[y][x][k] == b.id;
            assert(w2.occupancy[y][x][k] == b.id);
        }
    }

    match here {
        Terrain::Shelter(sid) => {
            let old_list = listed_in(w.registry, sid);
            let new_list = old_list.push((a.id, a.agent_type));
            assert(listed_in(w2.registry, sid) == new_list);
            assert forall|s: u32| s != sid implies listed_in(w2.registry, s) == listed_in(
                w.registry,
                s,
            ) by {}
            assert forall|s: u32, id: usize| registered(w.registry, s, id) implies registered(
                w2.registry,
                s,
                id,
            ) by {
                let k = choose|k: int|
                    0 <= k < listed_in(w.registry, s).len() && (#[trigger] listed_in(w.registry, s)[k]).0
                        == id;
                assert(listed_in(w2.registry, s)[k].0 == id);
            }
            assert(new_list[old_list.len() as int].0 == a.id);
            assert(registered(w2.registry, sid, a.id));
            assert forall|s: u32, id: usize|
                registered(w2.registry, s, id) && id != a.id implies registered(w.registry, s, id) by {
                let k = choose|k: int|
                    0 <= k < listed_in(w2.registry, s).len() && (#[trigger] listed_in(
                        w2.registry,
                        s,
                    )[k]).0 == id;
                assert(listed_in(w.registry, s)[k].0 == id);
            }
            assert forall|s1: u32, k1: int, s2: u32, k2: int|
                0 <= k1 < listed_in(w2.registry, s1).len() && 0 <= k2 < listed_in(
                    w2.registry,
                    s2,
                ).len() && (s1 != s2 || k1 != k2) implies (#[trigger] listed_in(w2.registry, s1)[k1]).0
                != (#[trigger] listed_in(w2.registry, s2)[k2]).0 by {
                let fresh1 = s1 == sid && k1 == old_list.len();
                let fresh2 = s2 == sid && k2 == old_list.len();
                if fresh1 && !fresh2 {
                    assert(listed_in(w.registry, s2)[k2] == listed_in(w2.registry, s2)[k2]);
                    assert(listed_in(w.registry, s2)[k2].0 < a.id);
                } else if fresh2 && !fresh1 {
                    assert(listed_in(w.registry, s1)[k1] == listed_in(w2.registry, s1)[k1]);
                    assert(listed_in(w.registry, s1)[k1].0 < a.id);
                } else {
                    assert(listed_in(w.registry, s1)[k1] == listed_in(w2.registry, s1)[k1]);
                    assert(listed_in(w.registry, s2)[k2] == listed_in(w2.registry, s2)[k2]);
                }
            }
            assert forall|s: u32, k: int| 0 <= k < listed_in(w2.registry, s).len() implies (
            #[trigger] listed_in(w2.registry, s)[k]).0 < a.id + 1 by {
                if !(s == sid && k == old_list.len()) {
                    assert(listed_in(w.registry, s)[k] == listed_in(w2.registry, s)[k]);
                }
            }
        },
        _ => {
            assert(w2.registry == w.registry);
        },
    }

    assert forall|i: int|
        0 <= i < w2.agents.len() && on_shelter(terrain, #[trigger] w2.agents[i]) implies registered(
        w2.registry,
        terrain[w2.agents[i].y as int]@[w2.agents[i].x as int]->Shelter_0,
        w2.agents[i].id,
    ) by {
        if i < n {
            assert(w2.agents[i] == w.agents[i]);
            assert(registered(
                w.registry,
                terrain[w.agents[i].y as int]@[w.agents[i].x as int]->Shelter_0,
                w.agents[i].id,
            ));
        }
    }

    assert forall|shelter_id: u32, i: int|
        0 <= i < w2.agents.len() && #[trigger] registered(
            w2.registry,
            shelter_id,
            w2.agents[i].id,
        ) implies on_shelter(terrain, w2.agents[i]) by {
        if i < n {
            assert(w2.agents[i] == w.agents[i]);
            assert(w.agents[i].id != a.id);
            assert(registered(w.registry, shelter_id, w.agents[i].id));
        } else {
            if !(here is Shelter) {
                assert(registered(w.registry, shelter_id, a.id));
            }
        }
    }

    assert forall|i: int, j: int| 0 <= i < j < w2.agents.len() implies (#[trigger] w2.agents[i]).id
        != (#[trigger] w2.agents[j]).id by {
        assert(w2.agents[i] == w.agents[i]);
        if j < n {
            assert(w2.agents[j] == w.agents[j]);
        }
    }
}

/// No cell lists more than one agent.
pub open spec fn roomy(occupancy: Seq<Seq<Seq<usize>>>, width: int, height: int) -> bool {
    forall|x: int, y: int|
        0 <= x < width && 0 <= y < height ==> (#[trigger] occupancy[y][x]).len() <= 1
}

/// Taking a value out of a list does not make the list longer.
pub proof fn lemma_remove_value_shrinks(s: Seq<usize>, v: usize)
    ensures
        s.remove_value(v).len() <= s.len(),
{
    s.index_of_first_ensures(v);
}

/// A move onto a shelter cell or onto a cell that lists nobody leaves no cell
/// with more than one agent, and makes no list longer but that of its
/// target.
pub proof fn lemma_move_keeps_room(
    w: World,
    terrain: Seq<Vec<Terrain>>,
    width: int,
    height: int,
    mv: Move,
)
    requires
        shaped(w, terrain, width, height),
        mv.agent < w.agents.len(),
        0 <= mv.x < width,
        0 <= mv.y < height,
        roomy(w.occupancy, width, height),
        terrain[mv.y as int]@[mv.x as int] is Shelter || w.occupancy[mv.y as int][mv.x as int].len()
            == 0,
    ensures
        roomy(apply_move(w, terrain, mv).occupancy, width, height),
        forall|x: int, y: int|
            0 <= x < width && 0 <= y < height && (x != mv.x || y != mv.y) ==> (
            #[trigger] apply_move(w, terrain, mv).occupancy[y][x]).len() <= w.occupancy[y][x].len(),
{
    let a = w.agents[mv.agent as int];
    let w2 = apply_move(w, terrain, mv);
    let px = a.x as int;
    let py = a.y as int;
    let vacated = set_cell(w.occupancy, px, py, w.occupancy[py][px].remove_value(a.id));
    lemma_remove_value_shrinks(w.occupancy[py][px], a.id);
    assert forall|x: int, y: int| 0 <= x < width && 0 <= y < height implies (#[trigger] vacated[y][x]).len()
        <= w.occupancy[y][x].len() by {}
    assert forall|x: int, y: int| 0 <= x < width && 0 <= y < height implies (
    #[trigger] w2.occupancy[y][x]).len() <= 1 && ((x != mv.x || y != mv.y) ==> w2.occupancy[y][x].len()
        <= w.occupancy[y][x].len()) by {
        assert(vacated[y][x].len() <= w.occupancy[y][x].len());
    }
}

/// The death of an agent leaves no cell with more than one agent.
pub proof fn lemma_death_keeps_room(
    w: World,
    terrain: Seq<Vec<Terrain>>,
    width: int,
    height: int,
    i: int,
)
    requires
        shaped(w, terrain, width, height),
        0 <= i < w.agents.len(),
        roomy(w.occupancy, width, height),
    ensures
        roomy(without_agent(w, i).occupancy, width, height),
{
    let a = w.agents[i];
    lemma_remove_value_shrinks(w.occupancy[a.y as int][a.x as int], a.id);
    assert forall|x: int, y: int| 0 <= x < width && 0 <= y < height implies (
    #[trigger] without_agent(w, i).occupancy[y][x]).len() <= 1 by {
        assert(w.occupancy[y][x].len() <= 1);
    }
}

} // verus!
