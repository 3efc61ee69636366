use vstd::prelude::*;
use crate::math::{distance_squared, manhattan, Vector2Int};
use crate::tiles::{walkable, Tile, TileMap};

verus! {

/// The most nodes that one search takes from its open list. A search that would
/// need more gives up and reports no path.
pub const MAX_EXPANSIONS: usize = 10000;

/// Working state of one search for one cell: the cost `g` of the best way
/// found so far from the start, the estimate `f` of a whole way through the
/// cell, and the place in the closed list of the cell it was reached from.
#[derive(Clone, Copy, Debug, PartialEq, Eq, Structural)]
pub struct PathNode {
    pub position: Vector2Int,
    pub g: i64,
    pub f: i64,
    pub previous: Option<usize>,
}

/// Two cells share an edge.
pub open spec fn adjacent(a: Vector2Int, b: Vector2Int) -> bool {
    manhattan(a, b) == 1
}

/// The cell `dx` to the east and `dy` to the north of `p`, if the grid has it.
pub open spec fn shifted(p: Vector2Int, dx: int, dy: int) -> Option<Vector2Int> {
    if i32::MIN <= p.x + dx <= i32::MAX && i32::MIN <= p.y + dy <= i32::MAX {
        Some(Vector2Int { x: (p.x + dx) as i32, y: (p.y + dy) as i32 })
    } else {
        None
    }
}

/// `found`, followed by the cell `dx`, `dy` from `base` if it can be walked on.
pub open spec fn with_walkable(
    tiles: Map<Vector2Int, Tile>,
    found: Seq<Vector2Int>,
    base: Vector2Int,
    dx: int,
    dy: int,
) -> Seq<Vector2Int> {
    match shifted(base, dx, dy) {
        Some(p) => if walkable(tiles, p) {
            found.push(p)
        } else {
            found
        },
        None => found,
    }
}

/// The neighbours of `base` that can be walked on: west, east, south, north,
/// in that order.
pub open spec fn valid_neighbours(tiles: Map<Vector2Int, Tile>, base: Vector2Int) -> Seq<
    Vector2Int,
> {
    with_walkable(
        tiles,
        with_walkable(
            tiles,
            with_walkable(tiles, with_walkable(tiles, Seq::empty(), base, -1, 0), base, 1, 0),
            base,
            0,
            -1,
        ),
        base,
        0,
        1,
    )
}

/// The cell that a search for `end` heads for: `end` itself where it can be
/// walked on, else its first neighbour that can. There is none where `start`
/// or `end` holds no tile, where `start` cannot be walked on, or where neither
/// `end` nor a neighbour of it can.
pub open spec fn search_goal(
    tiles: Map<Vector2Int, Tile>,
    start: Vector2Int,
    end: Vector2Int,
) -> Option<Vector2Int> {
    if !tiles.contains_key(end) || !walkable(tiles, start) {
        None
    } else if tiles[end].walkable {
        Some(end)
    } else if valid_neighbours(tiles, end).len() > 0 {
        Some(valid_neighbours(tiles, end)[0])
    } else {
        None
    }
}

/// `path` leads from `from` to `to` over tiles that can be walked on, each
/// cell sharing an edge with the next.
pub open spec fn is_walk(
    tiles: Map<Vector2Int, Tile>,
    path: Seq<Vector2Int>,
    from: Vector2Int,
    to: Vector2Int,
) -> bool {
    &&& path.len() >= 1
    &&& path[0] == from
    &&& path[path.len() - 1] == to
    &&& forall|i: int| 0 <= i < path.len() ==> walkable(tiles, #[trigger] path[i])
    &&& forall|i: int| 0 <= i < path.len() - 1 ==> adjacent(#[trigger] path[i], path[i + 1])
}

/// Some walk leads from `from` to `to`.
pub open spec fn connected(tiles: Map<Vector2Int, Tile>, from: Vector2Int, to: Vector2Int) -> bool {
    exists|path: Seq<Vector2Int>| is_walk(tiles, path, from, to)
}

/// `path` is a walk from `goal` back to `start`, and no walk between the two is
/// shorter.
pub open spec fn is_shortest_route(
    tiles: Map<Vector2Int, Tile>,
    start: Vector2Int,
    goal: Vector2Int,
    path: Seq<Vector2Int>,
) -> bool {
    &&& is_walk(tiles, path, goal, start)
    &&& forall|other: Seq<Vector2Int>| #[trigger]
        is_walk(tiles, other, goal, start) ==> path.len() <= other.len()
}

/// The search takes `a` from the open list rather than `b`: a lower `f` wins,
/// then a higher `g`, then the shorter straight line to the goal.
pub open spec fn preferred(a: PathNode, b: PathNode, goal: Vector2Int) -> bool {
    ||| a.f < b.f
    ||| (a.f == b.f && a.g > b.g)
    ||| (a.f == b.f && a.g == b.g && distance_squared(a.position, goal) < distance_squared(
        b.position,
        goal,
    ))
}

/// Manhattan distance between two cells: the estimate that the search uses for
/// the way that is left.
pub fn manhattan_heuristic(current: Vector2Int, target: Vector2Int) -> (r: i64)
    ensures
        r == manhattan(current, target),
{
    current.distance(target)
}

/// The node at `i` is the first of the open list to which no other is
/// preferred.
pub open spec fn is_best_at(open: Seq<PathNode>, goal: Vector2Int, i: int) -> bool {
    &&& 0 <= i < open.len()
    &&& forall|j: int| 0 <= j < open.len() ==> !preferred(#[trigger] open[j], open[i], goal)
    &&& forall|j: int| 0 <= j < i ==> preferred(open[i], #[trigger] open[j], goal)
}

/// The place in the open list of the node that the search takes next.
pub open spec fn best_index(open: Seq<PathNode>, goal: Vector2Int) -> int {
    choose|i: int| is_best_at(open, goal, i)
}

/// Only one node is the first to which no other is preferred.
pub proof fn lemma_best_unique(open: Seq<PathNode>, goal: Vector2Int, i: int)
    requires
        is_best_at(open, goal, i),
    ensures
        best_index(open, goal) == i,
{
    let k = best_index(open, goal);
    if k < i {
        assert(preferred(open[i], open[k], goal));
    } else if i < k {
        assert(preferred(open[k], open[i], goal));
    }
}

/// The node at `k` is the first of the list that stands on `position`.
pub open spec fn is_first_at(list: Seq<PathNode>, position: Vector2Int, k: int) -> bool {
    &&& 0 <= k < list.len()
    &&& list[k].position == position
    &&& forall|j: int| 0 <= j < k ==> (#[trigger] list[j]).position != position
}

/// The first place in the list of a node for `position`, if there is one.
pub open spec fn position_index(list: Seq<PathNode>, position: Vector2Int) -> Option<int> {
    if exists|k: int| is_first_at(list, position, k) {
        Some(choose|k: int| is_first_at(list, position, k))
    } else {
        None
    }
}

/// Only one node is the first on a cell.
pub proof fn lemma_first_unique(list: Seq<PathNode>, position: Vector2Int, k: int)
    requires
        is_first_at(list, position, k),
    ensures
        position_index(list, position) == Some(k),
{
    let other = choose|k: int| is_first_at(list, position, k);
    if other < k {
        assert(list[other].position != position);
    } else if k < other {
        assert(list[k].position != position);
    }
}

/// The place in the open list of the node that the search takes next: the
/// first one to which no other is preferred.
pub fn select_next(open: &Vec<PathNode>, goal: Vector2Int) -> (index: usize)
    requires
        open.len() > 0,
    ensures
        is_best_at(open@, goal, index as int),
        index == best_index(open@, goal),
{
    let mut index: usize = 0;
    let mut i: usize = 1;
    while i < open.len()
        invariant
            1 <= i <= open.len(),
            index < i,
            forall|j: int| 0 <= j < i ==> !preferred(#[trigger] open[j], open[index as int], goal),
            forall|j: int| 0 <= j < index ==> preferred(open[index as int], #[trigger] open[j], goal),
        decreases open.len() - i,
    {
        if is_preferred(&open[i], &open[index], goal) {
            index = i;
        }
        i += 1;
    }
    proof {
        lemma_best_unique(open@, goal, index as int);
    }
    index
}

/// Whether the search takes `a` rather than `b`.
pub fn is_preferred(a: &PathNode, b: &PathNode, goal: Vector2Int) -> (r: bool)
    ensures
        r == preferred(*a, *b, goal),
{
    if a.f != b.f {
        a.f < b.f
    } else if a.g != b.g {
        a.g > b.g
    } else {
        a.position.distance_squared(goal) < b.position.distance_squared(goal)
    }
}

/// The first place in `list` of a node for `position`.
pub fn find_position(list: &Vec<PathNode>, position: Vector2Int) -> (r: Option<usize>)
    ensures
        match r {
            Some(k) => is_first_at(list@, position, k as int) && position_index(list@, position)
                == Some(k as int),
            None => position_index(list@, position).is_none() && forall|j: int|
                0 <= j < list.len() ==> (#[trigger] list[j]).position != position,
        },
{
    let mut i: usize = 0;
    while i < list.len()
        invariant
            i <= list.len(),
            forall|j: int| 0 <= j < i ==> (#[trigger] list[j]).position != position,
        decreases list.len() - i,
    {
        if list[i].position == position {
            proof {
                lemma_first_unique(list@, position, i as int);
            }
            return Some(i);
        }
        i += 1;
    }
    proof {
        if exists|k: int| is_first_at(list@, position, k) {
            let k = choose|k: int| is_first_at(list@, position, k);
            assert(list@[k].position != position);
        }
    }
    None
}

/// The neighbours of `base_position` that hold a tile that can be walked on:
/// west, east, south, north, in that order.
pub fn get_neighbours_valid_positions(nodes: &TileMap, base_position: Vector2Int) -> (r: Vec<
    Vector2Int,
>)
    ensures
        r@ == valid_neighbours(nodes@, base_position),
{
    let mut neighbours: Vec<Vector2Int> = Vec::new();
    push_if_walkable(nodes, &mut neighbours, base_position, -1, 0);
    push_if_walkable(nodes, &mut neighbours, base_position, 1, 0);
    push_if_walkable(nodes, &mut neighbours, base_position, 0, -1);
    push_if_walkable(nodes, &mut neighbours, base_position, 0, 1);
    neighbours
}

fn push_if_walkable(nodes: &TileMap, found: &mut Vec<Vector2Int>, base: Vector2Int, dx: i32, dy: i32)
    ensures
        final(found)@ == with_walkable(nodes@, old(found)@, base, dx as int, dy as int),
{
    match base.checked_plus(Vector2Int::new(dx, dy)) {
        Some(p) => {
            if nodes.is_walkable(p) {
                found.push(p);
            }
        },
        None => {},
    }
}

/// Resolves what a search from `start` for `end` heads for.
pub fn find_search_goal(nodes: &TileMap, start: Vector2Int, end: Vector2Int) -> (r: Option<
    Vector2Int,
>)
    ensures
        r == search_goal(nodes@, start, end),
{
    if !nodes.contains_key(end) || !nodes.is_walkable(start) {
        return None;
    }
    if nodes.is_walkable(end) {
        return Some(end);
    }
    let neighbours = get_neighbours_valid_positions(nodes, end);
    if neighbours.len() > 0 {
        Some(neighbours[0])
    } else {
        None
    }
}


/// A node of the open or closed list stands on a tile that can be walked on,
/// and its estimate is its cost plus the Manhattan distance to the goal.
spec fn node_ok(tiles: Map<Vector2Int, Tile>, goal: Vector2Int, n: PathNode) -> bool {
    &&& walkable(tiles, n.position)
    &&& n.g >= 0
    &&& n.f == n.g + manhattan(n.position, goal)
}

/// A node is the start at cost 0, or was reached in one step from a closed
/// node that stands below `limit` in the closed list.
spec fn link_ok(closed: Seq<PathNode>, n: PathNode, limit: int, start: Vector2Int) -> bool {
    &&& n.g <= limit
    &&& match n.previous {
        None => n.position == start && n.g == 0,
        Some(i) => i < limit && adjacent(closed[i as int].position, n.position) && n.g
            == closed[i as int].g + 1,
    }
}

/// `list` holds a node for `p` whose cost is at most `bound`.
spec fn reached_within(list: Seq<PathNode>, p: Vector2Int, bound: int) -> bool {
    exists|k: int| 0 <= k < list.len() && (#[trigger] list[k]).position == p && list[k].g <= bound
}

/// The open or the closed list holds a node for `p` whose cost is at most `bound`.
spec fn found_within(open: Seq<PathNode>, closed: Seq<PathNode>, p: Vector2Int, bound: int) -> bool {
    reached_within(open, p, bound) || reached_within(closed, p, bound)
}

/// Every closed node is sound, links back to an earlier closed node, and is
/// not the goal.
#[verifier::opaque]
spec fn closed_ok(
    tiles: Map<Vector2Int, Tile>,
    start: Vector2Int,
    goal: Vector2Int,
    closed: Seq<PathNode>,
) -> bool {
    forall|k: int|
        0 <= k < closed.len() ==> node_ok(tiles, goal, #[trigger] closed[k]) && link_ok(
            closed,
            closed[k],
            k,
            start,
        ) && closed[k].position != goal
}

/// Every open node is sound and links back to a closed node.
#[verifier::opaque]
spec fn open_ok(
    tiles: Map<Vector2Int, Tile>,
    start: Vector2Int,
    goal: Vector2Int,
    open: Seq<PathNode>,
    closed: Seq<PathNode>,
) -> bool {
    forall|k: int|
        0 <= k < open.len() ==> node_ok(tiles, goal, #[trigger] open[k]) && link_ok(
            closed,
            open[k],
            closed.len() as int,
            start,
        )
}

/// No cell has two nodes, in one list or across the two.
#[verifier::opaque]
spec fn distinct(open: Seq<PathNode>, closed: Seq<PathNode>) -> bool {
    &&& forall|i: int, j: int|
        0 <= i < j < open.len() ==> (#[trigger] open[i]).position != (#[trigger] open[j]).position
    &&& forall|i: int, j: int|
        0 <= i < j < closed.len() ==> (#[trigger] closed[i]).position != (
        #[trigger] closed[j]).position
    &&& forall|i: int, j: int|
        0 <= i < open.len() && 0 <= j < closed.len() ==> (#[trigger] open[i]).position != (
        #[trigger] closed[j]).position
}

/// Every neighbour of a closed node that can be walked on has a node that
/// costs at most one step more, but for the neighbours of the last closed node
/// that are still `pending`.
#[verifier::opaque]
spec fn frontier_ok(
    tiles: Map<Vector2Int, Tile>,
    open: Seq<PathNode>,
    closed: Seq<PathNode>,
    pending: Seq<Vector2Int>,
) -> bool {
    forall|j: int, p: Vector2Int|
        0 <= j < closed.len() && walkable(tiles, p) && #[trigger] adjacent(closed[j].position, p)
            ==> found_within(open, closed, p, closed[j].g + 1) || (j == closed.len() - 1
            && pending.contains(p))
}

/// No walk from a closed node back to the start has fewer steps than the
/// node's cost.
#[verifier::opaque]
spec fn optimal_ok(tiles: Map<Vector2Int, Tile>, start: Vector2Int, closed: Seq<PathNode>) -> bool {
    forall|j: int, q: Seq<Vector2Int>|
        0 <= j < closed.len() && #[trigger] is_walk(tiles, q, closed[j].position, start)
            ==> closed[j].g + 1 <= q.len()
}

/// What holds of the two lists throughout a search.
spec fn search_inv(
    tiles: Map<Vector2Int, Tile>,
    start: Vector2Int,
    goal: Vector2Int,
    open: Seq<PathNode>,
    closed: Seq<PathNode>,
    pending: Seq<Vector2Int>,
) -> bool {
    &&& closed_ok(tiles, start, goal, closed)
    &&& open_ok(tiles, start, goal, open, closed)
    &&& distinct(open, closed)
    &&& found_within(open, closed, start, 0)
    &&& frontier_ok(tiles, open, closed, pending)
    &&& optimal_ok(tiles, start, closed)
}

/// The cells from the closed node at `i` back along the links.
pub open spec fn trail(closed: Seq<PathNode>, i: int) -> Seq<Vector2Int>
    decreases i,
{
    if 0 <= i < closed.len() {
        match closed[i].previous {
            Some(k) => if (k as int) < i {
                seq![closed[i].position] + trail(closed, k as int)
            } else {
                seq![closed[i].position]
            },
            None => seq![closed[i].position],
        }
    } else {
        Seq::empty()
    }
}

/// The cells from a node back along the links.
pub open spec fn node_trail(closed: Seq<PathNode>, n: PathNode) -> Seq<Vector2Int> {
    match n.previous {
        Some(k) => seq![n.position] + trail(closed, k as int),
        None => seq![n.position],
    }
}

proof fn lemma_manhattan_symmetric(a: Vector2Int, b: Vector2Int)
    ensures
        manhattan(a, b) == manhattan(b, a),
{
}

proof fn lemma_trail_is_walk(
    tiles: Map<Vector2Int, Tile>,
    start: Vector2Int,
    goal: Vector2Int,
    closed: Seq<PathNode>,
    i: int,
)
    requires
        closed_ok(tiles, start, goal, closed),
        0 <= i < closed.len(),
    ensures
        is_walk(tiles, trail(closed, i), closed[i].position, start),
        trail(closed, i).len() == closed[i].g + 1,
    decreases i,
{
    reveal(closed_ok);
    let n = closed[i];
    assert(node_ok(tiles, goal, n) && link_ok(closed, n, i, start));
    match n.previous {
        Some(k) => {
            lemma_trail_is_walk(tiles, start, goal, closed, k as int);
            let rest = trail(closed, k as int);
            let whole = seq![n.position] + rest;
            assert(trail(closed, i) == whole);
            assert(node_ok(tiles, goal, closed[k as int]));
            lemma_manhattan_symmetric(closed[k as int].position, n.position);
            assert forall|t: int| 0 <= t < whole.len() implies walkable(
                tiles,
                #[trigger] whole[t],
            ) by {
                if t > 0 {
                    assert(whole[t] == rest[t - 1]);
                }
            }
            assert forall|t: int| 0 <= t < whole.len() - 1 implies adjacent(
                #[trigger] whole[t],
                whole[t + 1],
            ) by {
                if t > 0 {
                    assert(whole[t] == rest[t - 1]);
                    assert(whole[t + 1] == rest[t]);
                } else {
                    assert(whole[1] == rest[0]);
                }
            }
            assert(whole[whole.len() - 1] == rest[rest.len() - 1]);
        },
        None => {
            assert(trail(closed, i) == seq![n.position]);
        },
    }
}

proof fn lemma_node_trail_is_walk(
    tiles: Map<Vector2Int, Tile>,
    start: Vector2Int,
    goal: Vector2Int,
    closed: Seq<PathNode>,
    n: PathNode,
)
    requires
        closed_ok(tiles, start, goal, closed),
        node_ok(tiles, goal, n),
        link_ok(closed, n, closed.len() as int, start),
    ensures
        is_walk(tiles, node_trail(closed, n), n.position, start),
        node_trail(closed, n).len() == n.g + 1,
{
    reveal(closed_ok);
    match n.previous {
        Some(k) => {
            lemma_trail_is_walk(tiles, start, goal, closed, k as int);
            let rest = trail(closed, k as int);
            let whole = seq![n.position] + rest;
            assert(node_trail(closed, n) == whole);
            assert(node_ok(tiles, goal, closed[k as int]));
            lemma_manhattan_symmetric(closed[k as int].position, n.position);
            assert forall|t: int| 0 <= t < whole.len() implies walkable(
                tiles,
                #[trigger] whole[t],
            ) by {
                if t > 0 {
                    assert(whole[t] == rest[t - 1]);
                }
            }
            assert forall|t: int| 0 <= t < whole.len() - 1 implies adjacent(
                #[trigger] whole[t],
                whole[t + 1],
            ) by {
                if t > 0 {
                    assert(whole[t] == rest[t - 1]);
                    assert(whole[t + 1] == rest[t]);
                } else {
                    assert(whole[1] == rest[0]);
                }
            }
            assert(whole[whole.len() - 1] == rest[rest.len() - 1]);
        },
        None => {},
    }
}

/// Along a walk the Manhattan distance to any cell changes by at most one a step.
proof fn lemma_walk_heuristic(
    tiles: Map<Vector2Int, Tile>,
    q: Seq<Vector2Int>,
    from: Vector2Int,
    to: Vector2Int,
    goal: Vector2Int,
    t: int,
)
    requires
        is_walk(tiles, q, from, to),
        0 <= t < q.len(),
    ensures
        manhattan(q[t], goal) <= manhattan(q[0], goal) + t,
    decreases t,
{
    if t > 0 {
        lemma_walk_heuristic(tiles, q, from, to, goal, t - 1);
        assert(adjacent(q[t - 1], q[t - 1 + 1]));
    }
}

/// A walk back to the start meets the open list no later than its cost
/// allows, or lies in the closed list from `i` on.
proof fn lemma_walk_meets_open(
    tiles: Map<Vector2Int, Tile>,
    start: Vector2Int,
    goal: Vector2Int,
    open: Seq<PathNode>,
    closed: Seq<PathNode>,
    q: Seq<Vector2Int>,
    from: Vector2Int,
    i: int,
)
    requires
        search_inv(tiles, start, goal, open, closed, Seq::empty()),
        is_walk(tiles, q, from, start),
        0 <= i < q.len(),
    ensures
        (exists|t: int, k: int|
            i <= t < q.len() && 0 <= k < open.len() && (#[trigger] open[k]).position
                == #[trigger] q[t] && open[k].g <= q.len() - 1 - t) || reached_within(
            closed,
            q[i],
            q.len() - 1 - i,
        ),
    decreases q.len() - i,
{
    reveal(frontier_ok);
    let last = q.len() - 1;
    if i == last {
        if reached_within(open, start, 0) {
            let k = choose|k: int|
                0 <= k < open.len() && (#[trigger] open[k]).position == start && open[k].g <= 0;
            assert(open[k].position == q[last] && open[k].g <= q.len() - 1 - last);
        }
    } else {
        lemma_walk_meets_open(tiles, start, goal, open, closed, q, from, i + 1);
        if reached_within(closed, q[i + 1], q.len() - 1 - (i + 1)) {
            let j = choose|j: int|
                0 <= j < closed.len() && (#[trigger] closed[j]).position == q[i + 1] && closed[j].g
                    <= q.len() - 1 - (i + 1);
            assert(adjacent(q[i], q[i + 1]));
            lemma_manhattan_symmetric(q[i], q[i + 1]);
            assert(walkable(tiles, q[i]));
            assert(adjacent(closed[j].position, q[i]));
            assert(!Seq::<Vector2Int>::empty().contains(q[i]));
            assert(found_within(open, closed, q[i], closed[j].g + 1));
            if reached_within(open, q[i], closed[j].g + 1) {
                let k = choose|k: int|
                    0 <= k < open.len() && (#[trigger] open[k]).position == q[i] && open[k].g
                        <= closed[j].g + 1;
                assert(open[k].position == q[i] && open[k].g <= q.len() - 1 - i);
            } else {
                let k = choose|k: int|
                    0 <= k < closed.len() && (#[trigger] closed[k]).position == q[i] && closed[k].g
                        <= closed[j].g + 1;
                assert(closed[k].position == q[i] && closed[k].g <= q.len() - 1 - i);
            }
        }
    }
}

/// The node that the search takes from the open list cannot be reached from
/// the start in fewer steps than its cost.
proof fn lemma_pop_optimal(
    tiles: Map<Vector2Int, Tile>,
    start: Vector2Int,
    goal: Vector2Int,
    open: Seq<PathNode>,
    closed: Seq<PathNode>,
    index: int,
    q: Seq<Vector2Int>,
)
    requires
        search_inv(tiles, start, goal, open, closed, Seq::empty()),
        0 <= index < open.len(),
        forall|j: int| 0 <= j < open.len() ==> !preferred(#[trigger] open[j], open[index], goal),
        is_walk(tiles, q, open[index].position, start),
    ensures
        open[index].g + 1 <= q.len(),
{
    reveal(distinct);
    reveal(open_ok);
    let u = open[index];
    lemma_walk_meets_open(tiles, start, goal, open, closed, q, u.position, 0);
    if reached_within(closed, q[0], q.len() - 1) {
        let k = choose|k: int|
            0 <= k < closed.len() && (#[trigger] closed[k]).position == q[0] && closed[k].g
                <= q.len() - 1;
        assert(open[index].position != closed[k].position);
    } else {
        let (t, k) = choose|t: int, k: int|
            0 <= t < q.len() && 0 <= k < open.len() && (#[trigger] open[k]).position
                == #[trigger] q[t] && open[k].g <= q.len() - 1 - t;
        lemma_walk_heuristic(tiles, q, u.position, start, goal, t);
        assert(node_ok(tiles, goal, open[k]));
        assert(node_ok(tiles, goal, open[index]));
        assert(!preferred(open[k], open[index], goal));
    }
}

/// When the open list runs empty, no walk leads from the goal to the start.
proof fn lemma_exhausted(
    tiles: Map<Vector2Int, Tile>,
    start: Vector2Int,
    goal: Vector2Int,
    closed: Seq<PathNode>,
)
    requires
        search_inv(tiles, start, goal, Seq::empty(), closed, Seq::empty()),
    ensures
        !connected(tiles, goal, start),
{
    reveal(closed_ok);
    if connected(tiles, goal, start) {
        let q = choose|q: Seq<Vector2Int>| is_walk(tiles, q, goal, start);
        lemma_walk_meets_open(tiles, start, goal, Seq::empty(), closed, q, goal, 0);
        let k = choose|k: int|
            0 <= k < closed.len() && (#[trigger] closed[k]).position == q[0] && closed[k].g
                <= q.len() - 1;
        assert(closed[k].position != goal);
    }
}


proof fn lemma_with_walkable(
    tiles: Map<Vector2Int, Tile>,
    found: Seq<Vector2Int>,
    base: Vector2Int,
    dx: int,
    dy: int,
    p: Vector2Int,
)
    ensures
        with_walkable(tiles, found, base, dx, dy).contains(p) <==> (found.contains(p) || (shifted(
            base,
            dx,
            dy,
        ) == Some(p) && walkable(tiles, p))),
{
    let after = with_walkable(tiles, found, base, dx, dy);
    match shifted(base, dx, dy) {
        Some(added) => {
            if walkable(tiles, added) {
                assert(after == found.push(added));
                assert(after[found.len() as int] == added);
                if found.contains(p) {
                    let k = choose|k: int| 0 <= k < found.len() && found[k] == p;
                    assert(after[k] == p);
                }
                if after.contains(p) {
                    let k = choose|k: int| 0 <= k < after.len() && after[k] == p;
                    if k < found.len() {
                        assert(found[k] == p);
                    }
                }
            }
        },
        None => {},
    }
}

/// The valid neighbours of a cell are the cells that share an edge with it and
/// can be walked on.
pub proof fn lemma_valid_neighbours(tiles: Map<Vector2Int, Tile>, base: Vector2Int, p: Vector2Int)
    ensures
        valid_neighbours(tiles, base).contains(p) <==> (walkable(tiles, p) && adjacent(base, p)),
{
    let a = with_walkable(tiles, Seq::empty(), base, -1, 0);
    let b = with_walkable(tiles, a, base, 1, 0);
    let c = with_walkable(tiles, b, base, 0, -1);
    lemma_with_walkable(tiles, Seq::empty(), base, -1, 0, p);
    lemma_with_walkable(tiles, a, base, 1, 0, p);
    lemma_with_walkable(tiles, b, base, 0, -1, p);
    lemma_with_walkable(tiles, c, base, 0, 1, p);
    assert(!Seq::<Vector2Int>::empty().contains(p));
}

/// Each node of `open` has a node for the same cell, at the same place and at
/// no higher cost, in `relaxed`.
spec fn dominates(relaxed: Seq<PathNode>, open: Seq<PathNode>) -> bool {
    &&& relaxed.len() >= open.len()
    &&& forall|k: int|
        0 <= k < open.len() ==> (#[trigger] relaxed[k]).position == open[k].position && relaxed[k].g
            <= open[k].g
}

proof fn lemma_found_dominated(
    open: Seq<PathNode>,
    relaxed: Seq<PathNode>,
    closed: Seq<PathNode>,
    p: Vector2Int,
    bound: int,
)
    requires
        dominates(relaxed, open),
        found_within(open, closed, p, bound),
    ensures
        found_within(relaxed, closed, p, bound),
{
    if reached_within(open, p, bound) {
        let k = choose|k: int|
            0 <= k < open.len() && (#[trigger] open[k]).position == p && open[k].g <= bound;
        assert(relaxed[k].position == p && relaxed[k].g <= bound);
    }
}

proof fn lemma_found_closing(
    open: Seq<PathNode>,
    closed: Seq<PathNode>,
    index: int,
    p: Vector2Int,
    bound: int,
)
    requires
        0 <= index < open.len(),
        found_within(open, closed, p, bound),
    ensures
        found_within(open.remove(index), closed.push(open[index]), p, bound),
{
    let open2 = open.remove(index);
    let closed2 = closed.push(open[index]);
    if reached_within(open, p, bound) {
        let k = choose|k: int|
            0 <= k < open.len() && (#[trigger] open[k]).position == p && open[k].g <= bound;
        if k < index {
            assert(open2[k] == open[k]);
        } else if k == index {
            assert(closed2[closed.len() as int] == open[index]);
        } else {
            assert(open2[k - 1] == open[k]);
        }
    } else {
        let k = choose|k: int|
            0 <= k < closed.len() && (#[trigger] closed[k]).position == p && closed[k].g <= bound;
        assert(closed2[k] == closed[k]);
    }
}

proof fn lemma_close_lists(
    tiles: Map<Vector2Int, Tile>,
    start: Vector2Int,
    goal: Vector2Int,
    open: Seq<PathNode>,
    closed: Seq<PathNode>,
    index: int,
)
    requires
        closed_ok(tiles, start, goal, closed),
        open_ok(tiles, start, goal, open, closed),
        0 <= index < open.len(),
        open[index].position != goal,
    ensures
        closed_ok(tiles, start, goal, closed.push(open[index])),
        open_ok(tiles, start, goal, open.remove(index), closed.push(open[index])),
{
    reveal(closed_ok);
    reveal(open_ok);
    let u = open[index];
    let open2 = open.remove(index);
    let closed2 = closed.push(u);
    let n = closed.len() as int;
    assert(node_ok(tiles, goal, u) && link_ok(closed, u, n, start));
    assert forall|k: int| 0 <= k < closed2.len() implies node_ok(tiles, goal, #[trigger] closed2[k])
        && link_ok(closed2, closed2[k], k, start) && closed2[k].position != goal by {
        if k < n {
            assert(closed2[k] == closed[k]);
            assert(link_ok(closed, closed[k], k, start));
            if let Some(i) = closed[k].previous {
                assert(closed2[i as int] == closed[i as int]);
            }
        } else {
            assert(closed2[k] == u);
            if let Some(i) = u.previous {
                assert(closed2[i as int] == closed[i as int]);
            }
        }
    }
    assert forall|k: int| 0 <= k < open2.len() implies node_ok(tiles, goal, #[trigger] open2[k])
        && link_ok(closed2, open2[k], closed2.len() as int, start) by {
        let o = if k < index { k } else { k + 1 };
        assert(open2[k] == open[o]);
        assert(node_ok(tiles, goal, open[o]) && link_ok(closed, open[o], n, start));
        if let Some(i) = open[o].previous {
            assert(closed2[i as int] == closed[i as int]);
        }
    }
}

proof fn lemma_close_distinct(open: Seq<PathNode>, closed: Seq<PathNode>, index: int)
    requires
        distinct(open, closed),
        0 <= index < open.len(),
    ensures
        distinct(open.remove(index), closed.push(open[index])),
{
    reveal(distinct);
    let open2 = open.remove(index);
    let closed2 = closed.push(open[index]);
    let n = closed.len() as int;
    assert forall|i: int, j: int| 0 <= i < j < open2.len() implies (#[trigger] open2[i]).position != (
    #[trigger] open2[j]).position by {
        let oi = if i < index { i } else { i + 1 };
        let oj = if j < index { j } else { j + 1 };
        assert(open2[i] == open[oi] && open2[j] == open[oj]);
    }
    assert forall|i: int, j: int| 0 <= i < j < closed2.len() implies (#[trigger] closed2[i]).position
        != (#[trigger] closed2[j]).position by {
        assert(closed2[i] == closed[i]);
        if j < n {
            assert(closed2[j] == closed[j]);
        } else {
            assert(closed2[j] == open[index]);
        }
    }
    assert forall|i: int, j: int| 0 <= i < open2.len() && 0 <= j < closed2.len() implies (
    #[trigger] open2[i]).position != (#[trigger] closed2[j]).position by {
        let oi = if i < index { i } else { i + 1 };
        assert(open2[i] == open[oi]);
        if j < n {
            assert(closed2[j] == closed[j]);
        } else {
            assert(closed2[j] == open[index]);
        }
    }
}

proof fn lemma_close_frontier(
    tiles: Map<Vector2Int, Tile>,
    open: Seq<PathNode>,
    closed: Seq<PathNode>,
    index: int,
)
    requires
        frontier_ok(tiles, open, closed, Seq::empty()),
        0 <= index < open.len(),
    ensures
        frontier_ok(
            tiles,
            open.remove(index),
            closed.push(open[index]),
            valid_neighbours(tiles, open[index].position),
        ),
{
    reveal(frontier_ok);
    let u = open[index];
    let open2 = open.remove(index);
    let closed2 = closed.push(u);
    let pending = valid_neighbours(tiles, u.position);
    let n = closed.len() as int;
    assert forall|j: int, p: Vector2Int|
        0 <= j < closed2.len() && walkable(tiles, p) && #[trigger] adjacent(
            closed2[j].position,
            p,
        ) implies found_within(open2, closed2, p, closed2[j].g + 1) || (j == closed2.len() - 1
        && pending.contains(p)) by {
        if j < n {
            assert(closed2[j] == closed[j]);
            assert(adjacent(closed[j].position, p));
            assert(!Seq::<Vector2Int>::empty().contains(p));
            lemma_found_closing(open, closed, index, p, closed[j].g + 1);
        } else {
            assert(closed2[j] == u);
            lemma_valid_neighbours(tiles, u.position, p);
        }
    }
}

proof fn lemma_close_optimal(
    tiles: Map<Vector2Int, Tile>,
    start: Vector2Int,
    goal: Vector2Int,
    open: Seq<PathNode>,
    closed: Seq<PathNode>,
    index: int,
)
    requires
        search_inv(tiles, start, goal, open, closed, Seq::empty()),
        0 <= index < open.len(),
        forall|j: int| 0 <= j < open.len() ==> !preferred(#[trigger] open[j], open[index], goal),
    ensures
        optimal_ok(tiles, start, closed.push(open[index])),
{
    reveal(optimal_ok);
    let u = open[index];
    let closed2 = closed.push(u);
    let n = closed.len() as int;
    assert forall|j: int, q: Seq<Vector2Int>|
        0 <= j < closed2.len() && #[trigger] is_walk(
            tiles,
            q,
            closed2[j].position,
            start,
        ) implies closed2[j].g + 1 <= q.len() by {
        if j < n {
            assert(closed2[j] == closed[j]);
            assert(is_walk(tiles, q, closed[j].position, start));
        } else {
            assert(closed2[j] == u);
            lemma_pop_optimal(tiles, start, goal, open, closed, index, q);
        }
    }
}

/// Taking the selected node from the open list and closing it keeps what holds
/// of the lists, with the node's neighbours pending.
proof fn lemma_close(
    tiles: Map<Vector2Int, Tile>,
    start: Vector2Int,
    goal: Vector2Int,
    open: Seq<PathNode>,
    closed: Seq<PathNode>,
    index: int,
)
    requires
        search_inv(tiles, start, goal, open, closed, Seq::empty()),
        0 <= index < open.len(),
        forall|j: int| 0 <= j < open.len() ==> !preferred(#[trigger] open[j], open[index], goal),
        open[index].position != goal,
    ensures
        search_inv(
            tiles,
            start,
            goal,
            open.remove(index),
            closed.push(open[index]),
            valid_neighbours(tiles, open[index].position),
        ),
{
    lemma_close_lists(tiles, start, goal, open, closed, index);
    lemma_close_distinct(open, closed, index);
    lemma_found_closing(open, closed, index, start, 0);
    lemma_close_frontier(tiles, open, closed, index);
    lemma_close_optimal(tiles, start, goal, open, closed, index);
}

/// Once the cell at the head of the pending neighbours has a node that costs
/// at most one step more than the last closed node, it is pending no longer.
proof fn lemma_relaxed(
    tiles: Map<Vector2Int, Tile>,
    start: Vector2Int,
    goal: Vector2Int,
    open: Seq<PathNode>,
    relaxed: Seq<PathNode>,
    closed: Seq<PathNode>,
    p: Vector2Int,
    pending: Seq<Vector2Int>,
)
    requires
        closed.len() > 0,
        search_inv(tiles, start, goal, open, closed, seq![p] + pending),
        dominates(relaxed, open),
        open_ok(tiles, start, goal, relaxed, closed),
        distinct(relaxed, closed),
        found_within(relaxed, closed, p, closed[closed.len() - 1].g + 1),
    ensures
        search_inv(tiles, start, goal, relaxed, closed, pending),
{
    reveal(frontier_ok);
    lemma_found_dominated(open, relaxed, closed, start, 0);
    assert forall|j: int, c: Vector2Int|
        0 <= j < closed.len() && walkable(tiles, c) && #[trigger] adjacent(
            closed[j].position,
            c,
        ) implies found_within(relaxed, closed, c, closed[j].g + 1) || (j == closed.len() - 1
        && pending.contains(c)) by {
        if found_within(open, closed, c, closed[j].g + 1) {
            lemma_found_dominated(open, relaxed, closed, c, closed[j].g + 1);
        } else {
            let both = seq![p] + pending;
            assert(both.contains(c));
            let k = choose|k: int| 0 <= k < both.len() && both[k] == c;
            if k > 0 {
                assert(pending[k - 1] == c);
            }
        }
    }
}

/// A closed neighbour of the last closed node costs at most one step more
/// than that node.
proof fn lemma_closed_neighbour(
    tiles: Map<Vector2Int, Tile>,
    start: Vector2Int,
    goal: Vector2Int,
    closed: Seq<PathNode>,
    k: int,
)
    requires
        closed.len() > 0,
        closed_ok(tiles, start, goal, closed),
        optimal_ok(tiles, start, closed),
        0 <= k < closed.len(),
        adjacent(closed[closed.len() - 1].position, closed[k].position),
    ensures
        closed[k].g <= closed[closed.len() - 1].g + 1,
{
    reveal(closed_ok);
    reveal(optimal_ok);
    let last = closed.len() - 1;
    let p = closed[k].position;
    lemma_trail_is_walk(tiles, start, goal, closed, last);
    let rest = trail(closed, last);
    let whole = seq![p] + rest;
    assert(node_ok(tiles, goal, closed[k]));
    lemma_manhattan_symmetric(closed[last].position, p);
    assert forall|t: int| 0 <= t < whole.len() implies walkable(tiles, #[trigger] whole[t]) by {
        if t > 0 {
            assert(whole[t] == rest[t - 1]);
        }
    }
    assert forall|t: int| 0 <= t < whole.len() - 1 implies adjacent(
        #[trigger] whole[t],
        whole[t + 1],
    ) by {
        if t > 0 {
            assert(whole[t] == rest[t - 1]);
            assert(whole[t + 1] == rest[t]);
        } else {
            assert(whole[1] == rest[0]);
        }
    }
    assert(whole[whole.len() - 1] == rest[rest.len() - 1]);
    assert(is_walk(tiles, whole, closed[k].position, start));
}

/// The closed nodes and one open node stand on different tiles of the table.
proof fn lemma_ceiling(
    tiles: Map<Vector2Int, Tile>,
    start: Vector2Int,
    goal: Vector2Int,
    open: Seq<PathNode>,
    closed: Seq<PathNode>,
)
    requires
        closed_ok(tiles, start, goal, closed),
        open_ok(tiles, start, goal, open, closed),
        distinct(open, closed),
        open.len() > 0,
        tiles.dom().finite(),
    ensures
        closed.len() + 1 <= tiles.dom().len(),
{
    reveal(closed_ok);
    reveal(open_ok);
    reveal(distinct);
    let cells = Seq::new(
        closed.len() + 1,
        |i: int|
            if i < closed.len() {
                closed[i].position
            } else {
                open[0].position
            },
    );
    assert forall|i: int, j: int| 0 <= i < cells.len() && 0 <= j < cells.len() && i != j implies cells[i]
        != cells[j] by {
        if i < closed.len() && j < closed.len() {
            if i < j {
                assert(closed[i].position != closed[j].position);
            } else {
                assert(closed[j].position != closed[i].position);
            }
        } else if i < closed.len() {
            assert(open[0].position != closed[i].position);
        } else {
            assert(open[0].position != closed[j].position);
        }
    }
    cells.unique_seq_to_set();
    assert forall|p: Vector2Int| cells.to_set().contains(p) implies tiles.dom().contains(p) by {
        let i = choose|i: int| 0 <= i < cells.len() && cells[i] == p;
        if i < closed.len() {
            assert(node_ok(tiles, goal, closed[i]));
        } else {
            assert(node_ok(tiles, goal, open[0]));
        }
    }
    vstd::set_lib::lemma_len_subset(cells.to_set(), tiles.dom());
}


/// What is left of a trail when the walk along the links stands at `cursor`.
spec fn trail_from(closed: Seq<PathNode>, cursor: Option<usize>) -> Seq<Vector2Int> {
    match cursor {
        Some(i) => trail(closed, i as int),
        None => Seq::empty(),
    }
}

/// The cells from `last` back along the links to the node that has none,
/// `last` first.
fn reconstruct_path(closed: &Vec<PathNode>, last: &PathNode) -> (path: Vec<Vector2Int>)
    requires
        forall|k: int|
            0 <= k < closed.len() ==> ((#[trigger] closed[k]).previous matches Some(i) ==> i < k),
        last.previous matches Some(i) ==> i < closed.len(),
    ensures
        path@ == node_trail(closed@, *last),
{
    let mut path: Vec<Vector2Int> = Vec::new();
    path.push(last.position);
    let mut cursor: Option<usize> = last.previous;
    while cursor.is_some()
        invariant
            forall|k: int|
                0 <= k < closed.len() ==> ((#[trigger] closed[k]).previous matches Some(i) ==> i
                    < k),
            cursor matches Some(i) ==> i < closed.len(),
            path@ + trail_from(closed@, cursor) == node_trail(closed@, *last),
        decreases
                (match cursor {
                    Some(i) => i + 1,
                    None => 0,
                }),
    {
        let i: usize = cursor.unwrap();
        let node = closed[i];
        proof {
            let rest = trail_from(closed@, node.previous);
            assert(trail(closed@, i as int) == seq![node.position] + rest);
            assert(path@.push(node.position) + rest == path@ + (seq![node.position] + rest));
        }
        path.push(node.position);
        cursor = node.previous;
    }
    proof {
        assert(path@ + Seq::<Vector2Int>::empty() == path@);
    }
    path
}

/// The last closed node costs no more than the nodes closed before it allow.
proof fn lemma_last_closed(
    tiles: Map<Vector2Int, Tile>,
    start: Vector2Int,
    goal: Vector2Int,
    closed: Seq<PathNode>,
)
    requires
        closed.len() > 0,
        closed_ok(tiles, start, goal, closed),
    ensures
        0 <= closed[closed.len() - 1].g <= closed.len() - 1,
{
    reveal(closed_ok);
    let last = closed[closed.len() - 1];
    assert(node_ok(tiles, goal, last) && link_ok(closed, last, closed.len() - 1, start));
}

/// A search begins with the start alone in the open list.
proof fn lemma_initial(
    tiles: Map<Vector2Int, Tile>,
    start: Vector2Int,
    goal: Vector2Int,
    first: PathNode,
)
    requires
        walkable(tiles, start),
        first == (PathNode { position: start, g: 0, f: manhattan(start, goal) as i64, previous: None }),
        first.f == manhattan(start, goal),
    ensures
        search_inv(tiles, start, goal, seq![first], Seq::empty(), Seq::empty()),
{
    reveal(closed_ok);
    reveal(open_ok);
    reveal(distinct);
    reveal(frontier_ok);
    reveal(optimal_ok);
    let open = seq![first];
    assert(open[0] == first);
    assert(reached_within(open, start, 0));
}

/// The neighbour has a closed node already.
proof fn lemma_relax_closed(
    tiles: Map<Vector2Int, Tile>,
    start: Vector2Int,
    goal: Vector2Int,
    open: Seq<PathNode>,
    closed: Seq<PathNode>,
    p: Vector2Int,
    pending: Seq<Vector2Int>,
    k: int,
)
    requires
        closed.len() > 0,
        search_inv(tiles, start, goal, open, closed, seq![p] + pending),
        adjacent(closed[closed.len() - 1].position, p),
        0 <= k < closed.len(),
        closed[k].position == p,
    ensures
        search_inv(tiles, start, goal, open, closed, pending),
{
    lemma_closed_neighbour(tiles, start, goal, closed, k);
    assert(reached_within(closed, p, closed[closed.len() - 1].g + 1));
    assert(dominates(open, open));
    lemma_relaxed(tiles, start, goal, open, open, closed, p, pending);
}

/// The neighbour has an open node that is no dearer than the way through the
/// last closed node.
proof fn lemma_relax_keep(
    tiles: Map<Vector2Int, Tile>,
    start: Vector2Int,
    goal: Vector2Int,
    open: Seq<PathNode>,
    closed: Seq<PathNode>,
    p: Vector2Int,
    pending: Seq<Vector2Int>,
    k: int,
)
    requires
        closed.len() > 0,
        search_inv(tiles, start, goal, open, closed, seq![p] + pending),
        0 <= k < open.len(),
        open[k].position == p,
        open[k].g <= closed[closed.len() - 1].g + 1,
    ensures
        search_inv(tiles, start, goal, open, closed, pending),
{
    assert(reached_within(open, p, closed[closed.len() - 1].g + 1));
    assert(dominates(open, open));
    lemma_relaxed(tiles, start, goal, open, open, closed, p, pending);
}

/// The node that stands for the way through the last closed node to its
/// neighbour `p`.
pub open spec fn step_node(closed: Seq<PathNode>, p: Vector2Int, goal: Vector2Int) -> PathNode {
    PathNode {
        position: p,
        g: (closed[closed.len() - 1].g + 1) as i64,
        f: (closed[closed.len() - 1].g + 1 + manhattan(p, goal)) as i64,
        previous: Some((closed.len() - 1) as usize),
    }
}

/// The open list after the neighbour `p` of the last closed node has been
/// given its place: a closed neighbour changes nothing, one without a node
/// gets one behind the others, and one with an open node takes the way through
/// the last closed node if that is shorter.
pub open spec fn relaxed(
    open: Seq<PathNode>,
    closed: Seq<PathNode>,
    p: Vector2Int,
    goal: Vector2Int,
) -> Seq<PathNode> {
    if position_index(closed, p).is_some() {
        open
    } else {
        match position_index(open, p) {
            None => open.push(step_node(closed, p, goal)),
            Some(k) => if step_node(closed, p, goal).g < open[k].g {
                open.update(k, step_node(closed, p, goal))
            } else {
                open
            },
        }
    }
}

/// The open list after each of the neighbours `cells` of the last closed node
/// has been given its place, one after the other.
pub open spec fn relaxed_all(
    open: Seq<PathNode>,
    closed: Seq<PathNode>,
    cells: Seq<Vector2Int>,
    goal: Vector2Int,
) -> Seq<PathNode>
    decreases cells.len(),
{
    if cells.len() == 0 {
        open
    } else {
        relaxed_all(relaxed(open, closed, cells[0], goal), closed, cells.drop_first(), goal)
    }
}

/// What a search finds from the lists `open` and `closed` when it may still
/// take `fuel` nodes from the open list. It takes the node to which no other
/// is preferred. If that is the goal, the trail from it is the result. If not,
/// the node is closed, its walkable neighbours are given their places, and the
/// search goes on. It finds nothing once the open list is empty or the fuel
/// is used up.
pub open spec fn search(
    tiles: Map<Vector2Int, Tile>,
    goal: Vector2Int,
    open: Seq<PathNode>,
    closed: Seq<PathNode>,
    fuel: nat,
) -> Option<Seq<Vector2Int>>
    decreases fuel,
{
    if open.len() == 0 || fuel == 0 {
        None
    } else {
        let current = open[best_index(open, goal)];
        if current.position == goal {
            Some(node_trail(closed, current))
        } else {
            search(
                tiles,
                goal,
                relaxed_all(
                    open.remove(best_index(open, goal)),
                    closed.push(current),
                    valid_neighbours(tiles, current.position),
                    goal,
                ),
                closed.push(current),
                (fuel - 1) as nat,
            )
        }
    }
}

/// The node that a search starts from.
pub open spec fn first_node(start: Vector2Int, goal: Vector2Int) -> PathNode {
    PathNode { position: start, g: 0, f: manhattan(start, goal) as i64, previous: None }
}

/// The route that a search from `start` for `end` finds: the cells from the
/// goal back to the start.
pub open spec fn route(tiles: Map<Vector2Int, Tile>, start: Vector2Int, end: Vector2Int) -> Option<
    Seq<Vector2Int>,
> {
    match search_goal(tiles, start, end) {
        Some(goal) => search(
            tiles,
            goal,
            seq![first_node(start, goal)],
            Seq::empty(),
            MAX_EXPANSIONS as nat,
        ),
        None => None,
    }
}

/// The neighbour has no node yet and gets one in the open list.
proof fn lemma_relax_push(
    tiles: Map<Vector2Int, Tile>,
    start: Vector2Int,
    goal: Vector2Int,
    open: Seq<PathNode>,
    closed: Seq<PathNode>,
    p: Vector2Int,
    pending: Seq<Vector2Int>,
)
    requires
        0 < closed.len() <= MAX_EXPANSIONS,
        search_inv(tiles, start, goal, open, closed, seq![p] + pending),
        adjacent(closed[closed.len() - 1].position, p),
        walkable(tiles, p),
        forall|j: int| 0 <= j < open.len() ==> (#[trigger] open[j]).position != p,
        forall|j: int| 0 <= j < closed.len() ==> (#[trigger] closed[j]).position != p,
    ensures
        search_inv(tiles, start, goal, open.push(step_node(closed, p, goal)), closed, pending),
{
    let node = step_node(closed, p, goal);
    let relaxed = open.push(node);
    lemma_last_closed(tiles, start, goal, closed);
    assert(relaxed[open.len() as int] == node);
    assert(open_ok(tiles, start, goal, relaxed, closed)) by {
        reveal(open_ok);
        assert forall|k: int| 0 <= k < relaxed.len() implies node_ok(
            tiles,
            goal,
            #[trigger] relaxed[k],
        ) && link_ok(closed, relaxed[k], closed.len() as int, start) by {
            if k < open.len() {
                assert(relaxed[k] == open[k]);
            }
        }
    }
    assert(distinct(relaxed, closed)) by {
        reveal(distinct);
        assert forall|i: int, j: int| 0 <= i < j < relaxed.len() implies (
        #[trigger] relaxed[i]).position != (#[trigger] relaxed[j]).position by {
            assert(relaxed[i] == open[i]);
            if j < open.len() {
                assert(relaxed[j] == open[j]);
            }
        }
        assert forall|i: int, j: int| 0 <= i < relaxed.len() && 0 <= j < closed.len() implies (
        #[trigger] relaxed[i]).position != (#[trigger] closed[j]).position by {
            if i < open.len() {
                assert(relaxed[i] == open[i]);
            }
        }
    }
    assert(dominates(relaxed, open)) by {
        assert forall|k: int| 0 <= k < open.len() implies (#[trigger] relaxed[k]).position
            == open[k].position && relaxed[k].g <= open[k].g by {
            assert(relaxed[k] == open[k]);
        }
    }
    assert(reached_within(relaxed, p, closed[closed.len() - 1].g + 1));
    lemma_relaxed(tiles, start, goal, open, relaxed, closed, p, pending);
}

/// The neighbour has an open node that is dearer than the way through the
/// last closed node, and takes that way.
proof fn lemma_relax_update(
    tiles: Map<Vector2Int, Tile>,
    start: Vector2Int,
    goal: Vector2Int,
    open: Seq<PathNode>,
    closed: Seq<PathNode>,
    p: Vector2Int,
    pending: Seq<Vector2Int>,
    k: int,
)
    requires
        0 < closed.len() <= MAX_EXPANSIONS,
        search_inv(tiles, start, goal, open, closed, seq![p] + pending),
        adjacent(closed[closed.len() - 1].position, p),
        walkable(tiles, p),
        0 <= k < open.len(),
        open[k].position == p,
        closed[closed.len() - 1].g + 1 < open[k].g,
    ensures
        search_inv(
            tiles,
            start,
            goal,
            open.update(k, step_node(closed, p, goal)),
            closed,
            pending,
        ),
{
    let node = step_node(closed, p, goal);
    let relaxed = open.update(k, node);
    lemma_last_closed(tiles, start, goal, closed);
    assert(relaxed[k] == node);
    assert(open_ok(tiles, start, goal, relaxed, closed)) by {
        reveal(open_ok);
        assert forall|i: int| 0 <= i < relaxed.len() implies node_ok(
            tiles,
            goal,
            #[trigger] relaxed[i],
        ) && link_ok(closed, relaxed[i], closed.len() as int, start) by {
            if i != k {
                assert(relaxed[i] == open[i]);
            }
        }
    }
    assert(distinct(relaxed, closed)) by {
        reveal(distinct);
        assert forall|i: int, j: int| 0 <= i < j < relaxed.len() implies (
        #[trigger] relaxed[i]).position != (#[trigger] relaxed[j]).position by {
            assert(relaxed[i].position == open[i].position);
            assert(relaxed[j].position == open[j].position);
        }
        assert forall|i: int, j: int| 0 <= i < relaxed.len() && 0 <= j < closed.len() implies (
        #[trigger] relaxed[i]).position != (#[trigger] closed[j]).position by {
            assert(relaxed[i].position == open[i].position);
        }
    }
    assert(dominates(relaxed, open)) by {
        assert forall|i: int| 0 <= i < open.len() implies (#[trigger] relaxed[i]).position
            == open[i].position && relaxed[i].g <= open[i].g by {
            if i != k {
                assert(relaxed[i] == open[i]);
            }
        }
    }
    assert(reached_within(relaxed, p, closed[closed.len() - 1].g + 1));
    lemma_relaxed(tiles, start, goal, open, relaxed, closed, p, pending);
}

/// When the search takes the goal from the open list, the trail from it is a
/// shortest route.
proof fn lemma_goal_found(
    tiles: Map<Vector2Int, Tile>,
    start: Vector2Int,
    goal: Vector2Int,
    open: Seq<PathNode>,
    closed: Seq<PathNode>,
    index: int,
)
    requires
        search_inv(tiles, start, goal, open, closed, Seq::empty()),
        0 <= index < open.len(),
        forall|j: int| 0 <= j < open.len() ==> !preferred(#[trigger] open[j], open[index], goal),
        open[index].position == goal,
    ensures
        is_shortest_route(tiles, start, goal, node_trail(closed, open[index])),
        forall|k: int|
            0 <= k < closed.len() ==> ((#[trigger] closed[k]).previous matches Some(i) ==> i < k),
        open[index].previous matches Some(i) ==> i < closed.len(),
{
    let u = open[index];
    assert(node_ok(tiles, goal, u) && link_ok(closed, u, closed.len() as int, start)) by {
        reveal(open_ok);
    }
    assert forall|k: int| 0 <= k < closed.len() implies ((
    #[trigger] closed[k]).previous matches Some(i) ==> i < k) by {
        reveal(closed_ok);
        assert(link_ok(closed, closed[k], k, start));
    }
    lemma_node_trail_is_walk(tiles, start, goal, closed, u);
    assert forall|other: Seq<Vector2Int>| #[trigger]
        is_walk(tiles, other, goal, start) implies node_trail(closed, u).len() <= other.len() by {
        lemma_pop_optimal(tiles, start, goal, open, closed, index, other);
    }
}

/// Gives the neighbour `position` of the last closed node its place in the
/// open list: a new node if it has none yet, a cheaper one if the way through
/// the last closed node is shorter. A closed neighbour stays as it is.
fn relax(
    nodes: &TileMap,
    start: Vector2Int,
    goal: Vector2Int,
    open: &mut Vec<PathNode>,
    closed: &Vec<PathNode>,
    position: Vector2Int,
    Ghost(pending): Ghost<Seq<Vector2Int>>,
)
    requires
        0 < closed.len() <= MAX_EXPANSIONS,
        search_inv(nodes@, start, goal, old(open)@, closed@, seq![position] + pending),
        adjacent(closed@[closed.len() - 1].position, position),
        walkable(nodes@, position),
    ensures
        search_inv(nodes@, start, goal, final(open)@, closed@, pending),
        final(open)@ == relaxed(old(open)@, closed@, position, goal),
{
    let at: usize = closed.len() - 1;
    let current = closed[at];
    proof {
        lemma_last_closed(nodes@, start, goal, closed@);
    }
    match find_position(closed, position) {
        Some(k) => {
            proof {
                lemma_relax_closed(nodes@, start, goal, open@, closed@, position, pending, k as int);
            }
        },
        None => {
            let tentative: i64 = current.g + 1;
            match find_position(open, position) {
                None => {
                    proof {
                        lemma_relax_push(nodes@, start, goal, open@, closed@, position, pending);
                    }
                    let node = PathNode {
                        position,
                        g: tentative,
                        f: tentative + manhattan_heuristic(position, goal),
                        previous: Some(at),
                    };
                    assert(node == step_node(closed@, position, goal));
                    open.push(node);
                },
                Some(k) => {
                    if tentative < open[k].g {
                        proof {
                            lemma_relax_update(
                                nodes@,
                                start,
                                goal,
                                open@,
                                closed@,
                                position,
                                pending,
                                k as int,
                            );
                        }
                        let node = PathNode {
                            position,
                            g: tentative,
                            f: tentative + manhattan_heuristic(position, goal),
                            previous: Some(at),
                        };
                        assert(node == step_node(closed@, position, goal));
                        open.set(k, node);
                    } else {
                        proof {
                            lemma_relax_keep(
                                nodes@,
                                start,
                                goal,
                                open@,
                                closed@,
                                position,
                                pending,
                                k as int,
                            );
                        }
                    }
                },
            }
        },
    }
}

/// Closes `current`, the node just taken from the open list, and gives each of
/// its walkable neighbours its place in the open list.
fn expand(
    nodes: &TileMap,
    start: Vector2Int,
    goal: Vector2Int,
    open: &mut Vec<PathNode>,
    closed: &mut Vec<PathNode>,
    current: PathNode,
)
    requires
        old(closed).len() < MAX_EXPANSIONS,
        search_inv(
            nodes@,
            start,
            goal,
            old(open)@,
            old(closed)@.push(current),
            valid_neighbours(nodes@, current.position),
        ),
    ensures
        final(closed)@ == old(closed)@.push(current),
        search_inv(nodes@, start, goal, final(open)@, final(closed)@, Seq::empty()),
        final(open)@ == relaxed_all(
            old(open)@,
            old(closed)@.push(current),
            valid_neighbours(nodes@, current.position),
            goal,
        ),
{
    closed.push(current);
    let neighbours = get_neighbours_valid_positions(nodes, current.position);
    let mut i: usize = 0;
    proof {
        assert(neighbours@.subrange(0, neighbours@.len() as int) == neighbours@);
    }
    while i < neighbours.len()
        invariant
            i <= neighbours.len(),
            0 < closed.len() <= MAX_EXPANSIONS,
            closed@ == old(closed)@.push(current),
            neighbours@ == valid_neighbours(nodes@, current.position),
            search_inv(
                nodes@,
                start,
                goal,
                open@,
                closed@,
                neighbours@.subrange(i as int, neighbours@.len() as int),
            ),
            relaxed_all(
                open@,
                closed@,
                neighbours@.subrange(i as int, neighbours@.len() as int),
                goal,
            ) == relaxed_all(old(open)@, closed@, neighbours@, goal),
        decreases neighbours.len() - i,
    {
        let position = neighbours[i];
        proof {
            let here = neighbours@.subrange(i as int, neighbours@.len() as int);
            assert(here[0] == position);
            assert(here.drop_first() == neighbours@.subrange(i + 1, neighbours@.len() as int));
            lemma_valid_neighbours(nodes@, current.position, position);
            assert(neighbours@.contains(position));
            assert(seq![position] + neighbours@.subrange(i + 1, neighbours@.len() as int)
                == neighbours@.subrange(i as int, neighbours@.len() as int));
        }
        relax(
            nodes,
            start,
            goal,
            open,
            closed,
            position,
            Ghost(neighbours@.subrange(i + 1, neighbours@.len() as int)),
        );
        i += 1;
    }
    proof {
        assert(neighbours@.subrange(i as int, neighbours@.len() as int) == Seq::<
            Vector2Int,
        >::empty());
    }
}

/// A shortest way over walkable tiles from `start` to `end`, as the cells from
/// the goal back to the start, both included.
///
/// The goal is `end`, or the first walkable neighbour of an `end` that cannot
/// be walked on. The search takes at most `MAX_EXPANSIONS` nodes from its open
/// list; one that would need more reports no path, which can only happen on a
/// table of more than `MAX_EXPANSIONS` tiles.
pub fn a_star(nodes: &TileMap, start: Vector2Int, end: Vector2Int) -> (r: Option<Vec<Vector2Int>>)
    ensures
        match r {
            Some(path) => search_goal(nodes@, start, end) matches Some(goal) && is_shortest_route(
                nodes@,
                start,
                goal,
                path@,
            ),
            None => search_goal(nodes@, start, end) matches Some(goal) ==> (!connected(
                nodes@,
                goal,
                start,
            ) || nodes@.dom().len() > MAX_EXPANSIONS),
        },
        nodes@.dom().len() <= MAX_EXPANSIONS ==> (r.is_some() <==> (search_goal(
            nodes@,
            start,
            end,
        ) matches Some(goal) && connected(nodes@, goal, start))),
        match r {
            Some(path) => route(nodes@, start, end) == Some(path@),
            None => route(nodes@, start, end).is_none(),
        },
{
    let goal = match find_search_goal(nodes, start, end) {
        Some(goal) => goal,
        None => {
            return None;
        },
    };
    // Asking for the size brings the knowledge that the table is finite.
    let _ = nodes.len();
    let first = PathNode {
        position: start,
        g: 0,
        f: manhattan_heuristic(start, goal),
        previous: None,
    };
    let mut open: Vec<PathNode> = Vec::new();
    open.push(first);
    let mut closed: Vec<PathNode> = Vec::new();
    proof {
        lemma_initial(nodes@, start, goal, first);
        assert(open@ == seq![first]);
        assert(closed@ == Seq::<PathNode>::empty());
        assert(first == first_node(start, goal));
    }
    while open.len() > 0
        invariant
            search_inv(nodes@, start, goal, open@, closed@, Seq::empty()),
            closed.len() <= MAX_EXPANSIONS,
            nodes@.dom().finite(),
            search_goal(nodes@, start, end) == Some(goal),
            search(nodes@, goal, open@, closed@, (MAX_EXPANSIONS - closed.len()) as nat) == route(
                nodes@,
                start,
                end,
            ),
        decreases MAX_EXPANSIONS - closed.len(),
    {
        if closed.len() >= MAX_EXPANSIONS {
            proof {
                lemma_ceiling(nodes@, start, goal, open@, closed@);
            }
            return None;
        }
        let index = select_next(&open, goal);
        let ghost before = open@;
        let current = open.remove(index);
        if current.position == goal {
            proof {
                lemma_goal_found(nodes@, start, goal, before, closed@, index as int);
            }
            let path = reconstruct_path(&closed, &current);
            return Some(path);
        }
        proof {
            lemma_close(nodes@, start, goal, before, closed@, index as int);
        }
        expand(nodes, start, goal, &mut open, &mut closed, current);
    }
    proof {
        assert(open@ == Seq::<PathNode>::empty());
        lemma_exhausted(nodes@, start, goal, closed@);
    }
    None
}


/// A walk has at least as many steps as the Manhattan distance between its
/// ends.
pub proof fn lemma_walk_at_least_manhattan(
    tiles: Map<Vector2Int, Tile>,
    path: Seq<Vector2Int>,
    from: Vector2Int,
    to: Vector2Int,
)
    requires
        is_walk(tiles, path, from, to),
    ensures
        path.len() >= manhattan(from, to) + 1,
{
    lemma_walk_heuristic(tiles, path, from, to, from, path.len() - 1);
    lemma_manhattan_symmetric(from, to);
}

/// Where a walk between two cells is as short as their Manhattan distance
/// allows, which is so where nothing stands in the way, a shortest route
/// between them has that many steps too.
pub proof fn lemma_shortest_route_in_clear_corridor(
    tiles: Map<Vector2Int, Tile>,
    start: Vector2Int,
    goal: Vector2Int,
    route: Seq<Vector2Int>,
    corridor: Seq<Vector2Int>,
)
    requires
        is_shortest_route(tiles, start, goal, route),
        is_walk(tiles, corridor, goal, start),
        corridor.len() == manhattan(start, goal) + 1,
    ensures
        route.len() == manhattan(start, goal) + 1,
{
    lemma_walk_at_least_manhattan(tiles, route, goal, start);
    lemma_manhattan_symmetric(start, goal);
}

/// Where no walk leads from the goal to the start, there is no route.
pub proof fn lemma_no_route_without_connection(
    tiles: Map<Vector2Int, Tile>,
    start: Vector2Int,
    goal: Vector2Int,
    route: Seq<Vector2Int>,
)
    requires
        !connected(tiles, goal, start),
    ensures
        !is_shortest_route(tiles, start, goal, route),
{
}


/// A list with a node on a cell has a first node on it.
proof fn lemma_first_exists(list: Seq<PathNode>, position: Vector2Int, j: int)
    requires
        0 <= j < list.len(),
        list[j].position == position,
    ensures
        exists|k: int| is_first_at(list, position, k),
    decreases j,
{
    if exists|i: int| 0 <= i < j && (#[trigger] list[i]).position == position {
        let i = choose|i: int| 0 <= i < j && (#[trigger] list[i]).position == position;
        lemma_first_exists(list, position, i);
    } else {
        assert(is_first_at(list, position, j));
    }
}

/// An open list that is not empty has a first node to which no other is
/// preferred.
proof fn lemma_best_exists(open: Seq<PathNode>, goal: Vector2Int, n: int) -> (i: int)
    requires
        1 <= n <= open.len(),
    ensures
        is_best_at(open.take(n), goal, i),
    decreases n,
{
    let part = open.take(n);
    if n == 1 {
        assert(is_best_at(part, goal, 0));
        0
    } else {
        let before = lemma_best_exists(open, goal, n - 1);
        let shorter = open.take(n - 1);
        assert forall|j: int| 0 <= j < n - 1 implies part[j] == #[trigger] shorter[j] by {}
        if preferred(part[n - 1], part[before], goal) {
            assert forall|j: int| 0 <= j < n implies !preferred(
                #[trigger] part[j],
                part[n - 1],
                goal,
            ) by {
                if j < n - 1 {
                    assert(!preferred(shorter[j], shorter[before], goal));
                }
            }
            assert forall|j: int| 0 <= j < n - 1 implies preferred(
                part[n - 1],
                #[trigger] part[j],
                goal,
            ) by {
                assert(!preferred(shorter[j], shorter[before], goal));
            }
            n - 1
        } else {
            assert forall|j: int| 0 <= j < n implies !preferred(
                #[trigger] part[j],
                part[before],
                goal,
            ) by {
                if j < n - 1 {
                    assert(!preferred(shorter[j], shorter[before], goal));
                }
            }
            assert forall|j: int| 0 <= j < before implies preferred(
                part[before],
                #[trigger] part[j],
                goal,
            ) by {
                assert(preferred(shorter[before], shorter[j], goal));
            }
            before
        }
    }
}

/// Giving a neighbour of the last closed node its place keeps what holds of
/// the lists.
proof fn lemma_relaxed_keeps(
    tiles: Map<Vector2Int, Tile>,
    start: Vector2Int,
    goal: Vector2Int,
    open: Seq<PathNode>,
    closed: Seq<PathNode>,
    p: Vector2Int,
    pending: Seq<Vector2Int>,
)
    requires
        0 < closed.len() <= MAX_EXPANSIONS,
        search_inv(tiles, start, goal, open, closed, seq![p] + pending),
        adjacent(closed[closed.len() - 1].position, p),
        walkable(tiles, p),
    ensures
        search_inv(tiles, start, goal, relaxed(open, closed, p, goal), closed, pending),
{
    lemma_last_closed(tiles, start, goal, closed);
    match position_index(closed, p) {
        Some(k) => {
            assert(is_first_at(closed, p, k));
            lemma_relax_closed(tiles, start, goal, open, closed, p, pending, k);
        },
        None => {
            assert forall|j: int| 0 <= j < closed.len() implies (#[trigger] closed[j]).position
                != p by {
                if closed[j].position == p {
                    lemma_first_exists(closed, p, j);
                }
            }
            match position_index(open, p) {
                Some(k) => {
                    assert(is_first_at(open, p, k));
                    if step_node(closed, p, goal).g < open[k].g {
                        lemma_relax_update(tiles, start, goal, open, closed, p, pending, k);
                    } else {
                        lemma_relax_keep(tiles, start, goal, open, closed, p, pending, k);
                    }
                },
                None => {
                    assert forall|j: int| 0 <= j < open.len() implies (#[trigger] open[j]).position
                        != p by {
                        if open[j].position == p {
                            lemma_first_exists(open, p, j);
                        }
                    }
                    lemma_relax_push(tiles, start, goal, open, closed, p, pending);
                },
            }
        },
    }
}

/// Giving each neighbour of the last closed node its place keeps what holds
/// of the lists, with no neighbour left pending.
proof fn lemma_relaxed_all_keeps(
    tiles: Map<Vector2Int, Tile>,
    start: Vector2Int,
    goal: Vector2Int,
    open: Seq<PathNode>,
    closed: Seq<PathNode>,
    cells: Seq<Vector2Int>,
)
    requires
        0 < closed.len() <= MAX_EXPANSIONS,
        search_inv(tiles, start, goal, open, closed, cells),
        forall|i: int|
            0 <= i < cells.len() ==> walkable(tiles, #[trigger] cells[i]) && adjacent(
                closed[closed.len() - 1].position,
                cells[i],
            ),
    ensures
        search_inv(tiles, start, goal, relaxed_all(open, closed, cells, goal), closed, Seq::empty()),
    decreases cells.len(),
{
    if cells.len() == 0 {
        assert(cells =~= Seq::<Vector2Int>::empty());
    } else {
        let rest = cells.drop_first();
        assert(seq![cells[0]] + rest =~= cells);
        lemma_relaxed_keeps(tiles, start, goal, open, closed, cells[0], rest);
        assert forall|i: int| 0 <= i < rest.len() implies walkable(tiles, #[trigger] rest[i])
            && adjacent(closed[closed.len() - 1].position, rest[i]) by {
            assert(rest[i] == cells[i + 1]);
        }
        lemma_relaxed_all_keeps(
            tiles,
            start,
            goal,
            relaxed(open, closed, cells[0], goal),
            closed,
            rest,
        );
    }
}

/// What a search finds is a shortest route; and it finds one unless there is
/// none or the table is too large for it.
proof fn lemma_search(
    tiles: Map<Vector2Int, Tile>,
    start: Vector2Int,
    goal: Vector2Int,
    open: Seq<PathNode>,
    closed: Seq<PathNode>,
    fuel: nat,
)
    requires
        tiles.dom().finite(),
        search_inv(tiles, start, goal, open, closed, Seq::empty()),
        closed.len() + fuel == MAX_EXPANSIONS,
    ensures
        match search(tiles, goal, open, closed, fuel) {
            Some(path) => is_shortest_route(tiles, start, goal, path),
            None => !connected(tiles, goal, start) || tiles.dom().len() > MAX_EXPANSIONS,
        },
    decreases fuel,
{
    if open.len() == 0 {
        assert(open =~= Seq::<PathNode>::empty());
        lemma_exhausted(tiles, start, goal, closed);
    } else if fuel == 0 {
        lemma_ceiling(tiles, start, goal, open, closed);
    } else {
        let found = lemma_best_exists(open, goal, open.len() as int);
        assert(open.take(open.len() as int) =~= open);
        let index = best_index(open, goal);
        lemma_best_unique(open, goal, found);
        let current = open[index];
        if current.position == goal {
            lemma_goal_found(tiles, start, goal, open, closed, index);
        } else {
            lemma_close(tiles, start, goal, open, closed, index);
            let cells = valid_neighbours(tiles, current.position);
            let closed2 = closed.push(current);
            assert forall|i: int| 0 <= i < cells.len() implies walkable(tiles, #[trigger] cells[i])
                && adjacent(closed2[closed2.len() - 1].position, cells[i]) by {
                assert(cells.contains(cells[i]));
                lemma_valid_neighbours(tiles, current.position, cells[i]);
            }
            lemma_relaxed_all_keeps(tiles, start, goal, open.remove(index), closed2, cells);
            lemma_search(
                tiles,
                start,
                goal,
                relaxed_all(open.remove(index), closed2, cells, goal),
                closed2,
                (fuel - 1) as nat,
            );
        }
    }
}

/// The route that a search finds on a finite table is a shortest walk from its
/// goal back to the start. Where it finds none, it had nothing to head for, no
/// walk leads from the goal to the start, or the table holds more tiles than
/// the search may take nodes from its open list.
pub proof fn lemma_route_is_shortest(
    tiles: Map<Vector2Int, Tile>,
    start: Vector2Int,
    end: Vector2Int,
)
    requires
        tiles.dom().finite(),
    ensures
        match route(tiles, start, end) {
            Some(path) => search_goal(tiles, start, end) matches Some(goal) && is_shortest_route(
                tiles,
                start,
                goal,
                path,
            ),
            None => search_goal(tiles, start, end) matches Some(goal) ==> (!connected(
                tiles,
                goal,
                start,
            ) || tiles.dom().len() > MAX_EXPANSIONS),
        },
{
    match search_goal(tiles, start, end) {
        Some(goal) => {
            let first = first_node(start, goal);
            lemma_initial(tiles, start, goal, first);
            lemma_search(tiles, start, goal, seq![first], Seq::empty(), MAX_EXPANSIONS as nat);
        },
        None => {},
    }
}

} // verus!
