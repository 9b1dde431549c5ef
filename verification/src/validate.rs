//! Grid connectivity validator.
//!
//! A classification grid is rebuilt per call from three snapshot
//! collections — water cells, wall cells with an enabled flag, door
//! cells — written in that fixed order, so a later class overwrites an
//! earlier one at the same cell: a door always wins, an enabled wall
//! beats water. A bounded breadth-first search then runs from a seed
//! cell: neighbors are visited in the fixed order +x, +z, -x, -z; water
//! stops the whole search as a leak, doors and walls block traversal
//! (a door is only recorded as found), empty cells are enqueued, and a
//! visited count above the cap stops the search as oversized.
//!
//! The verdict is good exactly when a door was found and neither leak
//! nor oversize stopped the search. A bad verdict carries the path from
//! the failure cell back toward the seed (seed excluded) for
//! visualization; a good one carries the visited cells in insertion
//! order.

use vstd::prelude::*;

use std::collections::HashMap;

use crate::grid::Cell;

verus! {

broadcast use vstd::std_specs::hash::group_hash_axioms;

/// The classification of a grid cell.
#[derive(Clone, Copy, PartialEq, Eq, Structural, Debug)]
pub enum CellClass {
    Wall,
    Water,
    Door,
}

/// Whether the wall snapshot holds an enabled wall at `c`.
pub open spec fn wall_at(walls: Seq<(Cell, bool)>, c: Cell) -> bool {
    exists|i: int| 0 <= i < walls.len() && walls[i].0 == c && walls[i].1
}

/// The classification of cell `c` under the fixed write order water,
/// wall, door: a door cell is always `Door`; otherwise an enabled wall
/// cell is `Wall`; otherwise a water cell is `Water`; otherwise none.
pub open spec fn class_at(
    walls: Seq<(Cell, bool)>,
    waters: Seq<Cell>,
    doors: Seq<Cell>,
    c: Cell,
) -> Option<CellClass> {
    if doors.contains(c) {
        Some(CellClass::Door)
    } else if wall_at(walls, c) {
        Some(CellClass::Wall)
    } else if waters.contains(c) {
        Some(CellClass::Water)
    } else {
        Option::None
    }
}

/// Whether a keyed map is exactly the classification grid of the three
/// snapshots.
pub open spec fn grid_models(
    g: Map<u64, CellClass>,
    walls: Seq<(Cell, bool)>,
    waters: Seq<Cell>,
    doors: Seq<Cell>,
) -> bool {
    forall|c: Cell|
        {
            &&& (#[trigger] g.contains_key(c.key_spec())) <==> class_at(walls, waters, doors, c)
                is Some
            &&& (class_at(walls, waters, doors, c) matches Some(cl) ==> g.contains_key(
                c.key_spec(),
            ) && g[c.key_spec()] == cl)
        }
}

/// Taking one more element of a sequence adds exactly that element to
/// what it contains.
proof fn lemma_take_one_more<T>(s: Seq<T>, i: int)
    requires
        0 <= i < s.len(),
    ensures
        forall|c: T| s.take(i + 1).contains(c) <==> s.take(i).contains(c) || s[i] == c,
{
    assert forall|c: T| s.take(i + 1).contains(c) implies s.take(i).contains(c) || s[i] == c by {
        let j = choose|j: int| 0 <= j < i + 1 && (#[trigger] s.take(i + 1)[j]) == c;
        if j < i {
            assert(s.take(i)[j] == c);
        }
    }
    assert forall|c: T| s.take(i).contains(c) || s[i] == c implies s.take(i + 1).contains(c) by {
        if s.take(i).contains(c) {
            let j = choose|j: int| 0 <= j < i && (#[trigger] s.take(i)[j]) == c;
            assert(s.take(i + 1)[j] == c);
        } else {
            assert(s.take(i + 1)[i] == c);
        }
    }
}

/// Builds the classification grid from the three snapshots, writing
/// water, then enabled walls, then doors, so that a later write at a
/// cell overwrites an earlier one.
pub fn build_grid(walls: &Vec<(Cell, bool)>, waters: &Vec<Cell>, doors: &Vec<Cell>) -> (g: HashMap<
    u64,
    CellClass,
>)
    ensures
        grid_models(g@, walls@, waters@, doors@),
{
    let mut g: HashMap<u64, CellClass> = HashMap::new();
    let n_waters = waters.len();
    for i in 0..n_waters
        invariant
            n_waters == waters@.len(),
            forall|c: Cell|
                (#[trigger] g@.contains_key(c.key_spec())) <==> waters@.take(i as int).contains(c),
            forall|c: Cell|
                #[trigger] g@.contains_key(c.key_spec()) ==> g@[c.key_spec()]
                    == CellClass::Water,
    {
        let w = waters[i];
        let k = w.key();
        g.insert(k, CellClass::Water);
        proof {
            lemma_take_one_more(waters@, i as int);
            assert forall|c: Cell| (#[trigger] g@.contains_key(c.key_spec())) <==> waters@.take(
                i + 1,
            ).contains(c) by {
                Cell::lemma_key_injective(c, w);
            }
        }
    }
    proof {
        assert(waters@.take(n_waters as int) =~= waters@);
    }
    let n_walls = walls.len();
    for i in 0..n_walls
        invariant
            n_walls == walls@.len(),
            forall|c: Cell|
                (#[trigger] g@.contains_key(c.key_spec())) <==> wall_at(
                    walls@.take(i as int),
                    c,
                ) || waters@.contains(c),
            forall|c: Cell|
                #[trigger] g@.contains_key(c.key_spec()) ==> g@[c.key_spec()] == (if wall_at(
                    walls@.take(i as int),
                    c,
                ) {
                    CellClass::Wall
                } else {
                    CellClass::Water
                }),
    {
        let (wc, enabled) = walls[i];
        proof {
            lemma_take_one_more(walls@, i as int);
            assert forall|c: Cell|
                wall_at(walls@.take(i + 1), c) <==> wall_at(walls@.take(i as int), c) || (c == wc
                    && enabled) by {
                if wall_at(walls@.take(i + 1), c) {
                    let j = choose|j: int|
                        0 <= j < i + 1 && (#[trigger] walls@.take(i + 1)[j]).0 == c && walls@.take(
                            i + 1,
                        )[j].1;
                    if j < i {
                        assert(walls@.take(i as int)[j] == walls@[j]);
                        assert(wall_at(walls@.take(i as int), c));
                    }
                }
                if wall_at(walls@.take(i as int), c) {
                    let j = choose|j: int|
                        0 <= j < i && (#[trigger] walls@.take(i as int)[j]).0 == c && walls@.take(
                            i as int,
                        )[j].1;
                    assert(walls@.take(i + 1)[j].0 == c && walls@.take(i + 1)[j].1);
                }
                if c == wc && enabled {
                    assert(walls@.take(i + 1)[i as int].0 == c && walls@.take(i + 1)[i as int].1);
                }
            }
        }
        if enabled {
            let k = wc.key();
            g.insert(k, CellClass::Wall);
            proof {
                assert forall|c: Cell|
                    ((#[trigger] g@.contains_key(c.key_spec())) <==> wall_at(
                        walls@.take(i + 1),
                        c,
                    ) || waters@.contains(c)) && (g@.contains_key(c.key_spec())
                    ==> g@[c.key_spec()] == (if wall_at(walls@.take(i + 1), c) {
                    CellClass::Wall
                } else {
                    CellClass::Water
                })) by {
                    Cell::lemma_key_injective(c, wc);
                }
            }
        }
    }
    proof {
        assert(walls@.take(n_walls as int) =~= walls@);
    }
    let n_doors = doors.len();
    for i in 0..n_doors
        invariant
            n_doors == doors@.len(),
            forall|c: Cell|
                (#[trigger] g@.contains_key(c.key_spec())) <==> doors@.take(i as int).contains(c)
                    || wall_at(walls@, c) || waters@.contains(c),
            forall|c: Cell|
                #[trigger] g@.contains_key(c.key_spec()) ==> g@[c.key_spec()] == (if doors@.take(
                    i as int,
                ).contains(c) {
                    CellClass::Door
                } else if wall_at(walls@, c) {
                    CellClass::Wall
                } else {
                    CellClass::Water
                }),
    {
        let d = doors[i];
        let k = d.key();
        g.insert(k, CellClass::Door);
        proof {
            lemma_take_one_more(doors@, i as int);
            assert forall|c: Cell|
                ((#[trigger] g@.contains_key(c.key_spec())) <==> doors@.take(i + 1).contains(c)
                    || wall_at(walls@, c) || waters@.contains(c)) && (g@.contains_key(c.key_spec())
                ==> g@[c.key_spec()] == (if doors@.take(i + 1).contains(c) {
                CellClass::Door
            } else if wall_at(walls@, c) {
                CellClass::Wall
            } else {
                CellClass::Water
            })) by {
                Cell::lemma_key_injective(c, d);
            }
        }
    }
    proof {
        assert(doors@.take(n_doors as int) =~= doors@);
        assert forall|c: Cell|
            ((#[trigger] g@.contains_key(c.key_spec())) <==> class_at(
                walls@,
                waters@,
                doors@,
                c,
            ) is Some) && (class_at(walls@, waters@, doors@, c) matches Some(cl)
            ==> g@.contains_key(c.key_spec()) && g@[c.key_spec()] == cl) by {
            assert(g@.contains_key(c.key_spec()) <==> doors@.contains(c) || wall_at(walls@, c)
                || waters@.contains(c));
        }
    }
    g
}


/// Whether the visited list holds an entry for cell `c`.
pub open spec fn vis_contains(v: Seq<(Cell, Cell)>, c: Cell) -> bool {
    exists|i: int| 0 <= i < v.len() && (#[trigger] v[i]).0 == c
}

/// The parent recorded by the first entry for cell `c`.
pub open spec fn vis_lookup(v: Seq<(Cell, Cell)>, c: Cell) -> Option<Cell>
    decreases v.len(),
{
    if v.len() == 0 {
        Option::None
    } else if v[0].0 == c {
        Some(v[0].1)
    } else {
        vis_lookup(v.drop_first(), c)
    }
}

/// No two visited entries share a cell.
pub open spec fn vis_distinct(v: Seq<(Cell, Cell)>) -> bool {
    forall|i: int, j: int| 0 <= i < j < v.len() ==> (#[trigger] v[i]).0 != (#[trigger] v[j]).0
}

/// The index of the (unique, under `vis_distinct`) entry for `c`.
pub open spec fn vis_index(v: Seq<(Cell, Cell)>, c: Cell) -> int {
    choose|i: int| 0 <= i < v.len() && (#[trigger] v[i]).0 == c
}

/// With distinct keys, the lookup of a recorded cell returns its
/// recorded parent.
proof fn lemma_vis_lookup_at(v: Seq<(Cell, Cell)>, c: Cell, i: int)
    requires
        vis_distinct(v),
        0 <= i < v.len(),
        v[i].0 == c,
    ensures
        vis_lookup(v, c) == Some(v[i].1),
    decreases v.len(),
{
    if i == 0 {
    } else {
        assert(v[0].0 != c);
        let d = v.drop_first();
        assert(d[i - 1] == v[i]);
        assert(vis_distinct(d)) by {
            assert forall|a: int, b: int| 0 <= a < b < d.len() implies (#[trigger] d[a]).0 != (
            #[trigger] d[b]).0 by {
                assert(d[a] == v[a + 1] && d[b] == v[b + 1]);
            }
        }
        lemma_vis_lookup_at(d, c, i - 1);
    }
}

/// The result of expanding one frontier cell's four neighbor
/// directions.
pub struct DirsOutcome {
    pub queue: Seq<Cell>,
    pub visited: Seq<(Cell, Cell)>,
    pub door_found: bool,
    pub water_hit: Option<Cell>,
}

/// Expands the neighbors of `current` from direction `d` on, in the
/// fixed order +x, +z, -x, -z. A fresh neighbor is recorded with
/// parent `current` whatever its class; water stops the scan at once,
/// a door sets the door flag without enqueueing, a wall blocks, an
/// empty neighbor joins the queue.
pub open spec fn bfs_dirs(
    walls: Seq<(Cell, bool)>,
    waters: Seq<Cell>,
    doors: Seq<Cell>,
    current: Cell,
    d: int,
    queue: Seq<Cell>,
    visited: Seq<(Cell, Cell)>,
    door_found: bool,
) -> DirsOutcome
    decreases 4 - d,
{
    if d < 0 || d >= 4 {
        DirsOutcome { queue, visited, door_found, water_hit: Option::None }
    } else {
        let n = current.step_spec(d);
        if vis_contains(visited, n) {
            bfs_dirs(walls, waters, doors, current, d + 1, queue, visited, door_found)
        } else {
            let visited2 = visited.push((n, current));
            match class_at(walls, waters, doors, n) {
                Some(CellClass::Water) => DirsOutcome {
                    queue,
                    visited: visited2,
                    door_found,
                    water_hit: Some(n),
                },
                Some(CellClass::Door) => bfs_dirs(
                    walls,
                    waters,
                    doors,
                    current,
                    d + 1,
                    queue,
                    visited2,
                    true,
                ),
                Some(CellClass::Wall) => bfs_dirs(
                    walls,
                    waters,
                    doors,
                    current,
                    d + 1,
                    queue,
                    visited2,
                    door_found,
                ),
                Option::None => bfs_dirs(
                    walls,
                    waters,
                    doors,
                    current,
                    d + 1,
                    queue.push(n),
                    visited2,
                    door_found,
                ),
            }
        }
    }
}

/// The final state of the bounded search.
pub struct BfsOutcome {
    pub visited: Seq<(Cell, Cell)>,
    pub door_found: bool,
    pub leak: bool,
    pub oversized: bool,
    pub failure: Option<Cell>,
}

/// Runs the bounded search: pops the cell at `head`, stops as
/// oversized when more than `cap` cells are recorded, stops as a leak
/// when a neighbor scan hits water, and otherwise continues with the
/// extended queue. `fuel` only bounds the recursion; the caller picks
/// it large enough.
pub open spec fn bfs_loop(
    walls: Seq<(Cell, bool)>,
    waters: Seq<Cell>,
    doors: Seq<Cell>,
    cap: int,
    queue: Seq<Cell>,
    head: int,
    visited: Seq<(Cell, Cell)>,
    door_found: bool,
    fuel: nat,
) -> Option<BfsOutcome>
    decreases fuel,
{
    if fuel == 0 {
        Option::None
    } else if head >= queue.len() {
        Some(
            BfsOutcome {
                visited,
                door_found,
                leak: false,
                oversized: false,
                failure: Option::None,
            },
        )
    } else if visited.len() > cap {
        Some(
            BfsOutcome {
                visited,
                door_found,
                leak: false,
                oversized: true,
                failure: Some(queue[head]),
            },
        )
    } else {
        let d = bfs_dirs(walls, waters, doors, queue[head], 0, queue, visited, door_found);
        match d.water_hit {
            Some(b) => Some(
                BfsOutcome {
                    visited: d.visited,
                    door_found: d.door_found,
                    leak: true,
                    oversized: false,
                    failure: Some(b),
                },
            ),
            Option::None => bfs_loop(
                walls,
                waters,
                doors,
                cap,
                d.queue,
                head + 1,
                d.visited,
                d.door_found,
                (fuel - 1) as nat,
            ),
        }
    }
}

/// The search outcome for a seed cell: queue and visited start with
/// the seed (recorded as its own parent), and the fuel covers every
/// run the cap admits.
pub open spec fn validate_outcome(
    walls: Seq<(Cell, bool)>,
    waters: Seq<Cell>,
    doors: Seq<Cell>,
    seed: Cell,
    cap: int,
) -> Option<BfsOutcome> {
    bfs_loop(
        walls,
        waters,
        doors,
        cap,
        seq![seed],
        0,
        seq![(seed, seed)],
        false,
        (cap + 6) as nat,
    )
}

/// The parent chain from `c` back toward the seed, the seed excluded.
pub open spec fn path_rec(visited: Seq<(Cell, Cell)>, c: Cell, seed: Cell, fuel: nat) -> Seq<Cell>
    decreases fuel,
{
    if fuel == 0 {
        Seq::empty()
    } else if c == seed {
        Seq::empty()
    } else {
        match vis_lookup(visited, c) {
            Option::None => seq![c],
            Some(p) => seq![c] + path_rec(visited, p, seed, (fuel - 1) as nat),
        }
    }
}

/// The visualization path of a failed search: the failure cell's
/// parent chain back toward the seed.
pub open spec fn failure_path(visited: Seq<(Cell, Cell)>, failure: Option<Cell>, seed: Cell)
    -> Seq<Cell> {
    match failure {
        Option::None => Seq::empty(),
        Some(c) => path_rec(visited, c, seed, (visited.len() + 1) as nat),
    }
}

/// What one neighbor expansion preserves and produces: the visited
/// list only grows, the queue grows by at most as much and only by
/// freshly visited cells, and a water hit is a freshly recorded,
/// water-classified cell.
proof fn lemma_dirs_props(
    walls: Seq<(Cell, bool)>,
    waters: Seq<Cell>,
    doors: Seq<Cell>,
    current: Cell,
    d: int,
    queue: Seq<Cell>,
    visited: Seq<(Cell, Cell)>,
    door_found: bool,
)
    ensures
        ({
            let o = bfs_dirs(walls, waters, doors, current, d, queue, visited, door_found);
            &&& o.visited.len() >= visited.len()
            &&& o.queue.len() >= queue.len()
            &&& o.queue.len() - queue.len() <= o.visited.len() - visited.len()
            &&& forall|x: Cell| vis_contains(visited, x) ==> vis_contains(o.visited, x)
            &&& forall|i: int| 0 <= i < queue.len() ==> (#[trigger] o.queue[i]) == queue[i]
            &&& forall|i: int|
                queue.len() <= i < o.queue.len() ==> vis_contains(o.visited, #[trigger] o.queue[i])
            &&& (o.water_hit matches Some(b) ==> class_at(walls, waters, doors, b) == Some(
                CellClass::Water,
            ) && vis_contains(o.visited, b) && !vis_contains(visited, b))
        }),
    decreases 4 - d,
{
    if d < 0 || d >= 4 {
    } else {
        let n = current.step_spec(d);
        if vis_contains(visited, n) {
            lemma_dirs_props(walls, waters, doors, current, d + 1, queue, visited, door_found);
        } else {
            let visited2 = visited.push((n, current));
            assert(vis_contains(visited2, n)) by {
                assert(visited2[visited.len() as int].0 == n);
            }
            assert forall|x: Cell| vis_contains(visited, x) implies vis_contains(
                visited2,
                x,
            ) by {
                let i = choose|i: int| 0 <= i < visited.len() && (#[trigger] visited[i]).0 == x;
                assert(visited2[i].0 == x);
            }
            match class_at(walls, waters, doors, n) {
                Some(CellClass::Water) => {
                }
                Some(CellClass::Door) => {
                    lemma_dirs_props(walls, waters, doors, current, d + 1, queue, visited2, true);
                }
                Some(CellClass::Wall) => {
                    lemma_dirs_props(
                        walls,
                        waters,
                        doors,
                        current,
                        d + 1,
                        queue,
                        visited2,
                        door_found,
                    );
                }
                Option::None => {
                    lemma_dirs_props(
                        walls,
                        waters,
                        doors,
                        current,
                        d + 1,
                        queue.push(n),
                        visited2,
                        door_found,
                    );
                    let o = bfs_dirs(
                        walls,
                        waters,
                        doors,
                        current,
                        d + 1,
                        queue.push(n),
                        visited2,
                        door_found,
                    );
                    assert forall|i: int| 0 <= i < queue.len() implies (#[trigger] o.queue[i])
                        == queue[i] by {
                        assert(o.queue[i] == queue.push(n)[i]);
                    }
                    assert forall|i: int|
                        queue.len() <= i < o.queue.len() implies vis_contains(
                        o.visited,
                        #[trigger] o.queue[i],
                    ) by {
                        if i == queue.len() {
                            assert(o.queue[i] == queue.push(n)[i]);
                            assert(o.queue[i] == n);
                        }
                    }
                }
            }
        }
    }
}

/// What a completed search guarantees: visited entries only
/// accumulate; a leak names a freshly found water cell; an oversize
/// stop names an already-visited cell and a visited count above the
/// cap; the two never hold together, and a failure cell exists
/// exactly when one of them holds.
proof fn lemma_loop_props(
    walls: Seq<(Cell, bool)>,
    waters: Seq<Cell>,
    doors: Seq<Cell>,
    cap: int,
    queue: Seq<Cell>,
    head: int,
    visited: Seq<(Cell, Cell)>,
    door_found: bool,
    fuel: nat,
    o: BfsOutcome,
)
    requires
        0 <= head,
        bfs_loop(walls, waters, doors, cap, queue, head, visited, door_found, fuel) == Some(o),
        forall|i: int| 0 <= i < queue.len() ==> vis_contains(visited, #[trigger] queue[i]),
    ensures
        forall|x: Cell| vis_contains(visited, x) ==> vis_contains(o.visited, x),
        o.visited.len() >= visited.len(),
        o.leak ==> !o.oversized,
        o.oversized ==> !o.leak && o.visited.len() > cap,
        (o.leak || o.oversized) <==> o.failure is Some,
        o.leak ==> (o.failure matches Some(b) && class_at(walls, waters, doors, b) == Some(
            CellClass::Water,
        ) && vis_contains(o.visited, b) && !vis_contains(visited, b)),
        o.oversized ==> (o.failure matches Some(b) && vis_contains(o.visited, b)),
    decreases fuel,
{
    if head >= queue.len() {
    } else if visited.len() > cap {
        assert(vis_contains(visited, queue[head]));
    } else {
        let d = bfs_dirs(walls, waters, doors, queue[head], 0, queue, visited, door_found);
        lemma_dirs_props(walls, waters, doors, queue[head], 0, queue, visited, door_found);
        match d.water_hit {
            Some(b) => {
            }
            Option::None => {
                assert forall|i: int| 0 <= i < d.queue.len() implies vis_contains(
                    d.visited,
                    #[trigger] d.queue[i],
                ) by {
                    if i < queue.len() {
                        assert(d.queue[i] == queue[i]);
                        assert(vis_contains(visited, queue[i]));
                    }
                }
                lemma_loop_props(
                    walls,
                    waters,
                    doors,
                    cap,
                    d.queue,
                    head + 1,
                    d.visited,
                    d.door_found,
                    (fuel - 1) as nat,
                    o,
                );
            }
        }
    }
}


/// Entry `i`'s parent appears among the earlier entries.
pub open spec fn chain_prev(v: Seq<(Cell, Cell)>, i: int) -> bool {
    exists|j: int| 0 <= j < i && (#[trigger] v[j]).0 == v[i].1
}

/// Cell `c` lies within `r` steps of `seed` on each axis.
pub open spec fn in_box(seed: Cell, c: Cell, r: int) -> bool {
    &&& seed.x - r <= c.x <= seed.x + r
    &&& seed.z - r <= c.z <= seed.z + r
}

/// The working state of the search: the visited list starts at the
/// seed (its own parent) and has distinct cells, the parent map
/// mirrors it, parents appear before their children, entry `i` lies
/// within `i` steps of the seed, and the queue holds visited cells
/// only, no more than were visited.
pub open spec fn search_wf(
    seed: Cell,
    visited: Seq<(Cell, Cell)>,
    parents: Map<u64, Cell>,
    queue: Seq<Cell>,
    cap: int,
) -> bool {
    &&& visited.len() >= 1
    &&& visited[0] == (seed, seed)
    &&& vis_distinct(visited)
    &&& forall|c: Cell|
        (#[trigger] parents.contains_key(c.key_spec())) <==> vis_contains(visited, c)
    &&& forall|i: int|
        0 <= i < visited.len() ==> parents[(#[trigger] visited[i]).0.key_spec()] == visited[i].1
    &&& forall|i: int| 1 <= i < visited.len() ==> chain_prev(visited, i)
    &&& forall|i: int| 0 <= i < visited.len() ==> in_box(seed, (#[trigger] visited[i]).0, i)
    &&& queue.len() <= visited.len()
    &&& forall|i: int| 0 <= i < queue.len() ==> vis_contains(visited, #[trigger] queue[i])
    &&& visited.len() <= cap + 4
}

/// The verdict of one validation run: the flags, the visited cells in
/// insertion order, and — when the run failed — the path from the
/// failure cell back toward the seed.
pub struct Verdict {
    pub good: bool,
    pub door_found: bool,
    pub leak: bool,
    pub oversized: bool,
    pub visited: Vec<Cell>,
    pub path: Vec<Cell>,
}

/// The validator's full contract: the search outcome exists, the
/// flags copy its flags, the result is good exactly when a door was
/// found and nothing stopped the search, the visited cells are the
/// outcome's in insertion order, and the path is the failure cell's
/// parent chain.
pub open spec fn verdict_matches(
    walls: Seq<(Cell, bool)>,
    waters: Seq<Cell>,
    doors: Seq<Cell>,
    seed: Cell,
    cap: int,
    good: bool,
    door_found: bool,
    leak: bool,
    oversized: bool,
    visited: Seq<Cell>,
    path: Seq<Cell>,
) -> bool {
    validate_outcome(walls, waters, doors, seed, cap) matches Some(o) && {
        &&& door_found == o.door_found
        &&& leak == o.leak
        &&& oversized == o.oversized
        &&& good == (o.door_found && !o.leak && !o.oversized)
        &&& visited.len() == o.visited.len()
        &&& forall|i: int| 0 <= i < o.visited.len() ==> visited[i] == (#[trigger] o.visited[i]).0
        &&& path == failure_path(o.visited, o.failure, seed)
    }
}

/// Validates the region around `seed` against the given snapshots:
/// breadth-first search from the seed over the classification grid,
/// stopped by water (leak), by more than `cap` visited cells
/// (oversized), or by frontier exhaustion. The verdict is good exactly
/// when a door was found and nothing stopped the search; a leak's
/// path starts at the water cell that caused it.
#[verifier::loop_isolation(false)]
#[verifier::rlimit(100)]
pub fn validate(
    seed: Cell,
    walls: &Vec<(Cell, bool)>,
    waters: &Vec<Cell>,
    doors: &Vec<Cell>,
    cap: usize,
) -> (v: Verdict)
    requires
        seed.x - (cap + 10) >= i32::MIN,
        seed.x + (cap + 10) <= i32::MAX,
        seed.z - (cap + 10) >= i32::MIN,
        seed.z + (cap + 10) <= i32::MAX,
    ensures
        verdict_matches(
            walls@,
            waters@,
            doors@,
            seed,
            cap as int,
            v.good,
            v.door_found,
            v.leak,
            v.oversized,
            v.visited@,
            v.path@,
        ),
        v.good <==> (v.door_found && !v.leak && !v.oversized),
        v.visited@.len() >= 1 && v.visited@[0] == seed,
        v.oversized ==> v.visited@.len() > cap,
        !(v.leak && v.oversized),
        v.leak ==> v.path@.len() >= 1 && class_at(walls@, waters@, doors@, v.path@[0]) == Some(
            CellClass::Water,
        ),
        v.good ==> v.path@.len() == 0,
{
    let class_grid = build_grid(walls, waters, doors);
    let mut queue: Vec<Cell> = Vec::new();
    queue.push(seed);
    let mut head: usize = 0;
    let mut visited: Vec<(Cell, Cell)> = Vec::new();
    visited.push((seed, seed));
    let mut parents: HashMap<u64, Cell> = HashMap::new();
    parents.insert(seed.key(), seed);
    let mut door_found = false;
    let mut leak = false;
    let mut oversized = false;
    let mut failure: Option<Cell> = Option::None;
    proof {
        assert(queue@ =~= seq![seed]);
        assert(visited@ =~= seq![(seed, seed)]);
        assert(vis_contains(visited@, seed)) by {
            assert(visited@[0].0 == seed);
        }
        assert forall|c: Cell| (#[trigger] parents@.contains_key(c.key_spec())) <==> vis_contains(
            visited@,
            c,
        ) by {
            Cell::lemma_key_injective(c, seed);
        }
    }
    while head < queue.len()
        invariant
            search_wf(seed, visited@, parents@, queue@, cap as int),
            head <= queue@.len(),
            leak == false,
            oversized == false,
            failure is None,
            bfs_loop(
                walls@,
                waters@,
                doors@,
                cap as int,
                queue@,
                head as int,
                visited@,
                door_found,
                (cap + 6 - head) as nat,
            ) == validate_outcome(walls@, waters@, doors@, seed, cap as int),
        decreases cap + 6 - head,
    {
        let current = queue[head];
        proof {
            assert(vis_contains(visited@, current));
            let j = choose|j: int|
                0 <= j < visited@.len() && (#[trigger] visited@[j]).0 == current;
            assert(in_box(seed, current, j));
            assert(in_box(seed, current, cap + 3));
        }
        if visited.len() > cap {
            oversized = true;
            failure = Some(current);
            proof {
                assert(bfs_loop(
                    walls@,
                    waters@,
                    doors@,
                    cap as int,
                    queue@,
                    head as int,
                    visited@,
                    door_found,
                    (cap + 6 - head) as nat,
                ) == Some(
                    BfsOutcome {
                        visited: visited@,
                        door_found,
                        leak: false,
                        oversized: true,
                        failure: Some(queue@[head as int]),
                    },
                ));
            }
            break;
        }
        let ghost q0 = queue@;
        let ghost v0 = visited@;
        let ghost df0 = door_found;
        for dir in 0..4usize
            invariant
                search_wf(seed, visited@, parents@, queue@, cap as int),
                q0.len() <= queue@.len(),
                forall|i: int| 0 <= i < q0.len() ==> (#[trigger] queue@[i]) == q0[i],
                v0.len() <= visited@.len(),
                visited@.len() <= v0.len() + dir,
                v0.len() <= cap,
                queue@.len() - q0.len() <= visited@.len() - v0.len(),
                oversized == false,
                in_box(seed, current, cap + 3),
                leak == false,
                failure is None,
                bfs_dirs(walls@, waters@, doors@, current, 0, q0, v0, df0) == bfs_dirs(
                    walls@,
                    waters@,
                    doors@,
                    current,
                    dir as int,
                    queue@,
                    visited@,
                    door_found,
                ),
        {
            let n = current.step(dir);
            let nk = n.key();
            let ghost q_in = queue@;
            let ghost v_in = visited@;
            let ghost df_in = door_found;
            if !parents.contains_key(&nk) {
                proof {
                    assert(!vis_contains(visited@, n));
                }
                let cls: Option<CellClass> = match class_grid.get(&nk) {
                    Some(c) => Some(*c),
                    Option::None => Option::None,
                };
                visited.push((n, current));
                parents.insert(nk, current);
                proof {
                    let vnew = visited@;
                    let ilast = v_in.len() as int;
                    assert(vnew[ilast] == (n, current));
                    assert(vis_contains(v_in, current)) by {
                        assert(q_in[head as int] == current);
                        assert(vis_contains(v_in, q_in[head as int]));
                    }
                    assert forall|c: Cell| (#[trigger] parents@.contains_key(c.key_spec()))
                        <==> vis_contains(vnew, c) by {
                        Cell::lemma_key_injective(c, n);
                        if c != n {
                            if vis_contains(vnew, c) {
                                let i = choose|i: int|
                                    0 <= i < vnew.len() && (#[trigger] vnew[i]).0 == c;
                                assert(v_in[i].0 == c);
                                assert(vis_contains(v_in, c));
                            }
                            if vis_contains(v_in, c) {
                                let i = choose|i: int|
                                    0 <= i < v_in.len() && (#[trigger] v_in[i]).0 == c;
                                assert(vnew[i].0 == c);
                            }
                        }
                    }
                    assert forall|i: int| 0 <= i < vnew.len() implies parents@[(
                    #[trigger] vnew[i]).0.key_spec()] == vnew[i].1 by {
                        if i < ilast {
                            assert(vnew[i] == v_in[i]);
                            Cell::lemma_key_injective(v_in[i].0, n);
                            assert(v_in[i].0 != n);
                        }
                    }
                    assert(vis_distinct(vnew)) by {
                        assert forall|i: int, j: int|
                            0 <= i < j < vnew.len() implies (#[trigger] vnew[i]).0 != (
                        #[trigger] vnew[j]).0 by {
                            if j < ilast {
                                assert(vnew[i] == v_in[i] && vnew[j] == v_in[j]);
                            } else {
                                assert(vnew[i] == v_in[i]);
                                assert(vis_contains(v_in, v_in[i].0)) by {
                                    assert((#[trigger] v_in[i]).0 == v_in[i].0);
                                }
                            }
                        }
                    }
                    assert forall|i: int| 1 <= i < vnew.len() implies chain_prev(vnew, i) by {
                        if i < ilast {
                            assert(chain_prev(v_in, i));
                            let j = choose|j: int| 0 <= j < i && (#[trigger] v_in[j]).0 == v_in[i].1;
                            assert(vnew[j].0 == vnew[i].1);
                        } else {
                            let j = choose|j: int|
                                0 <= j < v_in.len() && (#[trigger] v_in[j]).0 == current;
                            assert(vnew[j].0 == vnew[i].1);
                        }
                    }
                    assert forall|i: int| 0 <= i < vnew.len() implies in_box(
                        seed,
                        (#[trigger] vnew[i]).0,
                        i,
                    ) by {
                        if i < ilast {
                            assert(vnew[i] == v_in[i]);
                        } else {
                            let j = choose|j: int|
                                0 <= j < v_in.len() && (#[trigger] v_in[j]).0 == current;
                            assert(in_box(seed, current, j));
                        }
                    }
                    assert(vis_contains(vnew, n)) by {
                        assert(vnew[ilast].0 == n);
                    }
                    assert forall|i: int| 0 <= i < queue@.len() implies vis_contains(
                        vnew,
                        #[trigger] queue@[i],
                    ) by {
                        assert(vis_contains(v_in, queue@[i]));
                        let ii = choose|ii: int|
                            0 <= ii < v_in.len() && (#[trigger] v_in[ii]).0 == queue@[i];
                        assert(vnew[ii].0 == queue@[i]);
                    }
                }
                match cls {
                    Some(CellClass::Water) => {
                        leak = true;
                        failure = Some(n);
                        proof {
                            assert(class_at(walls@, waters@, doors@, n) == Some(CellClass::Water));
                            assert(bfs_dirs(
                                walls@,
                                waters@,
                                doors@,
                                current,
                                dir as int,
                                q_in,
                                v_in,
                                df_in,
                            ) == (DirsOutcome {
                                queue: q_in,
                                visited: v_in.push((n, current)),
                                door_found: df_in,
                                water_hit: Some(n),
                            }));
                            assert(visited@ =~= v_in.push((n, current)));
                        }
                        break;
                    }
                    Some(CellClass::Door) => {
                        door_found = true;
                        proof {
                            assert(class_at(walls@, waters@, doors@, n) == Some(CellClass::Door));
                            assert(visited@ =~= v_in.push((n, current)));
                            assert(bfs_dirs(
                                walls@,
                                waters@,
                                doors@,
                                current,
                                dir as int,
                                q_in,
                                v_in,
                                df_in,
                            ) == bfs_dirs(
                                walls@,
                                waters@,
                                doors@,
                                current,
                                dir + 1,
                                queue@,
                                visited@,
                                door_found,
                            ));
                        }
                    }
                    Some(CellClass::Wall) => {
                        proof {
                            assert(class_at(walls@, waters@, doors@, n) == Some(CellClass::Wall));
                            assert(visited@ =~= v_in.push((n, current)));
                            assert(bfs_dirs(
                                walls@,
                                waters@,
                                doors@,
                                current,
                                dir as int,
                                q_in,
                                v_in,
                                df_in,
                            ) == bfs_dirs(
                                walls@,
                                waters@,
                                doors@,
                                current,
                                dir + 1,
                                queue@,
                                visited@,
                                door_found,
                            ));
                        }
                    }
                    Option::None => {
                        queue.push(n);
                        proof {
                            assert(class_at(walls@, waters@, doors@, n) is None);
                            assert(visited@ =~= v_in.push((n, current)));
                            assert(queue@ =~= q_in.push(n));
                            assert(bfs_dirs(
                                walls@,
                                waters@,
                                doors@,
                                current,
                                dir as int,
                                q_in,
                                v_in,
                                df_in,
                            ) == bfs_dirs(
                                walls@,
                                waters@,
                                doors@,
                                current,
                                dir + 1,
                                queue@,
                                visited@,
                                door_found,
                            ));
                        }
                    }
                }
            } else {
                proof {
                    assert(vis_contains(visited@, n));
                    assert(bfs_dirs(
                        walls@,
                        waters@,
                        doors@,
                        current,
                        dir as int,
                        q_in,
                        v_in,
                        df_in,
                    ) == bfs_dirs(
                        walls@,
                        waters@,
                        doors@,
                        current,
                        dir + 1,
                        queue@,
                        visited@,
                        door_found,
                    ));
                }
            }
        }
        proof {
            assert(search_wf(seed, visited@, parents@, queue@, cap as int));
            assert(bfs_dirs(walls@, waters@, doors@, current, 0, q0, v0, df0) == (DirsOutcome {
                queue: queue@,
                visited: visited@,
                door_found,
                water_hit: if leak {
                    failure
                } else {
                    Option::None
                },
            }));
        }
        if leak {
            proof {
                assert(bfs_loop(
                    walls@,
                    waters@,
                    doors@,
                    cap as int,
                    q0,
                    head as int,
                    v0,
                    df0,
                    (cap + 6 - head) as nat,
                ) == Some(
                    BfsOutcome {
                        visited: visited@,
                        door_found,
                        leak: true,
                        oversized: false,
                        failure,
                    },
                ));
            }
            break;
        }
        proof {
            assert(bfs_loop(
                walls@,
                waters@,
                doors@,
                cap as int,
                q0,
                head as int,
                v0,
                df0,
                (cap + 6 - head) as nat,
            ) == bfs_loop(
                walls@,
                waters@,
                doors@,
                cap as int,
                queue@,
                head + 1,
                visited@,
                door_found,
                (cap + 6 - head - 1) as nat,
            ));
        }
        head = head + 1;
    }
    let ghost o = BfsOutcome { visited: visited@, door_found, leak, oversized, failure };
    proof {
        assert(search_wf(seed, visited@, parents@, queue@, cap as int));
        assert(validate_outcome(walls@, waters@, doors@, seed, cap as int) == Some(o));
        assert(vis_contains(seq![(seed, seed)], seed)) by {
            assert(seq![(seed, seed)][0].0 == seed);
        }
        lemma_loop_props(
            walls@,
            waters@,
            doors@,
            cap as int,
            seq![seed],
            0,
            seq![(seed, seed)],
            false,
            (cap + 6) as nat,
            o,
        );
    }
    let good = door_found && !leak && !oversized;
    let n_vis = visited.len();
    let mut cells: Vec<Cell> = Vec::new();
    for i in 0..n_vis
        invariant
            cells@.len() == i,
            forall|j: int| 0 <= j < i ==> (#[trigger] cells@[j]) == visited@[j].0,
    {
        cells.push(visited[i].0);
    }
    let mut path: Vec<Cell> = Vec::new();
    match failure {
        Some(b) => {
            let ghost full = (visited@.len() + 1) as nat;
            let mut cur: Cell = b;
            let ghost mut fuel_left: nat = full;
            proof {
                assert(vis_contains(visited@, b));
                assert(0 <= vis_index(visited@, cur) < visited@.len() && visited@[vis_index(
                    visited@,
                    cur,
                )].0 == cur);
                assert(Seq::<Cell>::empty() + path_rec(visited@, cur, seed, fuel_left)
                    =~= path_rec(visited@, cur, seed, fuel_left));
            }
            while cur != seed
                invariant
                    vis_contains(visited@, cur),
                    fuel_left >= vis_index(visited@, cur) + 1,
                    path_rec(visited@, b, seed, full) == path@ + path_rec(
                        visited@,
                        cur,
                        seed,
                        fuel_left,
                    ),
                decreases vis_index(visited@, cur),
            {
                path.push(cur);
                let k = cur.key();
                let pr = parents.get(&k);
                let p = *pr.unwrap();
                proof {
                    let ghost path_before = path@.drop_last();
                    let i = vis_index(visited@, cur);
                    assert(0 <= i < visited@.len() && visited@[i].0 == cur);
                    assert(parents@[visited@[i].0.key_spec()] == visited@[i].1);
                    assert(p == visited@[i].1);
                    lemma_vis_lookup_at(visited@, cur, i);
                    assert(i != 0);
                    assert(chain_prev(visited@, i));
                    let j = choose|j: int|
                        0 <= j < i && (#[trigger] visited@[j]).0 == visited@[i].1;
                    assert(vis_contains(visited@, p)) by {
                        assert(visited@[j].0 == p);
                    }
                    let j2 = vis_index(visited@, p);
                    assert(0 <= j2 < visited@.len() && visited@[j2].0 == p);
                    assert(j2 == j);
                    assert(path_rec(visited@, cur, seed, fuel_left) == seq![cur] + path_rec(
                        visited@,
                        p,
                        seed,
                        (fuel_left - 1) as nat,
                    ));
                    assert(path_before + (seq![cur] + path_rec(
                        visited@,
                        p,
                        seed,
                        (fuel_left - 1) as nat,
                    )) =~= path@ + path_rec(visited@, p, seed, (fuel_left - 1) as nat));
                    fuel_left = (fuel_left - 1) as nat;
                }
                cur = p;
            }
            proof {
                assert(path_rec(visited@, cur, seed, fuel_left) =~= Seq::<Cell>::empty());
                assert(path@ + Seq::<Cell>::empty() =~= path@);
            }
        }
        Option::None => {
            proof {
                assert(path@ =~= Seq::<Cell>::empty());
            }
        }
    }
    proof {
        if leak {
            let b = failure->0;
            assert(b != seed);
            assert(path_rec(visited@, b, seed, (visited@.len() + 1) as nat)[0] == b);
        }
    }
    Verdict { good, door_found, leak, oversized, visited: cells, path }
}


/// The cap the validator runs with when the caller does not pick one.
pub const DEFAULT_CAP: usize = 300;

/// Validates with the standard 300-cell cap.
pub fn validate_standard(
    seed: Cell,
    walls: &Vec<(Cell, bool)>,
    waters: &Vec<Cell>,
    doors: &Vec<Cell>,
) -> (v: Verdict)
    requires
        seed.x - 310 >= i32::MIN,
        seed.x + 310 <= i32::MAX,
        seed.z - 310 >= i32::MIN,
        seed.z + 310 <= i32::MAX,
    ensures
        verdict_matches(
            walls@,
            waters@,
            doors@,
            seed,
            DEFAULT_CAP as int,
            v.good,
            v.door_found,
            v.leak,
            v.oversized,
            v.visited@,
            v.path@,
        ),
        v.good <==> (v.door_found && !v.leak && !v.oversized),
        v.visited@.len() >= 1 && v.visited@[0] == seed,
        v.oversized ==> v.visited@.len() > DEFAULT_CAP,
        !(v.leak && v.oversized),
        v.leak ==> v.path@.len() >= 1 && class_at(walls@, waters@, doors@, v.path@[0]) == Some(
            CellClass::Water,
        ),
        v.good ==> v.path@.len() == 0,
{
    validate(seed, walls, waters, doors, DEFAULT_CAP)
}

/// Law: the validator's contract pins the verdict completely — two
/// verdicts matching the same snapshot, seed and cap agree on every
/// flag, the visited order and the path, so re-running on an
/// unchanged snapshot yields an identical verdict.
pub proof fn lemma_validate_deterministic(
    walls: Seq<(Cell, bool)>,
    waters: Seq<Cell>,
    doors: Seq<Cell>,
    seed: Cell,
    cap: int,
    good1: bool,
    door1: bool,
    leak1: bool,
    over1: bool,
    visited1: Seq<Cell>,
    path1: Seq<Cell>,
    good2: bool,
    door2: bool,
    leak2: bool,
    over2: bool,
    visited2: Seq<Cell>,
    path2: Seq<Cell>,
)
    requires
        verdict_matches(
            walls,
            waters,
            doors,
            seed,
            cap,
            good1,
            door1,
            leak1,
            over1,
            visited1,
            path1,
        ),
        verdict_matches(
            walls,
            waters,
            doors,
            seed,
            cap,
            good2,
            door2,
            leak2,
            over2,
            visited2,
            path2,
        ),
    ensures
        good1 == good2,
        door1 == door2,
        leak1 == leak2,
        over1 == over2,
        visited1 == visited2,
        path1 == path2,
{
    let o = choose|o: BfsOutcome|
        validate_outcome(walls, waters, doors, seed, cap) == Some(o);
    assert forall|i: int| 0 <= i < visited1.len() implies visited1[i] == visited2[i] by {
        assert(visited1[i] == (#[trigger] o.visited[i]).0);
        assert(visited2[i] == o.visited[i].0);
    }
    assert(visited1 =~= visited2);
}

} // verus!
