//! Collider region merger.
//!
//! Scans the color mask cell by cell (columns outer, rows inner, like
//! the mesh compiler) and, at each solid cell not yet visited, runs a
//! stack-based flood fill across 4-connected solid neighbors of exactly
//! the seed cell's color, marking every member visited. Each component
//! yields one rectangle: the inclusive bounding box of its cells,
//! tagged with the component's color. The box of a concave component
//! deliberately covers cells outside the component — it is the bounding
//! rectangle, not a tight fit — but every solid cell is covered by a
//! box of its own color, and the number of rectangles equals the
//! number of components ([`lemma_merge_counts_components`]).
//! World-space conversion (centers, extents, collider height) is the
//! embedding application's concern.

use vstd::prelude::*;

use crate::grid::{dir_dx, dir_dz};
use crate::mask::{lemma_grid_index, ColorMask, Rgb};

verus! {

/// One collider rectangle: inclusive cell bounds plus the color of the
/// component it came from.
#[derive(Clone, Copy, PartialEq, Eq, Structural, Debug)]
pub struct ColliderRect {
    pub min_x: usize,
    pub min_z: usize,
    pub max_x: usize,
    pub max_z: usize,
    pub color: Rgb,
}

/// Whether the rectangle covers cell `(x, z)`.
pub open spec fn rect_covers(r: ColliderRect, x: int, z: int) -> bool {
    r.min_x <= x <= r.max_x && r.min_z <= z <= r.max_z
}

/// A rectangle that lies within a `w x h` mask.
pub open spec fn rect_wf(r: ColliderRect, w: int, h: int) -> bool {
    r.min_x <= r.max_x < w && r.min_z <= r.max_z < h
}

/// Whether some rectangle of the list covers cell `(x, z)` with that
/// cell's own color.
pub open spec fn covered(out: Seq<ColliderRect>, m: ColorMask, x: int, z: int) -> bool {
    exists|j: int|
        0 <= j < out.len() && rect_covers(#[trigger] out[j], x, z) && out[j].color == m.color_at(
            x,
            z,
        )
}

/// The working state of one flood fill: the pending stack, the global
/// visited grid, and the inclusive bounds of the cells popped so far.
pub struct FloodState {
    pub stack: Seq<(usize, usize)>,
    pub visited: Seq<bool>,
    pub min_x: int,
    pub min_z: int,
    pub max_x: int,
    pub max_z: int,
}

/// The number of unvisited entries of the grid.
pub open spec fn unvisited_count(v: Seq<bool>) -> int
    decreases v.len(),
{
    if v.len() == 0 {
        0
    } else {
        unvisited_count(v.drop_last()) + if v.last() {
            0int
        } else {
            1int
        }
    }
}

/// The unvisited count lies between 0 and the grid size.
pub proof fn lemma_unvisited_bounds(v: Seq<bool>)
    ensures
        0 <= unvisited_count(v) <= v.len(),
    decreases v.len(),
{
    if v.len() > 0 {
        lemma_unvisited_bounds(v.drop_last());
    }
}

/// Marking an unvisited entry decrements the unvisited count.
pub proof fn lemma_unvisited_update(v: Seq<bool>, i: int)
    requires
        0 <= i < v.len(),
        !v[i],
    ensures
        unvisited_count(v.update(i, true)) == unvisited_count(v) - 1,
    decreases v.len(),
{
    let u = v.update(i, true);
    if i == v.len() - 1 {
        assert(u.drop_last() =~= v.drop_last());
        assert(u.last());
    } else {
        assert(u.drop_last() =~= v.drop_last().update(i, true));
        assert(u.last() == v.last());
        lemma_unvisited_update(v.drop_last(), i);
    }
}

/// Extends the bounds of a flood state with a popped cell and drops it
/// from the stack.
pub open spec fn pop_extend(st: FloodState, c: (usize, usize)) -> FloodState {
    FloodState {
        stack: st.stack.drop_last(),
        visited: st.visited,
        min_x: if c.0 < st.min_x {
            c.0 as int
        } else {
            st.min_x
        },
        min_z: if c.1 < st.min_z {
            c.1 as int
        } else {
            st.min_z
        },
        max_x: if c.0 > st.max_x {
            c.0 as int
        } else {
            st.max_x
        },
        max_z: if c.1 > st.max_z {
            c.1 as int
        } else {
            st.max_z
        },
    }
}

/// Whether the flood admits the neighbor at `(x, z)`: solid, not yet
/// visited, and of exactly the seed color.
pub open spec fn admits(m: ColorMask, color: Rgb, visited: Seq<bool>, x: int, z: int) -> bool {
    m.solid_at(x, z) && !visited[z * m.width + x] && m.color_at(x, z) == color
}

/// Expands the four neighbors of popped cell `c` from direction `d`
/// on, in the fixed order +x, +z, -x, -z: each admitted neighbor is
/// marked visited and pushed.
pub open spec fn flood_dirs(
    m: ColorMask,
    color: Rgb,
    c: (usize, usize),
    d: int,
    st: FloodState,
) -> FloodState
    decreases 4 - d,
{
    if d < 0 || d >= 4 {
        st
    } else {
        let nx = c.0 + dir_dx(d);
        let nz = c.1 + dir_dz(d);
        if admits(m, color, st.visited, nx, nz) {
            flood_dirs(
                m,
                color,
                c,
                d + 1,
                FloodState {
                    stack: st.stack.push(((nx as usize), (nz as usize))),
                    visited: st.visited.update(nz * m.width + nx, true),
                    min_x: st.min_x,
                    min_z: st.min_z,
                    max_x: st.max_x,
                    max_z: st.max_z,
                },
            )
        } else {
            flood_dirs(m, color, c, d + 1, st)
        }
    }
}

/// Runs the flood fill to completion: pops the top cell, extends the
/// bounds with it, expands its neighbors, and repeats while the stack
/// is non-empty. `fuel` only bounds the recursion.
pub open spec fn flood(m: ColorMask, color: Rgb, st: FloodState, fuel: nat) -> Option<FloodState>
    decreases fuel,
{
    if fuel == 0 {
        Option::None
    } else if st.stack.len() == 0 {
        Some(st)
    } else {
        let c = st.stack.last();
        let st1 = pop_extend(st, c);
        let st2 = flood_dirs(m, color, c, 0, st1);
        flood(m, color, st2, (fuel - 1) as nat)
    }
}

/// Fuel that lets any flood fill of the mask run to completion.
pub open spec fn flood_fuel(m: ColorMask) -> nat {
    (2 * (m.width * m.height) + 2) as nat
}

/// The scan from cell index `c` (cell `c` is column `c / H`, row
/// `c % H`) with the given visited grid and rectangles so far: each
/// unvisited solid cell seeds one flood fill and emits the bounding
/// rectangle of its component, tagged with the seed color.
pub open spec fn merge_scan(m: ColorMask, c: int, visited: Seq<bool>, out: Seq<ColliderRect>)
    -> Seq<ColliderRect>
    decreases m.width * m.height - c,
{
    if c < 0 || c >= m.width * m.height {
        out
    } else {
        let x = c / (m.height as int);
        let z = c % (m.height as int);
        if m.solid_at(x, z) && !visited[z * m.width + x] {
            let color = m.color_at(x, z);
            let st0 = FloodState {
                stack: seq![((x as usize), (z as usize))],
                visited: visited.update(z * m.width + x, true),
                min_x: x,
                min_z: z,
                max_x: x,
                max_z: z,
            };
            match flood(m, color, st0, flood_fuel(m)) {
                Some(st) => merge_scan(
                    m,
                    c + 1,
                    st.visited,
                    out.push(
                        ColliderRect {
                            min_x: st.min_x as usize,
                            min_z: st.min_z as usize,
                            max_x: st.max_x as usize,
                            max_z: st.max_z as usize,
                            color,
                        },
                    ),
                ),
                Option::None => merge_scan(m, c + 1, visited, out),
            }
        } else {
            merge_scan(m, c + 1, visited, out)
        }
    }
}

/// The rectangles the merger returns for a mask.
pub open spec fn merge_spec(m: ColorMask) -> Seq<ColliderRect> {
    merge_scan(m, 0, Seq::new((m.width * m.height) as nat, |i: int| false), Seq::empty())
}


/// Whether the stack holds cell `(px, pz)`.
pub open spec fn stack_has(s: Seq<(usize, usize)>, px: int, pz: int) -> bool {
    exists|si: int| 0 <= si < s.len() && (#[trigger] s[si]).0 == px && s[si].1 == pz
}

/// Whether the in-bounds cell `(px, pz)` is marked in a row-major
/// `w x h` visited grid.
pub open spec fn vis_cell(v: Seq<bool>, w: int, h: int, px: int, pz: int) -> bool {
    0 <= px < w && 0 <= pz < h && v[pz * w + px]
}

/// Two distinct in-bounds cells have distinct row-major indices.
proof fn lemma_grid_index_injective(px: int, pz: int, qx: int, qz: int, w: int, h: int)
    by (nonlinear_arith)
    requires
        0 <= px < w,
        0 <= pz < h,
        0 <= qx < w,
        0 <= qz < h,
        pz * w + px == qz * w + qx,
    ensures
        px == qx && pz == qz,
{
}

/// Marking one cell marks exactly that cell.
proof fn lemma_vis_cell_update(v: Seq<bool>, v2: Seq<bool>, w: int, h: int, ux: int, uz: int)
    requires
        v.len() == w * h,
        0 <= ux < w,
        0 <= uz < h,
        v2 == v.update(uz * w + ux, true),
    ensures
        forall|px: int, pz: int|
            #[trigger] vis_cell(v2, w, h, px, pz) == (vis_cell(v, w, h, px, pz) || (px == ux && pz
                == uz)),
{
    lemma_grid_index(ux, uz, w, h);
    assert forall|px: int, pz: int|
        #[trigger] vis_cell(v2, w, h, px, pz) == (vis_cell(v, w, h, px, pz) || (px == ux && pz
            == uz)) by {
        if 0 <= px < w && 0 <= pz < h {
            lemma_grid_index(px, pz, w, h);
            if pz * w + px == uz * w + ux {
                lemma_grid_index_injective(px, pz, ux, uz, w, h);
            }
        }
    }
}

/// The neighbor of `(cx, cz)` one step in direction `dir` (0: +x,
/// 1: +z, 2: -x, 3: -z), in signed coordinates.
fn dir_step(cx: usize, cz: usize, dir: usize) -> (r: (i64, i64))
    requires
        dir < 4,
        cx <= 0xFFFF_FFFFusize,
        cz <= 0xFFFF_FFFFusize,
    ensures
        r.0 == cx + dir_dx(dir as int),
        r.1 == cz + dir_dz(dir as int),
{
    let dx: i64 = if dir == 0 {
        1
    } else if dir == 2 {
        -1
    } else {
        0
    };
    let dz: i64 = if dir == 1 {
        1
    } else if dir == 3 {
        -1
    } else {
        0
    };
    (cx as i64 + dx, cz as i64 + dz)
}

/// Merges the same-color 4-connected components of the mask into one
/// bounding rectangle each, scanning columns outer and rows inner.
/// Every solid cell is covered by some returned rectangle of its own
/// color; a concave component's rectangle deliberately covers cells
/// beyond the component.
#[verifier::loop_isolation(false)]
#[verifier::rlimit(100)]
pub fn merge(mask: &ColorMask) -> (r: Vec<ColliderRect>)
    requires
        mask.wf(),
    ensures
        r@ == merge_spec(*mask),
        forall|x: int, z: int|
            #![trigger mask.solid_at(x, z)]
            mask.solid_at(x, z) ==> covered(r@, *mask, x, z),
        forall|j: int|
            0 <= j < r@.len() ==> rect_wf(#[trigger] r@[j], mask.width as int, mask.height as int),
{
    let w = mask.width;
    let h = mask.height;
    proof {
        assert(mask.solid.len() == mask.solid@.len());
    }
    let cells = w * h;
    let mut visited: Vec<bool> = Vec::new();
    for i in 0..cells
        invariant
            visited@.len() == i,
            forall|j: int| 0 <= j < i ==> !(#[trigger] visited@[j]),
    {
        visited.push(false);
    }
    let mut out: Vec<ColliderRect> = Vec::new();
    proof {
        assert(visited@ =~= Seq::new((w * h) as nat, |i: int| false));
        assert(0 * h == 0) by (nonlinear_arith);
        assert forall|px: int, pz: int| !vis_cell(visited@, w as int, h as int, px, pz) by {
            if 0 <= px < w && 0 <= pz < h {
                lemma_grid_index(px, pz, w as int, h as int);
            }
        }
    }
    for x in 0..w
        invariant
            visited@.len() == cells,
            merge_scan(*mask, (x * h) as int, visited@, out@) == merge_spec(*mask),
            forall|px: int, pz: int|
                #![trigger mask.solid_at(px, pz)]
                0 <= px < x && 0 <= pz < h && mask.solid_at(px, pz) ==> vis_cell(
                    visited@,
                    w as int,
                    h as int,
                    px,
                    pz,
                ),
            forall|px: int, pz: int|
                #[trigger] vis_cell(visited@, w as int, h as int, px, pz) ==> mask.solid_at(px, pz)
                    && covered(out@, *mask, px, pz),
            forall|j: int|
                0 <= j < out@.len() ==> rect_wf(#[trigger] out@[j], w as int, h as int),
    {
        for z in 0..h
            invariant
                visited@.len() == cells,
                merge_scan(*mask, (x * h + z) as int, visited@, out@) == merge_spec(*mask),
                forall|px: int, pz: int|
                    #![trigger mask.solid_at(px, pz)]
                    0 <= px && 0 <= pz < h && (px < x || (px == x && pz < z)) && mask.solid_at(
                        px,
                        pz,
                    ) ==> vis_cell(visited@, w as int, h as int, px, pz),
                forall|px: int, pz: int|
                    #[trigger] vis_cell(visited@, w as int, h as int, px, pz) ==> mask.solid_at(
                        px,
                        pz,
                    ) && covered(out@, *mask, px, pz),
                forall|j: int|
                    0 <= j < out@.len() ==> rect_wf(#[trigger] out@[j], w as int, h as int),
        {
            proof {
                assert(x * h + z < w * h) by (nonlinear_arith)
                    requires 0 <= x < w && 0 <= z < h;
                vstd::arithmetic::div_mod::lemma_fundamental_div_mod_converse(
                    x as int * h as int + z as int,
                    h as int,
                    x as int,
                    z as int,
                );
                lemma_grid_index(x as int, z as int, w as int, h as int);
            }
            let idx = z * w + x;
            if mask.is_solid(x as i64, z as i64) && !visited[idx] {
                let seed_color = mask.color(x, z);
                let ghost v_pre = visited@;
                let ghost out_pre = out@;
                let mut stack: Vec<(usize, usize)> = Vec::new();
                stack.push((x, z));
                visited.set(idx, true);
                let mut bmin_x = x;
                let mut bmin_z = z;
                let mut bmax_x = x;
                let mut bmax_z = z;
                let ghost st0 = FloodState {
                    stack: seq![((x as usize), (z as usize))],
                    visited: v_pre.update(z * mask.width + x, true),
                    min_x: x as int,
                    min_z: z as int,
                    max_x: x as int,
                    max_z: z as int,
                };
                let ghost fuel0 = flood_fuel(*mask);
                let ghost mut fuel_left = fuel0;
                proof {
                    assert(stack@ =~= st0.stack);
                    assert(visited@ =~= st0.visited);
                    lemma_unvisited_bounds(v_pre);
                    lemma_unvisited_update(v_pre, idx as int);
                    lemma_vis_cell_update(v_pre, visited@, w as int, h as int, x as int, z as int);
                    assert(stack_has(stack@, x as int, z as int)) by {
                        assert(stack@[0].0 == x as int);
                    }
                }
                while stack.len() > 0
                    invariant
                        visited@.len() == cells,
                        flood(
                            *mask,
                            seed_color,
                            FloodState {
                                stack: stack@,
                                visited: visited@,
                                min_x: bmin_x as int,
                                min_z: bmin_z as int,
                                max_x: bmax_x as int,
                                max_z: bmax_z as int,
                            },
                            fuel_left,
                        ) == flood(*mask, seed_color, st0, fuel0),
                        fuel_left >= 2 * unvisited_count(visited@) + stack@.len() + 1,
                        bmin_x <= x <= bmax_x,
                        bmin_z <= z <= bmax_z,
                        bmax_x < w,
                        bmax_z < h,
                        vis_cell(visited@, w as int, h as int, x as int, z as int),
                        forall|si: int|
                            0 <= si < stack@.len() ==> ((#[trigger] stack@[si]).0 < w
                                && stack@[si].1 < h && vis_cell(
                                visited@,
                                w as int,
                                h as int,
                                stack@[si].0 as int,
                                stack@[si].1 as int,
                            )),
                        forall|px: int, pz: int|
                            #[trigger] vis_cell(v_pre, w as int, h as int, px, pz) ==> vis_cell(
                                visited@,
                                w as int,
                                h as int,
                                px,
                                pz,
                            ),
                        forall|px: int, pz: int|
                            #[trigger] vis_cell(visited@, w as int, h as int, px, pz) && !vis_cell(
                                v_pre,
                                w as int,
                                h as int,
                                px,
                                pz,
                            ) ==> mask.solid_at(px, pz) && mask.color_at(px, pz) == seed_color && (
                            stack_has(stack@, px, pz) || (bmin_x <= px <= bmax_x && bmin_z <= pz
                                <= bmax_z)),
                    decreases 2 * unvisited_count(visited@) + stack@.len(),
                {
                    let ghost st_top = FloodState {
                        stack: stack@,
                        visited: visited@,
                        min_x: bmin_x as int,
                        min_z: bmin_z as int,
                        max_x: bmax_x as int,
                        max_z: bmax_z as int,
                    };
                    let popped = stack.pop();
                    let (cx, cz) = match popped {
                        Some(p) => p,
                        Option::None => (0, 0),
                    };
                    if cx < bmin_x {
                        bmin_x = cx;
                    }
                    if cz < bmin_z {
                        bmin_z = cz;
                    }
                    if cx > bmax_x {
                        bmax_x = cx;
                    }
                    if cz > bmax_z {
                        bmax_z = cz;
                    }
                    let ghost st1 = pop_extend(st_top, (cx, cz));
                    proof {
                        assert(st1.stack =~= stack@);
                        lemma_unvisited_bounds(visited@);
                        assert forall|px: int, pz: int|
                            #[trigger] vis_cell(visited@, w as int, h as int, px, pz) && !vis_cell(
                            v_pre,
                            w as int,
                            h as int,
                            px,
                            pz,
                        ) implies mask.solid_at(px, pz) && mask.color_at(px, pz) == seed_color && (
                        stack_has(stack@, px, pz) || (bmin_x <= px <= bmax_x && bmin_z <= pz
                            <= bmax_z)) by {
                            if stack_has(st_top.stack, px, pz) {
                                let si = choose|si: int|
                                    0 <= si < st_top.stack.len() && (#[trigger] st_top.stack[si]).0
                                        == px && st_top.stack[si].1 == pz;
                                if si < st_top.stack.len() - 1 {
                                    assert(stack@[si].0 == px && stack@[si].1 == pz);
                                }
                            }
                        }
                    }
                    let ghost q1 = stack@;
                    let ghost v1 = visited@;
                    for dir in 0..4usize
                        invariant
                            visited@.len() == cells,
                            flood_dirs(*mask, seed_color, ((cx as usize), (cz as usize)), 0, st1)
                                == flood_dirs(
                                *mask,
                                seed_color,
                                ((cx as usize), (cz as usize)),
                                dir as int,
                                FloodState {
                                    stack: stack@,
                                    visited: visited@,
                                    min_x: bmin_x as int,
                                    min_z: bmin_z as int,
                                    max_x: bmax_x as int,
                                    max_z: bmax_z as int,
                                },
                            ),
                            2 * unvisited_count(visited@) + stack@.len() <= 2 * unvisited_count(v1)
                                + q1.len(),
                            vis_cell(visited@, w as int, h as int, x as int, z as int),
                            forall|si: int|
                                0 <= si < stack@.len() ==> ((#[trigger] stack@[si]).0 < w
                                    && stack@[si].1 < h && vis_cell(
                                    visited@,
                                    w as int,
                                    h as int,
                                    stack@[si].0 as int,
                                    stack@[si].1 as int,
                                )),
                            forall|px: int, pz: int|
                                #[trigger] vis_cell(v_pre, w as int, h as int, px, pz) ==> vis_cell(
                                    visited@,
                                    w as int,
                                    h as int,
                                    px,
                                    pz,
                                ),
                            forall|px: int, pz: int|
                                #[trigger] vis_cell(visited@, w as int, h as int, px, pz)
                                    && !vis_cell(v_pre, w as int, h as int, px, pz)
                                    ==> mask.solid_at(px, pz) && mask.color_at(px, pz)
                                    == seed_color && (stack_has(stack@, px, pz) || (bmin_x <= px
                                    <= bmax_x && bmin_z <= pz <= bmax_z)),
                    {
                        let (nxi, nzi) = dir_step(cx, cz, dir);
                        let ghost qd = stack@;
                        let ghost vd = visited@;
                        let mut admitted = false;
                        if mask.is_solid(nxi, nzi) {
                            let nx = nxi as usize;
                            let nz = nzi as usize;
                            proof {
                                lemma_grid_index(nx as int, nz as int, w as int, h as int);
                            }
                            let nidx = nz * w + nx;
                            if !visited[nidx] {
                                if mask.color(nx, nz) == seed_color {
                                    admitted = true;
                                    visited.set(nidx, true);
                                    stack.push((nx, nz));
                                    proof {
                                        assert(admits(*mask, seed_color, vd, nx as int, nz as int));
                                        assert(visited@ =~= vd.update(
                                            nz as int * (w as int) + nx as int,
                                            true,
                                        ));
                                        assert(stack@ =~= qd.push((nx, nz)));
                                        lemma_unvisited_update(vd, nidx as int);
                                        lemma_vis_cell_update(
                                            vd,
                                            visited@,
                                            w as int,
                                            h as int,
                                            nx as int,
                                            nz as int,
                                        );
                                        assert(stack_has(stack@, nx as int, nz as int)) by {
                                            assert(stack@[qd.len() as int].0 == nx as int);
                                        }
                                        assert forall|px: int, pz: int|
                                            stack_has(qd, px, pz) implies stack_has(
                                            stack@,
                                            px,
                                            pz,
                                        ) by {
                                            let si = choose|si: int|
                                                0 <= si < qd.len() && (#[trigger] qd[si]).0 == px
                                                    && qd[si].1 == pz;
                                            assert(stack@[si].0 == px && stack@[si].1 == pz);
                                        }
                                    }
                                }
                            }
                        }
                        proof {
                            if !admitted {
                                assert(!admits(
                                    *mask,
                                    seed_color,
                                    visited@,
                                    cx + dir_dx(dir as int),
                                    cz + dir_dz(dir as int),
                                ));
                            }
                        }
                    }
                    proof {
                        lemma_unvisited_bounds(visited@);
                        fuel_left = (fuel_left - 1) as nat;
                    }
                }
                proof {
                    lemma_unvisited_bounds(visited@);
                    assert(flood(
                        *mask,
                        seed_color,
                        FloodState {
                            stack: stack@,
                            visited: visited@,
                            min_x: bmin_x as int,
                            min_z: bmin_z as int,
                            max_x: bmax_x as int,
                            max_z: bmax_z as int,
                        },
                        fuel_left,
                    ) == Some(
                        FloodState {
                            stack: stack@,
                            visited: visited@,
                            min_x: bmin_x as int,
                            min_z: bmin_z as int,
                            max_x: bmax_x as int,
                            max_z: bmax_z as int,
                        },
                    ));
                }
                let rect = ColliderRect {
                    min_x: bmin_x,
                    min_z: bmin_z,
                    max_x: bmax_x,
                    max_z: bmax_z,
                    color: seed_color,
                };
                out.push(rect);
                proof {
                    let c = x as int * h as int + z as int;
                    assert(merge_scan(*mask, c, v_pre, out_pre) == merge_scan(
                        *mask,
                        c + 1,
                        visited@,
                        out@,
                    ));
                    assert forall|px: int, pz: int|
                        #[trigger] vis_cell(visited@, w as int, h as int, px, pz) implies
                        mask.solid_at(px, pz) && covered(out@, *mask, px, pz) by {
                        if vis_cell(v_pre, w as int, h as int, px, pz) {
                            assert(covered(out_pre, *mask, px, pz));
                            let j = choose|j: int|
                                0 <= j < out_pre.len() && rect_covers(#[trigger] out_pre[j], px, pz)
                                    && out_pre[j].color == mask.color_at(px, pz);
                            assert(rect_covers(out@[j], px, pz));
                        } else {
                            assert(rect_covers(out@[out_pre.len() as int], px, pz));
                        }
                    }
                }
            } else {
                proof {
                    let c = x as int * h as int + z as int;
                    assert(merge_scan(*mask, c, visited@, out@) == merge_scan(
                        *mask,
                        c + 1,
                        visited@,
                        out@,
                    ));
                }
            }
        }
        proof {
            assert(x * h + h == (x + 1) * h) by (nonlinear_arith);
        }
    }
    proof {
        assert(merge_scan(*mask, (w * h) as int, visited@, out@) == out@);
        assert forall|x: int, z: int|
            #![trigger mask.solid_at(x, z)]
            mask.solid_at(x, z) implies covered(out@, *mask, x, z) by {
            assert(vis_cell(visited@, w as int, h as int, x, z));
        }
    }
    out
}

/// Law: the merger's contract pins its output — running it again on
/// an unchanged mask yields an identical rectangle list.
pub proof fn lemma_merge_deterministic(m: ColorMask, r1: Seq<ColliderRect>, r2: Seq<ColliderRect>)
    requires
        r1 == merge_spec(m),
        r2 == merge_spec(m),
    ensures
        r1 == r2,
{
}


/// Whether two solid cells of equal color sit one step apart: the
/// edges of the component graph.
pub open spec fn linked(m: ColorMask, ax: int, az: int, bx: int, bz: int) -> bool {
    &&& m.solid_at(ax, az)
    &&& m.solid_at(bx, bz)
    &&& m.color_at(ax, az) == m.color_at(bx, bz)
    &&& ((ax == bx && (az == bz + 1 || az + 1 == bz)) || (az == bz && (ax == bx + 1 || ax + 1
        == bx)))
}

/// A walk through the component graph: solid cells, each linked to
/// the next.
pub open spec fn is_chain(m: ColorMask, p: Seq<(int, int)>) -> bool {
    &&& p.len() >= 1
    &&& m.solid_at(p[0].0, p[0].1)
    &&& forall|i: int|
        0 <= i < p.len() - 1 ==> linked(
            m,
            (#[trigger] p[i]).0,
            p[i].1,
            p[i + 1].0,
            p[i + 1].1,
        )
}

/// Whether two cells lie in the same same-color 4-connected
/// component.
#[verifier::opaque]
pub open spec fn connected(m: ColorMask, ax: int, az: int, bx: int, bz: int) -> bool {
    exists|p: Seq<(int, int)>|
        is_chain(m, p) && p[0] == (ax, az) && p[p.len() - 1] == (bx, bz)
}

/// A solid cell is connected to itself.
pub proof fn lemma_connected_refl(m: ColorMask, x: int, z: int)
    requires
        m.solid_at(x, z),
    ensures
        connected(m, x, z, x, z),
{
    reveal(connected);
    let p = seq![(x, z)];
    assert(is_chain(m, p) && p[0] == (x, z) && p[p.len() - 1] == (x, z));
}

/// Connectivity extends along an edge.
pub proof fn lemma_connected_step(
    m: ColorMask,
    ax: int,
    az: int,
    bx: int,
    bz: int,
    cx: int,
    cz: int,
)
    requires
        connected(m, ax, az, bx, bz),
        linked(m, bx, bz, cx, cz),
    ensures
        connected(m, ax, az, cx, cz),
{
    reveal(connected);
    let p = choose|p: Seq<(int, int)>|
        is_chain(m, p) && p[0] == (ax, az) && p[p.len() - 1] == (bx, bz);
    let q = p.push((cx, cz));
    assert(is_chain(m, q)) by {
        assert forall|i: int| 0 <= i < q.len() - 1 implies linked(
            m,
            (#[trigger] q[i]).0,
            q[i].1,
            q[i + 1].0,
            q[i + 1].1,
        ) by {
            if i < p.len() - 1 {
                assert(q[i] == p[i] && q[i + 1] == p[i + 1]);
            } else {
                assert(q[i] == p[p.len() - 1] && q[i + 1] == (cx, cz));
            }
        }
    }
    assert(q[0] == (ax, az) && q[q.len() - 1] == (cx, cz));
}

/// Connectivity is symmetric.
pub proof fn lemma_connected_sym(m: ColorMask, ax: int, az: int, bx: int, bz: int)
    requires
        connected(m, ax, az, bx, bz),
    ensures
        connected(m, bx, bz, ax, az),
{
    reveal(connected);
    let p = choose|p: Seq<(int, int)>|
        is_chain(m, p) && p[0] == (ax, az) && p[p.len() - 1] == (bx, bz);
    let n = p.len() as int;
    let q = Seq::new(p.len(), |i: int| p[n - 1 - i]);
    assert(is_chain(m, q)) by {
        assert(q[0] == p[n - 1]);
        if n > 1 {
            assert(linked(m, p[n - 2].0, p[n - 2].1, p[n - 1].0, p[n - 1].1));
        }
        assert(m.solid_at(q[0].0, q[0].1));
        assert forall|i: int| 0 <= i < q.len() - 1 implies linked(
            m,
            (#[trigger] q[i]).0,
            q[i].1,
            q[i + 1].0,
            q[i + 1].1,
        ) by {
            assert(q[i] == p[n - 1 - i] && q[i + 1] == p[n - 2 - i]);
            assert(linked(m, p[n - 2 - i].0, p[n - 2 - i].1, p[n - 1 - i].0, p[n - 1 - i].1));
        }
    }
    assert(q[0] == (bx, bz) && q[q.len() - 1] == (ax, az));
}

/// Connectivity is transitive.
pub proof fn lemma_connected_trans(
    m: ColorMask,
    ax: int,
    az: int,
    bx: int,
    bz: int,
    cx: int,
    cz: int,
)
    requires
        connected(m, ax, az, bx, bz),
        connected(m, bx, bz, cx, cz),
    ensures
        connected(m, ax, az, cx, cz),
{
    reveal(connected);
    let p = choose|p: Seq<(int, int)>|
        is_chain(m, p) && p[0] == (ax, az) && p[p.len() - 1] == (bx, bz);
    let q = choose|q: Seq<(int, int)>|
        is_chain(m, q) && q[0] == (bx, bz) && q[q.len() - 1] == (cx, cz);
    let r = p + q.drop_first();
    let np = p.len() as int;
    if q.len() == 1 {
        assert(r =~= p);
        assert(r[0] == (ax, az) && r[r.len() - 1] == (cx, cz));
    } else {
        assert(is_chain(m, r)) by {
            assert(r[0] == p[0]);
            assert forall|i: int| 0 <= i < r.len() - 1 implies linked(
                m,
                (#[trigger] r[i]).0,
                r[i].1,
                r[i + 1].0,
                r[i + 1].1,
            ) by {
                if i < np - 1 {
                    assert(r[i] == p[i] && r[i + 1] == p[i + 1]);
                } else if i == np - 1 {
                    assert(r[i] == p[np - 1] && r[i + 1] == q[1]);
                    assert(linked(m, q[0].0, q[0].1, q[1].0, q[1].1));
                } else {
                    assert(r[i] == q[i - np + 1] && r[i + 1] == q[i - np + 2]);
                    assert(linked(
                        m,
                        q[i - np + 1].0,
                        q[i - np + 1].1,
                        q[i - np + 2].0,
                        q[i - np + 2].1,
                    ));
                }
            }
        }
        assert(r[0] == (ax, az) && r[r.len() - 1] == q[q.len() - 1]);
    }
}

/// A set of cells closed under the component edges contains the whole
/// chain once it contains the chain's start.
pub proof fn lemma_chain_stays_inside(
    m: ColorMask,
    p: Seq<(int, int)>,
    member: spec_fn(int, int) -> bool,
)
    requires
        is_chain(m, p),
        member(p[0].0, p[0].1),
        forall|ax: int, az: int, bx: int, bz: int|
            member(ax, az) && #[trigger] linked(m, ax, az, bx, bz) ==> member(bx, bz),
    ensures
        member(p[p.len() - 1].0, p[p.len() - 1].1),
    decreases p.len(),
{
    if p.len() > 1 {
        let d = p.drop_last();
        assert(is_chain(m, d)) by {
            assert forall|i: int| 0 <= i < d.len() - 1 implies linked(
                m,
                (#[trigger] d[i]).0,
                d[i].1,
                d[i + 1].0,
                d[i + 1].1,
            ) by {
                assert(d[i] == p[i] && d[i + 1] == p[i + 1]);
            }
        }
        lemma_chain_stays_inside(m, d, member);
        assert(linked(m, p[p.len() - 2].0, p[p.len() - 2].1, p[p.len() - 1].0, p[p.len() - 1].1));
    }
}


/// One neighbor expansion preserves the grid size and cannot increase
/// the termination measure (two per unvisited cell plus the stack).
proof fn lemma_dirs_measure(
    m: ColorMask,
    color: Rgb,
    c: (usize, usize),
    d: int,
    st: FloodState,
)
    requires
        st.visited.len() == m.width * m.height,
    ensures
        ({
            let o = flood_dirs(m, color, c, d, st);
            &&& o.visited.len() == st.visited.len()
            &&& 2 * unvisited_count(o.visited) + o.stack.len() <= 2 * unvisited_count(st.visited)
                + st.stack.len()
        }),
    decreases 4 - d,
{
    if d < 0 || d >= 4 {
    } else {
        let nx = c.0 + dir_dx(d);
        let nz = c.1 + dir_dz(d);
        if admits(m, color, st.visited, nx, nz) {
            lemma_grid_index(nx, nz, m.width as int, m.height as int);
            lemma_unvisited_update(st.visited, nz * m.width + nx);
            lemma_dirs_measure(
                m,
                color,
                c,
                d + 1,
                FloodState {
                    stack: st.stack.push(((nx as usize), (nz as usize))),
                    visited: st.visited.update(nz * m.width + nx, true),
                    min_x: st.min_x,
                    min_z: st.min_z,
                    max_x: st.max_x,
                    max_z: st.max_z,
                },
            );
        } else {
            lemma_dirs_measure(m, color, c, d + 1, st);
        }
    }
}

/// With fuel past the termination measure, the flood fill completes.
proof fn lemma_flood_total(m: ColorMask, color: Rgb, st: FloodState, fuel: nat)
    requires
        st.visited.len() == m.width * m.height,
        fuel >= 2 * unvisited_count(st.visited) + st.stack.len() + 1,
    ensures
        flood(m, color, st, fuel) is Some,
        flood(m, color, st, fuel) matches Some(stf) ==> stf.visited.len() == m.width * m.height,
    decreases fuel,
{
    lemma_unvisited_bounds(st.visited);
    if st.stack.len() == 0 {
    } else {
        let c = st.stack.last();
        let st1 = pop_extend(st, c);
        let st2 = flood_dirs(m, color, c, 0, st1);
        lemma_dirs_measure(m, color, c, 0, st1);
        lemma_flood_total(m, color, st2, (fuel - 1) as nat);
    }
}


/// The bookkeeping part of the flood invariant: the grid keeps its
/// size, the seed is a solid cell of the flood color, base marks
/// persist, every new mark is a member of the seed's component, and
/// the stack holds newly marked cells only.
pub open spec fn comp_marks_inv(
    m: ColorMask,
    color: Rgb,
    sx: int,
    sz: int,
    v_base: Seq<bool>,
    st: FloodState,
) -> bool {
    let w = m.width as int;
    let h = m.height as int;
    &&& st.visited.len() == m.width * m.height
    &&& m.solid_at(sx, sz)
    &&& color == m.color_at(sx, sz)
    &&& forall|px: int, pz: int|
        #[trigger] vis_cell(v_base, w, h, px, pz) ==> vis_cell(st.visited, w, h, px, pz)
    &&& forall|px: int, pz: int|
        #[trigger] vis_cell(st.visited, w, h, px, pz) && !vis_cell(v_base, w, h, px, pz)
            ==> m.solid_at(px, pz) && m.color_at(px, pz) == color && connected(m, sx, sz, px, pz)
    &&& forall|si: int|
        0 <= si < st.stack.len() ==> vis_cell(
            st.visited,
            w,
            h,
            (#[trigger] st.stack[si]).0 as int,
            st.stack[si].1 as int,
        ) && !vis_cell(v_base, w, h, st.stack[si].0 as int, st.stack[si].1 as int)
}

/// Closure of the marked set under component edges, except at the
/// stacked cells and at one cell currently being expanded.
pub open spec fn closed_except(
    m: ColorMask,
    st: FloodState,
    ex: int,
    ez: int,
    use_ex: bool,
) -> bool {
    let w = m.width as int;
    let h = m.height as int;
    forall|ax: int, az: int, bx: int, bz: int|
        vis_cell(st.visited, w, h, ax, az) && !stack_has(st.stack, ax, az) && !(use_ex && ax == ex
            && az == ez) && #[trigger] linked(m, ax, az, bx, bz) ==> vis_cell(
            st.visited,
            w,
            h,
            bx,
            bz,
        )
}

/// A linked neighbor lies one step away in one of the four scan
/// directions.
proof fn lemma_linked_is_a_step(m: ColorMask, ax: int, az: int, bx: int, bz: int)
    requires
        linked(m, ax, az, bx, bz),
    ensures
        exists|dd: int| 0 <= dd < 4 && bx == ax + dir_dx(dd) && bz == az + dir_dz(dd),
{
    if az == bz && bx == ax + 1 {
        assert(bx == ax + dir_dx(0) && bz == az + dir_dz(0));
    } else if ax == bx && bz == az + 1 {
        assert(bx == ax + dir_dx(1) && bz == az + dir_dz(1));
    } else if az == bz && bx + 1 == ax {
        assert(bx == ax + dir_dx(2) && bz == az + dir_dz(2));
    } else {
        assert(bx == ax + dir_dx(3) && bz == az + dir_dz(3));
    }
}

/// Expanding the neighbors of a component member keeps the flood
/// invariant, marks every linked neighbor in a processed direction,
/// and only extends stack and marks.
proof fn lemma_dirs_component(
    m: ColorMask,
    color: Rgb,
    sx: int,
    sz: int,
    v_base: Seq<bool>,
    c: (usize, usize),
    d: int,
    st: FloodState,
)
    requires
        comp_marks_inv(m, color, sx, sz, v_base, st),
        closed_except(m, st, c.0 as int, c.1 as int, true),
        m.solid_at(c.0 as int, c.1 as int),
        m.color_at(c.0 as int, c.1 as int) == color,
        connected(m, sx, sz, c.0 as int, c.1 as int),
        0 <= d <= 4,
    ensures
        ({
            let o = flood_dirs(m, color, c, d, st);
            let w = m.width as int;
            let h = m.height as int;
            &&& comp_marks_inv(m, color, sx, sz, v_base, o)
            &&& closed_except(m, o, c.0 as int, c.1 as int, true)
            &&& o.stack.len() >= st.stack.len()
            &&& forall|si: int| 0 <= si < st.stack.len() ==> #[trigger] o.stack[si] == st.stack[si]
            &&& forall|px: int, pz: int|
                #[trigger] vis_cell(st.visited, w, h, px, pz) ==> vis_cell(o.visited, w, h, px, pz)
            &&& forall|dd: int|
                d <= dd < 4 && linked(
                    m,
                    c.0 as int,
                    c.1 as int,
                    c.0 + dir_dx(dd),
                    c.1 + dir_dz(dd),
                ) ==> vis_cell(o.visited, w, h, c.0 + #[trigger] dir_dx(dd), c.1 + dir_dz(dd))
        }),
    decreases 4 - d,
{
    let w = m.width as int;
    let h = m.height as int;
    if d < 0 || d >= 4 {
    } else {
        let nx = c.0 + dir_dx(d);
        let nz = c.1 + dir_dz(d);
        if admits(m, color, st.visited, nx, nz) {
            lemma_grid_index(nx, nz, w, h);
            let st2 = FloodState {
                stack: st.stack.push(((nx as usize), (nz as usize))),
                visited: st.visited.update(nz * m.width + nx, true),
                min_x: st.min_x,
                min_z: st.min_z,
                max_x: st.max_x,
                max_z: st.max_z,
            };
            lemma_vis_cell_update(st.visited, st2.visited, w, h, nx, nz);
            assert forall|px: int, pz: int|
                #[trigger] vis_cell(st.visited, w, h, px, pz) implies vis_cell(
                st2.visited,
                w,
                h,
                px,
                pz,
            ) by {
                assert(vis_cell(st2.visited, w, h, px, pz) == (vis_cell(st.visited, w, h, px, pz)
                    || (px == nx && pz == nz)));
            }
            assert(linked(m, c.0 as int, c.1 as int, nx, nz));
            lemma_connected_step(m, sx, sz, c.0 as int, c.1 as int, nx, nz);
            assert(vis_cell(st2.visited, w, h, nx, nz));
            assert(!vis_cell(v_base, w, h, nx, nz));
            assert(st2.visited.len() == m.width * m.height);
            assert forall|px: int, pz: int|
                #[trigger] vis_cell(v_base, w, h, px, pz) implies vis_cell(
                st2.visited,
                w,
                h,
                px,
                pz,
            ) by {
                assert(vis_cell(st.visited, w, h, px, pz));
            }
            assert forall|px: int, pz: int|
                #[trigger] vis_cell(st2.visited, w, h, px, pz) && !vis_cell(
                    v_base,
                    w,
                    h,
                    px,
                    pz,
                ) implies m.solid_at(px, pz) && m.color_at(px, pz) == color && connected(
                m,
                sx,
                sz,
                px,
                pz,
            ) by {
                if !(px == nx && pz == nz) {
                    assert(vis_cell(st.visited, w, h, px, pz));
                }
            }
            assert(comp_marks_inv(m, color, sx, sz, v_base, st2)) by {
                assert forall|si: int| 0 <= si < st2.stack.len() implies vis_cell(
                    st2.visited,
                    w,
                    h,
                    (#[trigger] st2.stack[si]).0 as int,
                    st2.stack[si].1 as int,
                ) && !vis_cell(v_base, w, h, st2.stack[si].0 as int, st2.stack[si].1 as int) by {
                    if si < st.stack.len() {
                        assert(st2.stack[si] == st.stack[si]);
                    }
                }
            }
            assert(closed_except(m, st2, c.0 as int, c.1 as int, true)) by {
                assert forall|ax: int, az: int, bx: int, bz: int|
                    vis_cell(st2.visited, w, h, ax, az) && !stack_has(st2.stack, ax, az) && !(ax
                        == c.0 as int && az == c.1 as int) && #[trigger] linked(
                        m,
                        ax,
                        az,
                        bx,
                        bz,
                    ) implies vis_cell(st2.visited, w, h, bx, bz) by {
                    if ax == nx && az == nz {
                        assert(stack_has(st2.stack, ax, az)) by {
                            assert(st2.stack[st.stack.len() as int].0 == ax);
                        }
                    } else {
                        assert(vis_cell(st.visited, w, h, ax, az));
                        assert(!stack_has(st.stack, ax, az)) by {
                            if stack_has(st.stack, ax, az) {
                                let si = choose|si: int|
                                    0 <= si < st.stack.len() && (#[trigger] st.stack[si]).0 == ax
                                        && st.stack[si].1 == az;
                                assert(st2.stack[si].0 == ax && st2.stack[si].1 == az);
                            }
                        }
                    }
                }
            }
            lemma_dirs_component(m, color, sx, sz, v_base, c, d + 1, st2);
        } else {
            lemma_dirs_component(m, color, sx, sz, v_base, c, d + 1, st);
            let o = flood_dirs(m, color, c, d + 1, st);
            assert forall|dd: int|
                d <= dd < 4 && linked(
                    m,
                    c.0 as int,
                    c.1 as int,
                    c.0 + dir_dx(dd),
                    c.1 + dir_dz(dd),
                ) implies vis_cell(o.visited, w, h, c.0 + #[trigger] dir_dx(dd), c.1 + dir_dz(
                dd,
            )) by {
                if dd == d {
                    assert(linked(m, c.0 as int, c.1 as int, nx, nz));
                    // Not admitted although linked: the neighbor is
                    // already visited.
                    assert(vis_cell(st.visited, w, h, nx, nz)) by {
                        lemma_grid_index(nx, nz, w, h);
                    }
                }
            }
        }
    }
}

/// A completed flood fill has marked exactly the seed's component on
/// top of the base marks: every new mark is a member, and the marked
/// set is closed under component edges.
proof fn lemma_flood_component(
    m: ColorMask,
    color: Rgb,
    sx: int,
    sz: int,
    v_base: Seq<bool>,
    st: FloodState,
    fuel: nat,
    stf: FloodState,
)
    requires
        comp_marks_inv(m, color, sx, sz, v_base, st),
        closed_except(m, st, 0, 0, false),
        flood(m, color, st, fuel) == Some(stf),
    ensures
        comp_marks_inv(m, color, sx, sz, v_base, stf),
        stf.stack.len() == 0,
        forall|px: int, pz: int|
            #[trigger] vis_cell(st.visited, m.width as int, m.height as int, px, pz) ==> vis_cell(
                stf.visited,
                m.width as int,
                m.height as int,
                px,
                pz,
            ),
        closed_except(m, stf, 0, 0, false),
    decreases fuel,
{
    let w = m.width as int;
    let h = m.height as int;
    if st.stack.len() == 0 {
    } else {
        let c = st.stack.last();
        let st1 = pop_extend(st, c);
        let st2 = flood_dirs(m, color, c, 0, st1);
        assert(vis_cell(st.visited, w, h, c.0 as int, c.1 as int) && !vis_cell(
            v_base,
            w,
            h,
            c.0 as int,
            c.1 as int,
        )) by {
            assert(st.stack[st.stack.len() - 1] == c);
        }
        assert(closed_except(m, st1, c.0 as int, c.1 as int, true)) by {
            assert forall|ax: int, az: int, bx: int, bz: int|
                vis_cell(st1.visited, w, h, ax, az) && !stack_has(st1.stack, ax, az) && !(ax == c.0
                    as int && az == c.1 as int) && #[trigger] linked(m, ax, az, bx, bz) implies
                vis_cell(st1.visited, w, h, bx, bz) by {
                assert(!stack_has(st.stack, ax, az)) by {
                    if stack_has(st.stack, ax, az) {
                        let si = choose|si: int|
                            0 <= si < st.stack.len() && (#[trigger] st.stack[si]).0 == ax
                                && st.stack[si].1 == az;
                        if si < st.stack.len() - 1 {
                            assert(st1.stack[si].0 == ax && st1.stack[si].1 == az);
                        }
                    }
                }
            }
        }
        assert(comp_marks_inv(m, color, sx, sz, v_base, st1)) by {
            assert forall|si: int| 0 <= si < st1.stack.len() implies vis_cell(
                st1.visited,
                w,
                h,
                (#[trigger] st1.stack[si]).0 as int,
                st1.stack[si].1 as int,
            ) && !vis_cell(v_base, w, h, st1.stack[si].0 as int, st1.stack[si].1 as int) by {
                assert(st1.stack[si] == st.stack[si]);
            }
        }
        lemma_dirs_component(m, color, sx, sz, v_base, c, 0, st1);
        assert(closed_except(m, st2, 0, 0, false)) by {
            assert forall|ax: int, az: int, bx: int, bz: int|
                vis_cell(st2.visited, w, h, ax, az) && !stack_has(st2.stack, ax, az) && !(false)
                    && #[trigger] linked(m, ax, az, bx, bz) implies vis_cell(
                st2.visited,
                w,
                h,
                bx,
                bz,
            ) by {
                if ax == c.0 as int && az == c.1 as int {
                    lemma_linked_is_a_step(m, ax, az, bx, bz);
                    let dd = choose|dd: int|
                        0 <= dd < 4 && bx == ax + dir_dx(dd) && bz == az + dir_dz(dd);
                    assert(vis_cell(st2.visited, w, h, c.0 + dir_dx(dd), c.1 + dir_dz(dd)));
                }
            }
        }
        lemma_flood_component(m, color, sx, sz, v_base, st2, (fuel - 1) as nat, stf);
    }
}


/// Connected cells are solid.
proof fn lemma_connected_solid(m: ColorMask, ax: int, az: int, bx: int, bz: int)
    requires
        connected(m, ax, az, bx, bz),
    ensures
        m.solid_at(ax, az),
        m.solid_at(bx, bz),
{
    reveal(connected);
    let p = choose|p: Seq<(int, int)>|
        is_chain(m, p) && p[0] == (ax, az) && p[p.len() - 1] == (bx, bz);
    if p.len() > 1 {
        assert(linked(m, p[p.len() - 2].0, p[p.len() - 2].1, p[p.len() - 1].0, p[p.len() - 1].1));
    }
}

/// Whether the cell is connected to some cell scanned before index
/// `bound` (scan order: columns outer, rows inner).
pub open spec fn scanned_partner(m: ColorMask, bound: int, px: int, pz: int) -> bool {
    exists|ex: int, ez: int|
        #[trigger] connected(m, px, pz, ex, ez) && ex * (m.height as int) + ez < bound
}

/// Whether scan index `c` is its component's leader: a solid cell
/// that no other cell of its component precedes in scan order.
pub open spec fn is_leader(m: ColorMask, c: int) -> bool {
    let h = m.height as int;
    &&& 0 <= c < m.width * m.height
    &&& m.solid_at(c / h, c % h)
    &&& forall|ex: int, ez: int|
        #[trigger] connected(m, c / h, c % h, ex, ez) ==> c <= ex * h + ez
}

/// The number of leader cells at scan index `c` or later.
pub open spec fn leaders_from(m: ColorMask, c: int) -> int
    decreases m.width * m.height - c,
{
    if c < 0 || c >= m.width * m.height {
        0
    } else {
        (if is_leader(m, c) {
            1int
        } else {
            0int
        }) + leaders_from(m, c + 1)
    }
}

/// The partner condition advances one scan index past a flooded
/// leader: the flood's marks are exactly the cells connected to it.
#[verifier::rlimit(100)]
#[verifier::spinoff_prover]
proof fn lemma_partner_after_flood(
    m: ColorMask,
    c: int,
    visited: Seq<bool>,
    stfv: Seq<bool>,
    x: int,
    z: int,
)
    requires
        m.wf(),
        visited.len() == m.width * m.height,
        m.height > 0,
        0 <= c < m.width * m.height,
        x == c / (m.height as int),
        z == c % (m.height as int),
        0 <= x < m.width,
        0 <= z < m.height,
        m.solid_at(x, z),
        forall|px: int, pz: int|
            #[trigger] vis_cell(visited, m.width as int, m.height as int, px, pz) <==> (
            m.solid_at(px, pz) && scanned_partner(m, c, px, pz)),
        forall|px: int, pz: int|
            #[trigger] vis_cell(visited, m.width as int, m.height as int, px, pz) ==> vis_cell(
                stfv,
                m.width as int,
                m.height as int,
                px,
                pz,
            ),
        vis_cell(stfv, m.width as int, m.height as int, x, z),
        forall|px: int, pz: int|
            #[trigger] vis_cell(stfv, m.width as int, m.height as int, px, pz) && !vis_cell(
                visited,
                m.width as int,
                m.height as int,
                px,
                pz,
            ) ==> connected(m, x, z, px, pz) && m.solid_at(px, pz),
        forall|ax: int, az: int, bx: int, bz: int|
            vis_cell(stfv, m.width as int, m.height as int, ax, az) && #[trigger] linked(
                m,
                ax,
                az,
                bx,
                bz,
            ) ==> vis_cell(stfv, m.width as int, m.height as int, bx, bz),
    ensures
        forall|px: int, pz: int|
            #[trigger] vis_cell(stfv, m.width as int, m.height as int, px, pz) <==> (m.solid_at(
                px,
                pz,
            ) && scanned_partner(m, c + 1, px, pz)),
{
    let w = m.width as int;
    let h = m.height as int;
    vstd::arithmetic::div_mod::lemma_fundamental_div_mod(c, h);
    assert(x * h + z == c) by (nonlinear_arith)
        requires c == h * x + z;
    assert forall|px: int, pz: int|
        #[trigger] vis_cell(stfv, w, h, px, pz) <==> (m.solid_at(px, pz) && scanned_partner(
            m,
            c + 1,
            px,
            pz,
        )) by {
        if vis_cell(stfv, w, h, px, pz) {
            if vis_cell(visited, w, h, px, pz) {
                let (ex, ez) = choose|ex: int, ez: int|
                    #[trigger] connected(m, px, pz, ex, ez) && ex * h + ez < c;
                assert(scanned_partner(m, c + 1, px, pz));
            } else {
                assert(connected(m, x, z, px, pz));
                lemma_connected_sym(m, x, z, px, pz);
                assert(connected(m, px, pz, x, z) && x * h + z < c + 1);
                assert(scanned_partner(m, c + 1, px, pz));
            }
        }
        if m.solid_at(px, pz) && scanned_partner(m, c + 1, px, pz) {
            let (ex, ez) = choose|ex: int, ez: int|
                #[trigger] connected(m, px, pz, ex, ez) && ex * h + ez < c + 1;
            lemma_connected_solid(m, px, pz, ex, ez);
            if ex * h + ez < c {
                assert(scanned_partner(m, c, px, pz));
                assert(vis_cell(visited, w, h, px, pz));
            } else {
                assert(ex * h + ez == c);
                assert(ex == x && ez == z) by {
                    vstd::arithmetic::div_mod::lemma_fundamental_div_mod_converse(c, h, ex, ez);
                }
                lemma_connected_sym(m, px, pz, x, z);
                let p = choose|p: Seq<(int, int)>|
                    is_chain(m, p) && p[0] == (x, z) && p[p.len() - 1] == (px, pz);
                assert(is_chain(m, p) && p[0] == (x, z) && p[p.len() - 1] == (px, pz)) by {
                    reveal(connected);
                }
                lemma_chain_stays_inside(m, p, |ax: int, az: int| vis_cell(stfv, w, h, ax, az));
            }
        }
    }
}

/// A cell connected to an already-partnered cell is itself
/// partnered.
#[verifier::rlimit(100)]
#[verifier::spinoff_prover]
proof fn lemma_partner_through(
    m: ColorMask,
    c: int,
    x: int,
    z: int,
    px: int,
    pz: int,
)
    requires
        connected(m, px, pz, x, z),
        scanned_partner(m, c, x, z),
    ensures
        scanned_partner(m, c, px, pz),
{
    let h = m.height as int;
    let (fx, fz) = choose|fx: int, fz: int|
        #[trigger] connected(m, x, z, fx, fz) && fx * h + fz < c;
    lemma_connected_trans(m, px, pz, x, z, fx, fz);
}

/// The partner condition advances one scan index past a skipped cell
/// (empty, or solid but already visited).
#[verifier::rlimit(100)]
#[verifier::spinoff_prover]
proof fn lemma_partner_after_skip(m: ColorMask, c: int, visited: Seq<bool>, x: int, z: int)
    requires
        m.wf(),
        visited.len() == m.width * m.height,
        m.height > 0,
        0 <= c < m.width * m.height,
        x == c / (m.height as int),
        z == c % (m.height as int),
        0 <= x < m.width,
        0 <= z < m.height,
        m.solid_at(x, z) ==> vis_cell(visited, m.width as int, m.height as int, x, z),
        forall|px: int, pz: int|
            #[trigger] vis_cell(visited, m.width as int, m.height as int, px, pz) <==> (
            m.solid_at(px, pz) && scanned_partner(m, c, px, pz)),
    ensures
        forall|px: int, pz: int|
            #[trigger] vis_cell(visited, m.width as int, m.height as int, px, pz) <==> (
            m.solid_at(px, pz) && scanned_partner(m, c + 1, px, pz)),
{
    let w = m.width as int;
    let h = m.height as int;
    assert forall|px: int, pz: int|
        #[trigger] vis_cell(visited, w, h, px, pz) implies (m.solid_at(px, pz) && scanned_partner(
            m,
            c + 1,
            px,
            pz,
        )) by {
        let (ex, ez) = choose|ex: int, ez: int|
            #[trigger] connected(m, px, pz, ex, ez) && ex * h + ez < c;
        assert(scanned_partner(m, c + 1, px, pz));
    }
    assert forall|px: int, pz: int|
        m.solid_at(px, pz) && scanned_partner(m, c + 1, px, pz) implies vis_cell(
        visited,
        w,
        h,
        px,
        pz,
    ) by {
        let (ex, ez) = choose|ex: int, ez: int|
            #[trigger] connected(m, px, pz, ex, ez) && ex * h + ez < c + 1;
        if ex * h + ez == c {
            lemma_connected_solid(m, px, pz, ex, ez);
            assert(ex == x && ez == z) by {
                vstd::arithmetic::div_mod::lemma_fundamental_div_mod_converse(c, h, ex, ez);
            }
            assert(vis_cell(visited, w, h, x, z));
            assert(scanned_partner(m, c, x, z));
            lemma_partner_through(m, c, x, z, px, pz);
        } else {
            assert(scanned_partner(m, c, px, pz));
        }
    }
}

/// The starting state of a flood fill seeded at `(x, z)`.
pub open spec fn seed_state(m: ColorMask, visited: Seq<bool>, x: int, z: int) -> FloodState {
    FloodState {
        stack: seq![((x as usize), (z as usize))],
        visited: visited.update(z * m.width + x, true),
        min_x: x,
        min_z: z,
        max_x: x,
        max_z: z,
    }
}

/// The seed state of a fresh flood fill satisfies the bookkeeping
/// invariant: its only new mark is the seed itself.
#[verifier::rlimit(100)]
proof fn lemma_seed_marks(m: ColorMask, visited: Seq<bool>, x: int, z: int)
    requires
        m.wf(),
        visited.len() == m.width * m.height,
        0 <= x < m.width,
        0 <= z < m.height,
        m.solid_at(x, z),
        !vis_cell(visited, m.width as int, m.height as int, x, z),
    ensures
        comp_marks_inv(m, m.color_at(x, z), x, z, visited, seed_state(m, visited, x, z)),
        vis_cell(seed_state(m, visited, x, z).visited, m.width as int, m.height as int, x, z),
{
    let w = m.width as int;
    let h = m.height as int;
    let color = m.color_at(x, z);
    let st0 = seed_state(m, visited, x, z);
    lemma_grid_index(x, z, w, h);
    lemma_vis_cell_update(visited, st0.visited, w, h, x, z);
    lemma_connected_refl(m, x, z);
    assert(vis_cell(st0.visited, w, h, x, z));
    assert(st0.visited.len() == m.width * m.height);
    assert forall|px: int, pz: int| #[trigger] vis_cell(visited, w, h, px, pz) implies vis_cell(
        st0.visited,
        w,
        h,
        px,
        pz,
    ) by {
        assert(vis_cell(st0.visited, w, h, px, pz) == (vis_cell(visited, w, h, px, pz) || (px == x
            && pz == z)));
    }
    assert forall|px: int, pz: int|
        #[trigger] vis_cell(st0.visited, w, h, px, pz) && !vis_cell(
            visited,
            w,
            h,
            px,
            pz,
        ) implies m.solid_at(px, pz) && m.color_at(px, pz) == color && connected(
        m,
        x,
        z,
        px,
        pz,
    ) by {
        assert(px == x && pz == z);
    }
    assert(st0.stack[0] == ((x as usize), (z as usize)));
}

/// The seed state of a fresh flood fill keeps a closed visited set
/// closed outside its stack.
#[verifier::rlimit(100)]
proof fn lemma_seed_closed(m: ColorMask, visited: Seq<bool>, x: int, z: int)
    requires
        m.wf(),
        visited.len() == m.width * m.height,
        0 <= x < m.width,
        0 <= z < m.height,
        forall|ax: int, az: int, bx: int, bz: int|
            vis_cell(visited, m.width as int, m.height as int, ax, az) && #[trigger] linked(
                m,
                ax,
                az,
                bx,
                bz,
            ) ==> vis_cell(visited, m.width as int, m.height as int, bx, bz),
    ensures
        closed_except(m, seed_state(m, visited, x, z), 0, 0, false),
{
    let w = m.width as int;
    let h = m.height as int;
    let st0 = seed_state(m, visited, x, z);
    lemma_grid_index(x, z, w, h);
    lemma_vis_cell_update(visited, st0.visited, w, h, x, z);
    assert forall|ax: int, az: int, bx: int, bz: int|
        vis_cell(st0.visited, w, h, ax, az) && !stack_has(st0.stack, ax, az) && !(false)
            && #[trigger] linked(m, ax, az, bx, bz) implies vis_cell(st0.visited, w, h, bx, bz) by {
        if ax == x && az == z {
            assert(stack_has(st0.stack, ax, az)) by {
                assert(st0.stack[0].0 == ax);
            }
        } else {
            assert(vis_cell(visited, w, h, ax, az));
            assert(vis_cell(visited, w, h, bx, bz));
            assert(vis_cell(st0.visited, w, h, bx, bz) == (vis_cell(visited, w, h, bx, bz) || (bx
                == x && bz == z)));
        }
    }
}

/// Setting up a flood fill at a fresh solid cell of a closed visited
/// set satisfies the flood invariants, and the standard fuel lets it
/// complete.
#[verifier::rlimit(100)]
proof fn lemma_seed_flood_start(m: ColorMask, visited: Seq<bool>, x: int, z: int)
    requires
        m.wf(),
        visited.len() == m.width * m.height,
        0 <= x < m.width,
        0 <= z < m.height,
        m.solid_at(x, z),
        !vis_cell(visited, m.width as int, m.height as int, x, z),
        forall|ax: int, az: int, bx: int, bz: int|
            vis_cell(visited, m.width as int, m.height as int, ax, az) && #[trigger] linked(
                m,
                ax,
                az,
                bx,
                bz,
            ) ==> vis_cell(visited, m.width as int, m.height as int, bx, bz),
    ensures
        comp_marks_inv(m, m.color_at(x, z), x, z, visited, seed_state(m, visited, x, z)),
        closed_except(m, seed_state(m, visited, x, z), 0, 0, false),
        flood(m, m.color_at(x, z), seed_state(m, visited, x, z), flood_fuel(m)) is Some,
        vis_cell(seed_state(m, visited, x, z).visited, m.width as int, m.height as int, x, z),
{
    let w = m.width as int;
    let h = m.height as int;
    let color = m.color_at(x, z);
    let st0 = seed_state(m, visited, x, z);
    lemma_seed_marks(m, visited, x, z);
    lemma_seed_closed(m, visited, x, z);
    lemma_grid_index(x, z, w, h);
    lemma_unvisited_bounds(visited);
    lemma_unvisited_update(visited, z * w + x);
    lemma_flood_total(m, color, st0, flood_fuel(m));
}

/// A flood fill seeded at a fresh solid cell of a closed visited set
/// completes, and its result marks exactly that cell's component on
/// top of the old marks, staying closed.
#[verifier::rlimit(100)]
proof fn lemma_seed_flood(m: ColorMask, visited: Seq<bool>, x: int, z: int)
    requires
        m.wf(),
        visited.len() == m.width * m.height,
        0 <= x < m.width,
        0 <= z < m.height,
        m.solid_at(x, z),
        !vis_cell(visited, m.width as int, m.height as int, x, z),
        forall|ax: int, az: int, bx: int, bz: int|
            vis_cell(visited, m.width as int, m.height as int, ax, az) && #[trigger] linked(
                m,
                ax,
                az,
                bx,
                bz,
            ) ==> vis_cell(visited, m.width as int, m.height as int, bx, bz),
    ensures
        flood(m, m.color_at(x, z), seed_state(m, visited, x, z), flood_fuel(m)) is Some,
        flood(m, m.color_at(x, z), seed_state(m, visited, x, z), flood_fuel(m)) matches Some(stf)
            ==> {
            let w = m.width as int;
            let h = m.height as int;
            &&& stf.visited.len() == m.width * m.height
            &&& forall|px: int, pz: int|
                #[trigger] vis_cell(visited, w, h, px, pz) ==> vis_cell(stf.visited, w, h, px, pz)
            &&& vis_cell(stf.visited, w, h, x, z)
            &&& forall|px: int, pz: int|
                #[trigger] vis_cell(stf.visited, w, h, px, pz) && !vis_cell(visited, w, h, px, pz)
                    ==> connected(m, x, z, px, pz) && m.solid_at(px, pz)
            &&& forall|ax: int, az: int, bx: int, bz: int|
                vis_cell(stf.visited, w, h, ax, az) && #[trigger] linked(m, ax, az, bx, bz)
                    ==> vis_cell(stf.visited, w, h, bx, bz)
        },
{
    let w = m.width as int;
    let h = m.height as int;
    let color = m.color_at(x, z);
    let st0 = seed_state(m, visited, x, z);
    lemma_seed_flood_start(m, visited, x, z);
    let stf = flood(m, color, st0, flood_fuel(m))->0;
    lemma_flood_component(m, color, x, z, visited, st0, flood_fuel(m), stf);
    assert forall|px: int, pz: int| #[trigger] vis_cell(visited, w, h, px, pz) implies vis_cell(
        stf.visited,
        w,
        h,
        px,
        pz,
    ) by {
        assert(vis_cell(st0.visited, w, h, px, pz)) by {
            assert(vis_cell(visited, w, h, px, pz) ==> vis_cell(st0.visited, w, h, px, pz));
        }
    }
    assert(vis_cell(stf.visited, w, h, x, z)) by {
        assert(vis_cell(st0.visited, w, h, x, z));
    }
}

/// One scan step over a fresh solid cell rewrites to the next index
/// with the flood's result and one more rectangle.
#[verifier::rlimit(100)]
#[verifier::spinoff_prover]
proof fn lemma_scan_step_flood(
    m: ColorMask,
    c: int,
    visited: Seq<bool>,
    out: Seq<ColliderRect>,
    x: int,
    z: int,
)
    requires
        m.wf(),
        visited.len() == m.width * m.height,
        m.height > 0,
        0 <= c < m.width * m.height,
        x == c / (m.height as int),
        z == c % (m.height as int),
        0 <= x < m.width,
        0 <= z < m.height,
        m.solid_at(x, z),
        !visited[z * m.width + x],
        flood(m, m.color_at(x, z), seed_state(m, visited, x, z), flood_fuel(m)) is Some,
    ensures
        ({
            let stf = flood(m, m.color_at(x, z), seed_state(m, visited, x, z), flood_fuel(m))->0;
            merge_scan(m, c, visited, out) == merge_scan(
                m,
                c + 1,
                stf.visited,
                out.push(
                    ColliderRect {
                        min_x: stf.min_x as usize,
                        min_z: stf.min_z as usize,
                        max_x: stf.max_x as usize,
                        max_z: stf.max_z as usize,
                        color: m.color_at(x, z),
                    },
                ),
            )
        }),
{
}

/// One scan step over an empty or already visited cell leaves state
/// and output unchanged.
#[verifier::rlimit(100)]
#[verifier::spinoff_prover]
proof fn lemma_scan_step_skip(
    m: ColorMask,
    c: int,
    visited: Seq<bool>,
    out: Seq<ColliderRect>,
    x: int,
    z: int,
)
    requires
        m.wf(),
        visited.len() == m.width * m.height,
        m.height > 0,
        0 <= c < m.width * m.height,
        x == c / (m.height as int),
        z == c % (m.height as int),
        0 <= x < m.width,
        0 <= z < m.height,
        !(m.solid_at(x, z) && !visited[z * m.width + x]),
    ensures
        merge_scan(m, c, visited, out) == merge_scan(m, c + 1, visited, out),
{
}

/// A solid cell the scan finds unvisited leads its component.
#[verifier::rlimit(100)]
#[verifier::spinoff_prover]
proof fn lemma_fresh_is_leader(m: ColorMask, c: int, visited: Seq<bool>, x: int, z: int)
    requires
        m.wf(),
        visited.len() == m.width * m.height,
        m.height > 0,
        0 <= c < m.width * m.height,
        x == c / (m.height as int),
        z == c % (m.height as int),
        0 <= x < m.width,
        0 <= z < m.height,
        m.solid_at(x, z),
        !vis_cell(visited, m.width as int, m.height as int, x, z),
        forall|px: int, pz: int|
            #[trigger] vis_cell(visited, m.width as int, m.height as int, px, pz) <==> (
            m.solid_at(px, pz) && scanned_partner(m, c, px, pz)),
    ensures
        is_leader(m, c),
{
    if !is_leader(m, c) {
        assert(scanned_partner(m, c, x, z));
        assert(vis_cell(visited, m.width as int, m.height as int, x, z));
    }
}

/// A cell the scan skips does not lead a component: it is empty or
/// some component member was scanned before it.
#[verifier::rlimit(100)]
#[verifier::spinoff_prover]
proof fn lemma_skip_not_leader(m: ColorMask, c: int, visited: Seq<bool>, x: int, z: int)
    requires
        m.wf(),
        visited.len() == m.width * m.height,
        m.height > 0,
        0 <= c < m.width * m.height,
        x == c / (m.height as int),
        z == c % (m.height as int),
        0 <= x < m.width,
        0 <= z < m.height,
        m.solid_at(x, z) ==> vis_cell(visited, m.width as int, m.height as int, x, z),
        forall|px: int, pz: int|
            #[trigger] vis_cell(visited, m.width as int, m.height as int, px, pz) <==> (
            m.solid_at(px, pz) && scanned_partner(m, c, px, pz)),
    ensures
        !is_leader(m, c),
{
    let w = m.width as int;
    let h = m.height as int;
    if is_leader(m, c) {
        assert(vis_cell(visited, w, h, x, z));
        assert(scanned_partner(m, c, x, z));
        let (ex, ez) = choose|ex: int, ez: int|
            #[trigger] connected(m, x, z, ex, ez) && ex * h + ez < c;
    }
}

/// The scan from index `c` onward emits one rectangle per remaining
/// leader, provided the cells visited so far are exactly those
/// connected to an already-scanned cell and the visited set is closed
/// under component edges.
#[verifier::rlimit(100)]
#[verifier::spinoff_prover]
proof fn lemma_scan_counts(m: ColorMask, c: int, visited: Seq<bool>, out: Seq<ColliderRect>)
    requires
        m.wf(),
        0 <= c <= m.width * m.height,
        visited.len() == m.width * m.height,
        forall|px: int, pz: int|
            #[trigger] vis_cell(visited, m.width as int, m.height as int, px, pz) <==> (
            m.solid_at(px, pz) && scanned_partner(m, c, px, pz)),
        forall|ax: int, az: int, bx: int, bz: int|
            vis_cell(visited, m.width as int, m.height as int, ax, az) && #[trigger] linked(
                m,
                ax,
                az,
                bx,
                bz,
            ) ==> vis_cell(visited, m.width as int, m.height as int, bx, bz),
    ensures
        merge_scan(m, c, visited, out).len() == out.len() + leaders_from(m, c),
    decreases m.width * m.height - c,
{
    let w = m.width as int;
    let h = m.height as int;
    if c >= w * h {
    } else {
        assert(h > 0) by {
            if h <= 0 {
                assert(w * h <= 0) by (nonlinear_arith)
                    requires h <= 0 && w >= 0;
            }
        }
        let x = c / h;
        let z = c % h;
        assert(0 <= x < w && 0 <= z < h) by {
            assert(c < h * w) by (nonlinear_arith)
                requires c < w * h;
            vstd::arithmetic::div_mod::lemma_multiply_divide_lt(c, h, w);
            vstd::arithmetic::div_mod::lemma_mod_bound(c, h);
            assert(x >= 0) by (nonlinear_arith)
                requires c >= 0 && h > 0 && x == c / h;
        }
        vstd::arithmetic::div_mod::lemma_fundamental_div_mod(c, h);
        lemma_grid_index(x, z, w, h);
        if m.solid_at(x, z) && !visited[z * w + x] {
            let color = m.color_at(x, z);
            let st0 = seed_state(m, visited, x, z);
            lemma_fresh_is_leader(m, c, visited, x, z);
            lemma_seed_flood(m, visited, x, z);
            let stf = flood(m, color, st0, flood_fuel(m))->0;
            lemma_partner_after_flood(m, c, visited, stf.visited, x, z);
            lemma_scan_step_flood(m, c, visited, out, x, z);
            lemma_scan_counts(
                m,
                c + 1,
                stf.visited,
                out.push(
                    ColliderRect {
                        min_x: stf.min_x as usize,
                        min_z: stf.min_z as usize,
                        max_x: stf.max_x as usize,
                        max_z: stf.max_z as usize,
                        color,
                    },
                ),
            );
        } else {
            assert(m.solid_at(x, z) ==> vis_cell(visited, w, h, x, z));
            lemma_skip_not_leader(m, c, visited, x, z);
            lemma_partner_after_skip(m, c, visited, x, z);
            lemma_scan_step_skip(m, c, visited, out, x, z);
            lemma_scan_counts(m, c + 1, visited, out);
        }
    }
}


/// Law: the merger emits exactly one rectangle per same-color
/// 4-connected component of the mask — the number of rectangles
/// equals the number of component leaders (a leader is the component
/// cell that comes first in scan order; `lemma_leader_unique` and
/// `lemma_solid_cell_has_leader` make leaders and components
/// correspond one to one).
#[verifier::rlimit(100)]
#[verifier::spinoff_prover]
pub proof fn lemma_merge_counts_components(m: ColorMask)
    requires
        m.wf(),
    ensures
        merge_spec(m).len() == leaders_from(m, 0),
{
    let w = m.width as int;
    let h = m.height as int;
    let visited = Seq::new((m.width * m.height) as nat, |i: int| false);
    assert forall|px: int, pz: int|
        #[trigger] vis_cell(visited, w, h, px, pz) <==> (m.solid_at(px, pz) && scanned_partner(
            m,
            0,
            px,
            pz,
        )) by {
        if 0 <= px < w && 0 <= pz < h {
            lemma_grid_index(px, pz, w, h);
        }
        if scanned_partner(m, 0, px, pz) {
            let (ex, ez) = choose|ex: int, ez: int|
                #[trigger] connected(m, px, pz, ex, ez) && ex * h + ez < 0;
            lemma_connected_solid(m, px, pz, ex, ez);
            assert(ex * h + ez >= 0) by (nonlinear_arith)
                requires ex >= 0 && ez >= 0 && h >= 0;
        }
    }
    assert forall|ax: int, az: int, bx: int, bz: int|
        vis_cell(visited, w, h, ax, az) && #[trigger] linked(m, ax, az, bx, bz) implies vis_cell(
        visited,
        w,
        h,
        bx,
        bz,
    ) by {
        lemma_grid_index(ax, az, w, h);
    }
    lemma_scan_counts(m, 0, visited, Seq::empty());
}

/// Law: two connected leaders are the same cell, so a component has
/// at most one leader.
pub proof fn lemma_leader_unique(m: ColorMask, c1: int, c2: int)
    requires
        m.wf(),
        is_leader(m, c1),
        is_leader(m, c2),
        connected(
            m,
            c1 / (m.height as int),
            c1 % (m.height as int),
            c2 / (m.height as int),
            c2 % (m.height as int),
        ),
    ensures
        c1 == c2,
{
    let h = m.height as int;
    let x1 = c1 / h;
    let z1 = c1 % h;
    let x2 = c2 / h;
    let z2 = c2 % h;
    assert(h > 0) by {
        if h <= 0 {
            assert(m.width * m.height <= 0) by (nonlinear_arith)
                requires m.height <= 0 && m.width >= 0;
        }
    }
    vstd::arithmetic::div_mod::lemma_fundamental_div_mod(c1, h);
    vstd::arithmetic::div_mod::lemma_fundamental_div_mod(c2, h);
    assert(x1 * h + z1 == c1) by (nonlinear_arith)
        requires c1 == h * x1 + z1;
    assert(x2 * h + z2 == c2) by (nonlinear_arith)
        requires c2 == h * x2 + z2;
    assert(c1 <= x2 * h + z2);
    lemma_connected_sym(m, x1, z1, x2, z2);
    assert(c2 <= x1 * h + z1);
}

/// Law: every solid cell is connected to a leader, so a component has
/// at least one leader.
pub proof fn lemma_solid_cell_has_leader(m: ColorMask, x: int, z: int)
    requires
        m.wf(),
        m.solid_at(x, z),
    ensures
        exists|l: int|
            #[trigger] is_leader(m, l) && connected(m, x, z, l / (m.height as int), l % (
            m.height as int)),
    decreases x * (m.height as int) + z,
{
    let h = m.height as int;
    let w = m.width as int;
    assert(h > 0);
    let c = x * h + z;
    vstd::arithmetic::div_mod::lemma_fundamental_div_mod_converse(c, h, x, z);
    assert(0 <= c < m.width * m.height) by (nonlinear_arith)
        requires 0 <= x < w && 0 <= z < h && c == x * h + z && w == m.width && h == m.height;
    if is_leader(m, c) {
        lemma_connected_refl(m, x, z);
        assert(is_leader(m, c) && connected(m, x, z, c / h, c % h));
    } else {
        let (ex, ez) = choose|ex: int, ez: int|
            #[trigger] connected(m, x, z, ex, ez) && ex * h + ez < c;
        lemma_connected_solid(m, x, z, ex, ez);
        assert(ex * h + ez >= 0) by (nonlinear_arith)
            requires ex >= 0 && ez >= 0 && h >= 0;
        lemma_solid_cell_has_leader(m, ex, ez);
        let l = choose|l: int|
            #[trigger] is_leader(m, l) && connected(m, ex, ez, l / h, l % h);
        lemma_connected_trans(m, x, z, ex, ez, l / h, l % h);
        assert(is_leader(m, l) && connected(m, x, z, l / h, l % h));
    }
}

} // verus!
