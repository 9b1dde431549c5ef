//! Raster-to-mesh compiler.
//!
//! Every cell of a solidity mask emits a top quad at its height level
//! (2 when solid, 1 when empty) and four side quads running down to
//! ground level: 10 triangles, 30 index entries per cell. Vertices are
//! identified by the integer key (grid x, height level, grid z) and
//! welded: the first emission of a key appends a vertex, later emissions
//! reuse its index. Each welded vertex carries an exact UV: the base
//! point (x/W, z/H) plus an anti-bleed inset, a sum of up to four terms
//! of 0.05/W per axis decided by the four pixels touching the corner.
//!
//! World-space conversion (positions, UV floats, normals) is the
//! embedding application's concern; every quantity here is an exact
//! integer.

use vstd::prelude::*;

use crate::mask::SolidityMask;

verus! {

/// Identity of a welded vertex: a grid corner `(x, z)` at a height
/// level (0 = ground, 1 = floor skirt top, 2 = wall top).
#[derive(Clone, Copy, PartialEq, Eq, Structural, Debug)]
pub struct VertexKey {
    pub x: usize,
    pub level: usize,
    pub z: usize,
}

/// Exact texture coordinate of a vertex on a `W x H` mask: the UV is
/// `(x/W + du * 0.05/W, z/H + dv * 0.05/W)`, with `du`, `dv` in
/// `[-2, 2]`.
#[derive(Clone, Copy, PartialEq, Eq, Structural, Debug)]
pub struct UvPoint {
    pub x: usize,
    pub z: usize,
    pub du: i8,
    pub dv: i8,
}

/// The welded output of the compiler: parallel vertex and UV lists plus
/// a triangle index list (three entries per triangle).
pub struct MeshBuffer {
    pub vertices: Vec<VertexKey>,
    pub uvs: Vec<UvPoint>,
    pub indices: Vec<u32>,
}

/// The x offset of cell corner `c` (corners 0..4 walk the top face:
/// (0,0), (0,1), (1,1), (1,0)).
pub open spec fn corner_dx(c: int) -> int {
    if c == 2 || c == 3 {
        1
    } else {
        0
    }
}

/// The z offset of cell corner `c`.
pub open spec fn corner_dz(c: int) -> int {
    if c == 1 || c == 2 {
        1
    } else {
        0
    }
}

/// The height level of the top face of cell `(x, z)`: 2 when solid,
/// 1 when empty.
pub open spec fn cell_level(m: SolidityMask, x: int, z: int) -> int {
    if m.solid_at(x, z) {
        2
    } else {
        1
    }
}

/// Which corner the `slot`-th index entry of a cell references.
/// Slots 0..6 are the top face (corners 0,1,3 then 1,2,3); slots
/// 6 + 6*i .. 12 + 6*i are the side quad of edge i, whose entries
/// alternate between corners i and i+1 at top and ground level.
pub open spec fn slot_corner(slot: int) -> int {
    if slot < 6 {
        if slot == 0 {
            0
        } else if slot == 1 {
            1
        } else if slot == 2 {
            3
        } else if slot == 3 {
            1
        } else if slot == 4 {
            2
        } else {
            3
        }
    } else {
        let i = (slot - 6) / 6;
        let r = (slot - 6) % 6;
        if r == 0 || r == 1 || r == 3 {
            i
        } else {
            (i + 1) % 4
        }
    }
}

/// Whether the `slot`-th index entry of a cell sits at the cell's top
/// level (otherwise it sits at ground level 0).
pub open spec fn slot_is_top(slot: int) -> bool {
    slot < 6 || ((slot - 6) % 6 == 0 || (slot - 6) % 6 == 2 || (slot - 6) % 6 == 5)
}

/// The vertex key referenced by the `slot`-th of the 30 index entries
/// emitted for cell `(x, z)`.
pub open spec fn slot_key(m: SolidityMask, x: int, z: int, slot: int) -> VertexKey {
    let c = slot_corner(slot);
    let lev = if slot_is_top(slot) {
        cell_level(m, x, z)
    } else {
        0
    };
    VertexKey {
        x: (x + corner_dx(c)) as usize,
        level: lev as usize,
        z: (z + corner_dz(c)) as usize,
    }
}

/// The 30 vertex keys emitted for cell `(x, z)`, in emission order.
pub open spec fn cell_keys(m: SolidityMask, x: int, z: int) -> Seq<VertexKey> {
    Seq::new(30, |slot: int| slot_key(m, x, z, slot))
}

/// The keys emitted for the first `n` cells, cells ordered column by
/// column: cell `n` is `(n / H, n % H)`.
pub open spec fn emit_prefix(m: SolidityMask, n: int) -> Seq<VertexKey>
    decreases n,
{
    if n <= 0 {
        Seq::empty()
    } else {
        emit_prefix(m, n - 1) + cell_keys(
            m,
            (n - 1) / (m.height as int),
            (n - 1) % (m.height as int),
        )
    }
}

/// All `30 * W * H` emitted keys of the mask, in emission order.
pub open spec fn emit_seq(m: SolidityMask) -> Seq<VertexKey> {
    emit_prefix(m, m.width * m.height)
}

/// `emit_prefix` emits exactly 30 keys per cell.
pub proof fn lemma_emit_prefix_len(m: SolidityMask, n: int)
    requires
        n >= 0,
    ensures
        emit_prefix(m, n).len() == 30 * n,
    decreases n,
{
    if n > 0 {
        lemma_emit_prefix_len(m, n - 1);
    }
}

/// First-occurrence welding of a key sequence: the subsequence of
/// first occurrences, in order.
pub open spec fn weld(s: Seq<VertexKey>) -> Seq<VertexKey>
    decreases s.len(),
{
    if s.len() == 0 {
        Seq::empty()
    } else {
        let w = weld(s.drop_last());
        if w.contains(s.last()) {
            w
        } else {
            w.push(s.last())
        }
    }
}

/// The vertex list the compiler returns for a mask.
pub open spec fn welded_vertices(m: SolidityMask) -> Seq<VertexKey> {
    weld(emit_seq(m))
}

/// Welding keeps exactly the distinct keys: the result has no
/// duplicates, contains the same keys as its input, and is no longer.
pub proof fn lemma_weld_props(s: Seq<VertexKey>)
    ensures
        weld(s).no_duplicates(),
        forall|k: VertexKey| weld(s).contains(k) <==> s.contains(k),
        weld(s).len() <= s.len(),
    decreases s.len(),
{
    if s.len() == 0 {
    } else {
        let d = s.drop_last();
        lemma_weld_props(d);
        assert forall|k: VertexKey| s.contains(k) implies d.contains(k) || k == s.last() by {
            let i = choose|i: int| 0 <= i < s.len() && s[i] == k;
            if i < s.len() - 1 {
                assert(d[i] == k);
            }
        }
        assert forall|k: VertexKey| d.contains(k) implies s.contains(k) by {
            let i = choose|i: int| 0 <= i < d.len() && d[i] == k;
            assert(s[i] == k);
        }
        assert(s.contains(s.last()));
        let w = weld(d);
        if !w.contains(s.last()) {
            let p = w.push(s.last());
            assert forall|k: VertexKey| p.contains(k) implies w.contains(k) || k == s.last() by {
                let i = choose|i: int| 0 <= i < p.len() && p[i] == k;
                if i < w.len() {
                    assert(w[i] == k);
                }
            }
            assert forall|k: VertexKey| w.contains(k) implies p.contains(k) by {
                let i = choose|i: int| 0 <= i < w.len() && w[i] == k;
                assert(p[i] == k);
            }
            assert(p.contains(s.last())) by {
                assert(p[w.len() as int] == s.last());
            }
            assert(p.no_duplicates()) by {
                assert forall|i: int, j: int|
                    0 <= i < p.len() && 0 <= j < p.len() && i != j implies p[i] != p[j] by {
                    if i < w.len() && j < w.len() {
                    } else if i < w.len() {
                        assert(w.contains(p[i])) by {
                            assert(w[i] == p[i]);
                        }
                    } else if j < w.len() {
                        assert(w.contains(p[j])) by {
                            assert(w[j] == p[j]);
                        }
                    }
                }
            }
        }
    }
}

/// Extending the emission by one key extends the weld by that key
/// exactly when it is new.
pub proof fn lemma_weld_push(s: Seq<VertexKey>, k: VertexKey)
    ensures
        weld(s.push(k)) == if weld(s).contains(k) {
            weld(s)
        } else {
            weld(s).push(k)
        },
{
    assert(s.push(k).drop_last() =~= s);
    assert(s.push(k).last() == k);
}

/// A key is valid for a `w x h` mask when it names a corner of some
/// cell: coordinates up to and including the far edge, level below 3.
pub open spec fn key_valid(k: VertexKey, w: int, h: int) -> bool {
    k.x <= w && k.level < 3 && k.z <= h
}

/// The welding-table slot of a valid key.
pub open spec fn table_index(k: VertexKey, h: int) -> int {
    (k.x * 3 + k.level) * (h + 1) + k.z
}

/// Welding-table slots are unique per valid key.
pub proof fn lemma_table_index_injective(a: VertexKey, b: VertexKey, w: int, h: int)
    by (nonlinear_arith)
    requires
        w >= 0,
        h >= 0,
        key_valid(a, w, h),
        key_valid(b, w, h),
        table_index(a, h) == table_index(b, h),
    ensures
        a == b,
{
    assert(a.x * 3 + a.level == b.x * 3 + b.level && a.z == b.z);
}

/// Welding-table slots of valid keys fit the table.
pub proof fn lemma_table_index_bound(k: VertexKey, w: int, h: int)
    by (nonlinear_arith)
    requires
        w >= 0,
        h >= 0,
        key_valid(k, w, h),
    ensures
        0 <= table_index(k, h) < 3 * (w + 1) * (h + 1),
        k.x * 3 + k.level < 3 * (w + 1),
{
}


/// Sentinel marking an empty welding-table slot.
const NONE_IDX: u32 = 0xFFFF_FFFF;

/// Incremental first-occurrence welder: a vertex list together with a
/// dense lookup table from valid keys to their vertex index.
struct Welder {
    width: usize,
    height: usize,
    vertices: Vec<VertexKey>,
    table: Vec<u32>,
}

impl Welder {
    /// Validity: the table has one slot per valid key, every vertex's
    /// slot points back at it, and every occupied slot points at the
    /// vertex whose slot it is.
    spec fn wf(self) -> bool {
        &&& self.table@.len() == 3 * (self.width + 1) * (self.height + 1)
        &&& self.table@.len() < NONE_IDX
        &&& self.vertices@.len() <= self.table@.len()
        &&& forall|j: int|
            0 <= j < self.vertices@.len() ==> key_valid(
                #[trigger] self.vertices@[j],
                self.width as int,
                self.height as int,
            )
        &&& forall|j: int|
            0 <= j < self.vertices@.len() ==> self.table@[table_index(
                #[trigger] self.vertices@[j],
                self.height as int,
            )] == j as u32
        &&& forall|t: int|
            0 <= t < self.table@.len() && #[trigger] self.table@[t] != NONE_IDX ==> {
                &&& (self.table@[t] as int) < self.vertices@.len()
                &&& table_index(self.vertices@[self.table@[t] as int], self.height as int) == t
            }
    }

    /// Creates an empty welder for a `width x height` mask.
    fn new(width: usize, height: usize) -> (w: Welder)
        requires
            3 * (width + 1) * (height + 1) < NONE_IDX,
        ensures
            w.wf(),
            w.width == width,
            w.height == height,
            w.vertices@ == Seq::<VertexKey>::empty(),
    {
        proof {
            assert(3 * (width + 1) <= 3 * (width + 1) * (height + 1)) by (nonlinear_arith)
                requires width >= 0 && height >= 0;
            assert((height + 1) <= 3 * (width + 1) * (height + 1)) by (nonlinear_arith)
                requires width >= 0 && height >= 0;
        }
        let size = 3 * (width + 1) * (height + 1);
        let mut table: Vec<u32> = Vec::new();
        for i in 0..size
            invariant
                table@.len() == i,
                forall|t: int| 0 <= t < i ==> table@[t] == NONE_IDX,
        {
            table.push(NONE_IDX);
        }
        let w = Welder { width, height, vertices: Vec::new(), table };
        proof {
            assert(w.vertices@ =~= Seq::<VertexKey>::empty());
        }
        w
    }

    /// Any welder with a free slot has room: its vertices occupy
    /// distinct slots, all different from the free one.
    proof fn lemma_room(&self, t: int)
        requires
            self.wf(),
            0 <= t < self.table@.len(),
            self.table@[t] == NONE_IDX,
        ensures
            self.vertices@.len() < self.table@.len(),
    {
        broadcast use vstd::set::group_set_axioms;

        let h = self.height as int;
        let w = self.width as int;
        let n = self.vertices@.len() as int;
        let len = self.table@.len() as int;
        let slots = Seq::new(n as nat, |j: int| table_index(self.vertices@[j], h));
        assert forall|j1: int, j2: int|
            0 <= j1 < n && 0 <= j2 < n && j1 != j2 implies slots[j1] != slots[j2] by {
            assert(self.table@[table_index(self.vertices@[j1], h)] == j1 as u32);
            assert(self.table@[table_index(self.vertices@[j2], h)] == j2 as u32);
        }
        slots.unique_seq_to_set();
        let free = vstd::set_lib::set_int_range(0, len).remove(t);
        assert forall|e: int| slots.to_set().contains(e) implies free.contains(e) by {
            let j = choose|j: int| 0 <= j < n && slots[j] == e;
            lemma_table_index_bound(self.vertices@[j], w, h);
            assert(self.table@[table_index(self.vertices@[j], h)] == j as u32);
            assert(j as u32 != NONE_IDX);
        }
        vstd::set_lib::lemma_int_range(0, len);
        assert(vstd::set_lib::set_int_range(0, len).contains(t));
        vstd::set_lib::lemma_len_subset(slots.to_set(), free);
    }

    /// Welds one emitted key: returns the index of its vertex,
    /// appending a fresh vertex exactly when the key is new.
    fn add(&mut self, k: VertexKey) -> (idx: u32)
        requires
            old(self).wf(),
            key_valid(k, old(self).width as int, old(self).height as int),
        ensures
            final(self).wf(),
            final(self).width == old(self).width,
            final(self).height == old(self).height,
            final(self).vertices@ == if old(self).vertices@.contains(k) {
                old(self).vertices@
            } else {
                old(self).vertices@.push(k)
            },
            (idx as int) < final(self).vertices@.len(),
            final(self).vertices@[idx as int] == k,
    {
        let w = self.width;
        let h = self.height;
        proof {
            lemma_table_index_bound(k, w as int, h as int);
            assert(3 * (w + 1) <= 3 * (w + 1) * (h + 1)) by (nonlinear_arith)
                requires w >= 0 && h >= 0;
            assert((h + 1) <= 3 * (w + 1) * (h + 1)) by (nonlinear_arith)
                requires w >= 0 && h >= 0;
        }
        let t = (k.x * 3 + k.level) * (h + 1) + k.z;
        assert(t == table_index(k, h as int));
        let e = self.table[t];
        if e != NONE_IDX {
            proof {
                let j = e as int;
                lemma_table_index_injective(
                    self.vertices@[j],
                    k,
                    w as int,
                    h as int,
                );
                assert(self.vertices@.contains(k)) by {
                    assert(self.vertices@[j] == k);
                }
            }
            e
        } else {
            proof {
                if self.vertices@.contains(k) {
                    let j = choose|j: int| 0 <= j < self.vertices@.len() && self.vertices@[j] == k;
                    assert(self.table@[table_index(self.vertices@[j], h as int)] == j as u32);
                }
                self.lemma_room(t as int);
            }
            let idx = self.vertices.len() as u32;
            self.vertices.push(k);
            self.table.set(t, idx);
            proof {
                let prev = old(self).vertices@;
                let now = self.vertices@;
                let hi = h as int;
                assert forall|j: int| 0 <= j < now.len() implies key_valid(
                    #[trigger] now[j],
                    w as int,
                    hi,
                ) by {
                    if j < prev.len() {
                        assert(now[j] == prev[j]);
                    }
                }
                assert forall|j: int| 0 <= j < now.len() implies self.table@[table_index(
                    #[trigger] now[j],
                    hi,
                )] == j as u32 by {
                    if j < prev.len() {
                        assert(now[j] == prev[j]);
                        lemma_table_index_bound(prev[j], w as int, hi);
                        if table_index(prev[j], hi) == t {
                            lemma_table_index_injective(prev[j], k, w as int, hi);
                            assert(prev.contains(k)) by {
                                assert(prev[j] == k);
                            }
                        }
                    }
                }
                assert forall|t0: int|
                    0 <= t0 < self.table@.len() && #[trigger] self.table@[t0]
                        != NONE_IDX implies {
                    &&& (self.table@[t0] as int) < now.len()
                    &&& table_index(now[self.table@[t0] as int], hi) == t0
                } by {
                    if t0 != t {
                        assert(old(self).table@[t0] == self.table@[t0]);
                        let j0 = self.table@[t0] as int;
                        assert(j0 < prev.len());
                        assert(now[j0] == prev[j0]);
                    }
                }
            }
            idx
        }
    }
}


/// The u-axis inset count at grid corner `(x, z)`: +1 for each solid
/// pixel among (x,z) and (x,z-1), -1 for each solid pixel among
/// (x-1,z) and (x-1,z-1). One count is worth 0.05/W of texture space.
pub open spec fn uv_du(m: SolidityMask, x: int, z: int) -> int {
    (if m.solid_at(x, z) { 1int } else { 0int })
    + (if m.solid_at(x - 1, z) { -1int } else { 0int })
    + (if m.solid_at(x, z - 1) { 1int } else { 0int })
    + (if m.solid_at(x - 1, z - 1) { -1int } else { 0int })
}

/// The v-axis inset count at grid corner `(x, z)`: +1 for each solid
/// pixel among (x,z) and (x-1,z), -1 for each solid pixel among
/// (x,z-1) and (x-1,z-1). One count is worth 0.05/W of texture space.
pub open spec fn uv_dv(m: SolidityMask, x: int, z: int) -> int {
    (if m.solid_at(x, z) { 1int } else { 0int })
    + (if m.solid_at(x - 1, z) { 1int } else { 0int })
    + (if m.solid_at(x, z - 1) { -1int } else { 0int })
    + (if m.solid_at(x - 1, z - 1) { -1int } else { 0int })
}

/// The exact UV of a vertex: the base point at its grid corner plus
/// the anti-bleed inset counts.
pub open spec fn uv_of(m: SolidityMask, k: VertexKey) -> UvPoint {
    UvPoint { x: k.x, z: k.z, du: uv_du(m, k.x as int, k.z as int) as i8, dv: uv_dv(
        m,
        k.x as int,
        k.z as int,
    ) as i8 }
}

/// Computes the UV of the vertex at grid corner `(x, z)`.
fn uv_for(m: &SolidityMask, x: usize, z: usize) -> (uv: UvPoint)
    requires
        m.wf(),
        x <= crate::mask::MAX_DIM,
        z <= crate::mask::MAX_DIM,
    ensures
        uv == (UvPoint { x, z, du: uv_du(*m, x as int, z as int) as i8, dv: uv_dv(
            *m,
            x as int,
            z as int,
        ) as i8 }),
{
    let xi = x as i64;
    let zi = z as i64;
    let mut du: i32 = 0;
    let mut dv: i32 = 0;
    if m.is_solid(xi, zi) {
        du += 1;
        dv += 1;
    }
    if m.is_solid(xi - 1, zi) {
        du -= 1;
        dv += 1;
    }
    if m.is_solid(xi, zi - 1) {
        du += 1;
        dv -= 1;
    }
    if m.is_solid(xi - 1, zi - 1) {
        du -= 1;
        dv -= 1;
    }
    UvPoint { x, z, du: du as i8, dv: dv as i8 }
}

/// Computes the vertex key of the `slot`-th index entry of the cell at
/// `(x, z)` whose top face sits at `level`.
fn emit_key(x: usize, z: usize, level: usize, slot: usize, Ghost(m): Ghost<SolidityMask>) -> (k:
    VertexKey)
    requires
        slot < 30,
        x < m.width,
        z < m.height,
        m.width <= crate::mask::MAX_DIM,
        m.height <= crate::mask::MAX_DIM,
        level == cell_level(m, x as int, z as int),
    ensures
        k == slot_key(m, x as int, z as int, slot as int),
{
    let (c, top): (usize, bool) = if slot < 6 {
        let c = match slot {
            0 => 0,
            1 => 1,
            2 => 3,
            3 => 1,
            4 => 2,
            _ => 3,
        };
        (c, true)
    } else {
        let i = (slot - 6) / 6;
        let r = (slot - 6) % 6;
        let c = if r == 0 || r == 1 || r == 3 {
            i
        } else {
            (i + 1) % 4
        };
        (c, r == 0 || r == 2 || r == 5)
    };
    let lev = if top {
        level
    } else {
        0
    };
    let kx = if c == 2 || c == 3 {
        x + 1
    } else {
        x
    };
    let kz = if c == 1 || c == 2 {
        z + 1
    } else {
        z
    };
    VertexKey { x: kx, level: lev, z: kz }
}

/// What the compiler promises of its three buffers for a mask: the
/// vertex list is the weld of the emission, each index entry resolves
/// to the emitted key of its slot, and each vertex carries its UV.
pub open spec fn mesh_matches(
    m: SolidityMask,
    vertices: Seq<VertexKey>,
    uvs: Seq<UvPoint>,
    indices: Seq<u32>,
) -> bool {
    &&& vertices == welded_vertices(m)
    &&& indices.len() == emit_seq(m).len()
    &&& forall|i: int|
        0 <= i < indices.len() ==> (#[trigger] indices[i] as int) < vertices.len()
            && vertices[indices[i] as int] == emit_seq(m)[i]
    &&& uvs.len() == vertices.len()
    &&& forall|j: int| 0 <= j < uvs.len() ==> #[trigger] uvs[j] == uv_of(m, vertices[j])
}

/// Compiles a solidity mask to welded vertex, UV and triangle index
/// buffers: 30 index entries (10 triangles) per cell, each resolving
/// to the first occurrence of its vertex key. An empty mask yields
/// empty buffers.
#[verifier::loop_isolation(false)]
pub fn compile(mask: &SolidityMask) -> (r: MeshBuffer)
    requires
        mask.wf(),
        3 * (mask.width + 1) * (mask.height + 1) < 0xFFFF_FFFF,
        30 * (mask.width * mask.height) <= usize::MAX,
    ensures
        mesh_matches(*mask, r.vertices@, r.uvs@, r.indices@),
        r.indices@.len() == 30 * (mask.width * mask.height),
{
    let w = mask.width;
    let h = mask.height;
    let mut welder = Welder::new(w, h);
    let mut indices: Vec<u32> = Vec::new();
    let ghost mut emitted: Seq<VertexKey> = Seq::empty();
    proof {
        assert(emitted =~= emit_prefix(*mask, 0));
        assert(0 * h == 0) by (nonlinear_arith);
    }
    for x in 0..w
        invariant
            welder.wf(),
            welder.width == w,
            welder.height == h,
            emitted == emit_prefix(*mask, x * h),
            emitted.len() == 30 * (x * h),
            welder.vertices@ == weld(emitted),
            indices@.len() == emitted.len(),
            forall|i: int|
                0 <= i < indices@.len() ==> (#[trigger] indices@[i] as int)
                    < welder.vertices@.len() && welder.vertices@[indices@[i] as int] == emitted[i],
    {
        proof {
            lemma_emit_prefix_len(*mask, x as int * h as int);
            assert(30 * (x * h) <= 30 * (w * h)) by (nonlinear_arith)
                requires 0 <= x <= w && 0 <= h;
        }
        for z in 0..h
            invariant
                welder.wf(),
                welder.width == w,
                welder.height == h,
                emitted == emit_prefix(*mask, x * h + z),
                emitted.len() == 30 * (x * h + z),
                welder.vertices@ == weld(emitted),
                indices@.len() == emitted.len(),
                forall|i: int|
                    0 <= i < indices@.len() ==> (#[trigger] indices@[i] as int)
                        < welder.vertices@.len() && welder.vertices@[indices@[i] as int]
                        == emitted[i],
        {
            proof {
                assert(x * h + z < w * h) by (nonlinear_arith)
                    requires 0 <= x < w && 0 <= z < h;
                assert(30 * (x * h + z) + 30 <= 30 * (w * h)) by (nonlinear_arith)
                    requires x * h + z < w * h && 0 <= x * h + z;
            }
            let level: usize = if mask.is_solid(x as i64, z as i64) {
                2
            } else {
                1
            };
            let ghost cell_start = emitted;
            for slot in 0..30usize
                invariant
                    welder.wf(),
                    welder.width == w,
                    welder.height == h,
                    cell_start == emit_prefix(*mask, x * h + z),
                    cell_start.len() == 30 * (x * h + z),
                    emitted == cell_start + cell_keys(*mask, x as int, z as int).take(slot as int),
                    emitted.len() == cell_start.len() + slot,
                    welder.vertices@ == weld(emitted),
                    indices@.len() == emitted.len(),
                    level == cell_level(*mask, x as int, z as int),
                    forall|i: int|
                        0 <= i < indices@.len() ==> (#[trigger] indices@[i] as int)
                            < welder.vertices@.len() && welder.vertices@[indices@[i] as int]
                            == emitted[i],
            {
                let k = emit_key(x, z, level, slot, Ghost(*mask));
                proof {
                    assert(key_valid(k, w as int, h as int));
                    lemma_weld_push(emitted, k);
                }
                let idx = welder.add(k);
                proof {
                    let ck = cell_keys(*mask, x as int, z as int);
                    assert(ck.take(slot + 1) =~= ck.take(slot as int).push(
                        slot_key(*mask, x as int, z as int, slot as int),
                    ));
                    assert((cell_start + ck.take(slot as int)).push(k) =~= cell_start + ck.take(
                        slot + 1,
                    ));
                    emitted = emitted.push(k);
                }
                indices.push(idx);
            }
            proof {
                let ck = cell_keys(*mask, x as int, z as int);
                assert(ck.take(30) =~= ck);
                let c = x as int * h as int + z as int;
                vstd::arithmetic::div_mod::lemma_fundamental_div_mod_converse(
                    c,
                    h as int,
                    x as int,
                    z as int,
                );
                assert(emit_prefix(*mask, c + 1) == emit_prefix(*mask, c) + cell_keys(
                    *mask,
                    (c + 1 - 1) / (h as int),
                    (c + 1 - 1) % (h as int),
                ));
                assert(emitted == emit_prefix(*mask, c + 1));
            }
        }
        proof {
            assert(x * h + h == (x + 1) * h) by (nonlinear_arith);
        }
    }
    proof {
        assert(emitted == emit_seq(*mask));
        lemma_emit_prefix_len(*mask, (w * h) as int);
    }
    let verts_len = welder.vertices.len();
    let mut uvs: Vec<UvPoint> = Vec::new();
    for j in 0..verts_len
        invariant
            verts_len == welder.vertices@.len(),
            welder.wf(),
            welder.width == w,
            welder.height == h,
            uvs@.len() == j,
            forall|i: int|
                0 <= i < j ==> #[trigger] uvs@[i] == uv_of(*mask, welder.vertices@[i]),
    {
        let k = welder.vertices[j];
        proof {
            assert(key_valid(welder.vertices@[j as int], w as int, h as int));
        }
        let uv = uv_for(mask, k.x, k.z);
        uvs.push(uv);
    }
    MeshBuffer { vertices: welder.vertices, uvs, indices }
}

/// The flat-shaded variant of a mesh: one vertex and UV per index
/// entry, shared topology discarded.
pub struct FlatMesh {
    pub vertices: Vec<VertexKey>,
    pub uvs: Vec<UvPoint>,
}

/// Duplicates every vertex per triangle reference: entry `i` of the
/// result copies the vertex and UV that index entry `i` referenced.
/// (Per-triangle normals are a world-space quantity computed by the
/// embedding application from these duplicated corners.)
pub fn flat_shade(mesh: &MeshBuffer) -> (f: FlatMesh)
    requires
        forall|i: int|
            0 <= i < mesh.indices@.len() ==> (#[trigger] mesh.indices@[i] as int)
                < mesh.vertices@.len(),
        mesh.uvs@.len() == mesh.vertices@.len(),
    ensures
        f.vertices@.len() == mesh.indices@.len(),
        f.uvs@.len() == mesh.indices@.len(),
        forall|i: int|
            0 <= i < mesh.indices@.len() ==> #[trigger] f.vertices@[i] == mesh.vertices@[
                mesh.indices@[i] as int
            ] && f.uvs@[i] == mesh.uvs@[mesh.indices@[i] as int],
{
    let n = mesh.indices.len();
    let mut vertices: Vec<VertexKey> = Vec::new();
    let mut uvs: Vec<UvPoint> = Vec::new();
    for i in 0..n
        invariant
            n == mesh.indices@.len(),
            mesh.uvs@.len() == mesh.vertices@.len(),
            forall|j: int|
                0 <= j < n ==> (#[trigger] mesh.indices@[j] as int) < mesh.vertices@.len(),
            vertices@.len() == i,
            uvs@.len() == i,
            forall|j: int|
                0 <= j < i ==> #[trigger] vertices@[j] == mesh.vertices@[mesh.indices@[j] as int],
            forall|j: int|
                0 <= j < i ==> #[trigger] uvs@[j] == mesh.uvs@[mesh.indices@[j] as int],
    {
        let idx = mesh.indices[i] as usize;
        vertices.push(mesh.vertices[idx]);
        uvs.push(mesh.uvs[idx]);
    }
    FlatMesh { vertices, uvs }
}



/// Law: compiled vertex buffers are exactly the distinct referenced
/// keys — the vertex list has no duplicates, and the number of
/// distinct keys the emission references equals its length. Together
/// with `mesh_matches` (every index entry resolves below the vertex
/// count) this pins the welding invariant.
pub proof fn lemma_distinct_key_count(m: SolidityMask)
    ensures
        welded_vertices(m).no_duplicates(),
        emit_seq(m).to_set().finite(),
        emit_seq(m).to_set().len() == welded_vertices(m).len(),
{
    broadcast use vstd::seq_lib::seq_to_set_is_finite;

    lemma_weld_props(emit_seq(m));
    welded_vertices(m).unique_seq_to_set();
    assert(welded_vertices(m).to_set() =~= emit_seq(m).to_set());
}

/// Law: the UV inset of any vertex is a sum of at most four unit
/// counts per axis and stays within two counts of the base point in
/// each direction; a count is worth 0.05/W of texture space, below
/// the 0.15/W bound per term.
pub proof fn lemma_uv_inset_bounded(m: SolidityMask, x: int, z: int)
    ensures
        -2 <= uv_du(m, x, z) <= 2,
        -2 <= uv_dv(m, x, z) <= 2,
{
}

/// All keys the emission references are corners of the mask's cell
/// grid.
pub proof fn lemma_emit_prefix_valid(m: SolidityMask, n: int)
    requires
        m.wf(),
        0 <= n <= m.width * m.height,
    ensures
        forall|i: int|
            0 <= i < emit_prefix(m, n).len() ==> key_valid(
                #[trigger] emit_prefix(m, n)[i],
                m.width as int,
                m.height as int,
            ),
    decreases n,
{
    if n > 0 {
        lemma_emit_prefix_valid(m, n - 1);
        let h = m.height as int;
        let w = m.width as int;
        let x = (n - 1) / h;
        let z = (n - 1) % h;
        assert(h > 0) by {
            if h <= 0 {
                assert(w * h <= 0) by (nonlinear_arith)
                    requires h <= 0 && w >= 0;
            }
        }
        assert(0 <= x < w && 0 <= z < h) by {
            assert(n - 1 < h * w) by (nonlinear_arith)
                requires n - 1 < w * h;
            vstd::arithmetic::div_mod::lemma_multiply_divide_lt(n - 1, h, w);
            vstd::arithmetic::div_mod::lemma_mod_bound(n - 1, h);
            assert(x >= 0) by (nonlinear_arith)
                requires n - 1 >= 0 && h > 0 && x == (n - 1) / h;
        }
        assert forall|i: int| 0 <= i < emit_prefix(m, n).len() implies key_valid(
            #[trigger] emit_prefix(m, n)[i],
            w,
            h,
        ) by {
            let prev = emit_prefix(m, n - 1);
            if i >= prev.len() {
                assert(emit_prefix(m, n)[i] == cell_keys(m, x, z)[i - prev.len()]);
                assert(emit_prefix(m, n)[i] == slot_key(m, x, z, i - prev.len()));
            }
        }
    }
}

/// Law: every vertex of the compiled buffer lies on the mask's corner
/// grid — coordinates at most (W, H), level below 3 — so the base UV
/// point stays within the unit square.
pub proof fn lemma_welded_keys_valid(m: SolidityMask)
    requires
        m.wf(),
    ensures
        forall|j: int|
            0 <= j < welded_vertices(m).len() ==> key_valid(
                #[trigger] welded_vertices(m)[j],
                m.width as int,
                m.height as int,
            ),
{
    assert(m.width * m.height >= 0) by (nonlinear_arith)
        requires m.width >= 0 && m.height >= 0;
    lemma_emit_prefix_valid(m, m.width * m.height);
    lemma_weld_props(emit_seq(m));
    assert forall|j: int| 0 <= j < welded_vertices(m).len() implies key_valid(
        #[trigger] welded_vertices(m)[j],
        m.width as int,
        m.height as int,
    ) by {
        let k = welded_vertices(m)[j];
        assert(welded_vertices(m).contains(k));
        assert(emit_seq(m).contains(k));
        let i = choose|i: int| 0 <= i < emit_seq(m).len() && emit_seq(m)[i] == k;
    }
}

/// Law: the compiler's contract pins its output completely — any two
/// buffer triples that match the same mask are equal, so recompiling
/// an unchanged mask yields bit-identical buffers.
pub proof fn lemma_compile_deterministic(
    m: SolidityMask,
    v1: Seq<VertexKey>,
    u1: Seq<UvPoint>,
    i1: Seq<u32>,
    v2: Seq<VertexKey>,
    u2: Seq<UvPoint>,
    i2: Seq<u32>,
)
    requires
        mesh_matches(m, v1, u1, i1),
        mesh_matches(m, v2, u2, i2),
    ensures
        v1 == v2,
        u1 == u2,
        i1 == i2,
{
    lemma_weld_props(emit_seq(m));
    assert(u1 =~= u2);
    assert forall|i: int| 0 <= i < i1.len() implies i1[i] == i2[i] by {
        assert(v1[i1[i] as int] == emit_seq(m)[i]);
        assert(v1[i2[i] as int] == emit_seq(m)[i]);
    }
    assert(i1 =~= i2);
}

} // verus!
