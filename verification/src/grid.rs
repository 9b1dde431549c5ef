//! Integer grid primitives shared by the mesh compiler, the collider
//! merger and the connectivity validator: 2D cell coordinates, a packed
//! 64-bit key for hashing, and 4-directional neighbor stepping in a fixed
//! order.

use vstd::prelude::*;

verus! {

/// A cell of the integer grid. `x` grows to the right, `z` downward
/// (the ground plane of the world; `z` is the image row).
#[derive(Clone, Copy, PartialEq, Eq, Structural, Debug, Hash)]
pub struct Cell {
    pub x: i32,
    pub z: i32,
}

impl Cell {
    /// The packed 64-bit key of this cell: biased `x` in the high half,
    /// biased `z` in the low half. Injective over all cells.
    pub open spec fn key_spec(self) -> u64 {
        (((self.x + 0x8000_0000) * 0x1_0000_0000) + (self.z + 0x8000_0000)) as u64
    }

    /// Computes the packed key of this cell.
    pub fn key(self) -> (k: u64)
        ensures
            k == self.key_spec(),
    {
        let xo: u64 = (self.x as i64 + 0x8000_0000i64) as u64;
        let zo: u64 = (self.z as i64 + 0x8000_0000i64) as u64;
        xo * 0x1_0000_0000u64 + zo
    }

    /// Two distinct cells never share a packed key.
    pub proof fn lemma_key_injective(a: Cell, b: Cell)
        ensures
            a.key_spec() == b.key_spec() ==> a == b,
    {
        let ax = a.x + 0x8000_0000;
        let az = a.z + 0x8000_0000;
        let bx = b.x + 0x8000_0000;
        let bz = b.z + 0x8000_0000;
        assert(0 <= ax < 0x1_0000_0000 && 0 <= az < 0x1_0000_0000);
        assert(0 <= bx < 0x1_0000_0000 && 0 <= bz < 0x1_0000_0000);
        if a.key_spec() == b.key_spec() {
            assert(ax * 0x1_0000_0000 + az == bx * 0x1_0000_0000 + bz) by (nonlinear_arith)
                requires
                    0 <= ax < 0x1_0000_0000,
                    0 <= az < 0x1_0000_0000,
                    0 <= bx < 0x1_0000_0000,
                    0 <= bz < 0x1_0000_0000,
                    ((ax * 0x1_0000_0000 + az) as u64) == ((bx * 0x1_0000_0000 + bz) as u64),
            ;
            assert(ax == bx && az == bz) by (nonlinear_arith)
                requires
                    0 <= az < 0x1_0000_0000,
                    0 <= bz < 0x1_0000_0000,
                    ax * 0x1_0000_0000 + az == bx * 0x1_0000_0000 + bz,
            ;
        }
    }

    /// The neighbor of this cell one step in direction `d`; the order
    /// is +x, +z, -x, -z (the order the validator visits neighbors in).
    pub open spec fn step_spec(self, d: int) -> Cell {
        Cell { x: (self.x + dir_dx(d)) as i32, z: (self.z + dir_dz(d)) as i32 }
    }

    /// Steps one cell in direction `d` (0: +x, 1: +z, 2: -x, 3: -z).
    pub fn step(self, d: usize) -> (n: Cell)
        requires
            d < 4,
            i32::MIN < self.x < i32::MAX,
            i32::MIN < self.z < i32::MAX,
        ensures
            n == self.step_spec(d as int),
    {
        match d {
            0 => Cell { x: self.x + 1, z: self.z },
            1 => Cell { x: self.x, z: self.z + 1 },
            2 => Cell { x: self.x - 1, z: self.z },
            _ => Cell { x: self.x, z: self.z - 1 },
        }
    }
}

/// The x component of direction `d`, in the fixed order +x, +z, -x, -z.
pub open spec fn dir_dx(d: int) -> int {
    if d == 0 {
        1
    } else if d == 2 {
        -1
    } else {
        0
    }
}

/// The z component of direction `d`, in the fixed order +x, +z, -x, -z.
pub open spec fn dir_dz(d: int) -> int {
    if d == 1 {
        1
    } else if d == 3 {
        -1
    } else {
        0
    }
}

} // verus!
