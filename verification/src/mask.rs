//! Raster masks derived from RGBA image data.
//!
//! A pixel is *solid* when its alpha channel is at least 128. The
//! [`SolidityMask`] keeps only solidity and feeds the mesh compiler; the
//! [`ColorMask`] additionally keeps the RGB color of every pixel and feeds
//! the collider region merger. Reads outside the mask bounds are never
//! solid.

use vstd::prelude::*;

verus! {

/// Alpha values at or above this threshold make a pixel solid.
pub const SOLID_ALPHA: u8 = 128;

/// Both mask dimensions must fit in 32 bits (they come from image sizes).
pub const MAX_DIM: usize = 0xFFFF_FFFF;

/// An RGB color triple, compared exactly channel by channel.
#[derive(Clone, Copy, PartialEq, Eq, Structural, Debug)]
pub struct Rgb {
    pub r: u8,
    pub g: u8,
    pub b: u8,
}

/// A `width` x `height` grid of booleans, row-major: the pixel at column
/// `x` of row `z` sits at index `z * width + x`.
pub struct SolidityMask {
    pub width: usize,
    pub height: usize,
    pub solid: Vec<bool>,
}

impl SolidityMask {
    /// Validity: the grid is fully populated and the dimensions are
    /// image-sized.
    pub open spec fn wf(self) -> bool {
        &&& self.solid@.len() == self.width * self.height
        &&& self.width <= MAX_DIM
        &&& self.height <= MAX_DIM
    }

    /// Whether the pixel at `(x, z)` is solid; positions outside the mask
    /// are not.
    pub open spec fn solid_at(self, x: int, z: int) -> bool {
        &&& 0 <= x < self.width
        &&& 0 <= z < self.height
        &&& self.solid@[z * self.width + x]
    }

    /// Builds a mask from raw 8-bit RGBA pixel data (4 bytes per pixel,
    /// row-major); a pixel is solid when its alpha byte is at least 128.
    /// Returns `None` exactly when the buffer does not hold
    /// `4 * width * height` bytes or a dimension is oversized.
    pub fn from_rgba(width: usize, height: usize, rgba: &Vec<u8>) -> (r: Option<SolidityMask>)
        ensures
            r is Some <==> width <= MAX_DIM && height <= MAX_DIM && rgba@.len() == 4 * width
                * height,
            r matches Some(m) ==> {
                &&& m.wf()
                &&& m.width == width
                &&& m.height == height
                &&& forall|i: int|
                    0 <= i < width * height ==> m.solid@[i] == (rgba@[4 * i + 3] >= SOLID_ALPHA)
            },
    {
        if width > MAX_DIM || height > MAX_DIM {
            return None;
        }
        proof {
            assert(rgba.len() == rgba@.len());
        }
        let Some(cells) = width.checked_mul(height) else {
            proof {
                assert(4 * width * height >= width * height) by (nonlinear_arith)
                    requires width >= 0 && height >= 0;
            }
            return None;
        };
        let Some(bytes) = cells.checked_mul(4) else {
            proof {
                assert(4 * width * height == 4 * cells) by (nonlinear_arith)
                    requires cells == width * height;
            }
            return None;
        };
        if rgba.len() != bytes {
            proof {
                assert(4 * width * height == 4 * cells) by (nonlinear_arith)
                    requires cells == width * height;
            }
            return None;
        }
        proof {
            assert(4 * width * height == 4 * cells) by (nonlinear_arith)
                requires cells == width * height;
        }
        let mut solid: Vec<bool> = Vec::new();
        for i in 0..cells
            invariant
                cells == width * height,
                4 * cells <= usize::MAX,
                rgba@.len() == 4 * cells,
                solid@.len() == i,
                forall|j: int| 0 <= j < i ==> solid@[j] == (rgba@[4 * j + 3] >= SOLID_ALPHA),
        {
            solid.push(rgba[4 * i + 3] >= SOLID_ALPHA);
        }
        Some(SolidityMask { width, height, solid })
    }

    /// Builds a mask directly from a boolean grid. Returns `None` exactly
    /// when the grid does not hold `width * height` entries or a dimension
    /// is oversized.
    pub fn from_bits(width: usize, height: usize, bits: Vec<bool>) -> (r: Option<SolidityMask>)
        ensures
            r is Some <==> width <= MAX_DIM && height <= MAX_DIM && bits@.len() == width * height,
            r matches Some(m) ==> m.wf() && m.width == width && m.height == height && m.solid@
                == bits@,
    {
        if width > MAX_DIM || height > MAX_DIM {
            return None;
        }
        proof {
            assert(bits.len() == bits@.len());
        }
        let Some(cells) = width.checked_mul(height) else { return None };
        if bits.len() != cells {
            return None;
        }
        Some(SolidityMask { width, height, solid: bits })
    }

    /// Reads the solidity of `(x, z)`, false outside the mask.
    pub fn is_solid(&self, x: i64, z: i64) -> (b: bool)
        requires
            self.wf(),
        ensures
            b == self.solid_at(x as int, z as int),
    {
        if x < 0 || z < 0 || x >= self.width as i64 || z >= self.height as i64 {
            return false;
        }
        proof {
            assert(self.solid.len() == self.solid@.len());
            lemma_grid_index(x as int, z as int, self.width as int, self.height as int);
        }
        let idx = (z as usize) * self.width + (x as usize);
        self.solid[idx]
    }
}

/// A `width` x `height` grid of (solid, color) pairs, row-major like
/// [`SolidityMask`].
pub struct ColorMask {
    pub width: usize,
    pub height: usize,
    pub solid: Vec<bool>,
    pub colors: Vec<Rgb>,
}

impl ColorMask {
    /// Validity: both grids are fully populated and the dimensions are
    /// image-sized.
    pub open spec fn wf(self) -> bool {
        &&& self.solid@.len() == self.width * self.height
        &&& self.colors@.len() == self.width * self.height
        &&& self.width <= MAX_DIM
        &&& self.height <= MAX_DIM
    }

    /// Whether the pixel at `(x, z)` is solid; positions outside the mask
    /// are not.
    pub open spec fn solid_at(self, x: int, z: int) -> bool {
        &&& 0 <= x < self.width
        &&& 0 <= z < self.height
        &&& self.solid@[z * self.width + x]
    }

    /// The color of the in-bounds pixel at `(x, z)`.
    pub open spec fn color_at(self, x: int, z: int) -> Rgb {
        self.colors@[z * self.width + x]
    }

    /// Builds a mask from raw 8-bit RGBA pixel data (4 bytes per pixel,
    /// row-major): solidity from the alpha byte as in
    /// [`SolidityMask::from_rgba`], color from the first three bytes.
    /// Returns `None` exactly when the buffer does not hold
    /// `4 * width * height` bytes or a dimension is oversized.
    pub fn from_rgba(width: usize, height: usize, rgba: &Vec<u8>) -> (r: Option<ColorMask>)
        ensures
            r is Some <==> width <= MAX_DIM && height <= MAX_DIM && rgba@.len() == 4 * width
                * height,
            r matches Some(m) ==> {
                &&& m.wf()
                &&& m.width == width
                &&& m.height == height
                &&& forall|i: int|
                    0 <= i < width * height ==> m.solid@[i] == (rgba@[4 * i + 3] >= SOLID_ALPHA)
                &&& forall|i: int|
                    0 <= i < width * height ==> m.colors@[i] == (Rgb {
                        r: rgba@[4 * i],
                        g: rgba@[4 * i + 1],
                        b: rgba@[4 * i + 2],
                    })
            },
    {
        if width > MAX_DIM || height > MAX_DIM {
            return None;
        }
        proof {
            assert(rgba.len() == rgba@.len());
        }
        let Some(cells) = width.checked_mul(height) else {
            proof {
                assert(4 * width * height >= width * height) by (nonlinear_arith)
                    requires width >= 0 && height >= 0;
            }
            return None;
        };
        let Some(bytes) = cells.checked_mul(4) else {
            proof {
                assert(4 * width * height == 4 * cells) by (nonlinear_arith)
                    requires cells == width * height;
            }
            return None;
        };
        if rgba.len() != bytes {
            proof {
                assert(4 * width * height == 4 * cells) by (nonlinear_arith)
                    requires cells == width * height;
            }
            return None;
        }
        proof {
            assert(4 * width * height == 4 * cells) by (nonlinear_arith)
                requires cells == width * height;
        }
        let mut solid: Vec<bool> = Vec::new();
        let mut colors: Vec<Rgb> = Vec::new();
        for i in 0..cells
            invariant
                cells == width * height,
                4 * cells <= usize::MAX,
                rgba@.len() == 4 * cells,
                solid@.len() == i,
                colors@.len() == i,
                forall|j: int| 0 <= j < i ==> solid@[j] == (rgba@[4 * j + 3] >= SOLID_ALPHA),
                forall|j: int|
                    0 <= j < i ==> colors@[j] == (Rgb {
                        r: rgba@[4 * j],
                        g: rgba@[4 * j + 1],
                        b: rgba@[4 * j + 2],
                    }),
        {
            solid.push(rgba[4 * i + 3] >= SOLID_ALPHA);
            colors.push(Rgb { r: rgba[4 * i], g: rgba[4 * i + 1], b: rgba[4 * i + 2] });
        }
        Some(ColorMask { width, height, solid, colors })
    }

    /// Builds a mask directly from boolean and color grids. Returns `None`
    /// exactly when a grid does not hold `width * height` entries or a
    /// dimension is oversized.
    pub fn from_parts(width: usize, height: usize, solid: Vec<bool>, colors: Vec<Rgb>) -> (r:
        Option<ColorMask>)
        ensures
            r is Some <==> width <= MAX_DIM && height <= MAX_DIM && solid@.len() == width * height
                && colors@.len() == width * height,
            r matches Some(m) ==> m.wf() && m.width == width && m.height == height && m.solid@
                == solid@ && m.colors@ == colors@,
    {
        if width > MAX_DIM || height > MAX_DIM {
            return None;
        }
        proof {
            assert(solid.len() == solid@.len());
            assert(colors.len() == colors@.len());
        }
        let Some(cells) = width.checked_mul(height) else { return None };
        if solid.len() != cells || colors.len() != cells {
            return None;
        }
        Some(ColorMask { width, height, solid, colors })
    }

    /// Reads the solidity of `(x, z)`, false outside the mask.
    pub fn is_solid(&self, x: i64, z: i64) -> (b: bool)
        requires
            self.wf(),
        ensures
            b == self.solid_at(x as int, z as int),
    {
        if x < 0 || z < 0 || x >= self.width as i64 || z >= self.height as i64 {
            return false;
        }
        proof {
            assert(self.solid.len() == self.solid@.len());
            lemma_grid_index(x as int, z as int, self.width as int, self.height as int);
        }
        let idx = (z as usize) * self.width + (x as usize);
        self.solid[idx]
    }

    /// Reads the color of the in-bounds pixel at `(x, z)`.
    pub fn color(&self, x: usize, z: usize) -> (c: Rgb)
        requires
            self.wf(),
            x < self.width,
            z < self.height,
        ensures
            c == self.color_at(x as int, z as int),
    {
        proof {
            assert(self.colors.len() == self.colors@.len());
            lemma_grid_index(x as int, z as int, self.width as int, self.height as int);
        }
        self.colors[z * self.width + x]
    }
}

/// A row-major index lies inside the grid when its coordinates do.
pub proof fn lemma_grid_index(x: int, z: int, w: int, h: int)
    by (nonlinear_arith)
    requires
        0 <= x < w,
        0 <= z < h,
    ensures
        0 <= z * w + x < w * h,
{
}

} // verus!
