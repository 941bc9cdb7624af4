//! Integer lattice points and the sign field sampled on a cube of them.
use vstd::prelude::*;

verus! {

/// A point of the integer lattice, in world coordinates.
#[derive(Clone, Copy, Debug, PartialEq, Eq, Structural)]
pub struct GridPoint {
    pub x: i32,
    pub y: i32,
    pub z: i32,
}

impl GridPoint {
    pub fn new(x: i32, y: i32, z: i32) -> (r: GridPoint)
        ensures
            r.x == x,
            r.y == y,
            r.z == z,
    {
        GridPoint { x, y, z }
    }
}

/// A unit cell of a block, named by its lowest corner in coordinates local
/// to the block (each between 0 and the block size, exclusive).
#[derive(Clone, Copy, Debug, PartialEq, Eq, Structural)]
pub struct Cell {
    pub x: usize,
    pub y: usize,
    pub z: usize,
}

/// The cell with lowest corner `(x, y, z)`.
pub open spec fn cell(x: int, y: int, z: int) -> Cell {
    Cell { x: x as usize, y: y as usize, z: z as usize }
}

/// Which points of a cube of `dim`³ lattice points lie inside the solid
/// (density above zero). Points are addressed in coordinates local to the
/// cube, each from 0 to `dim - 1`.
pub struct SolidField {
    layers: Vec<Vec<Vec<bool>>>,
}

/// `layers[z][y][x]` has the shape of a cube: `layers.len()` layers of as
/// many rows of as many entries.
pub open spec fn is_cube(layers: Seq<Vec<Vec<bool>>>) -> bool {
    forall|z: int|
        0 <= z < layers.len() ==> {
            &&& #[trigger] layers[z]@.len() == layers.len()
            &&& forall|y: int|
                0 <= y < layers.len() ==> #[trigger] layers[z]@[y]@.len() == layers.len()
        }
}

impl SolidField {
    #[verifier::type_invariant]
    spec fn shape_is_cube(self) -> bool {
        is_cube(self.layers@)
    }

    /// Number of lattice points along each axis.
    pub closed spec fn dim(self) -> nat {
        self.layers@.len()
    }

    /// Whether the point with local coordinates `(x, y, z)` is solid.
    pub closed spec fn solid(self, x: int, y: int, z: int) -> bool {
        self.layers@[z]@[y]@[x]
    }

    /// Builds a field from `layers[z][y][x]`; `None` unless the layers have
    /// the shape of a cube.
    pub fn new(layers: Vec<Vec<Vec<bool>>>) -> (r: Option<SolidField>)
        ensures
            r is Some <==> is_cube(layers@),
            r matches Some(f) ==> {
                &&& f.dim() == layers@.len()
                &&& forall|x: int, y: int, z: int|
                    0 <= x < f.dim() && 0 <= y < f.dim() && 0 <= z < f.dim() ==> #[trigger] f.solid(
                        x,
                        y,
                        z,
                    ) == layers@[z]@[y]@[x]
            },
    {
        let n = layers.len();
        let mut z: usize = 0;
        while z < n
            invariant
                n == layers@.len(),
                z <= n,
                forall|zz: int|
                    0 <= zz < z ==> {
                        &&& #[trigger] layers@[zz]@.len() == n
                        &&& forall|y: int|
                            0 <= y < n ==> #[trigger] layers@[zz]@[y]@.len() == n
                    },
            decreases n - z,
        {
            if layers[z].len() != n {
                return None;
            }
            let mut y: usize = 0;
            while y < n
                invariant
                    n == layers@.len(),
                    z < n,
                    y <= n,
                    layers@[z as int]@.len() == n,
                    forall|yy: int| 0 <= yy < y ==> #[trigger] layers@[z as int]@[yy]@.len() == n,
                    forall|zz: int|
                        0 <= zz < z ==> {
                            &&& #[trigger] layers@[zz]@.len() == n
                            &&& forall|y: int|
                                0 <= y < n ==> #[trigger] layers@[zz]@[y]@.len() == n
                        },
                decreases n - y,
            {
                if layers[z][y].len() != n {
                    return None;
                }
                y = y + 1;
            }
            assert forall|zz: int| 0 <= zz < z + 1 implies {
                &&& #[trigger] layers@[zz]@.len() == n
                &&& forall|y: int| 0 <= y < n ==> #[trigger] layers@[zz]@[y]@.len() == n
            } by {
                if zz == z {
                    assert forall|y: int| 0 <= y < n implies #[trigger] layers@[zz]@[y]@.len()
                        == n by {
                        assert(layers@[z as int]@[y]@.len() == n);
                    }
                }
            }
            z = z + 1;
        }
        Some(SolidField { layers })
    }

    /// Number of lattice points along each axis.
    pub fn points_per_axis(&self) -> (r: usize)
        ensures
            r == self.dim(),
    {
        self.layers.len()
    }

    /// Whether the point `(x, y, z)` is solid.
    pub fn at(&self, x: usize, y: usize, z: usize) -> (r: bool)
        requires
            x < self.dim(),
            y < self.dim(),
            z < self.dim(),
        ensures
            r == self.solid(x as int, y as int, z as int),
    {
        proof {
            use_type_invariant(self);
        }
        self.layers[z][y][x]
    }
}

} // verus!
