//! Dual contouring on a block of the lattice: each cell through which the
//! surface passes gets one vertex, and each lattice edge on which the sign
//! changes is closed by a quad over the four cells around it.
use vstd::prelude::*;

use crate::grid::{cell, Cell, GridPoint, SolidField};
use crate::mesh_properties::{
    edges_have_quads, in_scan_order, lemma_every_crossing_edge_has_its_quad,
    lemma_every_quad_is_a_crossing_edge, lemma_vertex_list_entries,
    lemma_quads_in_scan_order, lemma_vertex_list_in_scan_order,
    lemma_vertex_list_is_sign_change_cells, quads_from_edges, quads_in_scan_order,
};

verus! {

// ---------------------------------------------------------------------
// Which cells carry a vertex, and in which order
// ---------------------------------------------------------------------

/// The surface passes through cell `(x, y, z)`: its eight corners are not all
/// of one sign.
pub open spec fn has_vertex(f: SolidField, x: int, y: int, z: int) -> bool {
    let s = f.solid(x, y, z);
    !{
        &&& f.solid(x + 1, y, z) == s
        &&& f.solid(x, y + 1, z) == s
        &&& f.solid(x + 1, y + 1, z) == s
        &&& f.solid(x, y, z + 1) == s
        &&& f.solid(x + 1, y, z + 1) == s
        &&& f.solid(x, y + 1, z + 1) == s
        &&& f.solid(x + 1, y + 1, z + 1) == s
    }
}

/// The cells of row `(y, z)` with `x < n` that carry a vertex, by
/// increasing `x`.
pub open spec fn row_cells(f: SolidField, y: int, z: int, n: nat) -> Seq<Cell>
    decreases n,
{
    if n == 0 {
        Seq::empty()
    } else {
        let x = n - 1;
        row_cells(f, y, z, (n - 1) as nat) + if has_vertex(f, x, y, z) {
            seq![cell(x, y, z)]
        } else {
            Seq::empty()
        }
    }
}

/// The cells of layer `z` with `y < n` (and `x < s`) that carry a vertex,
/// row by row.
pub open spec fn plane_cells(f: SolidField, s: nat, z: int, n: nat) -> Seq<Cell>
    decreases n,
{
    if n == 0 {
        Seq::empty()
    } else {
        plane_cells(f, s, z, (n - 1) as nat) + row_cells(f, n - 1, z, s)
    }
}

/// The cells with `z < n` (and `x, y < s`) that carry a vertex, layer by
/// layer.
pub open spec fn block_cells(f: SolidField, s: nat, n: nat) -> Seq<Cell>
    decreases n,
{
    if n == 0 {
        Seq::empty()
    } else {
        block_cells(f, s, (n - 1) as nat) + plane_cells(f, s, n - 1, s)
    }
}

/// All cells of an `s`³ block that carry a vertex, in scan order (`x`
/// fastest, then `y`, then `z`). The vertex of a cell is the entry at the
/// cell's position in this sequence.
pub open spec fn vertex_cells(f: SolidField, s: nat) -> Seq<Cell> {
    block_cells(f, s, s)
}

/// The number of vertex-carrying cells that precede cell `(x, y, z)` in scan
/// order: the index of its vertex.
pub open spec fn vertex_index(f: SolidField, s: nat, x: int, y: int, z: int) -> nat {
    block_cells(f, s, z as nat).len() + plane_cells(f, s, z, y as nat).len() + row_cells(
        f,
        y,
        z,
        x as nat,
    ).len()
}

/// What the index table holds for cell `(x, y, z)`.
pub open spec fn table_entry(f: SolidField, s: nat, x: int, y: int, z: int) -> Option<u32> {
    if has_vertex(f, x, y, z) {
        Some(vertex_index(f, s, x, y, z) as u32)
    } else {
        None
    }
}

/// `t[z][y][x]` is the table entry of every cell of the block.
pub open spec fn table_ok(t: Seq<Vec<Vec<Option<u32>>>>, f: SolidField, s: nat) -> bool {
    &&& t.len() == s
    &&& forall|z: int| 0 <= z < s ==> #[trigger] plane_ok(t[z]@, f, s, z)
}

pub open spec fn plane_ok(p: Seq<Vec<Option<u32>>>, f: SolidField, s: nat, z: int) -> bool {
    &&& p.len() == s
    &&& forall|y: int| 0 <= y < s ==> #[trigger] row_ok(p[y]@, f, s, y, z)
}

pub open spec fn row_ok(r: Seq<Option<u32>>, f: SolidField, s: nat, y: int, z: int) -> bool {
    &&& r.len() == s
    &&& forall|x: int| 0 <= x < s ==> #[trigger] r[x] == table_entry(f, s, x, y, z)
}

// ---------------------------------------------------------------------
// Bounds on the number of vertices
// ---------------------------------------------------------------------

proof fn lemma_row_len(f: SolidField, y: int, z: int, n: nat)
    ensures
        row_cells(f, y, z, n).len() <= n,
    decreases n,
{
    if n > 0 {
        lemma_row_len(f, y, z, (n - 1) as nat);
    }
}

proof fn lemma_plane_len(f: SolidField, s: nat, z: int, n: nat)
    ensures
        plane_cells(f, s, z, n).len() <= n * s,
    decreases n,
{
    if n > 0 {
        lemma_plane_len(f, s, z, (n - 1) as nat);
        lemma_row_len(f, n - 1, z, s);
        assert((n - 1) * s + s == n * s) by (nonlinear_arith);
    }
}

proof fn lemma_block_len(f: SolidField, s: nat, n: nat)
    ensures
        block_cells(f, s, n).len() <= n * (s * s),
    decreases n,
{
    if n > 0 {
        lemma_block_len(f, s, (n - 1) as nat);
        lemma_plane_len(f, s, n - 1, s);
        assert((n - 1) * (s * s) + s * s == n * (s * s)) by (nonlinear_arith);
    }
}

/// The vertex index of a cell of the block is below `s`³.
proof fn lemma_index_below_volume(f: SolidField, s: nat, x: nat, y: nat, z: nat)
    requires
        x < s,
        y < s,
        z < s,
    ensures
        vertex_index(f, s, x as int, y as int, z as int) < s * s * s,
{
    lemma_block_len(f, s, z);
    lemma_plane_len(f, s, z as int, y);
    lemma_row_len(f, y as int, z as int, x);
    assert(z * (s * s) + y * s + x < s * s * s) by (nonlinear_arith)
        requires
            x < s,
            y < s,
            z < s,
    ;
}

/// An `s`³ block has at most `s`³ vertices.
pub proof fn lemma_vertex_count_bound(f: SolidField, s: nat)
    ensures
        vertex_cells(f, s).len() <= s * s * s,
{
    lemma_block_len(f, s, s);
    assert(s * (s * s) == s * s * s) by (nonlinear_arith);
}

// ---------------------------------------------------------------------
// Building the vertex list and the index table
// ---------------------------------------------------------------------

fn cell_has_vertex(f: &SolidField, x: usize, y: usize, z: usize) -> (r: bool)
    requires
        x + 1 < f.dim(),
        y + 1 < f.dim(),
        z + 1 < f.dim(),
    ensures
        r == has_vertex(*f, x as int, y as int, z as int),
{
    let _n = f.points_per_axis();
    let s = f.at(x, y, z);
    !(f.at(x + 1, y, z) == s && f.at(x, y + 1, z) == s && f.at(x + 1, y + 1, z) == s && f.at(
        x,
        y,
        z + 1,
    ) == s && f.at(x + 1, y, z + 1) == s && f.at(x, y + 1, z + 1) == s && f.at(x + 1, y + 1, z + 1)
        == s)
}

/// Scans the block once, listing the vertex-carrying cells and recording
/// for each cell the index of its vertex.
fn index_cells(f: &SolidField, s: usize) -> (r: (Vec<Cell>, Vec<Vec<Vec<Option<u32>>>>))
    requires
        f.dim() == s + 1,
        s * s * s <= 0x1_0000_0000,
    ensures
        r.0@ == vertex_cells(*f, s as nat),
        table_ok(r.1@, *f, s as nat),
{
    let mut cells: Vec<Cell> = Vec::new();
    let mut table: Vec<Vec<Vec<Option<u32>>>> = Vec::new();
    let mut z: usize = 0;
    while z < s
        invariant
            f.dim() == s + 1,
            s * s * s <= 0x1_0000_0000,
            z <= s,
            cells@ == block_cells(*f, s as nat, z as nat),
            table@.len() == z,
            forall|zz: int| 0 <= zz < z ==> #[trigger] plane_ok(table@[zz]@, *f, s as nat, zz),
        decreases s - z,
    {
        let mut plane: Vec<Vec<Option<u32>>> = Vec::new();
        let mut y: usize = 0;
        while y < s
            invariant
                f.dim() == s + 1,
                s * s * s <= 0x1_0000_0000,
                z < s,
                y <= s,
                cells@ == block_cells(*f, s as nat, z as nat) + plane_cells(
                    *f,
                    s as nat,
                    z as int,
                    y as nat,
                ),
                plane@.len() == y,
                forall|yy: int|
                    0 <= yy < y ==> #[trigger] row_ok(plane@[yy]@, *f, s as nat, yy, z as int),
            decreases s - y,
        {
            let mut row: Vec<Option<u32>> = Vec::new();
            let mut x: usize = 0;
            while x < s
                invariant
                    f.dim() == s + 1,
                    s * s * s <= 0x1_0000_0000,
                    z < s,
                    y < s,
                    x <= s,
                    cells@ == block_cells(*f, s as nat, z as nat) + plane_cells(
                        *f,
                        s as nat,
                        z as int,
                        y as nat,
                    ) + row_cells(*f, y as int, z as int, x as nat),
                    row@.len() == x,
                    forall|xx: int|
                        0 <= xx < x ==> #[trigger] row@[xx] == table_entry(
                            *f,
                            s as nat,
                            xx,
                            y as int,
                            z as int,
                        ),
                decreases s - x,
            {
                let ghost prev = cells@;
                if cell_has_vertex(f, x, y, z) {
                    proof {
                        lemma_index_below_volume(*f, s as nat, x as nat, y as nat, z as nat);
                    }
                    row.push(Some(cells.len() as u32));
                    cells.push(Cell { x, y, z });
                } else {
                    row.push(None);
                }
                assert(cells@ =~= block_cells(*f, s as nat, z as nat) + plane_cells(
                    *f,
                    s as nat,
                    z as int,
                    y as nat,
                ) + row_cells(*f, y as int, z as int, (x + 1) as nat));
                x = x + 1;
            }
            assert(cells@ =~= block_cells(*f, s as nat, z as nat) + plane_cells(
                *f,
                s as nat,
                z as int,
                (y + 1) as nat,
            ));
            plane.push(row);
            y = y + 1;
        }
        assert(cells@ =~= block_cells(*f, s as nat, (z + 1) as nat));
        table.push(plane);
        z = z + 1;
    }
    (cells, table)
}

// ---------------------------------------------------------------------
// Quads
// ---------------------------------------------------------------------

/// The two triangles `(a, b, c)` and `(c, d, a)` of a quad, or, with `flip`,
/// the same quad wound the other way: `(a, d, c)` and `(c, b, a)`.
pub open spec fn quad(a: u32, b: u32, c: u32, d: u32, flip: bool) -> Seq<u32> {
    if !flip {
        seq![a, b, c, c, d, a]
    } else {
        seq![a, d, c, c, b, a]
    }
}

/// The vertex index of cell `(x, y, z)` as it is written into the index
/// buffer.
pub open spec fn idx(f: SolidField, s: nat, x: int, y: int, z: int) -> u32 {
    vertex_index(f, s, x, y, z) as u32
}

/// The quad across the edge from point `(x, y, z)` to `(x, y, z + 1)`, when
/// the sign changes on it and the four cells around it lie in the block.
pub open spec fn z_face(f: SolidField, s: nat, x: int, y: int, z: int) -> Seq<u32> {
    if x > 0 && y > 0 && f.solid(x, y, z) != f.solid(x, y, z + 1) {
        quad(
            idx(f, s, x - 1, y - 1, z),
            idx(f, s, x, y - 1, z),
            idx(f, s, x, y, z),
            idx(f, s, x - 1, y, z),
            f.solid(x, y, z + 1),
        )
    } else {
        Seq::empty()
    }
}

/// The quad across the edge from point `(x, y, z)` to `(x, y + 1, z)`.
pub open spec fn y_face(f: SolidField, s: nat, x: int, y: int, z: int) -> Seq<u32> {
    if x > 0 && z > 0 && f.solid(x, y, z) != f.solid(x, y + 1, z) {
        quad(
            idx(f, s, x - 1, y, z - 1),
            idx(f, s, x, y, z - 1),
            idx(f, s, x, y, z),
            idx(f, s, x - 1, y, z),
            f.solid(x, y, z),
        )
    } else {
        Seq::empty()
    }
}

/// The quad across the edge from point `(x, y, z)` to `(x + 1, y, z)`.
pub open spec fn x_face(f: SolidField, s: nat, x: int, y: int, z: int) -> Seq<u32> {
    if y > 0 && z > 0 && f.solid(x, y, z) != f.solid(x + 1, y, z) {
        quad(
            idx(f, s, x, y - 1, z - 1),
            idx(f, s, x, y, z - 1),
            idx(f, s, x, y, z),
            idx(f, s, x, y - 1, z),
            f.solid(x + 1, y, z),
        )
    } else {
        Seq::empty()
    }
}

/// What lattice point `(x, y, z)` adds to the index buffer: the quads of its
/// edges along `Z`, `Y` and `X`, in that order.
pub open spec fn point_faces(f: SolidField, s: nat, x: int, y: int, z: int) -> Seq<u32> {
    z_face(f, s, x, y, z) + y_face(f, s, x, y, z) + x_face(f, s, x, y, z)
}

pub open spec fn row_faces(f: SolidField, s: nat, y: int, z: int, n: nat) -> Seq<u32>
    decreases n,
{
    if n == 0 {
        Seq::empty()
    } else {
        row_faces(f, s, y, z, (n - 1) as nat) + point_faces(f, s, n - 1, y, z)
    }
}

pub open spec fn plane_faces(f: SolidField, s: nat, z: int, n: nat) -> Seq<u32>
    decreases n,
{
    if n == 0 {
        Seq::empty()
    } else {
        plane_faces(f, s, z, (n - 1) as nat) + row_faces(f, s, n - 1, z, s)
    }
}

pub open spec fn block_faces(f: SolidField, s: nat, n: nat) -> Seq<u32>
    decreases n,
{
    if n == 0 {
        Seq::empty()
    } else {
        block_faces(f, s, (n - 1) as nat) + plane_faces(f, s, n - 1, s)
    }
}

/// The index buffer of an `s`³ block: the quads of the lattice points with
/// local coordinates below `s`, in scan order.
pub open spec fn faces(f: SolidField, s: nat) -> Seq<u32> {
    block_faces(f, s, s)
}

fn push_quad(out: &mut Vec<u32>, a: u32, b: u32, c: u32, d: u32, flip: bool)
    ensures
        final(out)@ == old(out)@ + quad(a, b, c, d, flip),
{
    if !flip {
        out.push(a);
        out.push(b);
        out.push(c);
        out.push(c);
        out.push(d);
        out.push(a);
    } else {
        out.push(a);
        out.push(d);
        out.push(c);
        out.push(c);
        out.push(b);
        out.push(a);
    }
    assert(final(out)@ =~= old(out)@ + quad(a, b, c, d, flip));
}

fn lookup(table: &Vec<Vec<Vec<Option<u32>>>>, f: &SolidField, s: usize, x: usize, y: usize, z: usize) -> (r: u32)
    requires
        table_ok(table@, *f, s as nat),
        x < s,
        y < s,
        z < s,
        has_vertex(*f, x as int, y as int, z as int),
    ensures
        r == idx(*f, s as nat, x as int, y as int, z as int),
{
    assert(plane_ok(table@[z as int]@, *f, s as nat, z as int));
    assert(row_ok(table@[z as int]@[y as int]@, *f, s as nat, y as int, z as int));
    assert(table@[z as int]@[y as int]@[x as int] == table_entry(*f, s as nat, x as int, y as int, z as int));
    table[z][y][x].unwrap()
}

fn push_point_faces(
    out: &mut Vec<u32>,
    table: &Vec<Vec<Vec<Option<u32>>>>,
    f: &SolidField,
    s: usize,
    x: usize,
    y: usize,
    z: usize,
)
    requires
        table_ok(table@, *f, s as nat),
        f.dim() == s + 1,
        x < s,
        y < s,
        z < s,
    ensures
        final(out)@ == old(out)@ + point_faces(*f, s as nat, x as int, y as int, z as int),
{
    let ghost s0 = out@;
    let here = f.at(x, y, z);
    if x > 0 && y > 0 {
        let next = f.at(x, y, z + 1);
        if here != next {
            let a = lookup(table, f, s, x - 1, y - 1, z);
            let b = lookup(table, f, s, x, y - 1, z);
            let c = lookup(table, f, s, x, y, z);
            let d = lookup(table, f, s, x - 1, y, z);
            push_quad(out, a, b, c, d, next);
        }
    }
    assert(out@ =~= s0 + z_face(*f, s as nat, x as int, y as int, z as int));
    let ghost s1 = out@;
    if x > 0 && z > 0 {
        let next = f.at(x, y + 1, z);
        if here != next {
            let a = lookup(table, f, s, x - 1, y, z - 1);
            let b = lookup(table, f, s, x, y, z - 1);
            let c = lookup(table, f, s, x, y, z);
            let d = lookup(table, f, s, x - 1, y, z);
            push_quad(out, a, b, c, d, here);
        }
    }
    assert(out@ =~= s1 + y_face(*f, s as nat, x as int, y as int, z as int));
    let ghost s2 = out@;
    if y > 0 && z > 0 {
        let next = f.at(x + 1, y, z);
        if here != next {
            let a = lookup(table, f, s, x, y - 1, z - 1);
            let b = lookup(table, f, s, x, y, z - 1);
            let c = lookup(table, f, s, x, y, z);
            let d = lookup(table, f, s, x, y - 1, z);
            push_quad(out, a, b, c, d, next);
        }
    }
    assert(out@ =~= s2 + x_face(*f, s as nat, x as int, y as int, z as int));
    assert(out@ =~= s0 + point_faces(*f, s as nat, x as int, y as int, z as int));
}

/// Emits the quads of all lattice points of the block, in scan order.
fn build_faces(f: &SolidField, s: usize, table: &Vec<Vec<Vec<Option<u32>>>>) -> (r: Vec<u32>)
    requires
        table_ok(table@, *f, s as nat),
        f.dim() == s + 1,
    ensures
        r@ == faces(*f, s as nat),
{
    let mut out: Vec<u32> = Vec::new();
    let mut z: usize = 0;
    while z < s
        invariant
            table_ok(table@, *f, s as nat),
            f.dim() == s + 1,
            z <= s,
            out@ == block_faces(*f, s as nat, z as nat),
        decreases s - z,
    {
        let mut y: usize = 0;
        while y < s
            invariant
                table_ok(table@, *f, s as nat),
                f.dim() == s + 1,
                z < s,
                y <= s,
                out@ == block_faces(*f, s as nat, z as nat) + plane_faces(
                    *f,
                    s as nat,
                    z as int,
                    y as nat,
                ),
            decreases s - y,
        {
            let mut x: usize = 0;
            while x < s
                invariant
                    table_ok(table@, *f, s as nat),
                    f.dim() == s + 1,
                    z < s,
                    y < s,
                    x <= s,
                    out@ == block_faces(*f, s as nat, z as nat) + plane_faces(
                        *f,
                        s as nat,
                        z as int,
                        y as nat,
                    ) + row_faces(*f, s as nat, y as int, z as int, x as nat),
                decreases s - x,
            {
                push_point_faces(&mut out, table, f, s, x, y, z);
                assert(out@ =~= block_faces(*f, s as nat, z as nat) + plane_faces(
                    *f,
                    s as nat,
                    z as int,
                    y as nat,
                ) + row_faces(*f, s as nat, y as int, z as int, (x + 1) as nat));
                x = x + 1;
            }
            assert(out@ =~= block_faces(*f, s as nat, z as nat) + plane_faces(
                *f,
                s as nat,
                z as int,
                (y + 1) as nat,
            ));
            y = y + 1;
        }
        assert(out@ =~= block_faces(*f, s as nat, (z + 1) as nat));
        z = z + 1;
    }
    out
}

// ---------------------------------------------------------------------
// The block generator
// ---------------------------------------------------------------------

/// The topology of a block's mesh: the cell of each vertex, in vertex
/// order, and the index buffer (two triangles per quad).
pub struct MeshTopology {
    pub vertex_cells: Vec<Cell>,
    pub faces: Vec<u32>,
}

/// A block of `size`³ cells whose lowest corner is the lattice point
/// `origin`.
pub struct DualContouring {
    origin: GridPoint,
    size: i32,
}

impl DualContouring {
    pub closed spec fn origin_point(self) -> GridPoint {
        self.origin
    }

    pub closed spec fn block_size(self) -> i32 {
        self.size
    }

    /// Cells along each axis; a size below one gives an empty block.
    pub open spec fn cells_per_axis(self) -> nat {
        if self.block_size() > 0 {
            self.block_size() as nat
        } else {
            0
        }
    }

    /// The block's far corner, `origin + size` on each axis, fits in `i32`.
    pub open spec fn extent_fits(self) -> bool {
        &&& self.origin_point().x + self.cells_per_axis() <= i32::MAX
        &&& self.origin_point().y + self.cells_per_axis() <= i32::MAX
        &&& self.origin_point().z + self.cells_per_axis() <= i32::MAX
    }

    pub fn new(origin: GridPoint, size: i32) -> (r: DualContouring)
        ensures
            r.origin_point() == origin,
            r.block_size() == size,
    {
        DualContouring { origin, size }
    }

    /// Cells along each axis.
    pub fn cells(&self) -> (r: usize)
        ensures
            r == self.cells_per_axis(),
    {
        if self.size > 0 {
            self.size as usize
        } else {
            0
        }
    }

    /// Whether the block's far corner fits in `i32`, as `world_point` needs.
    pub fn extent_in_range(&self) -> (r: bool)
        ensures
            r == self.extent_fits(),
            r == ({
                let n: int = if self.block_size() > 0 {
                    self.block_size() as int
                } else {
                    0
                };
                &&& self.origin_point().x + n <= i32::MAX
                &&& self.origin_point().y + n <= i32::MAX
                &&& self.origin_point().z + n <= i32::MAX
            }),
    {
        let s: usize = self.cells();
        let max: usize = i32::MAX as usize;
        s <= max && self.origin.x <= (i32::MAX - s as i32) && self.origin.y <= (i32::MAX
            - s as i32) && self.origin.z <= (i32::MAX - s as i32)
    }

    /// The world coordinates of the lattice point with local coordinates
    /// `(x, y, z)`; the sign field of the block is sampled at these points.
    pub fn world_point(&self, x: usize, y: usize, z: usize) -> (r: GridPoint)
        requires
            self.extent_fits(),
            x <= self.cells_per_axis(),
            y <= self.cells_per_axis(),
            z <= self.cells_per_axis(),
        ensures
            r.x == self.origin_point().x + x,
            r.y == self.origin_point().y + y,
            r.z == self.origin_point().z + z,
    {
        GridPoint {
            x: self.origin.x + x as i32,
            y: self.origin.y + y as i32,
            z: self.origin.z + z as i32,
        }
    }

    /// The mesh topology of the block from the signs of its
    /// `(size + 1)`³ lattice points: every cell whose corners differ in sign
    /// gets a vertex, numbered in scan order, and every lattice edge on which
    /// the sign changes, with all four cells around it inside the block,
    /// gets a quad over their vertices, wound by the direction of the change.
    pub fn generate(&self, field: &SolidField) -> (r: MeshTopology)
        requires
            field.dim() == self.cells_per_axis() + 1,
            self.cells_per_axis() * self.cells_per_axis() * self.cells_per_axis() <= 0x1_0000_0000,
        ensures
            r.vertex_cells@ == vertex_cells(*field, self.cells_per_axis()),
            r.faces@ == faces(*field, self.cells_per_axis()),
            r.faces@.len() % 6 == 0,
            forall|x: int, y: int, z: int|
                0 <= x < self.cells_per_axis() && 0 <= y < self.cells_per_axis() && 0 <= z
                    < self.cells_per_axis() ==> #[trigger] edges_have_quads(
                    *field,
                    r.faces@,
                    r.vertex_cells@,
                    x,
                    y,
                    z,
                ),
            quads_from_edges(*field, self.cells_per_axis(), r.faces@, r.vertex_cells@),
            forall|i: int|
                0 <= i < r.vertex_cells@.len() ==> {
                    let c = #[trigger] r.vertex_cells@[i];
                    &&& c.x < self.cells_per_axis()
                    &&& c.y < self.cells_per_axis()
                    &&& c.z < self.cells_per_axis()
                    &&& has_vertex(*field, c.x as int, c.y as int, c.z as int)
                },
            forall|x: int, y: int, z: int|
                0 <= x < self.cells_per_axis() && 0 <= y < self.cells_per_axis() && 0 <= z
                    < self.cells_per_axis() && has_vertex(*field, x, y, z)
                    ==> r.vertex_cells@.contains(#[trigger] cell(x, y, z)),
            in_scan_order(r.vertex_cells@),
            quads_in_scan_order(r.faces@, r.vertex_cells@),
    {
        proof {
            lemma_quads_in_scan_order(*field, self.cells_per_axis());
            lemma_vertex_list_entries(*field, self.cells_per_axis());
            lemma_vertex_list_is_sign_change_cells(*field, self.cells_per_axis());
            lemma_vertex_list_in_scan_order(*field, self.cells_per_axis());
            lemma_every_crossing_edge_has_its_quad(*field, self.cells_per_axis());
            lemma_every_quad_is_a_crossing_edge(*field, self.cells_per_axis());
        }
        let s: usize = self.cells();
        let (vertex_cells, table) = index_cells(field, s);
        let faces = build_faces(field, s, &table);
        MeshTopology { vertex_cells, faces }
    }
}

/// A block's far corner fits in `i32` exactly when each origin coordinate
/// plus the number of cells (none for a size below one) is at most
/// `i32::MAX`, whatever the sign of the origin.
pub proof fn lemma_extent_fits_iff(dc: DualContouring)
    ensures
        dc.extent_fits() <==> {
            let n: int = if dc.block_size() > 0 {
                dc.block_size() as int
            } else {
                0
            };
            &&& dc.origin_point().x + n <= i32::MAX
            &&& dc.origin_point().y + n <= i32::MAX
            &&& dc.origin_point().z + n <= i32::MAX
        },
        dc.block_size() > 0 ==> dc.cells_per_axis() == dc.block_size(),
        dc.block_size() <= 0 ==> dc.cells_per_axis() == 0,
{
}

} // verus!
