//! Properties of the mesh topology that dual contouring produces: the vertex
//! list is exactly the cells with a sign change, each cell's index leads
//! back to it, and the index buffer is made of whole quads over existing,
//! pairwise distinct vertices.
use vstd::prelude::*;

use crate::dual_contouring::{
    lemma_vertex_count_bound,
    block_cells, block_faces, faces, has_vertex, idx, plane_cells, plane_faces, point_faces, quad,
    row_cells, row_faces, vertex_cells, vertex_index, x_face, y_face, z_face,
};
use crate::cell::{corner, lemma_crossing_iff_not_uniform, spec_crossing_edges, uniform, CornerSigns};
use crate::grid::{cell, Cell, SolidField};

verus! {

// ---------------------------------------------------------------------
// Prefixes of the scan
// ---------------------------------------------------------------------

proof fn lemma_row_prefix(f: SolidField, y: int, z: int, m: nat, n: nat)
    requires
        m <= n,
    ensures
        row_cells(f, y, z, m).len() <= row_cells(f, y, z, n).len(),
        forall|i: int|
            0 <= i < row_cells(f, y, z, m).len() ==> row_cells(f, y, z, n)[i] == row_cells(
                f,
                y,
                z,
                m,
            )[i],
    decreases n,
{
    if m < n {
        lemma_row_prefix(f, y, z, m, (n - 1) as nat);
    }
}

proof fn lemma_plane_prefix(f: SolidField, s: nat, z: int, m: nat, n: nat)
    requires
        m <= n,
    ensures
        plane_cells(f, s, z, m).len() <= plane_cells(f, s, z, n).len(),
        forall|i: int|
            0 <= i < plane_cells(f, s, z, m).len() ==> plane_cells(f, s, z, n)[i] == plane_cells(
                f,
                s,
                z,
                m,
            )[i],
    decreases n,
{
    if m < n {
        lemma_plane_prefix(f, s, z, m, (n - 1) as nat);
    }
}

proof fn lemma_block_prefix(f: SolidField, s: nat, m: nat, n: nat)
    requires
        m <= n,
    ensures
        block_cells(f, s, m).len() <= block_cells(f, s, n).len(),
        forall|i: int|
            0 <= i < block_cells(f, s, m).len() ==> block_cells(f, s, n)[i] == block_cells(
                f,
                s,
                m,
            )[i],
    decreases n,
{
    if m < n {
        lemma_block_prefix(f, s, m, (n - 1) as nat);
    }
}

/// The vertex of a cell with a sign change sits at the cell's index: the
/// index that a quad uses for a cell leads back to that very cell.
pub proof fn lemma_index_leads_to_cell(f: SolidField, s: nat, x: int, y: int, z: int)
    requires
        s <= usize::MAX,
        0 <= x < s,
        0 <= y < s,
        0 <= z < s,
        has_vertex(f, x, y, z),
    ensures
        vertex_index(f, s, x, y, z) < vertex_cells(f, s).len(),
        vertex_cells(f, s)[vertex_index(f, s, x, y, z) as int] == cell(x, y, z),
{
    let i_row = row_cells(f, y, z, x as nat).len();
    let i_plane = plane_cells(f, s, z, y as nat).len();
    let i_block = block_cells(f, s, z as nat).len();
    // the cell closes the row prefix of length x + 1
    assert(row_cells(f, y, z, (x + 1) as nat)[i_row as int] == cell(x, y, z));
    lemma_row_prefix(f, y, z, (x + 1) as nat, s);
    let row = row_cells(f, y, z, s);
    assert(row[i_row as int] == cell(x, y, z));
    // the row closes the plane prefix of length y + 1
    let p1 = plane_cells(f, s, z, (y + 1) as nat);
    assert(p1 == plane_cells(f, s, z, y as nat) + row);
    assert(p1[(i_plane + i_row) as int] == cell(x, y, z));
    lemma_plane_prefix(f, s, z, (y + 1) as nat, s);
    let plane = plane_cells(f, s, z, s);
    assert(plane[(i_plane + i_row) as int] == cell(x, y, z));
    // the plane closes the block prefix of length z + 1
    let b1 = block_cells(f, s, (z + 1) as nat);
    assert(b1 == block_cells(f, s, z as nat) + plane);
    assert(b1[(i_block + i_plane + i_row) as int] == cell(x, y, z));
    lemma_block_prefix(f, s, (z + 1) as nat, s);
}

// ---------------------------------------------------------------------
// What the scan lists
// ---------------------------------------------------------------------

proof fn lemma_row_entries(f: SolidField, s: nat, y: int, z: int, n: nat)
    requires
        s <= usize::MAX,
        n <= s,
        0 <= y < s,
        0 <= z < s,
    ensures
        forall|i: int|
            0 <= i < row_cells(f, y, z, n).len() ==> {
                let c = #[trigger] row_cells(f, y, z, n)[i];
                &&& c.x < n
                &&& c.y == y
                &&& c.z == z
                &&& has_vertex(f, c.x as int, y, z)
                &&& row_cells(f, y, z, c.x as nat).len() == i
            },
    decreases n,
{
    if n > 0 {
        let prev = row_cells(f, y, z, (n - 1) as nat);
        lemma_row_entries(f, s, y, z, (n - 1) as nat);
        assert forall|i: int| 0 <= i < row_cells(f, y, z, n).len() implies {
            let c = #[trigger] row_cells(f, y, z, n)[i];
            &&& c.x < n
            &&& c.y == y
            &&& c.z == z
            &&& has_vertex(f, c.x as int, y, z)
            &&& row_cells(f, y, z, c.x as nat).len() == i
        } by {
            if i < prev.len() {
                assert(row_cells(f, y, z, n)[i] == prev[i]);
            } else {
                assert(row_cells(f, y, z, n)[i] == cell(n - 1, y, z));
            }
        }
    }
}

proof fn lemma_plane_entries(f: SolidField, s: nat, z: int, n: nat)
    requires
        s <= usize::MAX,
        n <= s,
        0 <= z < s,
    ensures
        forall|i: int|
            0 <= i < plane_cells(f, s, z, n).len() ==> {
                let c = #[trigger] plane_cells(f, s, z, n)[i];
                &&& c.x < s
                &&& c.y < n
                &&& c.z == z
                &&& has_vertex(f, c.x as int, c.y as int, z)
                &&& plane_cells(f, s, z, c.y as nat).len() + row_cells(
                    f,
                    c.y as int,
                    z,
                    c.x as nat,
                ).len() == i
            },
    decreases n,
{
    if n > 0 {
        let prev = plane_cells(f, s, z, (n - 1) as nat);
        let row = row_cells(f, n - 1, z, s);
        lemma_plane_entries(f, s, z, (n - 1) as nat);
        lemma_row_entries(f, s, n - 1, z, s);
        assert forall|i: int| 0 <= i < plane_cells(f, s, z, n).len() implies {
            let c = #[trigger] plane_cells(f, s, z, n)[i];
            &&& c.x < s
            &&& c.y < n
            &&& c.z == z
            &&& has_vertex(f, c.x as int, c.y as int, z)
            &&& plane_cells(f, s, z, c.y as nat).len() + row_cells(f, c.y as int, z, c.x as nat).len()
                == i
        } by {
            if i < prev.len() {
                assert(plane_cells(f, s, z, n)[i] == prev[i]);
            } else {
                assert(plane_cells(f, s, z, n)[i] == row[i - prev.len()]);
            }
        }
    }
}

proof fn lemma_block_entries(f: SolidField, s: nat, n: nat)
    requires
        s <= usize::MAX,
        n <= s,
    ensures
        forall|i: int|
            0 <= i < block_cells(f, s, n).len() ==> {
                let c = #[trigger] block_cells(f, s, n)[i];
                &&& c.x < s
                &&& c.y < s
                &&& c.z < n
                &&& has_vertex(f, c.x as int, c.y as int, c.z as int)
                &&& vertex_index(f, s, c.x as int, c.y as int, c.z as int) == i
            },
    decreases n,
{
    if n > 0 {
        let prev = block_cells(f, s, (n - 1) as nat);
        let plane = plane_cells(f, s, n - 1, s);
        lemma_block_entries(f, s, (n - 1) as nat);
        lemma_plane_entries(f, s, n - 1, s);
        assert forall|i: int| 0 <= i < block_cells(f, s, n).len() implies {
            let c = #[trigger] block_cells(f, s, n)[i];
            &&& c.x < s
            &&& c.y < s
            &&& c.z < n
            &&& has_vertex(f, c.x as int, c.y as int, c.z as int)
            &&& vertex_index(f, s, c.x as int, c.y as int, c.z as int) == i
        } by {
            if i < prev.len() {
                assert(block_cells(f, s, n)[i] == prev[i]);
            } else {
                assert(block_cells(f, s, n)[i] == plane[i - prev.len()]);
            }
        }
    }
}

/// Every entry of the vertex list is a cell of the block through which the
/// surface passes, and its vertex index is its position in the list.
pub proof fn lemma_vertex_list_entries(f: SolidField, s: nat)
    requires
        s <= usize::MAX,
    ensures
        forall|i: int|
            0 <= i < vertex_cells(f, s).len() ==> {
                let c = #[trigger] vertex_cells(f, s)[i];
                &&& c.x < s
                &&& c.y < s
                &&& c.z < s
                &&& has_vertex(f, c.x as int, c.y as int, c.z as int)
                &&& vertex_index(f, s, c.x as int, c.y as int, c.z as int) == i
            },
{
    lemma_block_entries(f, s, s);
}

/// A cell of the block is in the vertex list exactly when its corners differ
/// in sign; no cell is listed twice.
pub proof fn lemma_vertex_list_is_sign_change_cells(f: SolidField, s: nat)
    requires
        s <= usize::MAX,
    ensures
        forall|x: int, y: int, z: int|
            0 <= x < s && 0 <= y < s && 0 <= z < s ==> (vertex_cells(f, s).contains(
                #[trigger] cell(x, y, z),
            ) <==> has_vertex(f, x, y, z)),
        forall|i: int, j: int|
            0 <= i < j < vertex_cells(f, s).len() ==> vertex_cells(f, s)[i] != vertex_cells(
                f,
                s,
            )[j],
{
    lemma_vertex_list_entries(f, s);
    assert forall|x: int, y: int, z: int|
        0 <= x < s && 0 <= y < s && 0 <= z < s implies (vertex_cells(f, s).contains(
        #[trigger] cell(x, y, z),
    ) <==> has_vertex(f, x, y, z)) by {
        if has_vertex(f, x, y, z) {
            lemma_index_leads_to_cell(f, s, x, y, z);
        }
        if vertex_cells(f, s).contains(cell(x, y, z)) {
            let i = choose|i: int|
                0 <= i < vertex_cells(f, s).len() && vertex_cells(f, s)[i] == cell(x, y, z);
            assert(vertex_cells(f, s)[i] == cell(x, y, z));
        }
    }
}

// ---------------------------------------------------------------------
// The index buffer
// ---------------------------------------------------------------------

/// Triangle `t` of `buf` (entries `3t`, `3t + 1`, `3t + 2`) joins three
/// different vertices.
pub open spec fn triangle_proper(buf: Seq<u32>, t: int) -> bool {
    &&& buf[3 * t] != buf[3 * t + 1]
    &&& buf[3 * t + 1] != buf[3 * t + 2]
    &&& buf[3 * t] != buf[3 * t + 2]
}

/// `buf` is made of whole quads (six entries each), every entry names one
/// of `n` vertices, and no triangle repeats a vertex.
pub open spec fn index_buffer_ok(buf: Seq<u32>, n: nat) -> bool {
    &&& buf.len() % 6 == 0
    &&& forall|i: int| 0 <= i < buf.len() ==> #[trigger] buf[i] < n
    &&& forall|t: int| 0 <= t < buf.len() / 3 ==> #[trigger] triangle_proper(buf, t)
}

proof fn lemma_concat_ok(a: Seq<u32>, b: Seq<u32>, n: nat)
    requires
        index_buffer_ok(a, n),
        index_buffer_ok(b, n),
    ensures
        index_buffer_ok(a + b, n),
{
    let ab = a + b;
    let m = a.len() / 3;
    assert(a.len() == 3 * m);
    assert forall|i: int| 0 <= i < ab.len() implies #[trigger] ab[i] < n by {
        if i < a.len() {
            assert(ab[i] == a[i]);
        } else {
            assert(ab[i] == b[i - a.len()]);
        }
    }
    assert forall|t: int| 0 <= t < ab.len() / 3 implies #[trigger] triangle_proper(ab, t) by {
        if t < m {
            assert(ab[3 * t] == a[3 * t]);
            assert(ab[3 * t + 1] == a[3 * t + 1]);
            assert(ab[3 * t + 2] == a[3 * t + 2]);
            assert(triangle_proper(a, t));
        } else {
            let u = t - m;
            assert(ab[3 * t] == b[3 * u]);
            assert(ab[3 * t + 1] == b[3 * u + 1]);
            assert(ab[3 * t + 2] == b[3 * u + 2]);
            assert(triangle_proper(b, u));
        }
    }
}

proof fn lemma_empty_ok(n: nat)
    ensures
        index_buffer_ok(Seq::<u32>::empty(), n),
{
}

proof fn lemma_quad_ok(a: u32, b: u32, c: u32, d: u32, flip: bool, n: nat)
    requires
        a < n,
        b < n,
        c < n,
        d < n,
        a != b,
        a != c,
        a != d,
        b != c,
        b != d,
        c != d,
    ensures
        index_buffer_ok(quad(a, b, c, d, flip), n),
{
    let q = quad(a, b, c, d, flip);
    assert(q.len() / 3 == 2);
    assert(triangle_proper(q, 0));
    assert(triangle_proper(q, 1));
}

/// `s`³ fits in the `u32` index range, and so does `s` itself in `usize`.
proof fn lemma_small_block(s: nat)
    requires
        s * s * s <= 0x1_0000_0000,
    ensures
        s < 2000,
{
    if s >= 2000 {
        assert(s * s * s >= 2000 * 2000 * 2000) by (nonlinear_arith)
            requires
                s >= 2000,
        ;
    }
}

/// Two different cells of the block with a sign change get different
/// indices, each naming one of the vertices.
proof fn lemma_idx_distinct(
    f: SolidField,
    s: nat,
    x1: int,
    y1: int,
    z1: int,
    x2: int,
    y2: int,
    z2: int,
)
    requires
        s * s * s <= 0x1_0000_0000,
        0 <= x1 < s,
        0 <= y1 < s,
        0 <= z1 < s,
        0 <= x2 < s,
        0 <= y2 < s,
        0 <= z2 < s,
        has_vertex(f, x1, y1, z1),
        has_vertex(f, x2, y2, z2),
    ensures
        idx(f, s, x1, y1, z1) < vertex_cells(f, s).len(),
        idx(f, s, x2, y2, z2) < vertex_cells(f, s).len(),
        (x1 != x2 || y1 != y2 || z1 != z2) ==> idx(f, s, x1, y1, z1) != idx(f, s, x2, y2, z2),
{
    lemma_small_block(s);
    lemma_vertex_count_bound(f, s);
    lemma_index_leads_to_cell(f, s, x1, y1, z1);
    lemma_index_leads_to_cell(f, s, x2, y2, z2);
    if x1 != x2 || y1 != y2 || z1 != z2 {
        assert(cell(x1, y1, z1) != cell(x2, y2, z2));
    }
}

proof fn lemma_point_faces_ok(f: SolidField, s: nat, x: int, y: int, z: int)
    requires
        s * s * s <= 0x1_0000_0000,
        0 <= x < s,
        0 <= y < s,
        0 <= z < s,
    ensures
        index_buffer_ok(point_faces(f, s, x, y, z), vertex_cells(f, s).len()),
{
    let n = vertex_cells(f, s).len();
    lemma_empty_ok(n);
    if x > 0 && y > 0 && f.solid(x, y, z) != f.solid(x, y, z + 1) {
        lemma_idx_distinct(f, s, x - 1, y - 1, z, x, y - 1, z);
        lemma_idx_distinct(f, s, x - 1, y - 1, z, x, y, z);
        lemma_idx_distinct(f, s, x - 1, y - 1, z, x - 1, y, z);
        lemma_idx_distinct(f, s, x, y - 1, z, x, y, z);
        lemma_idx_distinct(f, s, x, y - 1, z, x - 1, y, z);
        lemma_idx_distinct(f, s, x, y, z, x - 1, y, z);
        lemma_quad_ok(
            idx(f, s, x - 1, y - 1, z),
            idx(f, s, x, y - 1, z),
            idx(f, s, x, y, z),
            idx(f, s, x - 1, y, z),
            f.solid(x, y, z + 1),
            n,
        );
    }
    if x > 0 && z > 0 && f.solid(x, y, z) != f.solid(x, y + 1, z) {
        lemma_idx_distinct(f, s, x - 1, y, z - 1, x, y, z - 1);
        lemma_idx_distinct(f, s, x - 1, y, z - 1, x, y, z);
        lemma_idx_distinct(f, s, x - 1, y, z - 1, x - 1, y, z);
        lemma_idx_distinct(f, s, x, y, z - 1, x, y, z);
        lemma_idx_distinct(f, s, x, y, z - 1, x - 1, y, z);
        lemma_idx_distinct(f, s, x, y, z, x - 1, y, z);
        lemma_quad_ok(
            idx(f, s, x - 1, y, z - 1),
            idx(f, s, x, y, z - 1),
            idx(f, s, x, y, z),
            idx(f, s, x - 1, y, z),
            f.solid(x, y, z),
            n,
        );
    }
    if y > 0 && z > 0 && f.solid(x, y, z) != f.solid(x + 1, y, z) {
        lemma_idx_distinct(f, s, x, y - 1, z - 1, x, y, z - 1);
        lemma_idx_distinct(f, s, x, y - 1, z - 1, x, y, z);
        lemma_idx_distinct(f, s, x, y - 1, z - 1, x, y - 1, z);
        lemma_idx_distinct(f, s, x, y, z - 1, x, y, z);
        lemma_idx_distinct(f, s, x, y, z - 1, x, y - 1, z);
        lemma_idx_distinct(f, s, x, y, z, x, y - 1, z);
        lemma_quad_ok(
            idx(f, s, x, y - 1, z - 1),
            idx(f, s, x, y, z - 1),
            idx(f, s, x, y, z),
            idx(f, s, x, y - 1, z),
            f.solid(x + 1, y, z),
            n,
        );
    }
    lemma_concat_ok(z_face(f, s, x, y, z), y_face(f, s, x, y, z), n);
    lemma_concat_ok(z_face(f, s, x, y, z) + y_face(f, s, x, y, z), x_face(f, s, x, y, z), n);
}

proof fn lemma_row_faces_ok(f: SolidField, s: nat, y: int, z: int, m: nat)
    requires
        s * s * s <= 0x1_0000_0000,
        m <= s,
        0 <= y < s,
        0 <= z < s,
    ensures
        index_buffer_ok(row_faces(f, s, y, z, m), vertex_cells(f, s).len()),
    decreases m,
{
    lemma_empty_ok(vertex_cells(f, s).len());
    if m > 0 {
        lemma_row_faces_ok(f, s, y, z, (m - 1) as nat);
        lemma_point_faces_ok(f, s, m - 1, y, z);
        lemma_concat_ok(
            row_faces(f, s, y, z, (m - 1) as nat),
            point_faces(f, s, m - 1, y, z),
            vertex_cells(f, s).len(),
        );
    }
}

proof fn lemma_plane_faces_ok(f: SolidField, s: nat, z: int, m: nat)
    requires
        s * s * s <= 0x1_0000_0000,
        m <= s,
        0 <= z < s,
    ensures
        index_buffer_ok(plane_faces(f, s, z, m), vertex_cells(f, s).len()),
    decreases m,
{
    lemma_empty_ok(vertex_cells(f, s).len());
    if m > 0 {
        lemma_plane_faces_ok(f, s, z, (m - 1) as nat);
        lemma_row_faces_ok(f, s, m - 1, z, s);
        lemma_concat_ok(
            plane_faces(f, s, z, (m - 1) as nat),
            row_faces(f, s, m - 1, z, s),
            vertex_cells(f, s).len(),
        );
    }
}

proof fn lemma_block_faces_ok(f: SolidField, s: nat, m: nat)
    requires
        s * s * s <= 0x1_0000_0000,
        m <= s,
    ensures
        index_buffer_ok(block_faces(f, s, m), vertex_cells(f, s).len()),
    decreases m,
{
    lemma_empty_ok(vertex_cells(f, s).len());
    if m > 0 {
        lemma_block_faces_ok(f, s, (m - 1) as nat);
        lemma_plane_faces_ok(f, s, m - 1, s);
        lemma_concat_ok(
            block_faces(f, s, (m - 1) as nat),
            plane_faces(f, s, m - 1, s),
            vertex_cells(f, s).len(),
        );
    }
}

/// The index buffer of a block consists of whole quads; every index names a
/// vertex of the block's vertex list, and no triangle repeats a vertex.
pub proof fn lemma_faces_well_formed(f: SolidField, s: nat)
    requires
        s * s * s <= 0x1_0000_0000,
    ensures
        index_buffer_ok(faces(f, s), vertex_cells(f, s).len()),
{
    lemma_block_faces_ok(f, s, s);
}

// ---------------------------------------------------------------------
// Vertex placement and the vertex list agree
// ---------------------------------------------------------------------

/// `c` holds the signs of the eight corners of cell `(x, y, z)` of `f`.
pub open spec fn corners_of(c: CornerSigns, f: SolidField, x: int, y: int, z: int) -> bool {
    forall|dx: int, dy: int, dz: int|
        0 <= dx < 2 && 0 <= dy < 2 && 0 <= dz < 2 ==> #[trigger] corner(c, dx, dy, dz) == f.solid(
            x + dx,
            y + dy,
            z + dz,
        )
}

/// A cell finds crossing edges to place its vertex on exactly when the
/// block gives it a vertex.
pub proof fn lemma_crossings_iff_vertex(c: CornerSigns, f: SolidField, x: int, y: int, z: int)
    requires
        corners_of(c, f, x, y, z),
    ensures
        spec_crossing_edges(c).len() > 0 <==> has_vertex(f, x, y, z),
{
    lemma_crossing_iff_not_uniform(c);
    assert(corner(c, 0, 0, 0) == f.solid(x, y, z));
    assert(corner(c, 1, 0, 0) == f.solid(x + 1, y, z));
    assert(corner(c, 0, 1, 0) == f.solid(x, y + 1, z));
    assert(corner(c, 1, 1, 0) == f.solid(x + 1, y + 1, z));
    assert(corner(c, 0, 0, 1) == f.solid(x, y, z + 1));
    assert(corner(c, 1, 0, 1) == f.solid(x + 1, y, z + 1));
    assert(corner(c, 0, 1, 1) == f.solid(x, y + 1, z + 1));
    assert(corner(c, 1, 1, 1) == f.solid(x + 1, y + 1, z + 1));
    assert(uniform(c) == !has_vertex(f, x, y, z));
}

// ---------------------------------------------------------------------
// Swapping solid and empty
// ---------------------------------------------------------------------

/// `g` is `f` with solid and empty swapped at every lattice point.
pub open spec fn complementary(f: SolidField, g: SolidField) -> bool {
    &&& g.dim() == f.dim()
    &&& forall|x: int, y: int, z: int|
        0 <= x < f.dim() && 0 <= y < f.dim() && 0 <= z < f.dim() ==> #[trigger] g.solid(x, y, z)
            == !f.solid(x, y, z)
}

/// `buf` with every group of six entries (one quad) reversed, which turns
/// each quad `(a, b, c, c, d, a)` into `(a, d, c, c, b, a)`: the same two
/// triangles wound the other way.
pub open spec fn reverse_quads(buf: Seq<u32>) -> Seq<u32> {
    Seq::new(buf.len(), |i: int| buf[i - i % 6 + (5 - i % 6)])
}

proof fn lemma_reverse_quads_concat(a: Seq<u32>, b: Seq<u32>)
    requires
        a.len() % 6 == 0,
        b.len() % 6 == 0,
    ensures
        reverse_quads(a + b) == reverse_quads(a) + reverse_quads(b),
{
    let l = reverse_quads(a + b);
    let r = reverse_quads(a) + reverse_quads(b);
    assert forall|i: int| 0 <= i < l.len() implies l[i] == r[i] by {
        let j = i - i % 6 + (5 - i % 6);
        assert(i - i % 6 <= (a + b).len() - 6);
        assert(l[i] == (a + b)[j]);
        if i < a.len() {
            assert(i - i % 6 <= a.len() - 6);
            assert(j < a.len());
            assert((a + b)[j] == a[j]);
            assert(r[i] == reverse_quads(a)[i]);
        } else {
            let k = i - a.len();
            assert(k % 6 == i % 6);
            assert(j >= a.len());
            assert(k - k % 6 <= b.len() - 6);
            assert((a + b)[j] == b[j - a.len()]);
            assert(r[i] == reverse_quads(b)[k]);
            assert(j - a.len() == k - k % 6 + (5 - k % 6));
        }
    }
    assert(l =~= r);
}

proof fn lemma_reverse_quad(a: u32, b: u32, c: u32, d: u32, flip: bool)
    ensures
        reverse_quads(quad(a, b, c, d, flip)) == quad(a, b, c, d, !flip),
{
    assert(reverse_quads(quad(a, b, c, d, flip)) =~= quad(a, b, c, d, !flip));
}

proof fn lemma_complement_row_cells(f: SolidField, g: SolidField, s: nat, y: int, z: int, n: nat)
    requires
        complementary(f, g),
        f.dim() == s + 1,
        n <= s,
        0 <= y < s,
        0 <= z < s,
    ensures
        row_cells(g, y, z, n) == row_cells(f, y, z, n),
    decreases n,
{
    if n > 0 {
        lemma_complement_row_cells(f, g, s, y, z, (n - 1) as nat);
        let x = n - 1;
        assert(has_vertex(g, x, y, z) == has_vertex(f, x, y, z)) by {
            assert(g.solid(x, y, z) == !f.solid(x, y, z));
            assert(g.solid(x + 1, y, z) == !f.solid(x + 1, y, z));
            assert(g.solid(x, y + 1, z) == !f.solid(x, y + 1, z));
            assert(g.solid(x + 1, y + 1, z) == !f.solid(x + 1, y + 1, z));
            assert(g.solid(x, y, z + 1) == !f.solid(x, y, z + 1));
            assert(g.solid(x + 1, y, z + 1) == !f.solid(x + 1, y, z + 1));
            assert(g.solid(x, y + 1, z + 1) == !f.solid(x, y + 1, z + 1));
            assert(g.solid(x + 1, y + 1, z + 1) == !f.solid(x + 1, y + 1, z + 1));
        }
    }
}

proof fn lemma_complement_plane_cells(f: SolidField, g: SolidField, s: nat, z: int, n: nat)
    requires
        complementary(f, g),
        f.dim() == s + 1,
        n <= s,
        0 <= z < s,
    ensures
        plane_cells(g, s, z, n) == plane_cells(f, s, z, n),
    decreases n,
{
    if n > 0 {
        lemma_complement_plane_cells(f, g, s, z, (n - 1) as nat);
        lemma_complement_row_cells(f, g, s, n - 1, z, s);
    }
}

proof fn lemma_complement_block_cells(f: SolidField, g: SolidField, s: nat, n: nat)
    requires
        complementary(f, g),
        f.dim() == s + 1,
        n <= s,
    ensures
        block_cells(g, s, n) == block_cells(f, s, n),
    decreases n,
{
    if n > 0 {
        lemma_complement_block_cells(f, g, s, (n - 1) as nat);
        lemma_complement_plane_cells(f, g, s, n - 1, s);
    }
}

proof fn lemma_complement_idx(f: SolidField, g: SolidField, s: nat, x: int, y: int, z: int)
    requires
        complementary(f, g),
        f.dim() == s + 1,
        0 <= x <= s,
        0 <= y < s,
        0 <= z < s,
    ensures
        idx(g, s, x, y, z) == idx(f, s, x, y, z),
{
    lemma_complement_block_cells(f, g, s, z as nat);
    lemma_complement_plane_cells(f, g, s, z, y as nat);
    lemma_complement_row_cells(f, g, s, y, z, x as nat);
}

proof fn lemma_complement_point_faces(f: SolidField, g: SolidField, s: nat, x: int, y: int, z: int)
    requires
        complementary(f, g),
        f.dim() == s + 1,
        0 <= x < s,
        0 <= y < s,
        0 <= z < s,
    ensures
        point_faces(g, s, x, y, z) == reverse_quads(point_faces(f, s, x, y, z)),
        point_faces(f, s, x, y, z).len() % 6 == 0,
{
    assert(g.solid(x, y, z) == !f.solid(x, y, z));
    assert(g.solid(x + 1, y, z) == !f.solid(x + 1, y, z));
    assert(g.solid(x, y + 1, z) == !f.solid(x, y + 1, z));
    assert(g.solid(x, y, z + 1) == !f.solid(x, y, z + 1));
    assert(reverse_quads(Seq::<u32>::empty()) =~= Seq::<u32>::empty());
    if x > 0 && y > 0 {
        lemma_complement_idx(f, g, s, x - 1, y - 1, z);
        lemma_complement_idx(f, g, s, x, y - 1, z);
        lemma_complement_idx(f, g, s, x, y, z);
        lemma_complement_idx(f, g, s, x - 1, y, z);
        lemma_reverse_quad(
            idx(f, s, x - 1, y - 1, z),
            idx(f, s, x, y - 1, z),
            idx(f, s, x, y, z),
            idx(f, s, x - 1, y, z),
            f.solid(x, y, z + 1),
        );
    }
    if x > 0 && z > 0 {
        lemma_complement_idx(f, g, s, x - 1, y, z - 1);
        lemma_complement_idx(f, g, s, x, y, z - 1);
        lemma_complement_idx(f, g, s, x, y, z);
        lemma_complement_idx(f, g, s, x - 1, y, z);
        lemma_reverse_quad(
            idx(f, s, x - 1, y, z - 1),
            idx(f, s, x, y, z - 1),
            idx(f, s, x, y, z),
            idx(f, s, x - 1, y, z),
            f.solid(x, y, z),
        );
    }
    if y > 0 && z > 0 {
        lemma_complement_idx(f, g, s, x, y - 1, z - 1);
        lemma_complement_idx(f, g, s, x, y, z - 1);
        lemma_complement_idx(f, g, s, x, y, z);
        lemma_complement_idx(f, g, s, x, y - 1, z);
        lemma_reverse_quad(
            idx(f, s, x, y - 1, z - 1),
            idx(f, s, x, y, z - 1),
            idx(f, s, x, y, z),
            idx(f, s, x, y - 1, z),
            f.solid(x + 1, y, z),
        );
    }
    let zf = z_face(f, s, x, y, z);
    let yf = y_face(f, s, x, y, z);
    let xf = x_face(f, s, x, y, z);
    assert(z_face(g, s, x, y, z) == reverse_quads(zf));
    assert(y_face(g, s, x, y, z) == reverse_quads(yf));
    assert(x_face(g, s, x, y, z) == reverse_quads(xf));
    lemma_reverse_quads_concat(zf, yf);
    lemma_reverse_quads_concat(zf + yf, xf);
}

proof fn lemma_complement_row_faces(f: SolidField, g: SolidField, s: nat, y: int, z: int, n: nat)
    requires
        complementary(f, g),
        f.dim() == s + 1,
        n <= s,
        0 <= y < s,
        0 <= z < s,
    ensures
        row_faces(g, s, y, z, n) == reverse_quads(row_faces(f, s, y, z, n)),
        row_faces(f, s, y, z, n).len() % 6 == 0,
    decreases n,
{
    if n == 0 {
        assert(reverse_quads(Seq::<u32>::empty()) =~= Seq::<u32>::empty());
    } else {
        lemma_complement_row_faces(f, g, s, y, z, (n - 1) as nat);
        lemma_complement_point_faces(f, g, s, n - 1, y, z);
        lemma_reverse_quads_concat(row_faces(f, s, y, z, (n - 1) as nat), point_faces(f, s, n - 1, y, z));
    }
}

proof fn lemma_complement_plane_faces(f: SolidField, g: SolidField, s: nat, z: int, n: nat)
    requires
        complementary(f, g),
        f.dim() == s + 1,
        n <= s,
        0 <= z < s,
    ensures
        plane_faces(g, s, z, n) == reverse_quads(plane_faces(f, s, z, n)),
        plane_faces(f, s, z, n).len() % 6 == 0,
    decreases n,
{
    if n == 0 {
        assert(reverse_quads(Seq::<u32>::empty()) =~= Seq::<u32>::empty());
    } else {
        lemma_complement_plane_faces(f, g, s, z, (n - 1) as nat);
        lemma_complement_row_faces(f, g, s, n - 1, z, s);
        lemma_reverse_quads_concat(plane_faces(f, s, z, (n - 1) as nat), row_faces(f, s, n - 1, z, s));
    }
}

#[verifier::rlimit(40)]
proof fn lemma_complement_block_faces(f: SolidField, g: SolidField, s: nat, n: nat)
    requires
        complementary(f, g),
        f.dim() == s + 1,
        n <= s,
    ensures
        block_faces(g, s, n) == reverse_quads(block_faces(f, s, n)),
        block_faces(f, s, n).len() % 6 == 0,
    decreases n,
{
    if n == 0 {
        assert(reverse_quads(Seq::<u32>::empty()) =~= Seq::<u32>::empty());
    } else {
        lemma_complement_block_faces(f, g, s, (n - 1) as nat);
        lemma_complement_plane_faces(f, g, s, n - 1, s);
        lemma_reverse_quads_concat(block_faces(f, s, (n - 1) as nat), plane_faces(f, s, n - 1, s));
    }
}

/// Swapping solid and empty keeps the vertices where they are and winds
/// every quad the other way, so the surface faces the other side.
pub proof fn lemma_complement_reverses_winding(f: SolidField, g: SolidField, s: nat)
    requires
        complementary(f, g),
        f.dim() == s + 1,
    ensures
        vertex_cells(g, s) == vertex_cells(f, s),
        faces(g, s) == reverse_quads(faces(f, s)),
{
    lemma_complement_block_cells(f, g, s, s);
    lemma_complement_block_faces(f, g, s, s);
}

// ---------------------------------------------------------------------
// Quads only join existing vertices
// ---------------------------------------------------------------------

/// Every cell around a lattice edge on which the sign changes has a vertex:
/// the four cells that a quad joins always carry one.
pub proof fn lemma_crossing_edge_cells_have_vertices(f: SolidField, x: int, y: int, z: int)
    ensures
        f.solid(x, y, z) != f.solid(x, y, z + 1) ==> {
            &&& has_vertex(f, x - 1, y - 1, z)
            &&& has_vertex(f, x, y - 1, z)
            &&& has_vertex(f, x, y, z)
            &&& has_vertex(f, x - 1, y, z)
        },
        f.solid(x, y, z) != f.solid(x, y + 1, z) ==> {
            &&& has_vertex(f, x - 1, y, z - 1)
            &&& has_vertex(f, x, y, z - 1)
            &&& has_vertex(f, x, y, z)
            &&& has_vertex(f, x - 1, y, z)
        },
        f.solid(x, y, z) != f.solid(x + 1, y, z) ==> {
            &&& has_vertex(f, x, y - 1, z - 1)
            &&& has_vertex(f, x, y, z - 1)
            &&& has_vertex(f, x, y, z)
            &&& has_vertex(f, x, y - 1, z)
        },
{
    assert(x - 1 + 1 == x && y - 1 + 1 == y && z - 1 + 1 == z);
}

// ---------------------------------------------------------------------
// One quad per sign-changing edge, and nothing else
// ---------------------------------------------------------------------

/// Entries `6q .. 6q + 6` of `buf` name, through the vertex list `cells`,
/// the cells `a, b, c, c, d, a`: the triangles `(a, b, c)` and `(c, d, a)`.
pub open spec fn quad_over(
    buf: Seq<u32>,
    cells: Seq<Cell>,
    q: int,
    a: Cell,
    b: Cell,
    c: Cell,
    d: Cell,
) -> bool {
    &&& 0 <= q
    &&& 6 * q + 6 <= buf.len()
    &&& buf[6 * q] < cells.len()
    &&& buf[6 * q + 1] < cells.len()
    &&& buf[6 * q + 2] < cells.len()
    &&& buf[6 * q + 3] < cells.len()
    &&& buf[6 * q + 4] < cells.len()
    &&& buf[6 * q + 5] < cells.len()
    &&& cells[buf[6 * q] as int] == a
    &&& cells[buf[6 * q + 1] as int] == b
    &&& cells[buf[6 * q + 2] as int] == c
    &&& cells[buf[6 * q + 3] as int] == c
    &&& cells[buf[6 * q + 4] as int] == d
    &&& cells[buf[6 * q + 5] as int] == a
}

/// Quad `q` of `buf` goes round the cells `a, b, c, d` in that order when
/// `forward`, and in the order `a, d, c, b` otherwise.
pub open spec fn wound_quad(
    buf: Seq<u32>,
    cells: Seq<Cell>,
    q: int,
    a: Cell,
    b: Cell,
    c: Cell,
    d: Cell,
    forward: bool,
) -> bool {
    if forward {
        quad_over(buf, cells, q, a, b, c, d)
    } else {
        quad_over(buf, cells, q, a, d, c, b)
    }
}

/// The edge from `(x, y, z)` to `(x, y, z + 1)` changes sign, has its four
/// cells at `x - 1, x` and `y - 1, y` in the block, and quad `q` joins them;
/// it runs forward when the upper end is empty.
pub open spec fn z_edge_quad(
    f: SolidField,
    buf: Seq<u32>,
    cells: Seq<Cell>,
    q: int,
    x: int,
    y: int,
    z: int,
) -> bool {
    &&& x > 0
    &&& y > 0
    &&& f.solid(x, y, z) != f.solid(x, y, z + 1)
    &&& wound_quad(
        buf,
        cells,
        q,
        cell(x - 1, y - 1, z),
        cell(x, y - 1, z),
        cell(x, y, z),
        cell(x - 1, y, z),
        !f.solid(x, y, z + 1),
    )
}

/// The edge from `(x, y, z)` to `(x, y + 1, z)` changes sign and quad `q`
/// joins its cells at `x - 1, x` and `z - 1, z`; it runs forward when the
/// lower end is empty.
pub open spec fn y_edge_quad(
    f: SolidField,
    buf: Seq<u32>,
    cells: Seq<Cell>,
    q: int,
    x: int,
    y: int,
    z: int,
) -> bool {
    &&& x > 0
    &&& z > 0
    &&& f.solid(x, y, z) != f.solid(x, y + 1, z)
    &&& wound_quad(
        buf,
        cells,
        q,
        cell(x - 1, y, z - 1),
        cell(x, y, z - 1),
        cell(x, y, z),
        cell(x - 1, y, z),
        !f.solid(x, y, z),
    )
}

/// The edge from `(x, y, z)` to `(x + 1, y, z)` changes sign and quad `q`
/// joins its cells at `y - 1, y` and `z - 1, z`; it runs forward when the
/// upper end is empty.
pub open spec fn x_edge_quad(
    f: SolidField,
    buf: Seq<u32>,
    cells: Seq<Cell>,
    q: int,
    x: int,
    y: int,
    z: int,
) -> bool {
    &&& y > 0
    &&& z > 0
    &&& f.solid(x, y, z) != f.solid(x + 1, y, z)
    &&& wound_quad(
        buf,
        cells,
        q,
        cell(x, y - 1, z - 1),
        cell(x, y, z - 1),
        cell(x, y, z),
        cell(x, y - 1, z),
        !f.solid(x + 1, y, z),
    )
}

/// Quad `q` of `buf` is the quad of one of the three edges leaving lattice
/// point `(x, y, z)` of an `s`³ block.
pub open spec fn edge_quad(
    f: SolidField,
    s: nat,
    buf: Seq<u32>,
    cells: Seq<Cell>,
    q: int,
    x: int,
    y: int,
    z: int,
) -> bool {
    &&& 0 <= x < s
    &&& 0 <= y < s
    &&& 0 <= z < s
    &&& (z_edge_quad(f, buf, cells, q, x, y, z) || y_edge_quad(f, buf, cells, q, x, y, z)
        || x_edge_quad(f, buf, cells, q, x, y, z))
}

/// Quad `q` of `buf` is the quad of some sign-changing edge of the block.
pub open spec fn quad_of_some_edge(f: SolidField, s: nat, buf: Seq<u32>, cells: Seq<Cell>, q: int) -> bool {
    exists|x: int, y: int, z: int| #[trigger] edge_quad(f, s, buf, cells, q, x, y, z)
}

/// Every quad of `buf` is the quad of some sign-changing edge.
pub open spec fn quads_from_edges(f: SolidField, s: nat, buf: Seq<u32>, cells: Seq<Cell>) -> bool {
    forall|q: int| 0 <= q < buf.len() / 6 ==> #[trigger] quad_of_some_edge(f, s, buf, cells, q)
}

/// Every sign-changing edge leaving point `(x, y, z)` whose four cells lie
/// in the block has its quad in `buf`.
pub open spec fn edges_have_quads(
    f: SolidField,
    buf: Seq<u32>,
    cells: Seq<Cell>,
    x: int,
    y: int,
    z: int,
) -> bool {
    &&& (x > 0 && y > 0 && f.solid(x, y, z) != f.solid(x, y, z + 1)) ==> exists|q: int|
        #[trigger] z_edge_quad(f, buf, cells, q, x, y, z)
    &&& (x > 0 && z > 0 && f.solid(x, y, z) != f.solid(x, y + 1, z)) ==> exists|q: int|
        #[trigger] y_edge_quad(f, buf, cells, q, x, y, z)
    &&& (y > 0 && z > 0 && f.solid(x, y, z) != f.solid(x + 1, y, z)) ==> exists|q: int|
        #[trigger] x_edge_quad(f, buf, cells, q, x, y, z)
}

proof fn lemma_quad_over_prefix(
    a: Seq<u32>,
    b: Seq<u32>,
    cells: Seq<Cell>,
    q: int,
    p: Cell,
    r: Cell,
    t: Cell,
    w: Cell,
)
    requires
        quad_over(a, cells, q, p, r, t, w),
    ensures
        quad_over(a + b, cells, q, p, r, t, w),
{
    let ab = a + b;
    assert(ab[6 * q] == a[6 * q]);
    assert(ab[6 * q + 1] == a[6 * q + 1]);
    assert(ab[6 * q + 2] == a[6 * q + 2]);
    assert(ab[6 * q + 3] == a[6 * q + 3]);
    assert(ab[6 * q + 4] == a[6 * q + 4]);
    assert(ab[6 * q + 5] == a[6 * q + 5]);
}

proof fn lemma_quad_over_suffix(
    a: Seq<u32>,
    b: Seq<u32>,
    cells: Seq<Cell>,
    q: int,
    p: Cell,
    r: Cell,
    t: Cell,
    w: Cell,
)
    requires
        a.len() % 6 == 0,
        quad_over(b, cells, q, p, r, t, w),
    ensures
        quad_over(a + b, cells, q + a.len() / 6, p, r, t, w),
{
    let ab = a + b;
    let m = a.len() / 6;
    assert(6 * (q + m) == 6 * q + a.len());
    assert(ab[6 * q + a.len()] == b[6 * q]);
    assert(ab[6 * q + a.len() + 1] == b[6 * q + 1]);
    assert(ab[6 * q + a.len() + 2] == b[6 * q + 2]);
    assert(ab[6 * q + a.len() + 3] == b[6 * q + 3]);
    assert(ab[6 * q + a.len() + 4] == b[6 * q + 4]);
    assert(ab[6 * q + a.len() + 5] == b[6 * q + 5]);
}

proof fn lemma_wound_prefix(
    a: Seq<u32>,
    b: Seq<u32>,
    cells: Seq<Cell>,
    q: int,
    p: Cell,
    r: Cell,
    t: Cell,
    w: Cell,
    fw: bool,
)
    requires
        wound_quad(a, cells, q, p, r, t, w, fw),
    ensures
        wound_quad(a + b, cells, q, p, r, t, w, fw),
{
    if fw {
        lemma_quad_over_prefix(a, b, cells, q, p, r, t, w);
    } else {
        lemma_quad_over_prefix(a, b, cells, q, p, w, t, r);
    }
}

proof fn lemma_wound_suffix(
    a: Seq<u32>,
    b: Seq<u32>,
    cells: Seq<Cell>,
    q: int,
    p: Cell,
    r: Cell,
    t: Cell,
    w: Cell,
    fw: bool,
)
    requires
        a.len() % 6 == 0,
        wound_quad(b, cells, q, p, r, t, w, fw),
    ensures
        wound_quad(a + b, cells, q + a.len() / 6, p, r, t, w, fw),
{
    if fw {
        lemma_quad_over_suffix(a, b, cells, q, p, r, t, w);
    } else {
        lemma_quad_over_suffix(a, b, cells, q, p, w, t, r);
    }
}

/// Quads of a prefix stay where they are.
proof fn lemma_edge_quads_prefix(
    f: SolidField,
    a: Seq<u32>,
    b: Seq<u32>,
    cells: Seq<Cell>,
    q: int,
    x: int,
    y: int,
    z: int,
)
    ensures
        z_edge_quad(f, a, cells, q, x, y, z) ==> z_edge_quad(f, a + b, cells, q, x, y, z),
        y_edge_quad(f, a, cells, q, x, y, z) ==> y_edge_quad(f, a + b, cells, q, x, y, z),
        x_edge_quad(f, a, cells, q, x, y, z) ==> x_edge_quad(f, a + b, cells, q, x, y, z),
{
    if z_edge_quad(f, a, cells, q, x, y, z) {
        lemma_wound_prefix(
            a,
            b,
            cells,
            q,
            cell(x - 1, y - 1, z),
            cell(x, y - 1, z),
            cell(x, y, z),
            cell(x - 1, y, z),
            !f.solid(x, y, z + 1),
        );
    }
    if y_edge_quad(f, a, cells, q, x, y, z) {
        lemma_wound_prefix(
            a,
            b,
            cells,
            q,
            cell(x - 1, y, z - 1),
            cell(x, y, z - 1),
            cell(x, y, z),
            cell(x - 1, y, z),
            !f.solid(x, y, z),
        );
    }
    if x_edge_quad(f, a, cells, q, x, y, z) {
        lemma_wound_prefix(
            a,
            b,
            cells,
            q,
            cell(x, y - 1, z - 1),
            cell(x, y, z - 1),
            cell(x, y, z),
            cell(x, y - 1, z),
            !f.solid(x + 1, y, z),
        );
    }
}

/// Quads of a suffix move up by the number of quads in front of it.
proof fn lemma_edge_quads_suffix(
    f: SolidField,
    a: Seq<u32>,
    b: Seq<u32>,
    cells: Seq<Cell>,
    q: int,
    x: int,
    y: int,
    z: int,
)
    requires
        a.len() % 6 == 0,
    ensures
        z_edge_quad(f, b, cells, q, x, y, z) ==> z_edge_quad(
            f,
            a + b,
            cells,
            q + a.len() / 6,
            x,
            y,
            z,
        ),
        y_edge_quad(f, b, cells, q, x, y, z) ==> y_edge_quad(
            f,
            a + b,
            cells,
            q + a.len() / 6,
            x,
            y,
            z,
        ),
        x_edge_quad(f, b, cells, q, x, y, z) ==> x_edge_quad(
            f,
            a + b,
            cells,
            q + a.len() / 6,
            x,
            y,
            z,
        ),
{
    if z_edge_quad(f, b, cells, q, x, y, z) {
        lemma_wound_suffix(
            a,
            b,
            cells,
            q,
            cell(x - 1, y - 1, z),
            cell(x, y - 1, z),
            cell(x, y, z),
            cell(x - 1, y, z),
            !f.solid(x, y, z + 1),
        );
    }
    if y_edge_quad(f, b, cells, q, x, y, z) {
        lemma_wound_suffix(
            a,
            b,
            cells,
            q,
            cell(x - 1, y, z - 1),
            cell(x, y, z - 1),
            cell(x, y, z),
            cell(x - 1, y, z),
            !f.solid(x, y, z),
        );
    }
    if x_edge_quad(f, b, cells, q, x, y, z) {
        lemma_wound_suffix(
            a,
            b,
            cells,
            q,
            cell(x, y - 1, z - 1),
            cell(x, y, z - 1),
            cell(x, y, z),
            cell(x, y - 1, z),
            !f.solid(x + 1, y, z),
        );
    }
}

proof fn lemma_have_quads_prefix(
    f: SolidField,
    a: Seq<u32>,
    b: Seq<u32>,
    cells: Seq<Cell>,
    x: int,
    y: int,
    z: int,
)
    requires
        edges_have_quads(f, a, cells, x, y, z),
    ensures
        edges_have_quads(f, a + b, cells, x, y, z),
{
    if x > 0 && y > 0 && f.solid(x, y, z) != f.solid(x, y, z + 1) {
        let q = choose|q: int| #[trigger] z_edge_quad(f, a, cells, q, x, y, z);
        lemma_edge_quads_prefix(f, a, b, cells, q, x, y, z);
    }
    if x > 0 && z > 0 && f.solid(x, y, z) != f.solid(x, y + 1, z) {
        let q = choose|q: int| #[trigger] y_edge_quad(f, a, cells, q, x, y, z);
        lemma_edge_quads_prefix(f, a, b, cells, q, x, y, z);
    }
    if y > 0 && z > 0 && f.solid(x, y, z) != f.solid(x + 1, y, z) {
        let q = choose|q: int| #[trigger] x_edge_quad(f, a, cells, q, x, y, z);
        lemma_edge_quads_prefix(f, a, b, cells, q, x, y, z);
    }
}

proof fn lemma_have_quads_suffix(
    f: SolidField,
    a: Seq<u32>,
    b: Seq<u32>,
    cells: Seq<Cell>,
    x: int,
    y: int,
    z: int,
)
    requires
        a.len() % 6 == 0,
        edges_have_quads(f, b, cells, x, y, z),
    ensures
        edges_have_quads(f, a + b, cells, x, y, z),
{
    if x > 0 && y > 0 && f.solid(x, y, z) != f.solid(x, y, z + 1) {
        let q = choose|q: int| #[trigger] z_edge_quad(f, b, cells, q, x, y, z);
        lemma_edge_quads_suffix(f, a, b, cells, q, x, y, z);
    }
    if x > 0 && z > 0 && f.solid(x, y, z) != f.solid(x, y + 1, z) {
        let q = choose|q: int| #[trigger] y_edge_quad(f, b, cells, q, x, y, z);
        lemma_edge_quads_suffix(f, a, b, cells, q, x, y, z);
    }
    if y > 0 && z > 0 && f.solid(x, y, z) != f.solid(x + 1, y, z) {
        let q = choose|q: int| #[trigger] x_edge_quad(f, b, cells, q, x, y, z);
        lemma_edge_quads_suffix(f, a, b, cells, q, x, y, z);
    }
}

proof fn lemma_from_edges_concat(
    f: SolidField,
    s: nat,
    a: Seq<u32>,
    b: Seq<u32>,
    cells: Seq<Cell>,
)
    requires
        a.len() % 6 == 0,
        b.len() % 6 == 0,
        quads_from_edges(f, s, a, cells),
        quads_from_edges(f, s, b, cells),
    ensures
        quads_from_edges(f, s, a + b, cells),
{
    let ab = a + b;
    let m = a.len() / 6;
    assert forall|q: int| 0 <= q < ab.len() / 6 implies #[trigger] quad_of_some_edge(f, s, ab, cells, q) by {
        if q < m {
            assert(quad_of_some_edge(f, s, a, cells, q));
            let (x, y, z) = choose|x: int, y: int, z: int|
                #[trigger] edge_quad(f, s, a, cells, q, x, y, z);
            lemma_edge_quads_prefix(f, a, b, cells, q, x, y, z);
            assert(edge_quad(f, s, ab, cells, q, x, y, z));
        } else {
            let q2 = q - m;
            assert(0 <= q2 < b.len() / 6);
            assert(quad_of_some_edge(f, s, b, cells, q2));
            let (x, y, z) = choose|x: int, y: int, z: int|
                #[trigger] edge_quad(f, s, b, cells, q2, x, y, z);
            lemma_edge_quads_suffix(f, a, b, cells, q2, x, y, z);
            assert(edge_quad(f, s, ab, cells, q, x, y, z));
        }
    }
}

/// The cell of the vertex that index `idx` names.
proof fn lemma_idx_names_cell(f: SolidField, s: nat, x: int, y: int, z: int)
    requires
        s * s * s <= 0x1_0000_0000,
        0 <= x < s,
        0 <= y < s,
        0 <= z < s,
        has_vertex(f, x, y, z),
    ensures
        idx(f, s, x, y, z) < vertex_cells(f, s).len(),
        vertex_cells(f, s)[idx(f, s, x, y, z) as int] == cell(x, y, z),
{
    lemma_small_block(s);
    lemma_idx_distinct(f, s, x, y, z, x, y, z);
    lemma_index_leads_to_cell(f, s, x, y, z);
    lemma_vertex_count_bound(f, s);
}

/// The quad that point `(x, y, z)` emits for its `Z` edge.
proof fn lemma_z_face_quad(f: SolidField, s: nat, x: int, y: int, z: int)
    requires
        s * s * s <= 0x1_0000_0000,
        0 <= x < s,
        0 <= y < s,
        0 <= z < s,
    ensures
        z_face(f, s, x, y, z).len() % 6 == 0,
        (x > 0 && y > 0 && f.solid(x, y, z) != f.solid(x, y, z + 1)) ==> z_edge_quad(
            f,
            z_face(f, s, x, y, z),
            vertex_cells(f, s),
            0,
            x,
            y,
            z,
        ),
        quads_from_edges(f, s, z_face(f, s, x, y, z), vertex_cells(f, s)),
{
    let buf = z_face(f, s, x, y, z);
    let cells = vertex_cells(f, s);
    if x > 0 && y > 0 && f.solid(x, y, z) != f.solid(x, y, z + 1) {
        lemma_crossing_edge_cells_have_vertices(f, x, y, z);
        lemma_idx_names_cell(f, s, x - 1, y - 1, z);
        lemma_idx_names_cell(f, s, x, y - 1, z);
        lemma_idx_names_cell(f, s, x, y, z);
        lemma_idx_names_cell(f, s, x - 1, y, z);
        assert(z_edge_quad(f, buf, cells, 0, x, y, z));
        assert forall|q: int| 0 <= q < buf.len() / 6 implies #[trigger] quad_of_some_edge(f, s, buf, cells, q) by {
            assert(q == 0);
            assert(edge_quad(f, s, buf, cells, 0, x, y, z));
        }
    }
}

/// The quad that point `(x, y, z)` emits for its `Y` edge.
proof fn lemma_y_face_quad(f: SolidField, s: nat, x: int, y: int, z: int)
    requires
        s * s * s <= 0x1_0000_0000,
        0 <= x < s,
        0 <= y < s,
        0 <= z < s,
    ensures
        y_face(f, s, x, y, z).len() % 6 == 0,
        (x > 0 && z > 0 && f.solid(x, y, z) != f.solid(x, y + 1, z)) ==> y_edge_quad(
            f,
            y_face(f, s, x, y, z),
            vertex_cells(f, s),
            0,
            x,
            y,
            z,
        ),
        quads_from_edges(f, s, y_face(f, s, x, y, z), vertex_cells(f, s)),
{
    let buf = y_face(f, s, x, y, z);
    let cells = vertex_cells(f, s);
    if x > 0 && z > 0 && f.solid(x, y, z) != f.solid(x, y + 1, z) {
        lemma_crossing_edge_cells_have_vertices(f, x, y, z);
        lemma_idx_names_cell(f, s, x - 1, y, z - 1);
        lemma_idx_names_cell(f, s, x, y, z - 1);
        lemma_idx_names_cell(f, s, x, y, z);
        lemma_idx_names_cell(f, s, x - 1, y, z);
        assert(y_edge_quad(f, buf, cells, 0, x, y, z));
        assert forall|q: int| 0 <= q < buf.len() / 6 implies #[trigger] quad_of_some_edge(f, s, buf, cells, q) by {
            assert(q == 0);
            assert(edge_quad(f, s, buf, cells, 0, x, y, z));
        }
    }
}

/// The quad that point `(x, y, z)` emits for its `X` edge.
proof fn lemma_x_face_quad(f: SolidField, s: nat, x: int, y: int, z: int)
    requires
        s * s * s <= 0x1_0000_0000,
        0 <= x < s,
        0 <= y < s,
        0 <= z < s,
    ensures
        x_face(f, s, x, y, z).len() % 6 == 0,
        (y > 0 && z > 0 && f.solid(x, y, z) != f.solid(x + 1, y, z)) ==> x_edge_quad(
            f,
            x_face(f, s, x, y, z),
            vertex_cells(f, s),
            0,
            x,
            y,
            z,
        ),
        quads_from_edges(f, s, x_face(f, s, x, y, z), vertex_cells(f, s)),
{
    let buf = x_face(f, s, x, y, z);
    let cells = vertex_cells(f, s);
    if y > 0 && z > 0 && f.solid(x, y, z) != f.solid(x + 1, y, z) {
        lemma_crossing_edge_cells_have_vertices(f, x, y, z);
        lemma_idx_names_cell(f, s, x, y - 1, z - 1);
        lemma_idx_names_cell(f, s, x, y, z - 1);
        lemma_idx_names_cell(f, s, x, y, z);
        lemma_idx_names_cell(f, s, x, y - 1, z);
        assert(x_edge_quad(f, buf, cells, 0, x, y, z));
        assert forall|q: int| 0 <= q < buf.len() / 6 implies #[trigger] quad_of_some_edge(f, s, buf, cells, q) by {
            assert(q == 0);
            assert(edge_quad(f, s, buf, cells, 0, x, y, z));
        }
    }
}

/// What one lattice point emits: the quads of its sign-changing edges and
/// nothing else.
proof fn lemma_point_faces_quads(f: SolidField, s: nat, x: int, y: int, z: int)
    requires
        s * s * s <= 0x1_0000_0000,
        0 <= x < s,
        0 <= y < s,
        0 <= z < s,
    ensures
        point_faces(f, s, x, y, z).len() % 6 == 0,
        edges_have_quads(f, point_faces(f, s, x, y, z), vertex_cells(f, s), x, y, z),
        quads_from_edges(f, s, point_faces(f, s, x, y, z), vertex_cells(f, s)),
{
    let cells = vertex_cells(f, s);
    let zf = z_face(f, s, x, y, z);
    let yf = y_face(f, s, x, y, z);
    let xf = x_face(f, s, x, y, z);
    lemma_z_face_quad(f, s, x, y, z);
    lemma_y_face_quad(f, s, x, y, z);
    lemma_x_face_quad(f, s, x, y, z);
    lemma_from_edges_concat(f, s, zf, yf, cells);
    lemma_from_edges_concat(f, s, zf + yf, xf, cells);
    // the Z quad sits at the front
    lemma_edge_quads_prefix(f, zf, yf, cells, 0, x, y, z);
    lemma_edge_quads_prefix(f, zf + yf, xf, cells, 0, x, y, z);
    // the Y quad follows the Z one
    lemma_edge_quads_suffix(f, zf, yf, cells, 0, x, y, z);
    lemma_edge_quads_prefix(f, zf + yf, xf, cells, (zf.len() / 6) as int, x, y, z);
    // the X quad comes last
    lemma_edge_quads_suffix(f, zf + yf, xf, cells, 0, x, y, z);
    let pf = zf + yf + xf;
    if x > 0 && y > 0 && f.solid(x, y, z) != f.solid(x, y, z + 1) {
        assert(z_edge_quad(f, pf, cells, 0, x, y, z));
    }
    if x > 0 && z > 0 && f.solid(x, y, z) != f.solid(x, y + 1, z) {
        assert(y_edge_quad(f, pf, cells, (zf.len() / 6) as int, x, y, z));
    }
    if y > 0 && z > 0 && f.solid(x, y, z) != f.solid(x + 1, y, z) {
        assert(x_edge_quad(f, pf, cells, ((zf + yf).len() / 6) as int, x, y, z));
    }
}

proof fn lemma_row_faces_quads(f: SolidField, s: nat, y: int, z: int, n: nat)
    requires
        s * s * s <= 0x1_0000_0000,
        n <= s,
        0 <= y < s,
        0 <= z < s,
    ensures
        forall|x: int|
            0 <= x < n ==> #[trigger] edges_have_quads(
                f,
                row_faces(f, s, y, z, n),
                vertex_cells(f, s),
                x,
                y,
                z,
            ),
        quads_from_edges(f, s, row_faces(f, s, y, z, n), vertex_cells(f, s)),
    decreases n,
{
    let cells = vertex_cells(f, s);
    lemma_row_faces_ok(f, s, y, z, n);
    if n > 0 {
        let prev = row_faces(f, s, y, z, (n - 1) as nat);
        let pf = point_faces(f, s, n - 1, y, z);
        lemma_row_faces_quads(f, s, y, z, (n - 1) as nat);
        lemma_row_faces_ok(f, s, y, z, (n - 1) as nat);
        lemma_point_faces_quads(f, s, n - 1, y, z);
        lemma_from_edges_concat(f, s, prev, pf, cells);
        assert forall|x: int| 0 <= x < n implies #[trigger] edges_have_quads(
            f,
            row_faces(f, s, y, z, n),
            cells,
            x,
            y,
            z,
        ) by {
            if x < n - 1 {
                assert(edges_have_quads(f, prev, cells, x, y, z));
                lemma_have_quads_prefix(f, prev, pf, cells, x, y, z);
            } else {
                lemma_have_quads_suffix(f, prev, pf, cells, x, y, z);
            }
        }
    } else {
        assert(quads_from_edges(f, s, row_faces(f, s, y, z, n), cells));
    }
}

proof fn lemma_plane_faces_quads(f: SolidField, s: nat, z: int, n: nat)
    requires
        s * s * s <= 0x1_0000_0000,
        n <= s,
        0 <= z < s,
    ensures
        forall|x: int, y: int|
            0 <= x < s && 0 <= y < n ==> #[trigger] edges_have_quads(
                f,
                plane_faces(f, s, z, n),
                vertex_cells(f, s),
                x,
                y,
                z,
            ),
        quads_from_edges(f, s, plane_faces(f, s, z, n), vertex_cells(f, s)),
    decreases n,
{
    let cells = vertex_cells(f, s);
    if n > 0 {
        let prev = plane_faces(f, s, z, (n - 1) as nat);
        let row = row_faces(f, s, n - 1, z, s);
        lemma_plane_faces_quads(f, s, z, (n - 1) as nat);
        lemma_plane_faces_ok(f, s, z, (n - 1) as nat);
        lemma_row_faces_ok(f, s, n - 1, z, s);
        lemma_row_faces_quads(f, s, n - 1, z, s);
        lemma_from_edges_concat(f, s, prev, row, cells);
        assert forall|x: int, y: int| 0 <= x < s && 0 <= y < n implies #[trigger] edges_have_quads(
            f,
            plane_faces(f, s, z, n),
            cells,
            x,
            y,
            z,
        ) by {
            if y < n - 1 {
                assert(edges_have_quads(f, prev, cells, x, y, z));
                lemma_have_quads_prefix(f, prev, row, cells, x, y, z);
            } else {
                assert(edges_have_quads(f, row, cells, x, y, z));
                lemma_have_quads_suffix(f, prev, row, cells, x, y, z);
            }
        }
    } else {
        assert(quads_from_edges(f, s, plane_faces(f, s, z, n), cells));
    }
}

proof fn lemma_block_faces_quads(f: SolidField, s: nat, n: nat)
    requires
        s * s * s <= 0x1_0000_0000,
        n <= s,
    ensures
        forall|x: int, y: int, z: int|
            0 <= x < s && 0 <= y < s && 0 <= z < n ==> #[trigger] edges_have_quads(
                f,
                block_faces(f, s, n),
                vertex_cells(f, s),
                x,
                y,
                z,
            ),
        quads_from_edges(f, s, block_faces(f, s, n), vertex_cells(f, s)),
    decreases n,
{
    let cells = vertex_cells(f, s);
    if n > 0 {
        let prev = block_faces(f, s, (n - 1) as nat);
        let plane = plane_faces(f, s, n - 1, s);
        lemma_block_faces_quads(f, s, (n - 1) as nat);
        lemma_block_faces_ok(f, s, (n - 1) as nat);
        lemma_plane_faces_ok(f, s, n - 1, s);
        lemma_plane_faces_quads(f, s, n - 1, s);
        lemma_from_edges_concat(f, s, prev, plane, cells);
        assert forall|x: int, y: int, z: int|
            0 <= x < s && 0 <= y < s && 0 <= z < n implies #[trigger] edges_have_quads(
            f,
            block_faces(f, s, n),
            cells,
            x,
            y,
            z,
        ) by {
            if z < n - 1 {
                assert(edges_have_quads(f, prev, cells, x, y, z));
                lemma_have_quads_prefix(f, prev, plane, cells, x, y, z);
            } else {
                assert(edges_have_quads(f, plane, cells, x, y, z));
                lemma_have_quads_suffix(f, prev, plane, cells, x, y, z);
            }
        }
    } else {
        assert(quads_from_edges(f, s, block_faces(f, s, n), cells));
    }
}

/// Every lattice edge of the block on which the sign changes, with its four
/// cells inside the block, has in the index buffer a quad over the vertices
/// of those four cells, wound by the direction of the change.
pub proof fn lemma_every_crossing_edge_has_its_quad(f: SolidField, s: nat)
    requires
        s * s * s <= 0x1_0000_0000,
    ensures
        forall|x: int, y: int, z: int|
            0 <= x < s && 0 <= y < s && 0 <= z < s ==> #[trigger] edges_have_quads(
                f,
                faces(f, s),
                vertex_cells(f, s),
                x,
                y,
                z,
            ),
{
    lemma_block_faces_quads(f, s, s);
}

/// The index buffer is made of whole quads, and each of them is the quad of
/// a sign-changing lattice edge of the block over the vertices of its four
/// cells: no quad appears that no edge asks for.
pub proof fn lemma_every_quad_is_a_crossing_edge(f: SolidField, s: nat)
    requires
        s * s * s <= 0x1_0000_0000,
    ensures
        faces(f, s).len() % 6 == 0,
        quads_from_edges(f, s, faces(f, s), vertex_cells(f, s)),
{
    lemma_block_faces_ok(f, s, s);
    lemma_block_faces_quads(f, s, s);
}

// ---------------------------------------------------------------------
// Scan order of the vertex list
// ---------------------------------------------------------------------

/// Cell `a` comes before cell `b` in scan order: by `z`, then `y`, then `x`.
pub open spec fn scan_before(a: Cell, b: Cell) -> bool {
    ||| a.z < b.z
    ||| (a.z == b.z && a.y < b.y)
    ||| (a.z == b.z && a.y == b.y && a.x < b.x)
}

/// The cells of `s` come in strictly increasing scan order.
pub open spec fn in_scan_order(s: Seq<Cell>) -> bool {
    forall|i: int, j: int| 0 <= i < j < s.len() ==> scan_before(#[trigger] s[i], #[trigger] s[j])
}

proof fn lemma_row_sorted(f: SolidField, s: nat, y: int, z: int, n: nat)
    requires
        s <= usize::MAX,
        n <= s,
        0 <= y < s,
        0 <= z < s,
    ensures
        in_scan_order(row_cells(f, y, z, n)),
    decreases n,
{
    if n > 0 {
        let prev = row_cells(f, y, z, (n - 1) as nat);
        let cur = row_cells(f, y, z, n);
        lemma_row_sorted(f, s, y, z, (n - 1) as nat);
        lemma_row_entries(f, s, y, z, (n - 1) as nat);
        lemma_row_entries(f, s, y, z, n);
        assert forall|i: int, j: int| 0 <= i < j < cur.len() implies scan_before(
            #[trigger] cur[i],
            #[trigger] cur[j],
        ) by {
            assert(cur[i] == prev[i]);
            if j < prev.len() {
                assert(cur[j] == prev[j]);
            } else {
                assert(cur[j] == cell(n - 1, y, z));
                assert(prev[i].x < n - 1);
            }
        }
    }
}

proof fn lemma_plane_sorted(f: SolidField, s: nat, z: int, n: nat)
    requires
        s <= usize::MAX,
        n <= s,
        0 <= z < s,
    ensures
        in_scan_order(plane_cells(f, s, z, n)),
    decreases n,
{
    if n > 0 {
        let prev = plane_cells(f, s, z, (n - 1) as nat);
        let row = row_cells(f, n - 1, z, s);
        let cur = plane_cells(f, s, z, n);
        lemma_plane_sorted(f, s, z, (n - 1) as nat);
        lemma_plane_entries(f, s, z, (n - 1) as nat);
        lemma_row_sorted(f, s, n - 1, z, s);
        lemma_row_entries(f, s, n - 1, z, s);
        assert forall|i: int, j: int| 0 <= i < j < cur.len() implies scan_before(
            #[trigger] cur[i],
            #[trigger] cur[j],
        ) by {
            if j < prev.len() {
                assert(cur[i] == prev[i] && cur[j] == prev[j]);
            } else if i < prev.len() {
                assert(cur[i] == prev[i] && cur[j] == row[j - prev.len()]);
                assert(prev[i].y < n - 1);
                assert(row[j - prev.len()].y == n - 1);
            } else {
                assert(cur[i] == row[i - prev.len()] && cur[j] == row[j - prev.len()]);
            }
        }
    }
}

proof fn lemma_block_sorted(f: SolidField, s: nat, n: nat)
    requires
        s <= usize::MAX,
        n <= s,
    ensures
        in_scan_order(block_cells(f, s, n)),
    decreases n,
{
    if n > 0 {
        let prev = block_cells(f, s, (n - 1) as nat);
        let plane = plane_cells(f, s, n - 1, s);
        let cur = block_cells(f, s, n);
        lemma_block_sorted(f, s, (n - 1) as nat);
        lemma_block_entries(f, s, (n - 1) as nat);
        lemma_plane_sorted(f, s, n - 1, s);
        lemma_plane_entries(f, s, n - 1, s);
        assert forall|i: int, j: int| 0 <= i < j < cur.len() implies scan_before(
            #[trigger] cur[i],
            #[trigger] cur[j],
        ) by {
            if j < prev.len() {
                assert(cur[i] == prev[i] && cur[j] == prev[j]);
            } else if i < prev.len() {
                assert(cur[i] == prev[i] && cur[j] == plane[j - prev.len()]);
                assert(prev[i].z < n - 1);
                assert(plane[j - prev.len()].z == n - 1);
            } else {
                assert(cur[i] == plane[i - prev.len()] && cur[j] == plane[j - prev.len()]);
            }
        }
    }
}

/// The vertex list comes in scan order: by `z`, then `y`, then `x`, each
/// cell once; with `lemma_vertex_list_is_sign_change_cells` this fixes it
/// completely.
pub proof fn lemma_vertex_list_in_scan_order(f: SolidField, s: nat)
    requires
        s <= usize::MAX,
    ensures
        in_scan_order(vertex_cells(f, s)),
{
    lemma_block_sorted(f, s, s);
}

// ---------------------------------------------------------------------
// Order of the quads
// ---------------------------------------------------------------------

/// The lattice point and the axis of quad `q` of `buf`, read off its cells:
/// the point is its third cell, and the axis is `Z` (0) when its first cell
/// lies in the same `z` layer, else `Y` (1) when in the same `y` row, else
/// `X` (2).
pub open spec fn quad_key(buf: Seq<u32>, cells: Seq<Cell>, q: int) -> (int, int, int, int) {
    let a = cells[buf[6 * q] as int];
    let c = cells[buf[6 * q + 2] as int];
    (
        c.z as int,
        c.y as int,
        c.x as int,
        if a.z == c.z {
            0
        } else if a.y == c.y {
            1
        } else {
            2
        },
    )
}

/// Lexicographic order on `(z, y, x, axis)`.
pub open spec fn key_before(k: (int, int, int, int), l: (int, int, int, int)) -> bool {
    ||| k.0 < l.0
    ||| (k.0 == l.0 && k.1 < l.1)
    ||| (k.0 == l.0 && k.1 == l.1 && k.2 < l.2)
    ||| (k.0 == l.0 && k.1 == l.1 && k.2 == l.2 && k.3 < l.3)
}

/// The quads of `buf` come in strictly increasing order of lattice point
/// (by `z`, then `y`, then `x`) and, at one point, of axis `Z`, `Y`, `X`:
/// each edge's quad appears once, in the order in which the block is
/// scanned.
pub open spec fn quads_in_scan_order(buf: Seq<u32>, cells: Seq<Cell>) -> bool {
    forall|q1: int, q2: int|
        0 <= q1 < q2 < buf.len() / 6 ==> key_before(
            #[trigger] quad_key(buf, cells, q1),
            #[trigger] quad_key(buf, cells, q2),
        )
}

/// Every quad key of `buf` lies in `[lo, hi)`, and the keys increase.
pub open spec fn keys_ordered(
    buf: Seq<u32>,
    cells: Seq<Cell>,
    lo: (int, int, int, int),
    hi: (int, int, int, int),
) -> bool {
    &&& forall|q: int|
        0 <= q < buf.len() / 6 ==> !key_before(#[trigger] quad_key(buf, cells, q), lo)
            && key_before(quad_key(buf, cells, q), hi)
    &&& quads_in_scan_order(buf, cells)
}

proof fn lemma_quad_key_shift(a: Seq<u32>, b: Seq<u32>, cells: Seq<Cell>, q: int)
    requires
        a.len() % 6 == 0,
        b.len() % 6 == 0,
        0 <= q < (a + b).len() / 6,
    ensures
        q < a.len() / 6 ==> quad_key(a + b, cells, q) == quad_key(a, cells, q),
        q >= a.len() / 6 ==> quad_key(a + b, cells, q) == quad_key(b, cells, q - a.len() / 6),
{
    let ab = a + b;
    let m = a.len() / 6;
    if q < m {
        assert(ab[6 * q] == a[6 * q]);
        assert(ab[6 * q + 2] == a[6 * q + 2]);
    } else {
        let q2 = q - m;
        assert(6 * q == 6 * q2 + a.len());
        assert(ab[6 * q] == b[6 * q2]);
        assert(ab[6 * q + 2] == b[6 * q2 + 2]);
    }
}

proof fn lemma_keys_concat(
    a: Seq<u32>,
    b: Seq<u32>,
    cells: Seq<Cell>,
    lo: (int, int, int, int),
    mid: (int, int, int, int),
    hi: (int, int, int, int),
)
    requires
        a.len() % 6 == 0,
        b.len() % 6 == 0,
        keys_ordered(a, cells, lo, mid),
        keys_ordered(b, cells, mid, hi),
        !key_before(hi, mid),
        !key_before(mid, lo),
    ensures
        keys_ordered(a + b, cells, lo, hi),
{
    let ab = a + b;
    let m = a.len() / 6;
    assert forall|q: int| 0 <= q < ab.len() / 6 implies !key_before(
        #[trigger] quad_key(ab, cells, q),
        lo,
    ) && key_before(quad_key(ab, cells, q), hi) by {
        lemma_quad_key_shift(a, b, cells, q);
        if q < m {
            assert(!key_before(quad_key(a, cells, q), lo) && key_before(quad_key(a, cells, q), mid));
        } else {
            assert(!key_before(quad_key(b, cells, q - m), mid) && key_before(
                quad_key(b, cells, q - m),
                hi,
            ));
        }
    }
    assert forall|q1: int, q2: int| 0 <= q1 < q2 < ab.len() / 6 implies key_before(
        #[trigger] quad_key(ab, cells, q1),
        #[trigger] quad_key(ab, cells, q2),
    ) by {
        lemma_quad_key_shift(a, b, cells, q1);
        lemma_quad_key_shift(a, b, cells, q2);
        if q2 < m {
            assert(key_before(quad_key(a, cells, q1), quad_key(a, cells, q2)));
        } else if q1 < m {
            assert(key_before(quad_key(a, cells, q1), mid));
            assert(!key_before(quad_key(b, cells, q2 - m), mid));
        } else {
            assert(key_before(quad_key(b, cells, q1 - m), quad_key(b, cells, q2 - m)));
        }
    }
}

proof fn lemma_keys_widen(
    buf: Seq<u32>,
    cells: Seq<Cell>,
    lo: (int, int, int, int),
    hi: (int, int, int, int),
    hi2: (int, int, int, int),
)
    requires
        keys_ordered(buf, cells, lo, hi),
        !key_before(hi2, hi),
    ensures
        keys_ordered(buf, cells, lo, hi2),
{
    assert forall|q: int| 0 <= q < buf.len() / 6 implies !key_before(
        #[trigger] quad_key(buf, cells, q),
        lo,
    ) && key_before(quad_key(buf, cells, q), hi2) by {
        assert(key_before(quad_key(buf, cells, q), hi));
    }
}

proof fn lemma_keys_empty(buf: Seq<u32>, cells: Seq<Cell>, lo: (int, int, int, int), hi: (int, int, int, int))
    requires
        buf.len() == 0,
    ensures
        keys_ordered(buf, cells, lo, hi),
{
}

/// A single quad at `q == 0` whose first and third cells are `a` and `c`.
proof fn lemma_keys_single(
    buf: Seq<u32>,
    cells: Seq<Cell>,
    a: Cell,
    c: Cell,
    lo: (int, int, int, int),
    hi: (int, int, int, int),
)
    requires
        buf.len() == 6,
        buf[0] < cells.len(),
        buf[2] < cells.len(),
        cells[buf[0] as int] == a,
        cells[buf[2] as int] == c,
        !key_before(quad_key(buf, cells, 0), lo),
        key_before(quad_key(buf, cells, 0), hi),
    ensures
        keys_ordered(buf, cells, lo, hi),
{
    assert forall|q: int| 0 <= q < buf.len() / 6 implies !key_before(
        #[trigger] quad_key(buf, cells, q),
        lo,
    ) && key_before(quad_key(buf, cells, q), hi) by {
        assert(q == 0);
    }
}

proof fn lemma_point_keys(f: SolidField, s: nat, x: int, y: int, z: int)
    requires
        s * s * s <= 0x1_0000_0000,
        0 <= x < s,
        0 <= y < s,
        0 <= z < s,
    ensures
        keys_ordered(point_faces(f, s, x, y, z), vertex_cells(f, s), (z, y, x, 0), (z, y, x + 1, 0)),
{
    lemma_small_block(s);
    let cells = vertex_cells(f, s);
    let zf = z_face(f, s, x, y, z);
    let yf = y_face(f, s, x, y, z);
    let xf = x_face(f, s, x, y, z);
    lemma_z_face_quad(f, s, x, y, z);
    lemma_y_face_quad(f, s, x, y, z);
    lemma_x_face_quad(f, s, x, y, z);
    if zf.len() == 0 {
        lemma_keys_empty(zf, cells, (z, y, x, 0), (z, y, x, 1));
    } else {
        assert(z_edge_quad(f, zf, cells, 0, x, y, z));
        lemma_keys_single(zf, cells, cell(x - 1, y - 1, z), cell(x, y, z), (z, y, x, 0), (z, y, x, 1));
    }
    if yf.len() == 0 {
        lemma_keys_empty(yf, cells, (z, y, x, 1), (z, y, x, 2));
    } else {
        assert(y_edge_quad(f, yf, cells, 0, x, y, z));
        lemma_keys_single(yf, cells, cell(x - 1, y, z - 1), cell(x, y, z), (z, y, x, 1), (z, y, x, 2));
    }
    if xf.len() == 0 {
        lemma_keys_empty(xf, cells, (z, y, x, 2), (z, y, x + 1, 0));
    } else {
        assert(x_edge_quad(f, xf, cells, 0, x, y, z));
        lemma_keys_single(xf, cells, cell(x, y - 1, z - 1), cell(x, y, z), (z, y, x, 2), (z, y, x + 1, 0));
    }
    lemma_keys_concat(zf, yf, cells, (z, y, x, 0), (z, y, x, 1), (z, y, x, 2));
    lemma_keys_concat(zf + yf, xf, cells, (z, y, x, 0), (z, y, x, 2), (z, y, x + 1, 0));
}

proof fn lemma_row_keys(f: SolidField, s: nat, y: int, z: int, n: nat)
    requires
        s * s * s <= 0x1_0000_0000,
        n <= s,
        0 <= y < s,
        0 <= z < s,
    ensures
        keys_ordered(row_faces(f, s, y, z, n), vertex_cells(f, s), (z, y, 0, 0), (z, y, n as int, 0)),
    decreases n,
{
    let cells = vertex_cells(f, s);
    if n == 0 {
        lemma_keys_empty(row_faces(f, s, y, z, n), cells, (z, y, 0, 0), (z, y, 0, 0));
    } else {
        lemma_row_keys(f, s, y, z, (n - 1) as nat);
        lemma_row_faces_ok(f, s, y, z, (n - 1) as nat);
        lemma_point_faces_ok(f, s, n - 1, y, z);
        lemma_point_keys(f, s, n - 1, y, z);
        lemma_keys_concat(
            row_faces(f, s, y, z, (n - 1) as nat),
            point_faces(f, s, n - 1, y, z),
            cells,
            (z, y, 0, 0),
            (z, y, n - 1, 0),
            (z, y, n as int, 0),
        );
    }
}

proof fn lemma_plane_keys(f: SolidField, s: nat, z: int, n: nat)
    requires
        s * s * s <= 0x1_0000_0000,
        n <= s,
        0 <= z < s,
    ensures
        keys_ordered(plane_faces(f, s, z, n), vertex_cells(f, s), (z, 0, 0, 0), (z, n as int, 0, 0)),
    decreases n,
{
    let cells = vertex_cells(f, s);
    if n == 0 {
        lemma_keys_empty(plane_faces(f, s, z, n), cells, (z, 0, 0, 0), (z, 0, 0, 0));
    } else {
        let row = row_faces(f, s, n - 1, z, s);
        lemma_plane_keys(f, s, z, (n - 1) as nat);
        lemma_plane_faces_ok(f, s, z, (n - 1) as nat);
        lemma_row_faces_ok(f, s, n - 1, z, s);
        lemma_row_keys(f, s, n - 1, z, s);
        lemma_keys_widen(row, cells, (z, n - 1, 0, 0), (z, n - 1, s as int, 0), (z, n as int, 0, 0));
        lemma_keys_concat(
            plane_faces(f, s, z, (n - 1) as nat),
            row,
            cells,
            (z, 0, 0, 0),
            (z, n - 1, 0, 0),
            (z, n as int, 0, 0),
        );
    }
}

proof fn lemma_block_keys(f: SolidField, s: nat, n: nat)
    requires
        s * s * s <= 0x1_0000_0000,
        n <= s,
    ensures
        keys_ordered(block_faces(f, s, n), vertex_cells(f, s), (0, 0, 0, 0), (n as int, 0, 0, 0)),
    decreases n,
{
    let cells = vertex_cells(f, s);
    if n == 0 {
        lemma_keys_empty(block_faces(f, s, n), cells, (0, 0, 0, 0), (0, 0, 0, 0));
    } else {
        let plane = plane_faces(f, s, n - 1, s);
        lemma_block_keys(f, s, (n - 1) as nat);
        lemma_block_faces_ok(f, s, (n - 1) as nat);
        lemma_plane_faces_ok(f, s, n - 1, s);
        lemma_plane_keys(f, s, n - 1, s);
        lemma_keys_widen(plane, cells, (n - 1, 0, 0, 0), (n - 1, s as int, 0, 0), (n as int, 0, 0, 0));
        lemma_keys_concat(
            block_faces(f, s, (n - 1) as nat),
            plane,
            cells,
            (0, 0, 0, 0),
            (n - 1, 0, 0, 0),
            (n as int, 0, 0, 0),
        );
    }
}

/// The quads of the index buffer come in scan order of their lattice points
/// (`z`, then `y`, then `x`), and at one point in the order `Z`, `Y`, `X`
/// of their edges; no edge's quad appears twice.
pub proof fn lemma_quads_in_scan_order(f: SolidField, s: nat)
    requires
        s * s * s <= 0x1_0000_0000,
    ensures
        quads_in_scan_order(faces(f, s), vertex_cells(f, s)),
{
    lemma_block_keys(f, s, s);
}

/// A cell carries a vertex exactly when one of its eight corners differs in
/// sign from its lowest corner.
pub proof fn lemma_has_vertex_meaning(f: SolidField, x: int, y: int, z: int)
    ensures
        has_vertex(f, x, y, z) <==> exists|dx: int, dy: int, dz: int|
            0 <= dx < 2 && 0 <= dy < 2 && 0 <= dz < 2 && #[trigger] f.solid(x + dx, y + dy, z + dz)
                != f.solid(x, y, z),
{
    if has_vertex(f, x, y, z) {
        if f.solid(x + 1, y, z) != f.solid(x, y, z) {
            assert(f.solid(x + 1, y + 0, z + 0) != f.solid(x, y, z));
        } else if f.solid(x, y + 1, z) != f.solid(x, y, z) {
            assert(f.solid(x + 0, y + 1, z + 0) != f.solid(x, y, z));
        } else if f.solid(x + 1, y + 1, z) != f.solid(x, y, z) {
            assert(f.solid(x + 1, y + 1, z + 0) != f.solid(x, y, z));
        } else if f.solid(x, y, z + 1) != f.solid(x, y, z) {
            assert(f.solid(x + 0, y + 0, z + 1) != f.solid(x, y, z));
        } else if f.solid(x + 1, y, z + 1) != f.solid(x, y, z) {
            assert(f.solid(x + 1, y + 0, z + 1) != f.solid(x, y, z));
        } else if f.solid(x, y + 1, z + 1) != f.solid(x, y, z) {
            assert(f.solid(x + 0, y + 1, z + 1) != f.solid(x, y, z));
        } else {
            assert(f.solid(x + 1, y + 1, z + 1) != f.solid(x, y, z));
        }
    } else {
        assert forall|dx: int, dy: int, dz: int|
            0 <= dx < 2 && 0 <= dy < 2 && 0 <= dz < 2 implies #[trigger] f.solid(
            x + dx,
            y + dy,
            z + dz,
        ) == f.solid(x, y, z) by {
            assert(dx == 0 || dx == 1);
            assert(dy == 0 || dy == 1);
            assert(dz == 0 || dz == 1);
        }
    }
}

} // verus!
