//! One cube of the lattice: its eight corner signs and the edges on which
//! the surface crosses.
use vstd::prelude::*;

verus! {

/// The axis along which an edge of a cell runs.
#[derive(Clone, Copy, Debug, PartialEq, Eq, Structural)]
pub enum Axis {
    X,
    Y,
    Z,
}

/// An edge of a unit cell on which the corner signs differ.
///
/// `axis` is the direction of the edge; `u` and `v` are the offsets (0 or 1)
/// of the edge along the two other axes, in the order x, y, z with `axis`
/// left out: an edge along `Z` sits at `(u, v, _)` = `(dx, dy)`, one along
/// `Y` at `(dx, dz)`, one along `X` at `(dy, dz)`.
#[derive(Clone, Copy, Debug, PartialEq, Eq, Structural)]
pub struct EdgeCrossing {
    pub axis: Axis,
    pub u: usize,
    pub v: usize,
}

/// Signs of the eight corners of a cell, indexed `[dx][dy][dz]`; `true`
/// means that the density is above zero there (the corner is solid).
pub type CornerSigns = [[[bool; 2]; 2]; 2];

/// The sign at corner `(dx, dy, dz)`.
pub open spec fn corner(c: CornerSigns, dx: int, dy: int, dz: int) -> bool {
    c@[dx]@[dy]@[dz]
}

/// `true` when all eight corners carry the same sign, so that the surface
/// does not pass through the cell.
pub open spec fn uniform(c: CornerSigns) -> bool {
    let s = corner(c, 0, 0, 0);
    &&& corner(c, 1, 0, 0) == s
    &&& corner(c, 0, 1, 0) == s
    &&& corner(c, 1, 1, 0) == s
    &&& corner(c, 0, 0, 1) == s
    &&& corner(c, 1, 0, 1) == s
    &&& corner(c, 0, 1, 1) == s
    &&& corner(c, 1, 1, 1) == s
}

/// The one-element sequence `[e]` when `cond` holds, else the empty one.
pub open spec fn seq_if(cond: bool, e: EdgeCrossing) -> Seq<EdgeCrossing> {
    if cond {
        seq![e]
    } else {
        Seq::empty()
    }
}

/// Crossings on the edges along `Z`, `dy` in the outer and `dx` in the inner
/// position.
pub open spec fn z_crossings(c: CornerSigns) -> Seq<EdgeCrossing> {
    seq_if(corner(c, 0, 0, 0) != corner(c, 0, 0, 1), EdgeCrossing { axis: Axis::Z, u: 0, v: 0 })
        + seq_if(corner(c, 1, 0, 0) != corner(c, 1, 0, 1), EdgeCrossing { axis: Axis::Z, u: 1, v: 0 })
        + seq_if(corner(c, 0, 1, 0) != corner(c, 0, 1, 1), EdgeCrossing { axis: Axis::Z, u: 0, v: 1 })
        + seq_if(corner(c, 1, 1, 0) != corner(c, 1, 1, 1), EdgeCrossing { axis: Axis::Z, u: 1, v: 1 })
}

/// Crossings on the edges along `Y`, `dz` in the outer and `dx` in the inner
/// position.
pub open spec fn y_crossings(c: CornerSigns) -> Seq<EdgeCrossing> {
    seq_if(corner(c, 0, 0, 0) != corner(c, 0, 1, 0), EdgeCrossing { axis: Axis::Y, u: 0, v: 0 })
        + seq_if(corner(c, 1, 0, 0) != corner(c, 1, 1, 0), EdgeCrossing { axis: Axis::Y, u: 1, v: 0 })
        + seq_if(corner(c, 0, 0, 1) != corner(c, 0, 1, 1), EdgeCrossing { axis: Axis::Y, u: 0, v: 1 })
        + seq_if(corner(c, 1, 0, 1) != corner(c, 1, 1, 1), EdgeCrossing { axis: Axis::Y, u: 1, v: 1 })
}

/// Crossings on the edges along `X`, `dy` in the outer and `dz` in the inner
/// position.
pub open spec fn x_crossings(c: CornerSigns) -> Seq<EdgeCrossing> {
    seq_if(corner(c, 0, 0, 0) != corner(c, 1, 0, 0), EdgeCrossing { axis: Axis::X, u: 0, v: 0 })
        + seq_if(corner(c, 0, 0, 1) != corner(c, 1, 0, 1), EdgeCrossing { axis: Axis::X, u: 0, v: 1 })
        + seq_if(corner(c, 0, 1, 0) != corner(c, 1, 1, 0), EdgeCrossing { axis: Axis::X, u: 1, v: 0 })
        + seq_if(corner(c, 0, 1, 1) != corner(c, 1, 1, 1), EdgeCrossing { axis: Axis::X, u: 1, v: 1 })
}

/// All crossings of a cell, in the order in which a vertex is placed from
/// them: first the edges along `Z`, then along `Y`, then along `X`.
pub open spec fn spec_crossing_edges(c: CornerSigns) -> Seq<EdgeCrossing> {
    z_crossings(c) + y_crossings(c) + x_crossings(c)
}

fn push_if(out: &mut Vec<EdgeCrossing>, cond: bool, e: EdgeCrossing)
    ensures
        final(out)@ == old(out)@ + seq_if(cond, e),
{
    if cond {
        out.push(e);
    }
    proof {
        if !cond {
            assert(final(out)@ =~= old(out)@ + seq_if(cond, e));
        }
    }
}

fn push_z_crossings(out: &mut Vec<EdgeCrossing>, c: &CornerSigns)
    ensures
        final(out)@ == old(out)@ + z_crossings(*c),
{
    let ghost s0 = out@;
    push_if(out, c[0][0][0] != c[0][0][1], EdgeCrossing { axis: Axis::Z, u: 0, v: 0 });
    push_if(out, c[1][0][0] != c[1][0][1], EdgeCrossing { axis: Axis::Z, u: 1, v: 0 });
    push_if(out, c[0][1][0] != c[0][1][1], EdgeCrossing { axis: Axis::Z, u: 0, v: 1 });
    push_if(out, c[1][1][0] != c[1][1][1], EdgeCrossing { axis: Axis::Z, u: 1, v: 1 });
    assert(out@ =~= s0 + z_crossings(*c));
}

fn push_y_crossings(out: &mut Vec<EdgeCrossing>, c: &CornerSigns)
    ensures
        final(out)@ == old(out)@ + y_crossings(*c),
{
    let ghost s0 = out@;
    push_if(out, c[0][0][0] != c[0][1][0], EdgeCrossing { axis: Axis::Y, u: 0, v: 0 });
    push_if(out, c[1][0][0] != c[1][1][0], EdgeCrossing { axis: Axis::Y, u: 1, v: 0 });
    push_if(out, c[0][0][1] != c[0][1][1], EdgeCrossing { axis: Axis::Y, u: 0, v: 1 });
    push_if(out, c[1][0][1] != c[1][1][1], EdgeCrossing { axis: Axis::Y, u: 1, v: 1 });
    assert(out@ =~= s0 + y_crossings(*c));
}

fn push_x_crossings(out: &mut Vec<EdgeCrossing>, c: &CornerSigns)
    ensures
        final(out)@ == old(out)@ + x_crossings(*c),
{
    let ghost s0 = out@;
    push_if(out, c[0][0][0] != c[1][0][0], EdgeCrossing { axis: Axis::X, u: 0, v: 0 });
    push_if(out, c[0][0][1] != c[1][0][1], EdgeCrossing { axis: Axis::X, u: 0, v: 1 });
    push_if(out, c[0][1][0] != c[1][1][0], EdgeCrossing { axis: Axis::X, u: 1, v: 0 });
    push_if(out, c[0][1][1] != c[1][1][1], EdgeCrossing { axis: Axis::X, u: 1, v: 1 });
    assert(out@ =~= s0 + x_crossings(*c));
}

/// The edges of a cell on which the sign of the density changes, in the
/// order edges along `Z`, then `Y`, then `X`.
pub fn crossing_edges(c: &CornerSigns) -> (r: Vec<EdgeCrossing>)
    ensures
        r@ == spec_crossing_edges(*c),
        forall|i: int| 0 <= i < r@.len() ==> edge_changes_sign(*c, #[trigger] r@[i]),
        forall|e: EdgeCrossing| #[trigger] edge_changes_sign(*c, e) ==> r@.contains(e),
        forall|i: int, j: int|
            0 <= i < j < r@.len() ==> visit_rank(#[trigger] r@[i]) < visit_rank(#[trigger] r@[j]),
{
    proof {
        lemma_crossing_edges_exact(*c);
    }
    let mut out: Vec<EdgeCrossing> = Vec::new();
    push_z_crossings(&mut out, c);
    push_y_crossings(&mut out, c);
    push_x_crossings(&mut out, c);
    assert(out@ =~= spec_crossing_edges(*c));
    out
}

proof fn lemma_z_len(c: CornerSigns)
    ensures
        z_crossings(c).len() == 0 <==> (corner(c, 0, 0, 0) == corner(c, 0, 0, 1) && corner(c, 1, 0, 0)
            == corner(c, 1, 0, 1) && corner(c, 0, 1, 0) == corner(c, 0, 1, 1) && corner(c, 1, 1, 0)
            == corner(c, 1, 1, 1)),
{
}

proof fn lemma_y_len(c: CornerSigns)
    ensures
        y_crossings(c).len() == 0 <==> (corner(c, 0, 0, 0) == corner(c, 0, 1, 0) && corner(c, 1, 0, 0)
            == corner(c, 1, 1, 0) && corner(c, 0, 0, 1) == corner(c, 0, 1, 1) && corner(c, 1, 0, 1)
            == corner(c, 1, 1, 1)),
{
}

/// The surface passes through a cell exactly when some edge of it changes
/// sign, that is, when its corners are not all of one sign.
pub proof fn lemma_crossing_iff_not_uniform(c: CornerSigns)
    ensures
        spec_crossing_edges(c).len() > 0 <==> !uniform(c),
{
    lemma_z_len(c);
    lemma_y_len(c);
    assert(spec_crossing_edges(c).len() == z_crossings(c).len() + y_crossings(c).len()
        + x_crossings(c).len());
}

// ---------------------------------------------------------------------
// What the list of crossings is
// ---------------------------------------------------------------------

/// `e` names an edge of the cell (offsets 0 or 1) whose two end corners
/// differ in sign.
pub open spec fn edge_changes_sign(c: CornerSigns, e: EdgeCrossing) -> bool {
    let u = e.u as int;
    let v = e.v as int;
    &&& e.u < 2
    &&& e.v < 2
    &&& match e.axis {
        Axis::Z => corner(c, u, v, 0) != corner(c, u, v, 1),
        Axis::Y => corner(c, u, 0, v) != corner(c, u, 1, v),
        Axis::X => corner(c, 0, u, v) != corner(c, 1, u, v),
    }
}

/// When edge `e` is visited: the four edges along `Z` first (`dy` outer,
/// `dx` inner), then the four along `Y` (`dz` outer, `dx` inner), then the
/// four along `X` (`dy` outer, `dz` inner).
pub open spec fn visit_rank(e: EdgeCrossing) -> int {
    match e.axis {
        Axis::Z => 2 * e.v + e.u,
        Axis::Y => 4 + 2 * e.v + e.u,
        Axis::X => 8 + 2 * e.u + e.v,
    }
}

/// `s` lists, in increasing visit rank, exactly the sign-changing edges
/// whose rank lies in `[lo, hi)`.
pub open spec fn lists_exactly(s: Seq<EdgeCrossing>, c: CornerSigns, lo: int, hi: int) -> bool {
    &&& forall|i: int|
        0 <= i < s.len() ==> edge_changes_sign(c, #[trigger] s[i]) && lo <= visit_rank(s[i]) < hi
    &&& forall|i: int, j: int|
        0 <= i < j < s.len() ==> visit_rank(#[trigger] s[i]) < visit_rank(#[trigger] s[j])
    &&& forall|e: EdgeCrossing|
        edge_changes_sign(c, e) && lo <= #[trigger] visit_rank(e) < hi ==> s.contains(e)
}

proof fn lemma_lists_concat(a: Seq<EdgeCrossing>, b: Seq<EdgeCrossing>, c: CornerSigns, lo: int, mid: int, hi: int)
    requires
        lo <= mid <= hi,
        lists_exactly(a, c, lo, mid),
        lists_exactly(b, c, mid, hi),
    ensures
        lists_exactly(a + b, c, lo, hi),
{
    let ab = a + b;
    assert forall|i: int| 0 <= i < ab.len() implies edge_changes_sign(c, #[trigger] ab[i]) && lo
        <= visit_rank(ab[i]) < hi by {
        if i < a.len() {
            assert(ab[i] == a[i]);
            assert(edge_changes_sign(c, a[i]) && lo <= visit_rank(a[i]) < mid);
        } else {
            assert(ab[i] == b[i - a.len()]);
            assert(edge_changes_sign(c, b[i - a.len()]) && mid <= visit_rank(b[i - a.len()]) < hi);
        }
    }
    assert forall|i: int, j: int| 0 <= i < j < ab.len() implies visit_rank(#[trigger] ab[i])
        < visit_rank(#[trigger] ab[j]) by {
        if j < a.len() {
            assert(ab[i] == a[i] && ab[j] == a[j]);
        } else if i < a.len() {
            assert(ab[i] == a[i] && ab[j] == b[j - a.len()]);
            assert(visit_rank(a[i]) < mid && mid <= visit_rank(b[j - a.len()]));
        } else {
            assert(ab[i] == b[i - a.len()] && ab[j] == b[j - a.len()]);
        }
    }
    assert forall|e: EdgeCrossing| edge_changes_sign(c, e) && lo <= #[trigger] visit_rank(e)
        < hi implies ab.contains(e) by {
        if visit_rank(e) < mid {
            assert(a.contains(e));
            let i = choose|i: int| 0 <= i < a.len() && a[i] == e;
            assert(ab[i] == e);
        } else {
            assert(b.contains(e));
            let i = choose|i: int| 0 <= i < b.len() && b[i] == e;
            assert(ab[a.len() + i] == e);
        }
    }
}

proof fn lemma_lists_single(c: CornerSigns, cond: bool, e: EdgeCrossing)
    requires
        e.u < 2,
        e.v < 2,
        cond == edge_changes_sign(c, e),
    ensures
        lists_exactly(seq_if(cond, e), c, visit_rank(e), visit_rank(e) + 1),
{
    let s = seq_if(cond, e);
    assert forall|f: EdgeCrossing| edge_changes_sign(c, f) && visit_rank(e) <= #[trigger] visit_rank(
        f,
    ) < visit_rank(e) + 1 implies s.contains(f) by {
        assert(f == e);
        assert(s[0] == e);
    }
}

proof fn lemma_lists_z(c: CornerSigns)
    ensures
        lists_exactly(z_crossings(c), c, 0, 4),
{
    let e0 = EdgeCrossing { axis: Axis::Z, u: 0, v: 0 };
    let e1 = EdgeCrossing { axis: Axis::Z, u: 1, v: 0 };
    let e2 = EdgeCrossing { axis: Axis::Z, u: 0, v: 1 };
    let e3 = EdgeCrossing { axis: Axis::Z, u: 1, v: 1 };
    let s0 = seq_if(corner(c, 0, 0, 0) != corner(c, 0, 0, 1), e0);
    let s1 = seq_if(corner(c, 1, 0, 0) != corner(c, 1, 0, 1), e1);
    let s2 = seq_if(corner(c, 0, 1, 0) != corner(c, 0, 1, 1), e2);
    let s3 = seq_if(corner(c, 1, 1, 0) != corner(c, 1, 1, 1), e3);
    lemma_lists_single(c, corner(c, 0, 0, 0) != corner(c, 0, 0, 1), e0);
    lemma_lists_single(c, corner(c, 1, 0, 0) != corner(c, 1, 0, 1), e1);
    lemma_lists_single(c, corner(c, 0, 1, 0) != corner(c, 0, 1, 1), e2);
    lemma_lists_single(c, corner(c, 1, 1, 0) != corner(c, 1, 1, 1), e3);
    lemma_lists_concat(s0, s1, c, 0, 1, 2);
    lemma_lists_concat(s0 + s1, s2, c, 0, 2, 3);
    lemma_lists_concat(s0 + s1 + s2, s3, c, 0, 3, 4);
}

proof fn lemma_lists_y(c: CornerSigns)
    ensures
        lists_exactly(y_crossings(c), c, 4, 8),
{
    let e0 = EdgeCrossing { axis: Axis::Y, u: 0, v: 0 };
    let e1 = EdgeCrossing { axis: Axis::Y, u: 1, v: 0 };
    let e2 = EdgeCrossing { axis: Axis::Y, u: 0, v: 1 };
    let e3 = EdgeCrossing { axis: Axis::Y, u: 1, v: 1 };
    let s0 = seq_if(corner(c, 0, 0, 0) != corner(c, 0, 1, 0), e0);
    let s1 = seq_if(corner(c, 1, 0, 0) != corner(c, 1, 1, 0), e1);
    let s2 = seq_if(corner(c, 0, 0, 1) != corner(c, 0, 1, 1), e2);
    let s3 = seq_if(corner(c, 1, 0, 1) != corner(c, 1, 1, 1), e3);
    lemma_lists_single(c, corner(c, 0, 0, 0) != corner(c, 0, 1, 0), e0);
    lemma_lists_single(c, corner(c, 1, 0, 0) != corner(c, 1, 1, 0), e1);
    lemma_lists_single(c, corner(c, 0, 0, 1) != corner(c, 0, 1, 1), e2);
    lemma_lists_single(c, corner(c, 1, 0, 1) != corner(c, 1, 1, 1), e3);
    lemma_lists_concat(s0, s1, c, 4, 5, 6);
    lemma_lists_concat(s0 + s1, s2, c, 4, 6, 7);
    lemma_lists_concat(s0 + s1 + s2, s3, c, 4, 7, 8);
}

proof fn lemma_lists_x(c: CornerSigns)
    ensures
        lists_exactly(x_crossings(c), c, 8, 12),
{
    let e0 = EdgeCrossing { axis: Axis::X, u: 0, v: 0 };
    let e1 = EdgeCrossing { axis: Axis::X, u: 0, v: 1 };
    let e2 = EdgeCrossing { axis: Axis::X, u: 1, v: 0 };
    let e3 = EdgeCrossing { axis: Axis::X, u: 1, v: 1 };
    let s0 = seq_if(corner(c, 0, 0, 0) != corner(c, 1, 0, 0), e0);
    let s1 = seq_if(corner(c, 0, 0, 1) != corner(c, 1, 0, 1), e1);
    let s2 = seq_if(corner(c, 0, 1, 0) != corner(c, 1, 1, 0), e2);
    let s3 = seq_if(corner(c, 0, 1, 1) != corner(c, 1, 1, 1), e3);
    lemma_lists_single(c, corner(c, 0, 0, 0) != corner(c, 1, 0, 0), e0);
    lemma_lists_single(c, corner(c, 0, 0, 1) != corner(c, 1, 0, 1), e1);
    lemma_lists_single(c, corner(c, 0, 1, 0) != corner(c, 1, 1, 0), e2);
    lemma_lists_single(c, corner(c, 0, 1, 1) != corner(c, 1, 1, 1), e3);
    lemma_lists_concat(s0, s1, c, 8, 9, 10);
    lemma_lists_concat(s0 + s1, s2, c, 8, 10, 11);
    lemma_lists_concat(s0 + s1 + s2, s3, c, 8, 11, 12);
}

/// The crossings of a cell are exactly its edges whose end corners differ in
/// sign, each named by its own axis and offsets, listed once each in visit
/// order (`Z` edges, then `Y`, then `X`).
pub proof fn lemma_crossing_edges_exact(c: CornerSigns)
    ensures
        forall|i: int|
            0 <= i < spec_crossing_edges(c).len() ==> edge_changes_sign(
                c,
                #[trigger] spec_crossing_edges(c)[i],
            ),
        forall|e: EdgeCrossing|
            #[trigger] edge_changes_sign(c, e) ==> spec_crossing_edges(c).contains(e),
        forall|i: int, j: int|
            0 <= i < j < spec_crossing_edges(c).len() ==> visit_rank(
                #[trigger] spec_crossing_edges(c)[i],
            ) < visit_rank(#[trigger] spec_crossing_edges(c)[j]),
{
    lemma_lists_z(c);
    lemma_lists_y(c);
    lemma_lists_x(c);
    lemma_lists_concat(z_crossings(c), y_crossings(c), c, 0, 4, 8);
    lemma_lists_concat(z_crossings(c) + y_crossings(c), x_crossings(c), c, 0, 8, 12);
    let r = spec_crossing_edges(c);
    assert forall|e: EdgeCrossing| #[trigger] edge_changes_sign(c, e) implies r.contains(e) by {
        assert(0 <= visit_rank(e) < 12);
    }
}

} // verus!
