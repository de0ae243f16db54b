use vstd::prelude::*;

verus! {

/// An edge of the wireframe: the indices of its two end vertices.
#[derive(Clone, Copy, Debug, PartialEq, Eq, Structural)]
pub struct Edge {
    pub a: usize,
    pub b: usize,
}

impl Edge {
    pub fn new(a: usize, b: usize) -> (r: Edge)
        ensures
            r.a == a,
            r.b == b,
    {
        Edge { a, b }
    }
}

/// A vertex of the tesseract centred on the origin with edge length 1, in
/// half units: each coordinate is `-1` (for -0.5) or `1` (for 0.5).
#[derive(Clone, Copy, Debug, PartialEq, Eq, Structural)]
pub struct Corner {
    pub x: i8,
    pub y: i8,
    pub z: i8,
    pub w: i8,
}

impl Corner {
    pub fn new(x: i8, y: i8, z: i8, w: i8) -> (r: Corner)
        ensures
            r == (Corner { x, y, z, w }),
    {
        Corner { x, y, z, w }
    }
}

pub open spec fn half(b: bool) -> i8 {
    if b { 1i8 } else { -1i8 }
}

/// Vertex `i` of the tesseract: the low two bits of `i` walk the square in
/// the (x, z) plane, the next bit gives y and the top bit gives w.
pub open spec fn corner(i: int) -> Corner {
    Corner {
        x: half(i % 4 == 1 || i % 4 == 2),
        y: half((i / 4) % 2 == 1),
        z: half(i % 4 >= 2),
        w: half(i >= 8),
    }
}

/// Edge `k` of the tesseract. Each of the two cubes at `w = -0.5` (edges
/// `0 .. 12`) and `w = 0.5` (edges `12 .. 24`) lists its lower square, the
/// four edges rising in y, then its upper square; edges `24 .. 32` join the
/// two cubes.
pub open spec fn cube_edge(k: int) -> Edge {
    let h = k / 12;
    let r = k % 12;
    if k >= 24 {
        Edge { a: (k - 24) as usize, b: (k - 16) as usize }
    } else if r < 4 {
        Edge { a: (8 * h + r) as usize, b: (8 * h + (r + 1) % 4) as usize }
    } else if r < 8 {
        Edge { a: (8 * h + r - 4) as usize, b: (8 * h + r) as usize }
    } else {
        Edge { a: (8 * h + r - 4) as usize, b: (8 * h + 4 + (r - 7) % 4) as usize }
    }
}

/// The edge list of the tesseract.
pub open spec fn edge_table() -> Seq<Edge> {
    Seq::new(32, |k: int| cube_edge(k))
}

/// The 16 vertices of the tesseract, in half units.
pub fn cube_vertices() -> (r: Vec<Corner>)
    ensures
        r@.len() == 16,
        forall|i: int| 0 <= i < 16 ==> #[trigger] r@[i] == corner(i),
{
    vec![
        Corner::new(-1, -1, -1, -1),
        Corner::new(1, -1, -1, -1),
        Corner::new(1, -1, 1, -1),
        Corner::new(-1, -1, 1, -1),
        Corner::new(-1, 1, -1, -1),
        Corner::new(1, 1, -1, -1),
        Corner::new(1, 1, 1, -1),
        Corner::new(-1, 1, 1, -1),
        Corner::new(-1, -1, -1, 1),
        Corner::new(1, -1, -1, 1),
        Corner::new(1, -1, 1, 1),
        Corner::new(-1, -1, 1, 1),
        Corner::new(-1, 1, -1, 1),
        Corner::new(1, 1, -1, 1),
        Corner::new(1, 1, 1, 1),
        Corner::new(-1, 1, 1, 1),
    ]
}

/// The 32 edges of the tesseract, as indices into `cube_vertices`.
pub fn cube_edges() -> (r: Vec<Edge>)
    ensures
        r@ == edge_table(),
{
    let r = vec![
        Edge::new(0, 1),
        Edge::new(1, 2),
        Edge::new(2, 3),
        Edge::new(3, 0),
        Edge::new(0, 4),
        Edge::new(1, 5),
        Edge::new(2, 6),
        Edge::new(3, 7),
        Edge::new(4, 5),
        Edge::new(5, 6),
        Edge::new(6, 7),
        Edge::new(7, 4),
        Edge::new(8, 9),
        Edge::new(9, 10),
        Edge::new(10, 11),
        Edge::new(11, 8),
        Edge::new(8, 12),
        Edge::new(9, 13),
        Edge::new(10, 14),
        Edge::new(11, 15),
        Edge::new(12, 13),
        Edge::new(13, 14),
        Edge::new(14, 15),
        Edge::new(15, 12),
        Edge::new(0, 8),
        Edge::new(1, 9),
        Edge::new(2, 10),
        Edge::new(3, 11),
        Edge::new(4, 12),
        Edge::new(5, 13),
        Edge::new(6, 14),
        Edge::new(7, 15),
    ];
    assert(r@ =~= edge_table());
    r
}

/// Number of coordinates in which `u` and `v` differ.
pub open spec fn coords_apart(u: Corner, v: Corner) -> int {
    (if u.x != v.x { 1int } else { 0int }) + (if u.y != v.y { 1int } else { 0int }) + (if u.z
        != v.z {
        1int
    } else {
        0int
    }) + (if u.w != v.w { 1int } else { 0int })
}

/// Edge `e` joins the vertices `i` and `j`, in either direction.
pub open spec fn joins(e: Edge, i: int, j: int) -> bool {
    (e.a == i && e.b == j) || (e.a == j && e.b == i)
}

/// Number of the first `n` edges of `edges` that touch vertex `i`.
pub open spec fn degree(edges: Seq<Edge>, i: int, n: int) -> int
    decreases n,
{
    if n <= 0 {
        0
    } else {
        degree(edges, i, n - 1) + if edges[n - 1].a == i || edges[n - 1].b == i {
            1int
        } else {
            0int
        }
    }
}

/// `c` with the coordinate on `axis` (0 to 3 for x, y, z, w) negated.
spec fn flip(c: Corner, axis: int) -> Corner {
    if axis == 0 {
        Corner { x: (-c.x) as i8, ..c }
    } else if axis == 1 {
        Corner { y: (-c.y) as i8, ..c }
    } else if axis == 2 {
        Corner { z: (-c.z) as i8, ..c }
    } else {
        Corner { w: (-c.w) as i8, ..c }
    }
}

/// The index of corner `c` in the vertex list.
spec fn corner_index(c: Corner) -> int {
    let low = if c.x == 1 && c.z == -1 {
        1int
    } else if c.x == 1 && c.z == 1 {
        2int
    } else if c.x == -1 && c.z == 1 {
        3int
    } else {
        0int
    };
    low + (if c.y == 1 { 4int } else { 0int }) + (if c.w == 1 { 8int } else { 0int })
}

/// Where the edge between two neighbouring vertices `i` and `j` stands in
/// the edge list.
spec fn edge_slot(i: int, j: int) -> int {
    let lo = if i < j { i } else { j };
    if i / 8 != j / 8 {
        24 + lo
    } else if (i % 8) / 4 != (j % 8) / 4 {
        12 * (i / 8) + 4 + lo % 8
    } else {
        let p = i % 4;
        let q = j % 4;
        12 * (i / 8) + 8 * ((i % 8) / 4) + if q == (p + 1) % 4 { p } else { q }
    }
}

/// The neighbour of vertex `i` across `axis` is joined to it by the edge at
/// `edge_slot`.
spec fn neighbour_joined(i: int, axis: int) -> bool {
    let j = corner_index(flip(corner(i), axis));
    0 <= edge_slot(i, j) < 32 && joins(cube_edge(edge_slot(i, j)), i, j)
}

/// Vertices `0 .. n` are found again by `corner_index`, and each is joined to
/// its four neighbours.
spec fn vertices_checked(n: int) -> bool
    decreases n,
{
    n <= 0 || (vertices_checked(n - 1) && corner_index(corner(n - 1)) == n - 1
        && neighbour_joined(n - 1, 0) && neighbour_joined(n - 1, 1) && neighbour_joined(n - 1, 2)
        && neighbour_joined(n - 1, 3))
}

/// Edges `0 .. n` join vertices that differ in one coordinate, and each is
/// found again at `edge_slot` from either end.
spec fn edges_checked(n: int) -> bool
    decreases n,
{
    n <= 0 || (edges_checked(n - 1) && {
        let e = cube_edge(n - 1);
        &&& e.a < 16 && e.b < 16
        &&& coords_apart(corner(e.a as int), corner(e.b as int)) == 1
        &&& edge_slot(e.a as int, e.b as int) == n - 1
        &&& edge_slot(e.b as int, e.a as int) == n - 1
    })
}

/// Vertices `lo .. n` each touch four edges.
spec fn degrees_checked(lo: int, n: int) -> bool
    decreases n - lo,
{
    n <= lo || (degrees_checked(lo, n - 1) && degree(edge_table(), n - 1, 32) == 4)
}

proof fn lemma_vertices_checked(n: int, i: int)
    requires
        vertices_checked(n),
        0 <= i < n,
    ensures
        corner_index(corner(i)) == i,
        neighbour_joined(i, 0) && neighbour_joined(i, 1) && neighbour_joined(i, 2)
            && neighbour_joined(i, 3),
    decreases n,
{
    if i < n - 1 {
        lemma_vertices_checked(n - 1, i);
    }
}

proof fn lemma_edges_checked(n: int, k: int)
    requires
        edges_checked(n),
        0 <= k < n,
    ensures
        cube_edge(k).a < 16 && cube_edge(k).b < 16,
        coords_apart(corner(cube_edge(k).a as int), corner(cube_edge(k).b as int)) == 1,
        edge_slot(cube_edge(k).a as int, cube_edge(k).b as int) == k,
        edge_slot(cube_edge(k).b as int, cube_edge(k).a as int) == k,
    decreases n,
{
    if k < n - 1 {
        lemma_edges_checked(n - 1, k);
    }
}

proof fn lemma_degrees_checked(lo: int, n: int, i: int)
    requires
        degrees_checked(lo, n),
        lo <= i < n,
    ensures
        degree(edge_table(), i, 32) == 4,
    decreases n - lo,
{
    if i < n - 1 {
        lemma_degrees_checked(lo, n - 1, i);
    }
}

#[verifier::rlimit(100)]
#[verifier::spinoff_prover]
proof fn lemma_vertices_all_checked()
    ensures
        vertices_checked(16),
{
    reveal_with_fuel(vertices_checked, 17);
}

#[verifier::rlimit(100)]
#[verifier::spinoff_prover]
proof fn lemma_edges_all_checked()
    ensures
        edges_checked(32),
{
    reveal_with_fuel(edges_checked, 33);
}

#[verifier::rlimit(100)]
#[verifier::spinoff_prover]
proof fn lemma_degrees_low()
    ensures
        degrees_checked(0, 8),
{
    reveal_with_fuel(degree, 33);
    reveal_with_fuel(degrees_checked, 9);
}

#[verifier::rlimit(100)]
#[verifier::spinoff_prover]
proof fn lemma_degrees_high()
    ensures
        degrees_checked(8, 16),
{
    reveal_with_fuel(degree, 33);
    reveal_with_fuel(degrees_checked, 9);
}

/// The tesseract's topology: its 16 vertices are the distinct points of
/// `{-0.5, 0.5}^4`; its 32 edges are pairwise distinct and join exactly the
/// pairs of vertices that differ in one coordinate; every vertex has degree 4.
pub proof fn lemma_cube_topology()
    ensures
        edge_table().len() == 32,
        forall|i: int|
            0 <= i < 16 ==> {
                let c = #[trigger] corner(i);
                &&& c.x == 1 || c.x == -1
                &&& c.y == 1 || c.y == -1
                &&& c.z == 1 || c.z == -1
                &&& c.w == 1 || c.w == -1
            },
        forall|i: int, j: int| 0 <= i < j < 16 ==> #[trigger] corner(i) != #[trigger] corner(j),
        forall|k: int|
            0 <= k < 32 ==> (#[trigger] edge_table()[k]).a < 16 && edge_table()[k].b < 16
                && coords_apart(corner(edge_table()[k].a as int), corner(edge_table()[k].b as int))
                == 1,
        forall|i: int, j: int|
            0 <= i < 16 && 0 <= j < 16 && coords_apart(#[trigger] corner(i), #[trigger] corner(j))
                == 1 ==> exists|k: int| 0 <= k < 32 && joins(#[trigger] edge_table()[k], i, j),
        forall|k1: int, k2: int|
            0 <= k1 < k2 < 32 ==> !joins(
                #[trigger] edge_table()[k2],
                #[trigger] edge_table()[k1].a as int,
                edge_table()[k1].b as int,
            ),
        forall|i: int| 0 <= i < 16 ==> #[trigger] degree(edge_table(), i, 32) == 4,
{
    lemma_vertices_all_checked();
    lemma_edges_all_checked();
    lemma_degrees_low();
    lemma_degrees_high();
    assert forall|k: int| 0 <= k < 32 implies (#[trigger] edge_table()[k]).a < 16
        && edge_table()[k].b < 16 && coords_apart(
        corner(edge_table()[k].a as int),
        corner(edge_table()[k].b as int),
    ) == 1 by {
        lemma_edges_checked(32, k);
    }
    assert forall|i: int, j: int| 0 <= i < j < 16 implies #[trigger] corner(i) != #[trigger] corner(
        j,
    ) by {
        lemma_vertices_checked(16, i);
        lemma_vertices_checked(16, j);
    }
    assert forall|i: int, j: int|
        0 <= i < 16 && 0 <= j < 16 && coords_apart(#[trigger] corner(i), #[trigger] corner(j))
            == 1 implies exists|k: int| 0 <= k < 32 && joins(#[trigger] edge_table()[k], i, j) by {
        lemma_vertices_checked(16, i);
        lemma_vertices_checked(16, j);
        let ci = corner(i);
        let cj = corner(j);
        let axis = if ci.x != cj.x {
            0int
        } else if ci.y != cj.y {
            1int
        } else if ci.z != cj.z {
            2int
        } else {
            3int
        };
        assert(cj == flip(ci, axis));
        let k = edge_slot(i, j);
        assert(joins(edge_table()[k], i, j));
    }
    assert forall|k1: int, k2: int| 0 <= k1 < k2 < 32 implies !joins(
        #[trigger] edge_table()[k2],
        #[trigger] edge_table()[k1].a as int,
        edge_table()[k1].b as int,
    ) by {
        lemma_edges_checked(32, k1);
        lemma_edges_checked(32, k2);
    }
    assert forall|i: int| 0 <= i < 16 implies #[trigger] degree(edge_table(), i, 32) == 4 by {
        if i < 8 {
            lemma_degrees_checked(0, 8, i);
        } else {
            lemma_degrees_checked(8, 16, i);
        }
    }
}

} // verus!
