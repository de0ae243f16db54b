use vstd::prelude::*;

verus! {

use crate::geometry::Edge;
use vstd::arithmetic::div_mod::{
    lemma_div_is_ordered, lemma_fundamental_div_mod, lemma_fundamental_div_mod_converse_div,
    lemma_mod_bound, lemma_multiply_divide_le,
};

/// Number of fixed-point units in one unit of scene depth or of normalised
/// screen space.
pub const FIXED_ONE: i32 = 65536;

/// Scene depth (in whole units) at which an unclamped line would fade to black.
pub const FADE_DEPTH: i64 = 10;

/// A projected vertex in pixel space. `depth` is the residual perspective
/// depth in fixed point (`FIXED_ONE` units per scene unit); a vertex with
/// `depth <= 0` lies behind the camera.
#[derive(Clone, Copy, Debug, PartialEq, Eq, Structural)]
pub struct ScreenPoint {
    pub x: i32,
    pub y: i32,
    pub depth: i32,
}

/// Fixed-point depth at which an unclamped line would reach zero brightness.
pub open spec fn fade_units() -> int {
    FADE_DEPTH * FIXED_ONE
}

/// Brightness of a line at fixed-point depth `d`:
/// `round(255 * (1 - min(depth / FADE_DEPTH, 1/2)))`, with depths below zero
/// treated as zero.
pub open spec fn intensity_spec(d: int) -> int {
    let m = if d < 0 {
        0
    } else if d > fade_units() / 2 {
        fade_units() / 2
    } else {
        d
    };
    (255 * (fade_units() - m) + fade_units() / 2) / fade_units()
}

/// Side of the square pen: `max(1, round(min(w, h) / 100))`.
pub open spec fn pen_spec(w: int, h: int) -> int {
    let m = if w < h { w } else { h };
    if (m + 50) / 100 < 1 { 1 } else { (m + 50) / 100 }
}

/// The square pen of side `pen` centred on `(cx, cy)` covers `(x, y)`.
pub open spec fn pen_covers(cx: int, cy: int, pen: int, x: int, y: int) -> bool {
    cx - pen / 2 <= x < cx - pen / 2 + pen && cy - pen / 2 <= y < cy - pen / 2 + pen
}

/// `s` is a `w` by `h` grid: `h` rows of `w` cells.
pub open spec fn is_grid(s: Seq<Vec<u8>>, w: int, h: int) -> bool {
    &&& s.len() == h
    &&& forall|r: int| 0 <= r < h ==> (#[trigger] s[r]).len() == w
}

/// The value of the cell in column `x` of row `y`.
pub open spec fn cell(s: Seq<Vec<u8>>, x: int, y: int) -> int {
    s[y]@[x] as int
}

pub open spec fn max_int(a: int, b: int) -> int {
    if a < b { b } else { a }
}

proof fn lemma_intensity_range(d: int)
    ensures
        128 <= intensity_spec(d) <= 255,
{
    let m = if d < 0 {
        0
    } else if d > fade_units() / 2 {
        fade_units() / 2
    } else {
        d
    };
    assert(0 <= m <= 327680);
    let n = 255 * (655360 - m) + 327680;
    assert(128 * 655360 <= n < 256 * 655360);
    assert(128 <= n / 655360 < 256) by (nonlinear_arith)
        requires
            128 * 655360 <= n < 256 * 655360,
    ;
}

/// Brightness of a line at fixed-point depth `depth`: closer is brighter,
/// and nothing deeper than half the fade depth is dimmer than half brightness.
pub fn intensity(depth: i64) -> (r: u8)
    ensures
        r == intensity_spec(depth as int),
{
    proof {
        lemma_intensity_range(depth as int);
    }
    let full: i64 = FADE_DEPTH * (FIXED_ONE as i64);
    let m: i64 = if depth < 0 {
        0
    } else if depth > full / 2 {
        full / 2
    } else {
        depth
    };
    ((255 * (full - m) + full / 2) / full) as u8
}

/// Side of the square pen used on a `w` by `h` grid, so that line thickness
/// stays about the same at every resolution.
pub fn pen_size(w: usize, h: usize) -> (r: usize)
    ensures
        r == pen_spec(w as int, h as int),
{
    let m = if w < h { w } else { h };
    let n = m / 100 + if m % 100 >= 50 { 1usize } else { 0usize };
    assert(n == (m + 50) / 100) by (nonlinear_arith)
        requires
            n == m / 100 + if m % 100 >= 50 { 1int } else { 0int },
            m >= 0,
    ;
    if n < 1 { 1 } else { n }
}

/// Lights the cell at `(x, y)` with `val` unless it is already brighter;
/// a position outside the grid is ignored.
pub fn plot(screen: &mut Vec<Vec<u8>>, size_x: usize, size_y: usize, x: i64, y: i64, val: u8)
    requires
        is_grid(old(screen)@, size_x as int, size_y as int),
    ensures
        is_grid(final(screen)@, size_x as int, size_y as int),
        forall|cx: int, cy: int|
            0 <= cx < size_x && 0 <= cy < size_y ==> #[trigger] cell(final(screen)@, cx, cy) == if cx
                == x && cy == y {
                max_int(cell(old(screen)@, cx, cy), val as int)
            } else {
                cell(old(screen)@, cx, cy)
            },
{
    if 0 <= x && (x as i128) < (size_x as i128) && 0 <= y && (y as i128) < (size_y as i128) {
        let xu = x as usize;
        let yu = y as usize;
        if screen[yu][xu] < val {
            screen[yu][xu] = val;
        }
    }
}

/// Stamps the square pen of side `pen` centred on `(cx, cy)` with brightness
/// `val`: each covered cell inside the grid keeps the brighter of its value
/// and `val`.
pub fn stamp(screen: &mut Vec<Vec<u8>>, size_x: usize, size_y: usize, cx: i64, cy: i64, pen: i64, val: u8)
    requires
        is_grid(old(screen)@, size_x as int, size_y as int),
        1 <= pen <= 0x1_0000_0000,
        -0x1_0000_0000 <= cx <= 0x1_0000_0000,
        -0x1_0000_0000 <= cy <= 0x1_0000_0000,
    ensures
        is_grid(final(screen)@, size_x as int, size_y as int),
        forall|x: int, y: int|
            0 <= x < size_x && 0 <= y < size_y ==> #[trigger] cell(final(screen)@, x, y) == if pen_covers(
                cx as int,
                cy as int,
                pen as int,
                x,
                y,
            ) {
                max_int(cell(old(screen)@, x, y), val as int)
            } else {
                cell(old(screen)@, x, y)
            },
{
    let ghost s0 = screen@;
    let x0: i64 = cx - pen / 2;
    let y0: i64 = cy - pen / 2;
    let mut i: i64 = 0;
    while i < pen
        invariant
            0 <= i <= pen,
            1 <= pen <= 0x1_0000_0000,
            x0 == cx - pen / 2,
            y0 == cy - pen / 2,
            -0x1_0000_0000 <= cx <= 0x1_0000_0000,
            -0x1_0000_0000 <= cy <= 0x1_0000_0000,
            is_grid(screen@, size_x as int, size_y as int),
            forall|x: int, y: int|
                0 <= x < size_x && 0 <= y < size_y ==> #[trigger] cell(screen@, x, y) == if pen_covers(
                    cx as int,
                    cy as int,
                    pen as int,
                    x,
                    y,
                ) && y < y0 + i {
                    max_int(cell(s0, x, y), val as int)
                } else {
                    cell(s0, x, y)
                },
        decreases pen - i,
    {
        let mut j: i64 = 0;
        while j < pen
            invariant
                0 <= i < pen,
                0 <= j <= pen,
                1 <= pen <= 0x1_0000_0000,
                x0 == cx - pen / 2,
                y0 == cy - pen / 2,
                -0x1_0000_0000 <= cx <= 0x1_0000_0000,
                -0x1_0000_0000 <= cy <= 0x1_0000_0000,
                is_grid(screen@, size_x as int, size_y as int),
                forall|x: int, y: int|
                    0 <= x < size_x && 0 <= y < size_y ==> #[trigger] cell(screen@, x, y) == if pen_covers(
                        cx as int,
                        cy as int,
                        pen as int,
                        x,
                        y,
                    ) && (y < y0 + i || (y == y0 + i && x < x0 + j)) {
                        max_int(cell(s0, x, y), val as int)
                    } else {
                        cell(s0, x, y)
                    },
            decreases pen - j,
        {
            plot(screen, size_x, size_y, x0 + j, y0 + i, val);
            j = j + 1;
        }
        i = i + 1;
    }
}

pub open spec fn abs_int(a: int) -> int {
    if a < 0 { -a } else { a }
}

pub open spec fn sign_int(a: int) -> int {
    if a < 0 { -1 } else if a > 0 { 1 } else { 0 }
}

/// Number of steps along the longer axis from `p` to `q`; the line has one
/// more point than this.
pub open spec fn steps(p: ScreenPoint, q: ScreenPoint) -> int {
    let dx = abs_int(q.x - p.x);
    let dy = abs_int(q.y - p.y);
    if dy > dx { dy } else { dx }
}

/// Offset along the shorter axis after `i` steps along the longer one:
/// `i * minor / major` rounded half up.
pub open spec fn minor_offset(minor: int, major: int, i: int) -> int {
    if major == 0 { 0 } else { (2 * minor * i + major) / (2 * major) }
}

/// Column of point `i` of the line from `p` to `q`.
pub open spec fn line_x(p: ScreenPoint, q: ScreenPoint, i: int) -> int {
    let dx = abs_int(q.x - p.x);
    let dy = abs_int(q.y - p.y);
    if dy > dx {
        p.x + sign_int(q.x - p.x) * minor_offset(dx, dy, i)
    } else {
        p.x + sign_int(q.x - p.x) * i
    }
}

/// Row of point `i` of the line from `p` to `q`.
pub open spec fn line_y(p: ScreenPoint, q: ScreenPoint, i: int) -> int {
    let dx = abs_int(q.x - p.x);
    let dy = abs_int(q.y - p.y);
    if dy > dx {
        p.y + sign_int(q.y - p.y) * i
    } else {
        p.y + sign_int(q.y - p.y) * minor_offset(dy, dx, i)
    }
}

/// Depth at point `i`, interpolated linearly between the end points.
pub open spec fn depth_at(p: ScreenPoint, q: ScreenPoint, i: int) -> int {
    let n = steps(p, q);
    if n == 0 { p.depth as int } else { (p.depth * (n - i) + q.depth * i) / n }
}

/// Brightness of point `i` of the line from `p` to `q`.
pub open spec fn point_intensity(p: ScreenPoint, q: ScreenPoint, i: int) -> int {
    intensity_spec(depth_at(p, q, i))
}

/// Point `i` of the line from `p` to `q`, drawn with a pen of side `pen`,
/// covers the cell `(x, y)`.
pub open spec fn stroke_covers(p: ScreenPoint, q: ScreenPoint, pen: int, i: int, x: int, y: int) -> bool {
    0 <= i <= steps(p, q) && pen_covers(line_x(p, q, i), line_y(p, q, i), pen, x, y)
}

proof fn lemma_minor_offset(minor: int, major: int, i: int)
    requires
        0 <= minor <= major,
        0 < major,
        0 <= i <= major,
    ensures
        minor_offset(minor, major, 0) == 0,
        minor_offset(minor, major, major) == minor,
        0 <= minor_offset(minor, major, i) <= minor,
        2 * major * minor_offset(minor, major, i) <= 2 * minor * i + major < 2 * major
            * minor_offset(minor, major, i) + 2 * major,
        i < major ==> minor_offset(minor, major, i + 1) == minor_offset(minor, major, i) + if 2 * minor
            * (i + 1) - major - 2 * major * minor_offset(minor, major, i) >= 0 {
            1int
        } else {
            0int
        },
{
    let b = 2 * major;
    lemma_fundamental_div_mod_converse_div(major, b, 0, major);
    assert(2 * minor * major + major == minor * b + major) by (nonlinear_arith)
        requires
            b == 2 * major,
    ;
    lemma_fundamental_div_mod_converse_div(2 * minor * major + major, b, minor, major);
    assert(0 <= 2 * minor * i <= 2 * minor * major) by (nonlinear_arith)
        requires
            0 <= minor,
            0 <= i <= major,
    ;
    lemma_div_is_ordered(major, 2 * minor * i + major, b);
    lemma_div_is_ordered(2 * minor * i + major, 2 * minor * major + major, b);
    lemma_fundamental_div_mod(2 * minor * i + major, b);
    lemma_mod_bound(2 * minor * i + major, b);
    assert(b * ((2 * minor * i + major) / b) == 2 * major * minor_offset(minor, major, i)) by (
    nonlinear_arith)
        requires
            b == 2 * major,
            minor_offset(minor, major, i) == (2 * minor * i + major) / b,
    ;
    if i < major {
        let a = 2 * minor * i + major;
        let c = a / b;
        lemma_fundamental_div_mod(a, b);
        lemma_mod_bound(a, b);
        let r = a % b;
        assert(2 * minor * (i + 1) + major == a + 2 * minor) by (nonlinear_arith)
            requires
                a == 2 * minor * i + major,
        ;
        assert((c + 1) * b == c * b + b && b * c == c * b) by (nonlinear_arith);
        if r + 2 * minor >= b {
            lemma_fundamental_div_mod_converse_div(a + 2 * minor, b, c + 1, r + 2 * minor - b);
        } else {
            lemma_fundamental_div_mod_converse_div(a + 2 * minor, b, c, r + 2 * minor);
        }
    }
}

proof fn lemma_line_bounds(p: ScreenPoint, q: ScreenPoint, i: int)
    requires
        0 <= i <= steps(p, q),
    ensures
        p.x <= q.x ==> p.x <= line_x(p, q, i) <= q.x,
        q.x <= p.x ==> q.x <= line_x(p, q, i) <= p.x,
        p.y <= q.y ==> p.y <= line_y(p, q, i) <= q.y,
        q.y <= p.y ==> q.y <= line_y(p, q, i) <= p.y,
{
    let dx = abs_int(q.x - p.x);
    let dy = abs_int(q.y - p.y);
    if dy > dx {
        lemma_minor_offset(dx, dy, i);
    } else if dx > 0 {
        lemma_minor_offset(dy, dx, i);
    }
}

/// The cell `(x, y)` holds `new` after the first `n` points of the line from
/// `p` to `q` were stamped over the value `prev` with brighter-wins
/// compositing: `new` is the largest of `prev` and the brightness of every
/// one of those points whose pen covers the cell.
pub open spec fn strokes_composite(
    new: int,
    prev: int,
    p: ScreenPoint,
    q: ScreenPoint,
    pen: int,
    n: int,
    x: int,
    y: int,
) -> bool {
    &&& new >= prev
    &&& forall|i: int|
        #![trigger stroke_covers(p, q, pen, i, x, y)]
        i < n && stroke_covers(p, q, pen, i, x, y) ==> new >= point_intensity(p, q, i)
    &&& new == prev || exists|i: int|
        #![trigger stroke_covers(p, q, pen, i, x, y)]
        i < n && stroke_covers(p, q, pen, i, x, y) && new == point_intensity(p, q, i)
}

fn depth_between(d1: i32, d2: i32, i: i64, n: i64) -> (r: i64)
    requires
        d1 > 0,
        d2 > 0,
        0 <= i <= n <= 0x1_0000_0000,
    ensures
        r == if n == 0 {
            d1 as int
        } else {
            (d1 * (n - i) + d2 * i) / (n as int)
        },
{
    if n == 0 {
        d1 as i64
    } else {
        let a: u64 = d1 as u64;
        let b: u64 = d2 as u64;
        let k: u64 = n as u64;
        let j: u64 = i as u64;
        assert(a * (k - j) + b * j <= 0x8000_0000 * k) by (nonlinear_arith)
            requires
                0 < a <= 0x7fff_ffff,
                0 < b <= 0x7fff_ffff,
                0 <= j <= k,
        ;
        assert(0 <= a * (k - j) && 0 <= b * j) by (nonlinear_arith)
            requires
                0 < a,
                0 < b,
                0 <= j <= k,
        ;
        proof {
            assert(0x8000_0000 * k == k * 0x8000_0000);
            lemma_multiply_divide_le(a * (k - j) + b * j, k as int, 0x8000_0000);
        }
        ((a * (k - j) + b * j) / k) as i64
    }
}

/// Draws the line from `p` to `q` with the incremental integer stepper,
/// stamping the pen at each of its `steps(p, q) + 1` points with the
/// brightness of the interpolated depth there.
pub fn draw_edge(
    screen: &mut Vec<Vec<u8>>,
    size_x: usize,
    size_y: usize,
    p: ScreenPoint,
    q: ScreenPoint,
    pen: i64,
)
    requires
        is_grid(old(screen)@, size_x as int, size_y as int),
        1 <= pen <= 0x1_0000_0000,
        p.depth > 0,
        q.depth > 0,
    ensures
        is_grid(final(screen)@, size_x as int, size_y as int),
        forall|x: int, y: int|
            0 <= x < size_x && 0 <= y < size_y ==> strokes_composite(
                #[trigger] cell(final(screen)@, x, y),
                cell(old(screen)@, x, y),
                p,
                q,
                pen as int,
                steps(p, q) + 1,
                x,
                y,
            ),
{
    let ghost s0 = screen@;
    let ddx: i64 = q.x as i64 - p.x as i64;
    let ddy: i64 = q.y as i64 - p.y as i64;
    let adx: i64 = if ddx < 0 { -ddx } else { ddx };
    let ady: i64 = if ddy < 0 { -ddy } else { ddy };
    let sx: i64 = if ddx < 0 { -1 } else if ddx > 0 { 1 } else { 0 };
    let sy: i64 = if ddy < 0 { -1 } else if ddy > 0 { 1 } else { 0 };
    let interchange = ady > adx;
    let major: i64 = if interchange { ady } else { adx };
    let minor: i64 = if interchange { adx } else { ady };
    let mut x: i64 = p.x as i64;
    let mut y: i64 = p.y as i64;
    let mut e: i64 = 2 * minor - major;
    let mut i: i64 = 0;
    proof {
        if major > 0 {
            lemma_minor_offset(minor as int, major as int, 0);
        }
        assert(2 * minor * (0 + 1) == 2 * minor) by (nonlinear_arith);
        assert(2 * major * 0 == 0) by (nonlinear_arith);
    }
    while i <= major
        invariant
            is_grid(screen@, size_x as int, size_y as int),
            1 <= pen <= 0x1_0000_0000,
            p.depth > 0,
            q.depth > 0,
            adx == abs_int(q.x - p.x),
            ady == abs_int(q.y - p.y),
            sx == sign_int(q.x - p.x),
            sy == sign_int(q.y - p.y),
            interchange == (ady > adx),
            major == steps(p, q),
            minor == if interchange { adx } else { ady },
            0 <= minor <= major <= 0xffff_ffff,
            0 <= i <= major + 1,
            i <= major ==> x == line_x(p, q, i as int),
            i <= major ==> y == line_y(p, q, i as int),
            i <= major ==> e == 2 * minor * (i + 1) - major - 2 * major * minor_offset(
                minor as int,
                major as int,
                i as int,
            ),
            forall|cx: int, cy: int|
                0 <= cx < size_x && 0 <= cy < size_y ==> strokes_composite(
                    #[trigger] cell(screen@, cx, cy),
                    cell(s0, cx, cy),
                    p,
                    q,
                    pen as int,
                    i as int,
                    cx,
                    cy,
                ),
        decreases major + 1 - i,
    {
        proof {
            lemma_line_bounds(p, q, i as int);
        }
        let d = depth_between(p.depth, q.depth, i, major);
        let val = intensity(d);
        let ghost before = screen@;
        stamp(screen, size_x, size_y, x, y, pen, val);
        assert forall|cx: int, cy: int|
            0 <= cx < size_x && 0 <= cy < size_y implies strokes_composite(
            #[trigger] cell(screen@, cx, cy),
            cell(s0, cx, cy),
            p,
            q,
            pen as int,
            i + 1,
            cx,
            cy,
        ) by {
            assert(strokes_composite(cell(before, cx, cy), cell(s0, cx, cy), p, q, pen as int, i as int, cx, cy));
            if pen_covers(x as int, y as int, pen as int, cx, cy) {
                assert(stroke_covers(p, q, pen as int, i as int, cx, cy));
            }
        }
        if i < major {
            proof {
                let c = minor_offset(minor as int, major as int, i as int);
                lemma_minor_offset(minor as int, major as int, i as int);
                lemma_minor_offset(minor as int, major as int, i + 1);
                assert(2 * minor * (i + 2) == 2 * minor * (i + 1) + 2 * minor) by (nonlinear_arith);
                assert(2 * minor * (i + 1) == 2 * minor * i + 2 * minor) by (nonlinear_arith);
                assert(2 * major * (c + 1) == 2 * major * c + 2 * major) by (nonlinear_arith);
                assert(2 * minor - 2 * major <= e < 2 * minor);
            }
            if e < 0 {
                if interchange {
                    y = y + sy;
                } else {
                    x = x + sx;
                }
                e = e + 2 * minor;
            } else {
                x = x + sx;
                y = y + sy;
                e = e + 2 * minor - 2 * major;
            }
        }
        i = i + 1;
    }
}

/// Both end points of an edge lie in front of the camera; an edge with an
/// end point at depth `<= 0` is culled whole.
pub open spec fn edge_drawn(p: ScreenPoint, q: ScreenPoint) -> bool {
    p.depth > 0 && q.depth > 0
}

/// Point `i` of edge `k` is drawn and its pen covers the cell `(x, y)`.
pub open spec fn edge_covers(
    edges: Seq<Edge>,
    pts: Seq<ScreenPoint>,
    pen: int,
    k: int,
    i: int,
    x: int,
    y: int,
) -> bool {
    &&& edge_drawn(pts[edges[k].a as int], pts[edges[k].b as int])
    &&& stroke_covers(pts[edges[k].a as int], pts[edges[k].b as int], pen, i, x, y)
}

/// Brightness of point `i` of edge `k`.
pub open spec fn edge_intensity(edges: Seq<Edge>, pts: Seq<ScreenPoint>, k: int, i: int) -> int {
    point_intensity(pts[edges[k].a as int], pts[edges[k].b as int], i)
}

/// Every edge refers to two points of `pts`.
pub open spec fn edges_valid(edges: Seq<Edge>, pts: Seq<ScreenPoint>) -> bool {
    forall|k: int|
        0 <= k < edges.len() ==> (#[trigger] edges[k]).a < pts.len() && edges[k].b < pts.len()
}

/// The cell `(x, y)` holds `v` once the first `n` edges are drawn on a black
/// grid with brighter-wins compositing: `v` is the brightest of the points of
/// those edges whose pen covers the cell, or 0 where none does.
pub open spec fn grid_composite(
    v: int,
    edges: Seq<Edge>,
    pts: Seq<ScreenPoint>,
    pen: int,
    n: int,
    x: int,
    y: int,
) -> bool {
    &&& forall|k: int, i: int|
        #![trigger edge_covers(edges, pts, pen, k, i, x, y)]
        0 <= k < n && edge_covers(edges, pts, pen, k, i, x, y) ==> v >= edge_intensity(
            edges,
            pts,
            k,
            i,
        )
    &&& v == 0 || exists|k: int, i: int|
        #![trigger edge_covers(edges, pts, pen, k, i, x, y)]
        0 <= k < n && edge_covers(edges, pts, pen, k, i, x, y) && v == edge_intensity(
            edges,
            pts,
            k,
            i,
        )
}

fn blank_grid(size_x: usize, size_y: usize) -> (r: Vec<Vec<u8>>)
    ensures
        is_grid(r@, size_x as int, size_y as int),
        forall|x: int, y: int| 0 <= x < size_x && 0 <= y < size_y ==> #[trigger] cell(r@, x, y) == 0,
{
    let mut r: Vec<Vec<u8>> = Vec::new();
    let mut j: usize = 0;
    while j < size_y
        invariant
            j <= size_y,
            r@.len() == j,
            forall|y: int| 0 <= y < j ==> (#[trigger] r@[y])@ == Seq::new(size_x as nat, |x: int| 0u8),
        decreases size_y - j,
    {
        let mut row: Vec<u8> = Vec::new();
        let mut i: usize = 0;
        while i < size_x
            invariant
                i <= size_x,
                row@ == Seq::new(i as nat, |x: int| 0u8),
            decreases size_x - i,
        {
            row.push(0);
            i = i + 1;
            assert(row@ =~= Seq::new(i as nat, |x: int| 0u8));
        }
        r.push(row);
        j = j + 1;
    }
    r
}

/// Draws every edge from the projected points on a black `size_x` by
/// `size_y` grid. An edge with an end point behind the camera is skipped
/// whole; the others are stroked with the resolution-dependent pen, each
/// cell keeping the brightest value that any stroke gives it.
pub fn rasterize(edges: &Vec<Edge>, points: &Vec<ScreenPoint>, size_x: usize, size_y: usize) -> (r: Vec<Vec<u8>>)
    requires
        edges_valid(edges@, points@),
        size_x <= 0x7fff_ffff,
        size_y <= 0x7fff_ffff,
    ensures
        is_rendering(r@, edges@, points@, size_x as int, size_y as int),
{
    let mut screen = blank_grid(size_x, size_y);
    let pen = pen_size(size_x, size_y);
    let ghost pen_i = pen_spec(size_x as int, size_y as int);
    let mut k: usize = 0;
    while k < edges.len()
        invariant
            edges_valid(edges@, points@),
            size_x <= 0x7fff_ffff,
            size_y <= 0x7fff_ffff,
            pen == pen_i,
            pen_i == pen_spec(size_x as int, size_y as int),
            k <= edges@.len(),
            is_grid(screen@, size_x as int, size_y as int),
            forall|x: int, y: int|
                0 <= x < size_x && 0 <= y < size_y ==> grid_composite(
                    #[trigger] cell(screen@, x, y),
                    edges@,
                    points@,
                    pen_i,
                    k as int,
                    x,
                    y,
                ),
        decreases edges@.len() - k,
    {
        let edge = edges[k];
        let p = points[edge.a];
        let q = points[edge.b];
        if p.depth > 0 && q.depth > 0 {
            let ghost before = screen@;
            draw_edge(&mut screen, size_x, size_y, p, q, pen as i64);
            assert forall|x: int, y: int| 0 <= x < size_x && 0 <= y < size_y implies grid_composite(
                #[trigger] cell(screen@, x, y),
                edges@,
                points@,
                pen_i,
                k + 1,
                x,
                y,
            ) by {
                let v = cell(screen@, x, y);
                let v0 = cell(before, x, y);
                assert(grid_composite(v0, edges@, points@, pen_i, k as int, x, y));
                assert(strokes_composite(v, v0, p, q, pen_i, steps(p, q) + 1, x, y));
                assert forall|kk: int, i: int|
                    0 <= kk < k + 1 && #[trigger] edge_covers(edges@, points@, pen_i, kk, i, x, y) implies v
                    >= edge_intensity(edges@, points@, kk, i) by {
                    if kk == k {
                        assert(stroke_covers(p, q, pen_i, i, x, y));
                    }
                }
                if v != v0 {
                    let i = choose|i: int|
                        i < steps(p, q) + 1 && #[trigger] stroke_covers(p, q, pen_i, i, x, y) && v
                            == point_intensity(p, q, i);
                    assert(edge_covers(edges@, points@, pen_i, k as int, i, x, y));
                } else if v0 != 0 {
                    let (kk, i) = choose|kk: int, i: int|
                        0 <= kk < k && #[trigger] edge_covers(edges@, points@, pen_i, kk, i, x, y) && v0
                            == edge_intensity(edges@, points@, kk, i);
                    assert(edge_covers(edges@, points@, pen_i, kk, i, x, y));
                }
            }
        } else {
            assert forall|x: int, y: int| 0 <= x < size_x && 0 <= y < size_y implies grid_composite(
                #[trigger] cell(screen@, x, y),
                edges@,
                points@,
                pen_i,
                k + 1,
                x,
                y,
            ) by {
                let v = cell(screen@, x, y);
                assert(grid_composite(v, edges@, points@, pen_i, k as int, x, y));
                if v != 0 {
                    let (kk, i) = choose|kk: int, i: int|
                        0 <= kk < k && #[trigger] edge_covers(edges@, points@, pen_i, kk, i, x, y) && v
                            == edge_intensity(edges@, points@, kk, i);
                    assert(edge_covers(edges@, points@, pen_i, kk, i, x, y));
                }
            }
        }
        k = k + 1;
    }
    screen
}

/// Every edge of `e1` that is drawn from `pts` also stands in `e2`.
pub open spec fn drawn_edges_within(e1: Seq<Edge>, e2: Seq<Edge>, pts: Seq<ScreenPoint>) -> bool {
    forall|k1: int|
        0 <= k1 < e1.len() && edge_drawn(pts[e1[k1].a as int], pts[e1[k1].b as int])
            ==> exists|k2: int| 0 <= k2 < e2.len() && #[trigger] e2[k2] == #[trigger] e1[k1]
}

proof fn lemma_composite_le(
    v1: int,
    v2: int,
    e1: Seq<Edge>,
    e2: Seq<Edge>,
    pts: Seq<ScreenPoint>,
    pen: int,
    x: int,
    y: int,
)
    requires
        grid_composite(v1, e1, pts, pen, e1.len() as int, x, y),
        grid_composite(v2, e2, pts, pen, e2.len() as int, x, y),
        drawn_edges_within(e2, e1, pts),
        v1 >= 0,
    ensures
        v2 <= v1,
{
    if v2 != 0 {
        let (k2, i) = choose|k2: int, i: int|
            0 <= k2 < e2.len() && #[trigger] edge_covers(e2, pts, pen, k2, i, x, y) && v2
                == edge_intensity(e2, pts, k2, i);
        let k1 = choose|k1: int| 0 <= k1 < e1.len() && #[trigger] e1[k1] == #[trigger] e2[k2];
        assert(edge_covers(e1, pts, pen, k1, i, x, y));
    }
}

proof fn lemma_composite_order_free(
    v1: int,
    v2: int,
    e1: Seq<Edge>,
    e2: Seq<Edge>,
    pts: Seq<ScreenPoint>,
    pen: int,
    x: int,
    y: int,
)
    requires
        grid_composite(v1, e1, pts, pen, e1.len() as int, x, y),
        grid_composite(v2, e2, pts, pen, e2.len() as int, x, y),
        v1 >= 0,
        v2 >= 0,
        forall|k1: int| 0 <= k1 < e1.len() ==> e2.contains(#[trigger] e1[k1]),
        forall|k2: int| 0 <= k2 < e2.len() ==> e1.contains(#[trigger] e2[k2]),
    ensures
        v1 == v2,
{
    assert(drawn_edges_within(e1, e2, pts)) by {
        assert forall|k1: int|
            0 <= k1 < e1.len() && edge_drawn(
                pts[e1[k1].a as int],
                pts[e1[k1].b as int],
            ) implies exists|k2: int| 0 <= k2 < e2.len() && #[trigger] e2[k2] == #[trigger] e1[k1] by {
            assert(e2.contains(e1[k1]));
        }
    }
    assert(drawn_edges_within(e2, e1, pts)) by {
        assert forall|k2: int|
            0 <= k2 < e2.len() && edge_drawn(
                pts[e2[k2].a as int],
                pts[e2[k2].b as int],
            ) implies exists|k1: int| 0 <= k1 < e1.len() && #[trigger] e1[k1] == #[trigger] e2[k2] by {
            assert(e1.contains(e2[k2]));
        }
    }
    lemma_composite_le(v1, v2, e1, e2, pts, pen, x, y);
    lemma_composite_le(v2, v1, e2, e1, pts, pen, x, y);
}

proof fn lemma_culled_edge_absent(
    v1: int,
    v2: int,
    edges: Seq<Edge>,
    pts: Seq<ScreenPoint>,
    pen: int,
    k: int,
    x: int,
    y: int,
)
    requires
        0 <= k < edges.len(),
        !edge_drawn(pts[edges[k].a as int], pts[edges[k].b as int]),
        grid_composite(v1, edges, pts, pen, edges.len() as int, x, y),
        grid_composite(v2, edges.remove(k), pts, pen, edges.len() - 1, x, y),
        v1 >= 0,
        v2 >= 0,
    ensures
        v1 == v2,
{
    let e2 = edges.remove(k);
    assert(drawn_edges_within(edges, e2, pts)) by {
        assert forall|k1: int|
            0 <= k1 < edges.len() && edge_drawn(
                pts[edges[k1].a as int],
                pts[edges[k1].b as int],
            ) implies exists|k2: int| 0 <= k2 < e2.len() && #[trigger] e2[k2] == #[trigger] edges[k1] by {
            if k1 < k {
                assert(e2[k1] == edges[k1]);
            } else {
                assert(e2[k1 - 1] == edges[k1]);
            }
        }
    }
    assert(drawn_edges_within(e2, edges, pts)) by {
        assert forall|k2: int|
            0 <= k2 < e2.len() && edge_drawn(
                pts[e2[k2].a as int],
                pts[e2[k2].b as int],
            ) implies exists|k1: int| 0 <= k1 < edges.len() && #[trigger] edges[k1] == #[trigger] e2[k2] by {
            if k2 < k {
                assert(e2[k2] == edges[k2]);
            } else {
                assert(e2[k2] == edges[k2 + 1]);
            }
        }
    }
    lemma_composite_le(v1, v2, edges, e2, pts, pen, x, y);
    lemma_composite_le(v2, v1, e2, edges, pts, pen, x, y);
}

/// Some point of the line from `p` to `q` falls on the cell `(x, y)`.
pub open spec fn line_visits(p: ScreenPoint, q: ScreenPoint, x: int, y: int) -> bool {
    exists|i: int| 0 <= i <= steps(p, q) && #[trigger] line_x(p, q, i) == x && line_y(p, q, i) == y
}

/// A horizontal line visits exactly the cells of its row between its end
/// points, both included.
pub proof fn lemma_horizontal_line(p: ScreenPoint, q: ScreenPoint)
    requires
        p.y == q.y,
    ensures
        forall|x: int, y: int|
            #[trigger] line_visits(p, q, x, y) <==> (y == p.y && (p.x <= x <= q.x || q.x <= x
                <= p.x)),
{
    assert forall|x: int, y: int| #[trigger]
        line_visits(p, q, x, y) <==> (y == p.y && (p.x <= x <= q.x || q.x <= x <= p.x)) by {
        if y == p.y && (p.x <= x <= q.x || q.x <= x <= p.x) {
            let i = if p.x <= q.x { x - p.x } else { p.x - x };
            lemma_line_bounds(p, q, i);
            assert(line_x(p, q, i) == x);
        }
        if line_visits(p, q, x, y) {
            let i = choose|i: int|
                0 <= i <= steps(p, q) && #[trigger] line_x(p, q, i) == x && line_y(p, q, i) == y;
            lemma_line_bounds(p, q, i);
        }
    }
}

proof fn lemma_intensity_antitone(d1: int, d2: int)
    requires
        d1 <= d2,
    ensures
        intensity_spec(d2) <= intensity_spec(d1),
{
    let f = fade_units();
    let m1 = if d1 < 0 { 0 } else if d1 > f / 2 { f / 2 } else { d1 };
    let m2 = if d2 < 0 { 0 } else if d2 > f / 2 { f / 2 } else { d2 };
    assert(255 * (f - m2) + f / 2 <= 255 * (f - m1) + f / 2);
    lemma_div_is_ordered(255 * (f - m2) + f / 2, 255 * (f - m1) + f / 2, f);
}

/// Along a line whose far end is deeper, brightness never increases from
/// the near end to the far end.
pub proof fn lemma_brightness_falls_with_depth(p: ScreenPoint, q: ScreenPoint, i: int, j: int)
    requires
        p.depth <= q.depth,
        0 <= i <= j <= steps(p, q),
    ensures
        depth_at(p, q, i) <= depth_at(p, q, j),
        point_intensity(p, q, j) <= point_intensity(p, q, i),
{
    let n = steps(p, q);
    if n > 0 {
        assert(p.depth * (n - i) + q.depth * i <= p.depth * (n - j) + q.depth * j) by (nonlinear_arith)
            requires
                p.depth <= q.depth,
                i <= j,
        ;
        lemma_div_is_ordered(p.depth * (n - i) + q.depth * i, p.depth * (n - j) + q.depth * j, n);
    }
    lemma_intensity_antitone(depth_at(p, q, i), depth_at(p, q, j));
}

/// `g` is what `rasterize` gives for `edges` and `pts` on a `w` by `h` grid.
pub open spec fn is_rendering(g: Seq<Vec<u8>>, edges: Seq<Edge>, pts: Seq<ScreenPoint>, w: int, h: int) -> bool {
    &&& is_grid(g, w, h)
    &&& forall|x: int, y: int|
        0 <= x < w && 0 <= y < h ==> grid_composite(
            #[trigger] cell(g, x, y),
            edges,
            pts,
            pen_spec(w, h),
            edges.len() as int,
            x,
            y,
        )
}

/// Drawing order does not matter: two edge lists that hold the same edges,
/// in any order, render to the same grid.
pub proof fn lemma_rendering_order_free(
    g1: Seq<Vec<u8>>,
    g2: Seq<Vec<u8>>,
    e1: Seq<Edge>,
    e2: Seq<Edge>,
    pts: Seq<ScreenPoint>,
    w: int,
    h: int,
)
    requires
        is_rendering(g1, e1, pts, w, h),
        is_rendering(g2, e2, pts, w, h),
        forall|k1: int| 0 <= k1 < e1.len() ==> e2.contains(#[trigger] e1[k1]),
        forall|k2: int| 0 <= k2 < e2.len() ==> e1.contains(#[trigger] e2[k2]),
    ensures
        forall|x: int, y: int|
            0 <= x < w && 0 <= y < h ==> #[trigger] cell(g1, x, y) == cell(g2, x, y),
{
    assert forall|x: int, y: int| 0 <= x < w && 0 <= y < h implies #[trigger] cell(g1, x, y)
        == cell(g2, x, y) by {
        lemma_composite_order_free(cell(g1, x, y), cell(g2, x, y), e1, e2, pts, pen_spec(w, h), x, y);
    }
}

/// An edge with an end point behind the camera leaves no trace: the grid
/// rendered without it is the same, cell for cell.
pub proof fn lemma_culled_edge_leaves_no_trace(
    g1: Seq<Vec<u8>>,
    g2: Seq<Vec<u8>>,
    edges: Seq<Edge>,
    pts: Seq<ScreenPoint>,
    k: int,
    w: int,
    h: int,
)
    requires
        0 <= k < edges.len(),
        !edge_drawn(pts[edges[k].a as int], pts[edges[k].b as int]),
        is_rendering(g1, edges, pts, w, h),
        is_rendering(g2, edges.remove(k), pts, w, h),
    ensures
        forall|x: int, y: int|
            0 <= x < w && 0 <= y < h ==> #[trigger] cell(g1, x, y) == cell(g2, x, y),
{
    assert forall|x: int, y: int| 0 <= x < w && 0 <= y < h implies #[trigger] cell(g1, x, y)
        == cell(g2, x, y) by {
        lemma_culled_edge_absent(
            cell(g1, x, y),
            cell(g2, x, y),
            edges,
            pts,
            pen_spec(w, h),
            k,
            x,
            y,
        );
    }
}

} // verus!
