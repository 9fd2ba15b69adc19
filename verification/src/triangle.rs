use vstd::prelude::*;
use vstd::arithmetic::div_mod::lemma_fundamental_div_mod_converse;
use crate::screen::{WIDTH, HEIGHT};

verus! {

/// The x coordinate of corner `i` of the triangle.
pub open spec fn tx(t: [[i32; 2]; 3], i: int) -> int {
    t[i][0] as int
}

/// The y coordinate of corner `i` of the triangle.
pub open spec fn ty(t: [[i32; 2]; 3], i: int) -> int {
    t[i][1] as int
}

/// The smallest of three integers.
pub open spec fn min3(a: int, b: int, c: int) -> int {
    if a <= b && a <= c {
        a
    } else if b <= c {
        b
    } else {
        c
    }
}

/// The largest of three integers.
pub open spec fn max3(a: int, b: int, c: int) -> int {
    if a >= b && a >= c {
        a
    } else if b >= c {
        b
    } else {
        c
    }
}

/// `v` rounded down to a multiple of the block size.
pub open spec fn align_down(v: int) -> int {
    v - v % 8
}

/// The fill rule's bias of the edge from `(xa, ya)` to `(xb, yb)`: a pixel
/// centre lying exactly on an edge that goes up, or on a horizontal edge that
/// goes left, counts as inside.
pub open spec fn edge_bias(xa: int, ya: int, xb: int, yb: int) -> int {
    if ya < yb || (ya == yb && xa > xb) {
        1
    } else {
        0
    }
}

/// The constant term of the edge function of the edge from `(xa, ya)` to
/// `(xb, yb)`, in coordinates scaled by 16, bias included.
pub open spec fn edge_const(xa: int, ya: int, xb: int, yb: int) -> int {
    (16 * (ya - yb)) * (16 * xa) - (16 * (xa - xb)) * (16 * ya) + edge_bias(xa, ya, xb, yb)
}

/// The edge function of the edge from `(xa, ya)` to `(xb, yb)` at pixel
/// `(px, py)`; it is positive on the inner side of the edge.
pub open spec fn edge_value(xa: int, ya: int, xb: int, yb: int, px: int, py: int) -> int {
    edge_const(xa, ya, xb, yb) + (16 * (xa - xb)) * (16 * py) - (16 * (ya - yb)) * (16 * px)
}

/// Pixel `(px, py)` lies inside the triangle `t` by the scan's fill rule: every
/// one of its three edge functions is positive there.
pub open spec fn covered(t: [[i32; 2]; 3], px: int, py: int) -> bool {
    &&& edge_value(tx(t, 0), ty(t, 0), tx(t, 1), ty(t, 1), px, py) > 0
    &&& edge_value(tx(t, 1), ty(t, 1), tx(t, 2), ty(t, 2), px, py) > 0
    &&& edge_value(tx(t, 2), ty(t, 2), tx(t, 0), ty(t, 0), px, py) > 0
}

/// Pixel `(px, py)` lies in the frame.
pub open spec fn on_screen(px: int, py: int) -> bool {
    0 <= px < WIDTH && 0 <= py < HEIGHT
}

/// The fragments that one row of a block yields, from its `i`-th pixel on,
/// when the scan has already skipped `skipped` covered pixels outside the frame
/// in this row. The coverage test of a pixel is made at the column `skipped`
/// places to its left, for the scan does not advance its edge values past a
/// covered pixel that lies outside the frame. (Blocks never straddle a side of
/// the frame, so this never changes what a row yields: see
/// `lemma_fragments_are_covered_pixels`.)
pub open spec fn row_frags(t: [[i32; 2]; 3], x: int, py: int, i: int, skipped: int) -> Seq<(i32, i32)>
    decreases 8 - i,
{
    if i >= 8 {
        seq![]
    } else if covered(t, x + i - skipped, py) {
        if on_screen(x + i, py) {
            seq![((x + i) as i32, py as i32)] + row_frags(t, x, py, i + 1, skipped)
        } else {
            row_frags(t, x, py, i + 1, skipped + 1)
        }
    } else {
        row_frags(t, x, py, i + 1, skipped)
    }
}

/// The pixels of a block row from its `i`-th pixel on that lie in the frame.
pub open spec fn on_screen_row(x: int, py: int, i: int) -> Seq<(i32, i32)>
    decreases 8 - i,
{
    if i >= 8 {
        seq![]
    } else if on_screen(x + i, py) {
        seq![((x + i) as i32, py as i32)] + on_screen_row(x, py, i + 1)
    } else {
        on_screen_row(x, py, i + 1)
    }
}

/// The fragments of the block with top-left pixel `(x, y)`, from its row `r` on.
pub open spec fn block_rows(t: [[i32; 2]; 3], x: int, y: int, r: int) -> Seq<(i32, i32)>
    decreases 8 - r,
{
    if r >= 8 {
        seq![]
    } else {
        row_frags(t, x, y + r, 0, 0) + block_rows(t, x, y, r + 1)
    }
}

/// The distance left from `a` up to `b`.
pub open spec fn gap(a: int, b: int) -> nat {
    if a < b {
        (b - a) as nat
    } else {
        0
    }
}

/// The fragments of the blocks at row `y` whose left column is `x` or lies
/// further right, below `max_x`, left to right.
pub open spec fn band(t: [[i32; 2]; 3], x: int, y: int, max_x: int) -> Seq<(i32, i32)>
    decreases gap(x, max_x),
{
    if x >= max_x {
        seq![]
    } else {
        block_rows(t, x, y, 0) + band(t, x + 8, y, max_x)
    }
}

/// The fragments of the block rows from `y` on, below `max_y`, top to bottom.
pub open spec fn bands(t: [[i32; 2]; 3], y: int, max_y: int, x0: int, max_x: int) -> Seq<(i32, i32)>
    decreases gap(y, max_y),
{
    if y >= max_y {
        seq![]
    } else {
        band(t, x0, y, max_x) + bands(t, y + 8, max_y, x0, max_x)
    }
}

/// All the fragments of the triangle `t`, in the order of the scan: the blocks
/// of 8 by 8 pixels that start in the triangle's bounding box, aligned down to
/// multiples of 8, row by row; inside a block, its pixels row by row.
pub open spec fn triangle_frag_seq(t: [[i32; 2]; 3]) -> Seq<(i32, i32)> {
    bands(
        t,
        align_down(min3(ty(t, 0), ty(t, 1), ty(t, 2))),
        max3(ty(t, 0), ty(t, 1), ty(t, 2)),
        align_down(min3(tx(t, 0), tx(t, 1), tx(t, 2))),
        max3(tx(t, 0), tx(t, 1), tx(t, 2)),
    )
}

/// An edge function `k + p * (16 * v) - q * (16 * u)` at pixel `(u, v)`.
pub open spec fn affine(k: int, p: int, q: int, u: int, v: int) -> int {
    k + p * (16 * v) - q * (16 * u)
}

/// A value seven times a weighted mean of two values, with weights that add up
/// to seven, is positive when both are, and not positive when neither is.
proof fn lemma_weighted(w0: int, w1: int, e0: int, e1: int, e: int)
    requires
        0 <= w0,
        0 <= w1,
        w0 + w1 == 7,
        7 * e == w0 * e0 + w1 * e1,
    ensures
        e0 > 0 && e1 > 0 ==> e > 0,
        e0 <= 0 && e1 <= 0 ==> e <= 0,
{
    if e0 > 0 && e1 > 0 {
        assert(w0 * e0 + w1 * e1 > 0) by (nonlinear_arith)
            requires
                0 <= w0,
                0 <= w1,
                w0 + w1 == 7,
                e0 > 0,
                e1 > 0,
        ;
    }
    if e0 <= 0 && e1 <= 0 {
        assert(w0 * e0 + w1 * e1 <= 0) by (nonlinear_arith)
            requires
                0 <= w0,
                0 <= w1,
                e0 <= 0,
                e1 <= 0,
        ;
    }
}

/// Along a line, an edge function is the weighted mean of its values at two
/// points seven pixels apart.
proof fn lemma_affine_x(k: int, p: int, q: int, x: int, v: int, u: int)
    ensures
        7 * affine(k, p, q, u, v) == (x + 7 - u) * affine(k, p, q, x, v) + (u - x) * affine(
            k,
            p,
            q,
            x + 7,
            v,
        ),
{
    let a = k + p * (16 * v);
    assert(7 * (a - q * (16 * u)) == (x + 7 - u) * (a - q * (16 * x)) + (u - x) * (a - q * (16 * (
    x + 7)))) by (nonlinear_arith);
}

proof fn lemma_affine_y(k: int, p: int, q: int, y: int, u: int, v: int)
    ensures
        7 * affine(k, p, q, u, v) == (y + 7 - v) * affine(k, p, q, u, y) + (v - y) * affine(
            k,
            p,
            q,
            u,
            y + 7,
        ),
{
    let a = k - q * (16 * u);
    assert(7 * (a + p * (16 * v)) == (y + 7 - v) * (a + p * (16 * y)) + (v - y) * (a + p * (16 * (
    y + 7)))) by (nonlinear_arith);
}

/// An edge function that is positive at the four corners of a block is positive
/// at all of its pixels; one that is not positive at any corner is positive at none.
proof fn lemma_affine_block(k: int, p: int, q: int, x: int, y: int, u: int, v: int)
    requires
        x <= u <= x + 7,
        y <= v <= y + 7,
    ensures
        affine(k, p, q, x, y) > 0 && affine(k, p, q, x + 7, y) > 0 && affine(k, p, q, x, y + 7) > 0
            && affine(k, p, q, x + 7, y + 7) > 0 ==> affine(k, p, q, u, v) > 0,
        affine(k, p, q, x, y) <= 0 && affine(k, p, q, x + 7, y) <= 0 && affine(k, p, q, x, y + 7)
            <= 0 && affine(k, p, q, x + 7, y + 7) <= 0 ==> affine(k, p, q, u, v) <= 0,
{
    lemma_affine_x(k, p, q, x, y, u);
    lemma_affine_x(k, p, q, x, y + 7, u);
    lemma_affine_y(k, p, q, y, u, v);
    lemma_weighted(
        x + 7 - u,
        u - x,
        affine(k, p, q, x, y),
        affine(k, p, q, x + 7, y),
        affine(k, p, q, u, y),
    );
    lemma_weighted(
        x + 7 - u,
        u - x,
        affine(k, p, q, x, y + 7),
        affine(k, p, q, x + 7, y + 7),
        affine(k, p, q, u, y + 7),
    );
    lemma_weighted(
        y + 7 - v,
        v - y,
        affine(k, p, q, u, y),
        affine(k, p, q, u, y + 7),
        affine(k, p, q, u, v),
    );
}

/// No pixel of the block row is covered: the row yields nothing.
proof fn lemma_row_none(t: [[i32; 2]; 3], x: int, py: int, i: int)
    requires
        0 <= i <= 8,
        forall|u: int| x <= u <= x + 7 ==> !#[trigger] covered(t, u, py),
    ensures
        row_frags(t, x, py, i, 0) == Seq::<(i32, i32)>::empty(),
    decreases 8 - i,
{
    if i < 8 {
        assert(!covered(t, x + i - 0, py));
        lemma_row_none(t, x, py, i + 1);
    }
}

/// Every pixel of the block row is covered: the row yields its pixels that lie
/// in the frame, however many it has skipped.
proof fn lemma_row_full(t: [[i32; 2]; 3], x: int, py: int, i: int, skipped: int)
    requires
        0 <= skipped <= i <= 8,
        forall|u: int| x <= u <= x + 7 ==> #[trigger] covered(t, u, py),
    ensures
        row_frags(t, x, py, i, skipped) == on_screen_row(x, py, i),
    decreases 8 - i,
{
    if i < 8 {
        assert(covered(t, x + i - skipped, py));
        lemma_row_full(t, x, py, i + 1, skipped);
        lemma_row_full(t, x, py, i + 1, skipped + 1);
    }
}

/// No pixel of the block is covered: the block yields nothing.
proof fn lemma_block_none(t: [[i32; 2]; 3], x: int, y: int, r: int)
    requires
        0 <= r <= 8,
        forall|u: int, v: int| x <= u <= x + 7 && y <= v <= y + 7 ==> !#[trigger] covered(t, u, v),
    ensures
        block_rows(t, x, y, r) == Seq::<(i32, i32)>::empty(),
    decreases 8 - r,
{
    if r < 8 {
        lemma_row_none(t, x, y + r, 0);
        lemma_block_none(t, x, y, r + 1);
        assert(block_rows(t, x, y, r) =~= Seq::<(i32, i32)>::empty());
    }
}

/// The coefficients of one edge function, scaled by 16.
struct Edge {
    c: i128,
    ex: i128,
    ey: i128,
}

impl Edge {
    /// The coefficients are those of the edge from `(xa, ya)` to `(xb, yb)`.
    spec fn of(self, xa: int, ya: int, xb: int, yb: int) -> bool {
        &&& self.c == edge_const(xa, ya, xb, yb)
        &&& self.ex == 16 * (xa - xb)
        &&& self.ey == 16 * (ya - yb)
        &&& -0x1_0000_0000_0000_0000_01 <= self.c <= 0x1_0000_0000_0000_0000_01
        &&& -0x10_0000_0000 <= self.ex <= 0x10_0000_0000
        &&& -0x10_0000_0000 <= self.ey <= 0x10_0000_0000
    }
}

proof fn lemma_mul_bound(a: int, b: int, ba: int, bb: int)
    requires
        -ba <= a <= ba,
        -bb <= b <= bb,
    ensures
        -(ba * bb) <= a * b <= ba * bb,
{
    assert(-(ba * bb) <= a * b <= ba * bb) by (nonlinear_arith)
        requires
            -ba <= a <= ba,
            -bb <= b <= bb,
    ;
}

/// The edge function of the edge from `(xa, ya)` to `(xb, yb)`.
fn make_edge(xa: i32, ya: i32, xb: i32, yb: i32) -> (e: Edge)
    ensures
        e.of(xa as int, ya as int, xb as int, yb as int),
{
    let ex: i128 = 16 * (xa as i128 - xb as i128);
    let ey: i128 = 16 * (ya as i128 - yb as i128);
    let sx: i128 = 16 * xa as i128;
    let sy: i128 = 16 * ya as i128;
    proof {
        lemma_mul_bound(ey as int, sx as int, 0x10_0000_0000, 0x8_0000_0000);
        lemma_mul_bound(ex as int, sy as int, 0x10_0000_0000, 0x8_0000_0000);
    }
    let mut c: i128 = ey * sx - ex * sy;
    if ey < 0 || (ey == 0 && ex > 0) {
        c += 1;
    }
    Edge { c, ex, ey }
}

/// The value of edge function `e` at pixel `(px, py)`.
fn edge_at(e: &Edge, px: i64, py: i64) -> (v: i128)
    requires
        -0x1_0000_0000_0000_0000_01 <= e.c <= 0x1_0000_0000_0000_0000_01,
        -0x10_0000_0000 <= e.ex <= 0x10_0000_0000,
        -0x10_0000_0000 <= e.ey <= 0x10_0000_0000,
        -0x2_0000_0000 <= px <= 0x2_0000_0000,
        -0x2_0000_0000 <= py <= 0x2_0000_0000,
    ensures
        v == affine(e.c as int, e.ex as int, e.ey as int, px as int, py as int),
{
    let sx: i128 = 16 * px as i128;
    let sy: i128 = 16 * py as i128;
    proof {
        lemma_mul_bound(e.ex as int, sy as int, 0x10_0000_0000, 0x20_0000_0000);
        lemma_mul_bound(e.ey as int, sx as int, 0x10_0000_0000, 0x20_0000_0000);
    }
    e.c + e.ex * sy - e.ey * sx
}

/// `v` rounded down to a multiple of the block size.
fn align_block(v: i32) -> (r: i64)
    ensures
        r == align_down(v as int),
{
    let u: u64 = (v as i64 + 0x8000_0000) as u64;
    let rem: u64 = u % 8;
    proof {
        let q = (u / 8) as int;
        vstd::arithmetic::div_mod::lemma_fundamental_div_mod(u as int, 8);
        lemma_fundamental_div_mod_converse(v as int, 8, q - 0x1000_0000, rem as int);
    }
    (u - rem) as i64 - 0x8000_0000
}

/// The three edges of triangle `t`, in the order of its corners.
spec fn edges_of(e1: Edge, e2: Edge, e3: Edge, t: [[i32; 2]; 3]) -> bool {
    &&& e1.of(tx(t, 0), ty(t, 0), tx(t, 1), ty(t, 1))
    &&& e2.of(tx(t, 1), ty(t, 1), tx(t, 2), ty(t, 2))
    &&& e3.of(tx(t, 2), ty(t, 2), tx(t, 0), ty(t, 0))
}

/// One pixel to the right, an edge function drops by `16 * q`; one pixel down,
/// it grows by `16 * p`.
proof fn lemma_affine_steps(k: int, p: int, q: int, u: int, v: int)
    ensures
        affine(k, p, q, u + 1, v) == affine(k, p, q, u, v) - 16 * q,
        affine(k, p, q, u, v + 1) == affine(k, p, q, u, v) + 16 * p,
{
    assert(q * (16 * (u + 1)) == q * (16 * u) + 16 * q) by (nonlinear_arith);
    assert(p * (16 * (v + 1)) == p * (16 * v) + 16 * p) by (nonlinear_arith);
}

/// Edge function values near the frame stay far inside `i128`.
proof fn lemma_affine_bound(e: Edge, u: int, v: int)
    requires
        -0x1_0000_0000_0000_0000_01 <= e.c <= 0x1_0000_0000_0000_0000_01,
        -0x10_0000_0000 <= e.ex <= 0x10_0000_0000,
        -0x10_0000_0000 <= e.ey <= 0x10_0000_0000,
        -0x2_0000_0000 <= u <= 0x2_0000_0000,
        -0x2_0000_0000 <= v <= 0x2_0000_0000,
    ensures
        -0x10_0000_0000_0000_0000_00 <= affine(e.c as int, e.ex as int, e.ey as int, u, v)
            <= 0x10_0000_0000_0000_0000_00,
{
    lemma_mul_bound(e.ex as int, 16 * v, 0x10_0000_0000, 0x20_0000_0000);
    lemma_mul_bound(e.ey as int, 16 * u, 0x10_0000_0000, 0x20_0000_0000);
}

/// A four-bit mask of the block corners at which edge function `e` is positive:
/// zero when it is positive at none of them, fifteen when at all of them.
fn corner_mask(e: &Edge, x: i64, y: i64) -> (m: u8)
    requires
        -0x1_0000_0000_0000_0000_01 <= e.c <= 0x1_0000_0000_0000_0000_01,
        -0x10_0000_0000 <= e.ex <= 0x10_0000_0000,
        -0x10_0000_0000 <= e.ey <= 0x10_0000_0000,
        -0x1_0000_0000 <= x <= 0x1_0000_0000,
        -0x1_0000_0000 <= y <= 0x1_0000_0000,
    ensures
        (m == 0) == (affine(e.c as int, e.ex as int, e.ey as int, x as int, y as int) <= 0
            && affine(e.c as int, e.ex as int, e.ey as int, x + 7, y as int) <= 0 && affine(
            e.c as int,
            e.ex as int,
            e.ey as int,
            x as int,
            y + 7,
        ) <= 0 && affine(e.c as int, e.ex as int, e.ey as int, x + 7, y + 7) <= 0),
        (m == 15) == (affine(e.c as int, e.ex as int, e.ey as int, x as int, y as int) > 0
            && affine(e.c as int, e.ex as int, e.ey as int, x + 7, y as int) > 0 && affine(
            e.c as int,
            e.ex as int,
            e.ey as int,
            x as int,
            y + 7,
        ) > 0 && affine(e.c as int, e.ex as int, e.ey as int, x + 7, y + 7) > 0),
{
    let a00: u8 = if edge_at(e, x, y) > 0 { 1 } else { 0 };
    let a10: u8 = if edge_at(e, x + 7, y) > 0 { 1 } else { 0 };
    let a01: u8 = if edge_at(e, x, y + 7) > 0 { 1 } else { 0 };
    let a11: u8 = if edge_at(e, x + 7, y + 7) > 0 { 1 } else { 0 };
    let m = a00 | (a10 << 1) | (a01 << 2) | (a11 << 3);
    assert((m == 0) == (a00 == 0 && a10 == 0 && a01 == 0 && a11 == 0) && (m == 15) == (a00 == 1
        && a10 == 1 && a01 == 1 && a11 == 1)) by (bit_vector)
        requires
            a00 <= 1,
            a10 <= 1,
            a01 <= 1,
            a11 <= 1,
            m == a00 | (a10 << 1) | (a01 << 2) | (a11 << 3),
    ;
    m
}

/// Appends the fragments of the block with top-left pixel `(x, y)`. A block that
/// lies wholly outside one edge is passed over, one that lies wholly inside all
/// three is filled without a test per pixel, and any other is scanned pixel by
/// pixel with edge values that step along each row.
#[verifier::rlimit(40)]
fn emit_block(
    out: &mut Vec<(i32, i32)>,
    Ghost(t): Ghost<[[i32; 2]; 3]>,
    e1: &Edge,
    e2: &Edge,
    e3: &Edge,
    x: i64,
    y: i64,
)
    requires
        edges_of(*e1, *e2, *e3, t),
        -0x8000_0008 <= x <= 0x8000_0000,
        -0x8000_0008 <= y <= 0x8000_0000,
    ensures
        final(out)@ == old(out)@ + block_rows(t, x as int, y as int, 0),
{
    let ghost target = out@ + block_rows(t, x as int, y as int, 0);
    let a = corner_mask(e1, x, y);
    let b = corner_mask(e2, x, y);
    let c = corner_mask(e3, x, y);
    if a == 0 || b == 0 || c == 0 {
        proof {
            assert forall|u: int, v: int|
                x <= u <= x + 7 && y <= v <= y + 7 implies !#[trigger] covered(t, u, v) by {
                lemma_affine_block(e1.c as int, e1.ex as int, e1.ey as int, x as int, y as int, u, v);
                lemma_affine_block(e2.c as int, e2.ex as int, e2.ey as int, x as int, y as int, u, v);
                lemma_affine_block(e3.c as int, e3.ex as int, e3.ey as int, x as int, y as int, u, v);
            }
            lemma_block_none(t, x as int, y as int, 0);
            assert(out@ =~= target);
        }
        return;
    }
    if a == 0xF && b == 0xF && c == 0xF {
        proof {
            assert forall|u: int, v: int|
                x <= u <= x + 7 && y <= v <= y + 7 implies #[trigger] covered(t, u, v) by {
                lemma_affine_block(e1.c as int, e1.ex as int, e1.ey as int, x as int, y as int, u, v);
                lemma_affine_block(e2.c as int, e2.ex as int, e2.ey as int, x as int, y as int, u, v);
                lemma_affine_block(e3.c as int, e3.ex as int, e3.ey as int, x as int, y as int, u, v);
            }
        }
        let mut r: i64 = 0;
        while r < 8
            invariant
                0 <= r <= 8,
                -0x8000_0008 <= x <= 0x8000_0000,
                -0x8000_0008 <= y <= 0x8000_0000,
                forall|u: int, v: int|
                    x <= u <= x + 7 && y <= v <= y + 7 ==> #[trigger] covered(t, u, v),
                out@ + block_rows(t, x as int, y as int, r as int) == target,
            decreases 8 - r,
        {
            let iy = y + r;
            proof {
                assert forall|u: int| x <= u <= x + 7 implies #[trigger] covered(t, u, iy as int) by {
                    assert(covered(t, u, iy as int));
                }
                lemma_row_full(t, x as int, iy as int, 0, 0);
                assert(block_rows(t, x as int, y as int, r as int) == row_frags(
                    t,
                    x as int,
                    y + r,
                    0,
                    0,
                ) + block_rows(t, x as int, y as int, r + 1));
            }
            let mut i: i64 = 0;
            while i < 8
                invariant
                    0 <= i <= 8,
                    0 <= r < 8,
                    iy == y + r,
                    -0x8000_0008 <= x <= 0x8000_0000,
                    -0x8000_0008 <= y <= 0x8000_0000,
                    out@ + on_screen_row(x as int, iy as int, i as int) + block_rows(
                        t,
                        x as int,
                        y as int,
                        r + 1,
                    ) == target,
                decreases 8 - i,
            {
                let ix = x + i;
                let ghost before = out@;
                if ix < WIDTH as i64 && iy < HEIGHT as i64 && ix >= 0 && iy >= 0 {
                    out.push((ix as i32, iy as i32));
                    assert(on_screen_row(x as int, iy as int, i as int) == seq![
                        (ix as i32, iy as i32),
                    ] + on_screen_row(x as int, iy as int, i + 1));
                    assert(out@ + on_screen_row(x as int, iy as int, i + 1) + block_rows(
                        t,
                        x as int,
                        y as int,
                        r + 1,
                    ) =~= before + on_screen_row(x as int, iy as int, i as int) + block_rows(
                        t,
                        x as int,
                        y as int,
                        r + 1,
                    ));
                }
                i += 1;
            }
            assert(out@ =~= out@ + on_screen_row(x as int, iy as int, 8));
            r += 1;
        }
        assert(out@ =~= out@ + block_rows(t, x as int, y as int, 8));
        return;
    }
    let fdx1 = 16 * e1.ex;
    let fdx2 = 16 * e2.ex;
    let fdx3 = 16 * e3.ex;
    let fdy1 = 16 * e1.ey;
    let fdy2 = 16 * e2.ey;
    let fdy3 = 16 * e3.ey;
    let mut cy1 = edge_at(e1, x, y);
    let mut cy2 = edge_at(e2, x, y);
    let mut cy3 = edge_at(e3, x, y);
    let mut r: i64 = 0;
    while r < 8
        invariant
            0 <= r <= 8,
            -0x8000_0008 <= x <= 0x8000_0000,
            -0x8000_0008 <= y <= 0x8000_0000,
            edges_of(*e1, *e2, *e3, t),
            fdx1 == 16 * e1.ex,
            fdx2 == 16 * e2.ex,
            fdx3 == 16 * e3.ex,
            fdy1 == 16 * e1.ey,
            fdy2 == 16 * e2.ey,
            fdy3 == 16 * e3.ey,
            cy1 == affine(e1.c as int, e1.ex as int, e1.ey as int, x as int, y + r),
            cy2 == affine(e2.c as int, e2.ex as int, e2.ey as int, x as int, y + r),
            cy3 == affine(e3.c as int, e3.ex as int, e3.ey as int, x as int, y + r),
            out@ + block_rows(t, x as int, y as int, r as int) == target,
        decreases 8 - r,
    {
        let iy = y + r;
        let mut cx1 = cy1;
        let mut cx2 = cy2;
        let mut cx3 = cy3;
        let ghost mut skipped: int = 0;
        proof {
            assert(block_rows(t, x as int, y as int, r as int) == row_frags(t, x as int, y + r, 0, 0)
                + block_rows(t, x as int, y as int, r + 1));
        }
        let mut i: i64 = 0;
        while i < 8
            invariant
                0 <= skipped <= i <= 8,
                0 <= r < 8,
                iy == y + r,
                -0x8000_0008 <= x <= 0x8000_0000,
                -0x8000_0008 <= y <= 0x8000_0000,
                edges_of(*e1, *e2, *e3, t),
                fdy1 == 16 * e1.ey,
                fdy2 == 16 * e2.ey,
                fdy3 == 16 * e3.ey,
                cx1 == affine(e1.c as int, e1.ex as int, e1.ey as int, x + i - skipped, iy as int),
                cx2 == affine(e2.c as int, e2.ex as int, e2.ey as int, x + i - skipped, iy as int),
                cx3 == affine(e3.c as int, e3.ex as int, e3.ey as int, x + i - skipped, iy as int),
                out@ + row_frags(t, x as int, iy as int, i as int, skipped) + block_rows(
                    t,
                    x as int,
                    y as int,
                    r + 1,
                ) == target,
            decreases 8 - i,
        {
            let ix = x + i;
            let ghost before = out@;
            let ghost col = x + i - skipped;
            proof {
                lemma_affine_steps(e1.c as int, e1.ex as int, e1.ey as int, col, iy as int);
                lemma_affine_steps(e2.c as int, e2.ex as int, e2.ey as int, col, iy as int);
                lemma_affine_steps(e3.c as int, e3.ex as int, e3.ey as int, col, iy as int);
                lemma_affine_bound(*e1, col + 1, iy as int);
                lemma_affine_bound(*e2, col + 1, iy as int);
                lemma_affine_bound(*e3, col + 1, iy as int);
            }
            if cx1 > 0 && cx2 > 0 && cx3 > 0 {
                if ix >= WIDTH as i64 || iy >= HEIGHT as i64 || ix < 0 || iy < 0 {
                    proof {
                        skipped = skipped + 1;
                    }
                } else {
                    out.push((ix as i32, iy as i32));
                    assert(out@ + row_frags(t, x as int, iy as int, i + 1, skipped) + block_rows(
                        t,
                        x as int,
                        y as int,
                        r + 1,
                    ) =~= before + row_frags(t, x as int, iy as int, i as int, skipped) + block_rows(
                        t,
                        x as int,
                        y as int,
                        r + 1,
                    ));
                    cx1 = cx1 - fdy1;
                    cx2 = cx2 - fdy2;
                    cx3 = cx3 - fdy3;
                }
            } else {
                cx1 = cx1 - fdy1;
                cx2 = cx2 - fdy2;
                cx3 = cx3 - fdy3;
            }
            i += 1;
        }
        assert(out@ =~= out@ + row_frags(t, x as int, iy as int, 8, skipped));
        proof {
            lemma_affine_steps(e1.c as int, e1.ex as int, e1.ey as int, x as int, iy as int);
            lemma_affine_steps(e2.c as int, e2.ex as int, e2.ey as int, x as int, iy as int);
            lemma_affine_steps(e3.c as int, e3.ex as int, e3.ey as int, x as int, iy as int);
            lemma_affine_bound(*e1, x as int, iy + 1);
            lemma_affine_bound(*e2, x as int, iy + 1);
            lemma_affine_bound(*e3, x as int, iy + 1);
        }
        cy1 = cy1 + fdx1;
        cy2 = cy2 + fdx2;
        cy3 = cy3 + fdx3;
        r += 1;
    }
    assert(out@ =~= out@ + block_rows(t, x as int, y as int, 8));
}

fn min3_i32(a: i32, b: i32, c: i32) -> (m: i32)
    ensures
        m == min3(a as int, b as int, c as int),
{
    if a <= b && a <= c {
        a
    } else if b <= c {
        b
    } else {
        c
    }
}

fn max3_i32(a: i32, b: i32, c: i32) -> (m: i32)
    ensures
        m == max3(a as int, b as int, c as int),
{
    if a >= b && a >= c {
        a
    } else if b >= c {
        b
    } else {
        c
    }
}

/// The pixels of the frame that the triangle `tri` fills, in the order of the
/// scan (see `triangle_frag_seq`). The depth test and the writes into the frame
/// are left to the caller.
pub fn triangle_fragments(tri: [[i32; 2]; 3]) -> (frags: Vec<(i32, i32)>)
    ensures
        frags@ == triangle_frag_seq(tri),
        forall|q: (i32, i32)| #[trigger] frags@.contains(q) == ({
                let (x1, y1, x2, y2, x3, y3) = (tri[0][0] as int, tri[0][1] as int, tri[1][0] as int, tri[1][1] as int, tri[2][0] as int, tri[2][1] as int);
                let (px, py) = (q.0 as int, q.1 as int);
                &&& 0 <= px < 800
                &&& 0 <= py < 800
                &&& (16 * (y1 - y2)) * (16 * x1) - (16 * (x1 - x2)) * (16 * y1) + (if y1 < y2 || (y1 == y2 && x1 > x2) { 1int } else { 0int }) + (16 * (x1 - x2)) * (16 * py) - (16 * (y1 - y2)) * (16 * px) > 0
                &&& (16 * (y2 - y3)) * (16 * x2) - (16 * (x2 - x3)) * (16 * y2) + (if y2 < y3 || (y2 == y3 && x2 > x3) { 1int } else { 0int }) + (16 * (x2 - x3)) * (16 * py) - (16 * (y2 - y3)) * (16 * px) > 0
                &&& (16 * (y3 - y1)) * (16 * x3) - (16 * (x3 - x1)) * (16 * y3) + (if y3 < y1 || (y3 == y1 && x3 > x1) { 1int } else { 0int }) + (16 * (x3 - x1)) * (16 * py) - (16 * (y3 - y1)) * (16 * px) > 0
                &&& (px - px % 8 < x1 || px - px % 8 < x2 || px - px % 8 < x3)
                &&& (py - py % 8 < y1 || py - py % 8 < y2 || py - py % 8 < y3)
            }),
        forall|i: int, j: int| 0 <= i < j < frags@.len() ==> frags@[i] != frags@[j],
        forall|i: int|
            0 <= i < frags@.len() ==> 0 <= #[trigger] frags@[i].0 < 800 && 0 <= frags@[i].1 < 800,
{
    let x1 = tri[0][0];
    let y1 = tri[0][1];
    let x2 = tri[1][0];
    let y2 = tri[1][1];
    let x3 = tri[2][0];
    let y3 = tri[2][1];
    let e1 = make_edge(x1, y1, x2, y2);
    let e2 = make_edge(x2, y2, x3, y3);
    let e3 = make_edge(x3, y3, x1, y1);

    let min_x = align_block(min3_i32(x1, x2, x3));
    let max_x = max3_i32(x1, x2, x3) as i64;
    let min_y = align_block(min3_i32(y1, y2, y3));
    let max_y = max3_i32(y1, y2, y3) as i64;

    let ghost total = triangle_frag_seq(tri);
    let mut out: Vec<(i32, i32)> = Vec::new();
    let mut y = min_y;
    while y < max_y
        invariant
            edges_of(e1, e2, e3, tri),
            min_x == align_down(min3(tx(tri, 0), tx(tri, 1), tx(tri, 2))),
            max_x == max3(tx(tri, 0), tx(tri, 1), tx(tri, 2)),
            max_y == max3(ty(tri, 0), ty(tri, 1), ty(tri, 2)),
            -0x8000_0008 <= min_x <= 0x8000_0000,
            -0x8000_0008 <= y <= 0x8000_0008,
            max_y < 0x8000_0000,
            max_x < 0x8000_0000,
            out@ + bands(tri, y as int, max_y as int, min_x as int, max_x as int) == total,
        decreases max_y + 8 - y,
    {
        let ghost row_start = out@;
        let mut x = min_x;
        while x < max_x
            invariant
                edges_of(e1, e2, e3, tri),
                -0x8000_0008 <= x <= 0x8000_0008,
                -0x8000_0008 <= y < 0x8000_0000,
                max_x < 0x8000_0000,
                out@ + band(tri, x as int, y as int, max_x as int) == row_start + band(
                    tri,
                    min_x as int,
                    y as int,
                    max_x as int,
                ),
            decreases max_x + 8 - x,
        {
            let ghost before = out@;
            emit_block(&mut out, Ghost(tri), &e1, &e2, &e3, x, y);
            assert(out@ + band(tri, x + 8, y as int, max_x as int) =~= before + band(
                tri,
                x as int,
                y as int,
                max_x as int,
            ));
            x += 8;
        }
        assert(out@ =~= out@ + band(tri, x as int, y as int, max_x as int));
        assert(out@ + bands(tri, y + 8, max_y as int, min_x as int, max_x as int) =~= row_start
            + bands(tri, y as int, max_y as int, min_x as int, max_x as int));
        y += 8;
    }
    assert(out@ =~= out@ + bands(tri, y as int, max_y as int, min_x as int, max_x as int));
    proof {
        crate::triangle_laws::lemma_fragments_distinct_in_frame(tri);
        assert forall|q: (i32, i32)| #[trigger] out@.contains(q) == ({
                let (x1, y1, x2, y2, x3, y3) = (tri[0][0] as int, tri[0][1] as int, tri[1][0] as int, tri[1][1] as int, tri[2][0] as int, tri[2][1] as int);
                let (px, py) = (q.0 as int, q.1 as int);
                &&& 0 <= px < 800
                &&& 0 <= py < 800
                &&& (16 * (y1 - y2)) * (16 * x1) - (16 * (x1 - x2)) * (16 * y1) + (if y1 < y2 || (y1 == y2 && x1 > x2) { 1int } else { 0int }) + (16 * (x1 - x2)) * (16 * py) - (16 * (y1 - y2)) * (16 * px) > 0
                &&& (16 * (y2 - y3)) * (16 * x2) - (16 * (x2 - x3)) * (16 * y2) + (if y2 < y3 || (y2 == y3 && x2 > x3) { 1int } else { 0int }) + (16 * (x2 - x3)) * (16 * py) - (16 * (y2 - y3)) * (16 * px) > 0
                &&& (16 * (y3 - y1)) * (16 * x3) - (16 * (x3 - x1)) * (16 * y3) + (if y3 < y1 || (y3 == y1 && x3 > x1) { 1int } else { 0int }) + (16 * (x3 - x1)) * (16 * py) - (16 * (y3 - y1)) * (16 * px) > 0
                &&& (px - px % 8 < x1 || px - px % 8 < x2 || px - px % 8 < x3)
                &&& (py - py % 8 < y1 || py - py % 8 < y2 || py - py % 8 < y3)
            }) by {
            crate::triangle_laws::lemma_fragment_iff_edges_positive(tri, q);
        }
    }
    out
}

} // verus!
