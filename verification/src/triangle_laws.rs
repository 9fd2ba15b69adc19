use vstd::prelude::*;
use crate::triangle::{
    edge_bias, edge_value, align_down, band, bands, block_rows, covered, gap, max3, min3, on_screen, row_frags, triangle_frag_seq, tx, ty,
};

verus! {

/// No pixel occurs twice in `s`.
pub open spec fn distinct(s: Seq<(i32, i32)>) -> bool {
    forall|i: int, j: int| 0 <= i < j < s.len() ==> s[i] != s[j]
}

/// Every pixel of `s` lies in the frame, in columns `x_lo..=x_hi` and rows `y_lo..=y_hi`.
pub open spec fn all_within(s: Seq<(i32, i32)>, x_lo: int, x_hi: int, y_lo: int, y_hi: int) -> bool {
    forall|k: int|
        0 <= k < s.len() ==> {
            let q = #[trigger] s[k];
            &&& on_screen(q.0 as int, q.1 as int)
            &&& x_lo <= q.0 <= x_hi
            &&& y_lo <= q.1 <= y_hi
        }
}

proof fn lemma_concat(
    a: Seq<(i32, i32)>,
    b: Seq<(i32, i32)>,
    ax_lo: int,
    ax_hi: int,
    ay_lo: int,
    ay_hi: int,
    bx_lo: int,
    bx_hi: int,
    by_lo: int,
    by_hi: int,
)
    requires
        distinct(a),
        distinct(b),
        all_within(a, ax_lo, ax_hi, ay_lo, ay_hi),
        all_within(b, bx_lo, bx_hi, by_lo, by_hi),
        ax_hi < bx_lo || ay_hi < by_lo,
    ensures
        distinct(a + b),
        all_within(
            a + b,
            if ax_lo <= bx_lo { ax_lo } else { bx_lo },
            if ax_hi >= bx_hi { ax_hi } else { bx_hi },
            if ay_lo <= by_lo { ay_lo } else { by_lo },
            if ay_hi >= by_hi { ay_hi } else { by_hi },
        ),
{
    let s = a + b;
    assert forall|i: int, j: int| 0 <= i < j < s.len() implies s[i] != s[j] by {
        if j < a.len() {
            assert(s[i] == a[i] && s[j] == a[j]);
        } else if i >= a.len() {
            assert(s[i] == b[i - a.len()] && s[j] == b[j - a.len()]);
        } else {
            assert(s[i] == a[i] && s[j] == b[j - a.len()]);
        }
    }
    assert forall|k: int| 0 <= k < s.len() implies {
        let q = #[trigger] s[k];
        &&& on_screen(q.0 as int, q.1 as int)
        &&& (if ax_lo <= bx_lo { ax_lo } else { bx_lo }) <= q.0 <= (if ax_hi >= bx_hi {
            ax_hi
        } else {
            bx_hi
        })
        &&& (if ay_lo <= by_lo { ay_lo } else { by_lo }) <= q.1 <= (if ay_hi >= by_hi {
            ay_hi
        } else {
            by_hi
        })
    } by {
        if k < a.len() {
            assert(s[k] == a[k]);
        } else {
            assert(s[k] == b[k - a.len()]);
        }
    }
}

/// A block row yields distinct pixels of the frame, in its own columns.
proof fn lemma_row_shape(t: [[i32; 2]; 3], x: int, py: int, i: int, skipped: int)
    requires
        0 <= i <= 8,
    ensures
        distinct(row_frags(t, x, py, i, skipped)),
        all_within(row_frags(t, x, py, i, skipped), x + i, x + 7, py, py),
    decreases 8 - i,
{
    if i < 8 {
        lemma_row_shape(t, x, py, i + 1, skipped);
        lemma_row_shape(t, x, py, i + 1, skipped + 1);
        if covered(t, x + i - skipped, py) && on_screen(x + i, py) {
            let head = seq![((x + i) as i32, py as i32)];
            let rest = row_frags(t, x, py, i + 1, skipped);
            assert(all_within(head, x + i, x + i, py, py));
            lemma_concat(head, rest, x + i, x + i, py, py, x + i + 1, x + 7, py, py);
        }
    }
}

/// A block yields distinct pixels of the frame, inside the block.
proof fn lemma_block_shape(t: [[i32; 2]; 3], x: int, y: int, r: int)
    requires
        0 <= r <= 8,
    ensures
        distinct(block_rows(t, x, y, r)),
        all_within(block_rows(t, x, y, r), x, x + 7, y + r, y + 7),
    decreases 8 - r,
{
    if r < 8 {
        lemma_row_shape(t, x, y + r, 0, 0);
        lemma_block_shape(t, x, y, r + 1);
        lemma_concat(
            row_frags(t, x, y + r, 0, 0),
            block_rows(t, x, y, r + 1),
            x,
            x + 7,
            y + r,
            y + r,
            x,
            x + 7,
            y + r + 1,
            y + 7,
        );
    }
}

/// A row of blocks yields distinct pixels of the frame, at or right of its start.
proof fn lemma_band_shape(t: [[i32; 2]; 3], x: int, y: int, max_x: int)
    ensures
        distinct(band(t, x, y, max_x)),
        all_within(band(t, x, y, max_x), x, 0x7fff_ffff, y, y + 7),
    decreases gap(x, max_x),
{
    if x < max_x {
        lemma_block_shape(t, x, y, 0);
        lemma_band_shape(t, x + 8, y, max_x);
        lemma_concat(
            block_rows(t, x, y, 0),
            band(t, x + 8, y, max_x),
            x,
            x + 7,
            y,
            y + 7,
            x + 8,
            0x7fff_ffff,
            y,
            y + 7,
        );
    }
}

/// The rows of blocks yield distinct pixels of the frame, at or below their start.
proof fn lemma_bands_shape(t: [[i32; 2]; 3], y: int, max_y: int, x0: int, max_x: int)
    ensures
        distinct(bands(t, y, max_y, x0, max_x)),
        all_within(bands(t, y, max_y, x0, max_x), x0, 0x7fff_ffff, y, 0x7fff_ffff),
    decreases gap(y, max_y),
{
    if y < max_y {
        lemma_band_shape(t, x0, y, max_x);
        lemma_bands_shape(t, y + 8, max_y, x0, max_x);
        lemma_concat(
            band(t, x0, y, max_x),
            bands(t, y + 8, max_y, x0, max_x),
            x0,
            0x7fff_ffff,
            y,
            y + 7,
            x0,
            0x7fff_ffff,
            y + 8,
            0x7fff_ffff,
        );
    }
}

/// The scan of a triangle yields pixels of the frame only, each at most once, so
/// the depth test and the writes that follow it may take them in any order.
pub proof fn lemma_fragments_distinct_on_screen(t: [[i32; 2]; 3])
    ensures
        distinct(triangle_frag_seq(t)),
        forall|k: int|
            0 <= k < triangle_frag_seq(t).len() ==> on_screen(
                #[trigger] triangle_frag_seq(t)[k].0 as int,
                triangle_frag_seq(t)[k].1 as int,
            ),
{
    let y0 = align_down(min3(ty(t, 0), ty(t, 1), ty(t, 2)));
    let x0 = align_down(min3(tx(t, 0), tx(t, 1), tx(t, 2)));
    lemma_bands_shape(
        t,
        y0,
        max3(ty(t, 0), ty(t, 1), ty(t, 2)),
        x0,
        max3(tx(t, 0), tx(t, 1), tx(t, 2)),
    );
    let s = triangle_frag_seq(t);
    assert forall|k: int| 0 <= k < s.len() implies on_screen(
        #[trigger] s[k].0 as int,
        s[k].1 as int,
    ) by {
        let q = s[k];
    }
}

/// Twice the signed area of the triangle `(xa, ya)`, `(xb, yb)`, `(px, py)`: the
/// edge function of the edge from `(xa, ya)` to `(xb, yb)` in unscaled coordinates.
pub open spec fn cross(xa: int, ya: int, xb: int, yb: int, px: int, py: int) -> int {
    (ya - yb) * (xa - px) + (xa - xb) * (py - ya)
}

proof fn lemma_edge_cross(xa: int, ya: int, xb: int, yb: int, px: int, py: int)
    ensures
        edge_value(xa, ya, xb, yb, px, py) == 256 * cross(xa, ya, xb, yb, px, py) + edge_bias(
            xa,
            ya,
            xb,
            yb,
        ),
{
    assert((16 * (ya - yb)) * (16 * xa) - (16 * (xa - xb)) * (16 * ya) + (16 * (xa - xb)) * (16
        * py) - (16 * (ya - yb)) * (16 * px) == 256 * ((ya - yb) * (xa - px) + (xa - xb) * (py
        - ya))) by (nonlinear_arith);
}

/// `p` weighted by three non-negative weights lies between the smallest and the
/// largest of three values, once divided by the weights' positive sum.
proof fn lemma_weighted_mean(f1: int, f2: int, f3: int, a: int, b: int, c: int, p: int)
    requires
        0 <= f1,
        0 <= f2,
        0 <= f3,
        0 < f1 + f2 + f3,
        p * (f1 + f2 + f3) == f2 * a + f3 * b + f1 * c,
    ensures
        min3(a, b, c) <= p <= max3(a, b, c),
{
    let m = min3(a, b, c);
    let mx = max3(a, b, c);
    let s = f1 + f2 + f3;
    assert(f2 * a + f3 * b + f1 * c >= s * m) by (nonlinear_arith)
        requires
            0 <= f1,
            0 <= f2,
            0 <= f3,
            s == f1 + f2 + f3,
            m <= a,
            m <= b,
            m <= c,
    ;
    assert(f2 * a + f3 * b + f1 * c <= s * mx) by (nonlinear_arith)
        requires
            0 <= f1,
            0 <= f2,
            0 <= f3,
            s == f1 + f2 + f3,
            mx >= a,
            mx >= b,
            mx >= c,
    ;
    assert(m <= p) by (nonlinear_arith)
        requires
            p * s >= s * m,
            s > 0,
    ;
    assert(p <= mx) by (nonlinear_arith)
        requires
            p * s <= s * mx,
            s > 0,
    ;
}

/// The point `(px, py)` is the mean of the corners weighted by the edge
/// functions of the opposite edges.
proof fn lemma_barycentric(x1: int, y1: int, x2: int, y2: int, x3: int, y3: int, px: int, py: int)
    ensures
        px * (cross(x1, y1, x2, y2, px, py) + cross(x2, y2, x3, y3, px, py) + cross(
            x3,
            y3,
            x1,
            y1,
            px,
            py,
        )) == cross(x2, y2, x3, y3, px, py) * x1 + cross(x3, y3, x1, y1, px, py) * x2 + cross(
            x1,
            y1,
            x2,
            y2,
            px,
            py,
        ) * x3,
{
    let (a1, a2, a3) = (x1 - px, x2 - px, x3 - px);
    let (b1, b2, b3) = (y1 - py, y2 - py, y3 - py);
    let f1 = cross(x1, y1, x2, y2, px, py);
    let f2 = cross(x2, y2, x3, y3, px, py);
    let f3 = cross(x3, y3, x1, y1, px, py);
    assert(f1 == a2 * b1 - a1 * b2) by (nonlinear_arith)
        requires
            f1 == (y1 - y2) * (x1 - px) + (x1 - x2) * (py - y1),
            a1 == x1 - px,
            a2 == x2 - px,
            b1 == y1 - py,
            b2 == y2 - py,
    ;
    assert(f2 == a3 * b2 - a2 * b3) by (nonlinear_arith)
        requires
            f2 == (y2 - y3) * (x2 - px) + (x2 - x3) * (py - y2),
            a2 == x2 - px,
            a3 == x3 - px,
            b2 == y2 - py,
            b3 == y3 - py,
    ;
    assert(f3 == a1 * b3 - a3 * b1) by (nonlinear_arith)
        requires
            f3 == (y3 - y1) * (x3 - px) + (x3 - x1) * (py - y3),
            a3 == x3 - px,
            a1 == x1 - px,
            b3 == y3 - py,
            b1 == y1 - py,
    ;
    assert(f2 * a1 == a1 * a3 * b2 - a1 * a2 * b3) by (nonlinear_arith)
        requires
            f2 == a3 * b2 - a2 * b3,
    ;
    assert(f3 * a2 == a1 * a2 * b3 - a2 * a3 * b1) by (nonlinear_arith)
        requires
            f3 == a1 * b3 - a3 * b1,
    ;
    assert(f1 * a3 == a2 * a3 * b1 - a1 * a3 * b2) by (nonlinear_arith)
        requires
            f1 == a2 * b1 - a1 * b2,
    ;
    assert(f2 * x1 + f3 * x2 + f1 * x3 == f2 * a1 + f3 * a2 + f1 * a3 + px * (f1 + f2 + f3))
        by (nonlinear_arith)
        requires
            a1 == x1 - px,
            a2 == x2 - px,
            a3 == x3 - px,
    ;
}

/// A covered pixel lies in the bounding box of the triangle's corners.
pub proof fn lemma_covered_in_box(t: [[i32; 2]; 3], px: int, py: int)
    requires
        covered(t, px, py),
    ensures
        min3(tx(t, 0), tx(t, 1), tx(t, 2)) <= px <= max3(tx(t, 0), tx(t, 1), tx(t, 2)),
        min3(ty(t, 0), ty(t, 1), ty(t, 2)) <= py <= max3(ty(t, 0), ty(t, 1), ty(t, 2)),
{
    let (x1, y1, x2, y2, x3, y3) = (tx(t, 0), ty(t, 0), tx(t, 1), ty(t, 1), tx(t, 2), ty(t, 2));
    lemma_edge_cross(x1, y1, x2, y2, px, py);
    lemma_edge_cross(x2, y2, x3, y3, px, py);
    lemma_edge_cross(x3, y3, x1, y1, px, py);
    let f1 = cross(x1, y1, x2, y2, px, py);
    let f2 = cross(x2, y2, x3, y3, px, py);
    let f3 = cross(x3, y3, x1, y1, px, py);
    assert(f1 >= 0 && f2 >= 0 && f3 >= 0);
    if f1 + f2 + f3 == 0 {
        assert(edge_bias(x1, y1, x2, y2) == 1);
        assert(edge_bias(x2, y2, x3, y3) == 1);
        assert(edge_bias(x3, y3, x1, y1) == 1);
        assert(false);
    }
    lemma_barycentric(x1, y1, x2, y2, x3, y3, px, py);
    lemma_barycentric(y1, x1, y2, x2, y3, x3, py, px);
    assert(cross(y1, x1, y2, x2, py, px) == -f1) by (nonlinear_arith)
        requires
            f1 == cross(x1, y1, x2, y2, px, py),
    ;
    assert(cross(y2, x2, y3, x3, py, px) == -f2) by (nonlinear_arith)
        requires
            f2 == cross(x2, y2, x3, y3, px, py),
    ;
    assert(cross(y3, x3, y1, x1, py, px) == -f3) by (nonlinear_arith)
        requires
            f3 == cross(x3, y3, x1, y1, px, py),
    ;
    assert(py * (f1 + f2 + f3) == f2 * y1 + f3 * y2 + f1 * y3) by (nonlinear_arith)
        requires
            py * (-f1 + -f2 + -f3) == -f2 * y1 + -f3 * y2 + -f1 * y3,
    ;
    lemma_weighted_mean(f1, f2, f3, x1, x2, x3, px);
    lemma_weighted_mean(f1, f2, f3, y1, y2, y3, py);
}

proof fn lemma_contains_concat(a: Seq<(i32, i32)>, b: Seq<(i32, i32)>, q: (i32, i32))
    ensures
        (a + b).contains(q) == (a.contains(q) || b.contains(q)),
{
    let s = a + b;
    if s.contains(q) {
        let k = choose|k: int| 0 <= k < s.len() && s[k] == q;
        if k < a.len() {
            assert(a[k] == q);
        } else {
            assert(b[k - a.len()] == q);
        }
    }
    if a.contains(q) {
        let k = choose|k: int| 0 <= k < a.len() && a[k] == q;
        assert(s[k] == q);
    }
    if b.contains(q) {
        let k = choose|k: int| 0 <= k < b.len() && b[k] == q;
        assert(s[k + a.len()] == q);
    }
}

/// How `align_down` meets a multiple `x` of the block size.
proof fn lemma_align(v: int, x: int)
    requires
        x % 8 == 0,
    ensures
        align_down(v) % 8 == 0,
        align_down(v) <= v < align_down(v) + 8,
        x <= v ==> x <= align_down(v),
        x <= v <= x + 7 ==> align_down(v) == x,
        v < x ==> align_down(v) < x,
{
    vstd::arithmetic::div_mod::lemma_fundamental_div_mod(v, 8);
    vstd::arithmetic::div_mod::lemma_mod_bound(v, 8);
    vstd::arithmetic::div_mod::lemma_fundamental_div_mod(x, 8);
    let q = v / 8;
    vstd::arithmetic::div_mod::lemma_fundamental_div_mod_converse(8 * q, 8, q, 0);
}

/// A pixel of the frame that the triangle covers.
pub open spec fn good_fragment(t: [[i32; 2]; 3], q: (i32, i32)) -> bool {
    on_screen(q.0 as int, q.1 as int) && covered(t, q.0 as int, q.1 as int)
}

proof fn lemma_row_off(t: [[i32; 2]; 3], x: int, py: int, i: int, skipped: int)
    requires
        0 <= i <= 8,
        forall|j: int| i <= j < 8 ==> !#[trigger] on_screen(x + j, py),
    ensures
        row_frags(t, x, py, i, skipped) == Seq::<(i32, i32)>::empty(),
    decreases 8 - i,
{
    if i < 8 {
        assert(!on_screen(x + i, py));
        lemma_row_off(t, x, py, i + 1, skipped);
        lemma_row_off(t, x, py, i + 1, skipped + 1);
    }
}

/// A block row lies wholly inside the frame or wholly outside it, for blocks are
/// aligned to multiples of 8 and so are the frame's sides. Hence the scan yields
/// exactly the covered pixels of the frame in the row.
proof fn lemma_row_direct(t: [[i32; 2]; 3], x: int, py: int, i: int)
    requires
        0 <= i <= 8,
        x % 8 == 0,
    ensures
        forall|q: (i32, i32)|
            #[trigger] row_frags(t, x, py, i, 0).contains(q) == (q.1 as int == py && x + i <= q.0
                <= x + 7 && good_fragment(t, q)),
    decreases 8 - i,
{
    vstd::arithmetic::div_mod::lemma_fundamental_div_mod(x, 8);
    if !(0 <= py < 800 && 0 <= x && x + 7 < 800) {
        assert forall|j: int| i <= j < 8 implies !#[trigger] on_screen(x + j, py) by {}
        lemma_row_off(t, x, py, i, 0);
        assert forall|q: (i32, i32)|
            #[trigger] row_frags(t, x, py, i, 0).contains(q) == (q.1 as int == py && x + i <= q.0
                <= x + 7 && good_fragment(t, q)) by {
            assert(!row_frags(t, x, py, i, 0).contains(q));
        }
    } else if i < 8 {
        lemma_row_direct(t, x, py, i + 1);
        let rest = row_frags(t, x, py, i + 1, 0);
        if covered(t, x + i, py) {
            assert(on_screen(x + i, py));
            let head = seq![((x + i) as i32, py as i32)];
            assert forall|q: (i32, i32)|
                #[trigger] row_frags(t, x, py, i, 0).contains(q) == (q.1 as int == py && x + i
                    <= q.0 <= x + 7 && good_fragment(t, q)) by {
                lemma_contains_concat(head, rest, q);
                if head.contains(q) {
                    let k = choose|k: int| 0 <= k < head.len() && head[k] == q;
                    assert(k == 0);
                }
                if q == ((x + i) as i32, py as i32) {
                    assert(head[0] == q);
                }
            }
        } else {
            assert forall|q: (i32, i32)|
                #[trigger] row_frags(t, x, py, i, 0).contains(q) == (q.1 as int == py && x + i
                    <= q.0 <= x + 7 && good_fragment(t, q)) by {
                assert(rest.contains(q) == (q.1 as int == py && x + i + 1 <= q.0 <= x + 7
                    && good_fragment(t, q)));
            }
        }
    } else {
        assert forall|q: (i32, i32)|
            #[trigger] row_frags(t, x, py, i, 0).contains(q) == (q.1 as int == py && x + i <= q.0
                <= x + 7 && good_fragment(t, q)) by {
            assert(!row_frags(t, x, py, i, 0).contains(q));
        }
    }
}

proof fn lemma_block_direct(t: [[i32; 2]; 3], x: int, y: int, r: int)
    requires
        0 <= r <= 8,
        x % 8 == 0,
    ensures
        forall|q: (i32, i32)|
            #[trigger] block_rows(t, x, y, r).contains(q) == (y + r <= q.1 <= y + 7 && x <= q.0
                <= x + 7 && good_fragment(t, q)),
    decreases 8 - r,
{
    if r < 8 {
        lemma_block_direct(t, x, y, r + 1);
        lemma_row_direct(t, x, y + r, 0);
        assert forall|q: (i32, i32)|
            #[trigger] block_rows(t, x, y, r).contains(q) == (y + r <= q.1 <= y + 7 && x <= q.0
                <= x + 7 && good_fragment(t, q)) by {
            lemma_contains_concat(row_frags(t, x, y + r, 0, 0), block_rows(t, x, y, r + 1), q);
        }
    } else {
        assert forall|q: (i32, i32)|
            #[trigger] block_rows(t, x, y, r).contains(q) == (y + r <= q.1 <= y + 7 && x <= q.0
                <= x + 7 && good_fragment(t, q)) by {
            assert(!block_rows(t, x, y, r).contains(q));
        }
    }
}

proof fn lemma_band_direct(t: [[i32; 2]; 3], x: int, y: int, max_x: int)
    requires
        x % 8 == 0,
    ensures
        forall|q: (i32, i32)|
            #[trigger] band(t, x, y, max_x).contains(q) == (y <= q.1 <= y + 7 && x <= q.0
                && align_down(q.0 as int) < max_x && good_fragment(t, q)),
    decreases gap(x, max_x),
{
    if x < max_x {
        lemma_band_direct(t, x + 8, y, max_x);
        lemma_block_direct(t, x, y, 0);
        assert forall|q: (i32, i32)|
            #[trigger] band(t, x, y, max_x).contains(q) == (y <= q.1 <= y + 7 && x <= q.0
                && align_down(q.0 as int) < max_x && good_fragment(t, q)) by {
            lemma_contains_concat(block_rows(t, x, y, 0), band(t, x + 8, y, max_x), q);
            lemma_align(q.0 as int, x);
            lemma_align(q.0 as int, x + 8);
        }
    } else {
        assert forall|q: (i32, i32)|
            #[trigger] band(t, x, y, max_x).contains(q) == (y <= q.1 <= y + 7 && x <= q.0
                && align_down(q.0 as int) < max_x && good_fragment(t, q)) by {
            assert(!band(t, x, y, max_x).contains(q));
            lemma_align(q.0 as int, x);
        }
    }
}

proof fn lemma_bands_direct(t: [[i32; 2]; 3], y: int, max_y: int, x0: int, max_x: int)
    requires
        x0 % 8 == 0,
        y % 8 == 0,
    ensures
        forall|q: (i32, i32)|
            #[trigger] bands(t, y, max_y, x0, max_x).contains(q) == (y <= q.1 && align_down(
                q.1 as int,
            ) < max_y && x0 <= q.0 && align_down(q.0 as int) < max_x && good_fragment(t, q)),
    decreases gap(y, max_y),
{
    if y < max_y {
        lemma_bands_direct(t, y + 8, max_y, x0, max_x);
        lemma_band_direct(t, x0, y, max_x);
        assert forall|q: (i32, i32)|
            #[trigger] bands(t, y, max_y, x0, max_x).contains(q) == (y <= q.1 && align_down(
                q.1 as int,
            ) < max_y && x0 <= q.0 && align_down(q.0 as int) < max_x && good_fragment(t, q)) by {
            lemma_contains_concat(band(t, x0, y, max_x), bands(t, y + 8, max_y, x0, max_x), q);
            lemma_align(q.1 as int, y);
            lemma_align(q.1 as int, y + 8);
        }
    } else {
        assert forall|q: (i32, i32)|
            #[trigger] bands(t, y, max_y, x0, max_x).contains(q) == (y <= q.1 && align_down(
                q.1 as int,
            ) < max_y && x0 <= q.0 && align_down(q.0 as int) < max_x && good_fragment(t, q)) by {
            assert(!bands(t, y, max_y, x0, max_x).contains(q));
            lemma_align(q.1 as int, y);
        }
    }
}

/// The scan yields exactly the covered pixels of the frame whose block it visits:
/// those whose block column starts left of the rightmost corner and whose block
/// row starts above the lowest corner. So trivially accepting and rejecting whole
/// blocks by their corners, and the scan's way of stepping along rows, change
/// nothing: the result is the pixel-by-pixel coverage test.
pub proof fn lemma_fragments_are_covered_pixels(t: [[i32; 2]; 3], q: (i32, i32))
    ensures
        triangle_frag_seq(t).contains(q) == (good_fragment(t, q) && align_down(q.0 as int) < max3(
            tx(t, 0),
            tx(t, 1),
            tx(t, 2),
        ) && align_down(q.1 as int) < max3(ty(t, 0), ty(t, 1), ty(t, 2))),
{
    let min_x = min3(tx(t, 0), tx(t, 1), tx(t, 2));
    let min_y = min3(ty(t, 0), ty(t, 1), ty(t, 2));
    lemma_align(min_x, 0);
    lemma_align(min_y, 0);
    lemma_bands_direct(
        t,
        align_down(min_y),
        max3(ty(t, 0), ty(t, 1), ty(t, 2)),
        align_down(min_x),
        max3(tx(t, 0), tx(t, 1), tx(t, 2)),
    );
    if good_fragment(t, q) {
        lemma_covered_in_box(t, q.0 as int, q.1 as int);
    }
}

/// Of the two directions of an edge between distinct corners, exactly one has
/// a positive edge function at any pixel: every pixel lies on exactly one side,
/// and a pixel on the edge itself goes to the side the fill rule's bias favours.
pub proof fn lemma_edge_sides_exclusive(xa: int, ya: int, xb: int, yb: int, px: int, py: int)
    requires
        xa != xb || ya != yb,
    ensures
        (edge_value(xa, ya, xb, yb, px, py) > 0) != (edge_value(xb, yb, xa, ya, px, py) > 0),
{
    lemma_edge_cross(xa, ya, xb, yb, px, py);
    lemma_edge_cross(xb, yb, xa, ya, px, py);
    assert(cross(xb, yb, xa, ya, px, py) == -cross(xa, ya, xb, yb, px, py)) by (nonlinear_arith);
}

/// Two triangles that share an edge, traversed in opposite directions as in a
/// consistently oriented mesh, never yield the same pixel: neighbouring faces
/// neither overlap nor, by the exclusivity of the edge sides, leave a gap on
/// their common edge.
pub proof fn lemma_shared_edge_disjoint(t1: [[i32; 2]; 3], t2: [[i32; 2]; 3], q: (i32, i32))
    requires
        t1[0] == t2[1],
        t1[1] == t2[0],
        t1[0] != t1[1],
    ensures
        !(triangle_frag_seq(t1).contains(q) && triangle_frag_seq(t2).contains(q)),
{
    lemma_fragments_are_covered_pixels(t1, q);
    lemma_fragments_are_covered_pixels(t2, q);
    assert(tx(t1, 0) != tx(t1, 1) || ty(t1, 0) != ty(t1, 1)) by {
        if tx(t1, 0) == tx(t1, 1) && ty(t1, 0) == ty(t1, 1) {
            assert(t1[0] =~= t1[1]);
        }
    }
    lemma_edge_sides_exclusive(tx(t1, 0), ty(t1, 0), tx(t1, 1), ty(t1, 1), q.0 as int, q.1 as int);
}

/// Twice the signed area of the triangle: positive when its corners run
/// anticlockwise on the screen (y pointing down), i.e. when it faces the viewer.
pub open spec fn orientation(t: [[i32; 2]; 3]) -> int {
    cross(tx(t, 0), ty(t, 0), tx(t, 1), ty(t, 1), tx(t, 2), ty(t, 2))
}

/// Only a triangle of positive orientation covers any pixel; one turned away from
/// the viewer, or flat, yields no fragments.
pub proof fn lemma_back_facing_is_empty(t: [[i32; 2]; 3])
    requires
        orientation(t) <= 0,
    ensures
        triangle_frag_seq(t) == Seq::<(i32, i32)>::empty(),
{
    let s = triangle_frag_seq(t);
    if s.len() > 0 {
        let q = s[0];
        assert(s.contains(q));
        lemma_fragments_are_covered_pixels(t, q);
        lemma_covered_orientation(t, q.0 as int, q.1 as int);
        assert(false);
    }
}

/// A covered pixel proves the triangle's orientation positive.
proof fn lemma_covered_orientation(t: [[i32; 2]; 3], px: int, py: int)
    requires
        covered(t, px, py),
    ensures
        orientation(t) > 0,
{
    let (x1, y1, x2, y2, x3, y3) = (tx(t, 0), ty(t, 0), tx(t, 1), ty(t, 1), tx(t, 2), ty(t, 2));
    lemma_edge_cross(x1, y1, x2, y2, px, py);
    lemma_edge_cross(x2, y2, x3, y3, px, py);
    lemma_edge_cross(x3, y3, x1, y1, px, py);
    let f1 = cross(x1, y1, x2, y2, px, py);
    let f2 = cross(x2, y2, x3, y3, px, py);
    let f3 = cross(x3, y3, x1, y1, px, py);
    if f1 + f2 + f3 == 0 {
        assert(edge_bias(x1, y1, x2, y2) == 1);
        assert(edge_bias(x2, y2, x3, y3) == 1);
        assert(edge_bias(x3, y3, x1, y1) == 1);
        assert(false);
    }
    let (a1, a2, a3) = (x1 - px, x2 - px, x3 - px);
    let (b1, b2, b3) = (y1 - py, y2 - py, y3 - py);
    assert(f1 == a2 * b1 - a1 * b2) by (nonlinear_arith)
        requires
            f1 == (y1 - y2) * (x1 - px) + (x1 - x2) * (py - y1),
            a1 == x1 - px,
            a2 == x2 - px,
            b1 == y1 - py,
            b2 == y2 - py,
    ;
    assert(f2 == a3 * b2 - a2 * b3) by (nonlinear_arith)
        requires
            f2 == (y2 - y3) * (x2 - px) + (x2 - x3) * (py - y2),
            a2 == x2 - px,
            a3 == x3 - px,
            b2 == y2 - py,
            b3 == y3 - py,
    ;
    assert(f3 == a1 * b3 - a3 * b1) by (nonlinear_arith)
        requires
            f3 == (y3 - y1) * (x3 - px) + (x3 - x1) * (py - y3),
            a3 == x3 - px,
            a1 == x1 - px,
            b3 == y3 - py,
            b1 == y1 - py,
    ;
    let o = cross(x1, y1, x2, y2, x3, y3);
    assert(o == (b1 - b2) * (a1 - a3) + (a1 - a2) * (b3 - b1)) by {
        assert(y1 - y2 == b1 - b2 && x1 - x3 == a1 - a3 && x1 - x2 == a1 - a2 && y3 - y1 == b3
            - b1);
    }
    assert((b1 - b2) * (a1 - a3) + (a1 - a2) * (b3 - b1) == (a2 * b1 - a1 * b2) + (a3 * b2 - a2
        * b3) + (a1 * b3 - a3 * b1)) by (nonlinear_arith);
}

/// Two triangles that cover the same pixels.
pub open spec fn same_coverage(t1: [[i32; 2]; 3], t2: [[i32; 2]; 3]) -> bool {
    forall|u: int, v: int| #[trigger] covered(t1, u, v) == covered(t2, u, v)
}

proof fn lemma_same_row(t1: [[i32; 2]; 3], t2: [[i32; 2]; 3], x: int, py: int, i: int, skipped: int)
    requires
        same_coverage(t1, t2),
    ensures
        row_frags(t1, x, py, i, skipped) == row_frags(t2, x, py, i, skipped),
    decreases 8 - i,
{
    if i < 8 {
        assert(covered(t1, x + i - skipped, py) == covered(t2, x + i - skipped, py));
        lemma_same_row(t1, t2, x, py, i + 1, skipped);
        lemma_same_row(t1, t2, x, py, i + 1, skipped + 1);
    }
}

proof fn lemma_same_block(t1: [[i32; 2]; 3], t2: [[i32; 2]; 3], x: int, y: int, r: int)
    requires
        same_coverage(t1, t2),
    ensures
        block_rows(t1, x, y, r) == block_rows(t2, x, y, r),
    decreases 8 - r,
{
    if r < 8 {
        lemma_same_row(t1, t2, x, y + r, 0, 0);
        lemma_same_block(t1, t2, x, y, r + 1);
    }
}

proof fn lemma_same_band(t1: [[i32; 2]; 3], t2: [[i32; 2]; 3], x: int, y: int, max_x: int)
    requires
        same_coverage(t1, t2),
    ensures
        band(t1, x, y, max_x) == band(t2, x, y, max_x),
    decreases gap(x, max_x),
{
    if x < max_x {
        lemma_same_block(t1, t2, x, y, 0);
        lemma_same_band(t1, t2, x + 8, y, max_x);
    }
}

proof fn lemma_same_bands(
    t1: [[i32; 2]; 3],
    t2: [[i32; 2]; 3],
    y: int,
    max_y: int,
    x0: int,
    max_x: int,
)
    requires
        same_coverage(t1, t2),
    ensures
        bands(t1, y, max_y, x0, max_x) == bands(t2, y, max_y, x0, max_x),
    decreases gap(y, max_y),
{
    if y < max_y {
        lemma_same_band(t1, t2, x0, y, max_x);
        lemma_same_bands(t1, t2, y + 8, max_y, x0, max_x);
    }
}

/// Which corner a triangle lists first does not matter: turning its corner list
/// round yields the very same fragments, in the same order.
pub proof fn lemma_rotation_invariant(t: [[i32; 2]; 3], r: [[i32; 2]; 3])
    requires
        r[0] == t[1],
        r[1] == t[2],
        r[2] == t[0],
    ensures
        triangle_frag_seq(r) == triangle_frag_seq(t),
{
    assert forall|u: int, v: int| #[trigger] covered(t, u, v) == covered(r, u, v) by {}
    lemma_same_bands(
        t,
        r,
        align_down(min3(ty(t, 0), ty(t, 1), ty(t, 2))),
        max3(ty(t, 0), ty(t, 1), ty(t, 2)),
        align_down(min3(tx(t, 0), tx(t, 1), tx(t, 2))),
        max3(tx(t, 0), tx(t, 1), tx(t, 2)),
    );
}

/// A pixel is a fragment of a triangle exactly when it lies in the 800 by 800
/// frame, the three edge functions of the triangle (the fill rule's bias
/// included) are positive at it, and the 8 by 8 block holding it starts left of
/// the rightmost corner and above the lowest one, whatever the triangle's size.
pub proof fn lemma_fragment_iff_edges_positive(t: [[i32; 2]; 3], q: (i32, i32))
    ensures
        triangle_frag_seq(t).contains(q) == ({
            let (x1, y1, x2, y2, x3, y3) = (t[0][0] as int, t[0][1] as int, t[1][0] as int, t[1][1] as int, t[2][0] as int, t[2][1] as int);
            let (px, py) = (q.0 as int, q.1 as int);
            &&& 0 <= px < 800
            &&& 0 <= py < 800
            &&& (16 * (y1 - y2)) * (16 * x1) - (16 * (x1 - x2)) * (16 * y1) + (if y1 < y2 || (y1 == y2 && x1 > x2) { 1int } else { 0int }) + (16 * (x1 - x2)) * (16 * py) - (16 * (y1 - y2)) * (16 * px) > 0
            &&& (16 * (y2 - y3)) * (16 * x2) - (16 * (x2 - x3)) * (16 * y2) + (if y2 < y3 || (y2 == y3 && x2 > x3) { 1int } else { 0int }) + (16 * (x2 - x3)) * (16 * py) - (16 * (y2 - y3)) * (16 * px) > 0
            &&& (16 * (y3 - y1)) * (16 * x3) - (16 * (x3 - x1)) * (16 * y3) + (if y3 < y1 || (y3 == y1 && x3 > x1) { 1int } else { 0int }) + (16 * (x3 - x1)) * (16 * py) - (16 * (y3 - y1)) * (16 * px) > 0
            &&& (px - px % 8 < x1 || px - px % 8 < x2 || px - px % 8 < x3)
            &&& (py - py % 8 < y1 || py - py % 8 < y2 || py - py % 8 < y3)
        }),
{
    lemma_fragments_are_covered_pixels(t, q);
}

/// The scan's fragments are pairwise distinct pixels of the frame.
pub proof fn lemma_fragments_distinct_in_frame(t: [[i32; 2]; 3])
    ensures
        forall|i: int, j: int|
            0 <= i < j < triangle_frag_seq(t).len() ==> triangle_frag_seq(t)[i]
                != triangle_frag_seq(t)[j],
        forall|i: int|
            0 <= i < triangle_frag_seq(t).len() ==> 0 <= #[trigger] triangle_frag_seq(t)[i].0 < 800
                && 0 <= triangle_frag_seq(t)[i].1 < 800,
{
    lemma_fragments_distinct_on_screen(t);
    let s = triangle_frag_seq(t);
    assert forall|i: int| 0 <= i < s.len() implies 0 <= #[trigger] s[i].0 < 800 && 0 <= s[i].1
        < 800 by {
        assert(on_screen(s[i].0 as int, s[i].1 as int));
    }
}

} // verus!
