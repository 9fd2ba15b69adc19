use vstd::prelude::*;
use vstd::arithmetic::div_mod::lemma_fundamental_div_mod_converse;
use vstd::arithmetic::mul::{lemma_mul_is_distributive_add_other_way, lemma_mul_is_commutative};
use crate::screen::{WIDTH, HEIGHT, pixel_index};

verus! {

/// Distance between two coordinates along one axis.
pub open spec fn span(a: int, b: int) -> int {
    if a > b { a - b } else { b - a }
}

/// The unit step that moves from `a` towards `b` (`-1` when they are equal).
pub open spec fn step_dir(a: int, b: int) -> int {
    if a < b { 1 } else { -1 }
}

/// The number of steps of the line from `(x1, y1)` to `(x2, y2)`: the extent
/// along its major axis. The line has one more point than this.
pub open spec fn line_steps(x1: int, y1: int, x2: int, y2: int) -> int {
    let dx = span(x1, x2);
    let dy = span(y1, y2);
    if dx > dy { dx } else { dy }
}

/// How far the line has moved along its minor axis after `k` steps along its
/// major axis: `ceil((k * minor - major / 2) / major)`, that is `k * minor / major`
/// rounded to the nearest integer, halves rounded down.
pub open spec fn minor_offset(k: int, major: int, minor: int) -> int {
    if major == 0 {
        0
    } else {
        (k * minor - major / 2 + major - 1) / major
    }
}

/// The `k`-th point of the line from `(x1, y1)` to `(x2, y2)`.
/// When the horizontal extent is strictly the larger one, x is the major axis.
pub open spec fn line_point(x1: int, y1: int, x2: int, y2: int, k: int) -> (int, int) {
    let dx = span(x1, x2);
    let dy = span(y1, y2);
    if dx > dy {
        (x1 + step_dir(x1, x2) * k, y1 + step_dir(y1, y2) * minor_offset(k, dx, dy))
    } else {
        (x1 + step_dir(x1, x2) * minor_offset(k, dy, dx), y1 + step_dir(y1, y2) * k)
    }
}

/// A pixel that the line routine draws: strictly inside the frame on its left
/// and top sides (column 0 and row 0 are never drawn) and inside it on the others.
pub open spec fn drawable(x: int, y: int) -> bool {
    0 < x < WIDTH && 0 < y < HEIGHT
}

/// The `m`-th point of the line is drawn, at buffer index `t`.
pub open spec fn plots_at(x1: int, y1: int, x2: int, y2: int, m: int, t: int) -> bool {
    let p = line_point(x1, y1, x2, y2, m);
    drawable(p.0, p.1) && pixel_index(p.0, p.1) == t
}

/// One of the first `count` points of the line is drawn at buffer index `t`.
pub open spec fn hits_before(x1: int, y1: int, x2: int, y2: int, count: int, t: int) -> bool {
    exists|m: int| 0 <= m < count && #[trigger] plots_at(x1, y1, x2, y2, m, t)
}

/// Some point of the line from `(x1, y1)` to `(x2, y2)` is drawn at buffer index `t`.
pub open spec fn line_hits(x1: int, y1: int, x2: int, y2: int, t: int) -> bool {
    hits_before(x1, y1, x2, y2, line_steps(x1, y1, x2, y2) + 1, t)
}

/// Every drawn point of the line has its index inside a buffer of `len` pixels.
pub open spec fn line_fits(x1: int, y1: int, x2: int, y2: int, len: int) -> bool {
    forall|m: int|
        0 <= m <= line_steps(x1, y1, x2, y2) && #[trigger] drawable(
            line_point(x1, y1, x2, y2, m).0,
            line_point(x1, y1, x2, y2, m).1,
        ) ==> pixel_index(line_point(x1, y1, x2, y2, m).0, line_point(x1, y1, x2, y2, m).1) < len
}

/// `after` is `before` with every pixel of the line set to `color`.
pub open spec fn line_drawn(
    before: Seq<u32>,
    after: Seq<u32>,
    x1: int,
    y1: int,
    x2: int,
    y2: int,
    color: u32,
) -> bool {
    &&& after.len() == before.len()
    &&& forall|t: int|
        0 <= t < after.len() ==> #[trigger] after[t] == (if line_hits(x1, y1, x2, y2, t) {
            color
        } else {
            before[t]
        })
}

/// The error term of the stepping, seen along the major axis after `k` steps.
pub open spec fn major_error(k: int, major: int, minor: int) -> int {
    major / 2 - k * minor + minor_offset(k, major, minor) * major
}

/// The error term stays in `[0, major)`, and one step along the major axis moves
/// the minor axis exactly when the error is below `minor`.
proof fn lemma_minor_offset_step(k: int, major: int, minor: int)
    requires
        0 <= minor <= major,
        1 <= major,
        0 <= k,
    ensures
        0 <= major_error(k, major, minor) < major,
        minor_offset(k + 1, major, minor) == minor_offset(k, major, minor) + (if major_error(
            k,
            major,
            minor,
        ) < minor {
            1int
        } else {
            0int
        }),
        major_error(k + 1, major, minor) == major_error(k, major, minor) - minor + (if major_error(
            k,
            major,
            minor,
        ) < minor {
            major
        } else {
            0int
        }),
        0 <= minor_offset(k + 1, major, minor),
        k + 1 <= major ==> minor_offset(k + 1, major, minor) <= minor,
{
    let h = major / 2;
    let v = k * minor - h + major - 1;
    let q = v / major;
    let r = v % major;
    vstd::arithmetic::div_mod::lemma_fundamental_div_mod(v, major);
    vstd::arithmetic::div_mod::lemma_mod_bound(v, major);
    lemma_mul_is_commutative(major, q);
    assert(minor_offset(k, major, minor) == q);
    assert(v == q * major + r);
    assert(0 <= r < major);
    assert(major_error(k, major, minor) == major - 1 - r);
    let v2 = (k + 1) * minor - h + major - 1;
    lemma_mul_is_distributive_add_other_way(minor, k, 1);
    assert(v2 == v + minor);
    lemma_mul_is_distributive_add_other_way(major, q, 1);
    if r + minor < major {
        lemma_fundamental_div_mod_converse(v2, major, q, r + minor);
        assert(minor_offset(k + 1, major, minor) == q);
    } else {
        lemma_fundamental_div_mod_converse(v2, major, q + 1, r + minor - major);
        assert(minor_offset(k + 1, major, minor) == q + 1);
    }
    assert(0 <= (k + 1) * minor) by (nonlinear_arith)
        requires
            0 <= k,
            0 <= minor,
    ;
    vstd::arithmetic::div_mod::lemma_div_pos_is_pos(v2, major);
    if k + 1 <= major {
        let vmax = major * minor - h + major - 1;
        assert((k + 1) * minor <= major * minor) by (nonlinear_arith)
            requires
                k + 1 <= major,
                0 <= minor,
        ;
        vstd::arithmetic::div_mod::lemma_div_is_ordered(v2, vmax, major);
        lemma_minor_offset_ends(major, minor);
    }
}

/// The line starts with no offset along its minor axis and ends exactly on it.
proof fn lemma_minor_offset_ends(major: int, minor: int)
    requires
        0 <= minor <= major,
        1 <= major,
    ensures
        minor_offset(0, major, minor) == 0,
        minor_offset(major, major, minor) == minor,
{
    let h = major / 2;
    lemma_fundamental_div_mod_converse(major - 1 - h, major, 0, major - 1 - h);
    lemma_mul_is_commutative(major, minor);
    lemma_fundamental_div_mod_converse(major * minor - h + major - 1, major, minor, major - 1 - h);
}

/// Being drawn among the first `count + 1` points is being drawn among the first
/// `count` points or being the `count`-th point.
proof fn lemma_hits_extend(x1: int, y1: int, x2: int, y2: int, count: int, t: int)
    requires
        0 <= count,
    ensures
        hits_before(x1, y1, x2, y2, count + 1, t) == (hits_before(x1, y1, x2, y2, count, t)
            || plots_at(x1, y1, x2, y2, count, t)),
{
    if hits_before(x1, y1, x2, y2, count + 1, t) {
        let m = choose|m: int| 0 <= m < count + 1 && #[trigger] plots_at(x1, y1, x2, y2, m, t);
        if m < count {
            assert(hits_before(x1, y1, x2, y2, count, t));
        }
    }
    if hits_before(x1, y1, x2, y2, count, t) {
        let m = choose|m: int| 0 <= m < count && #[trigger] plots_at(x1, y1, x2, y2, m, t);
        assert(0 <= m < count + 1 && plots_at(x1, y1, x2, y2, m, t));
    }
    if plots_at(x1, y1, x2, y2, count, t) {
        assert(0 <= count < count + 1 && plots_at(x1, y1, x2, y2, count, t));
    }
}

/// What drawing a line does to the frame buffer: every point of the line that
/// lies strictly inside the 800 by 800 frame (column 0 and row 0 excluded), and
/// so both end points when they do, is set to the color at index
/// `y * 800 + x`; every pixel that changes is such a point and takes the color.
pub proof fn lemma_line_effect(
    b0: Seq<u32>,
    b1: Seq<u32>,
    x1: int,
    y1: int,
    x2: int,
    y2: int,
    color: u32,
)
    requires
        line_drawn(b0, b1, x1, y1, x2, y2, color),
        line_fits(x1, y1, x2, y2, b0.len() as int),
    ensures
        b1.len() == b0.len(),
        forall|k: int| 0 <= k <= (if (if x1 > x2 { x1 - x2 } else { x2 - x1 }) > (if y1 > y2 { y1 - y2 } else { y2 - y1 }) { (if x1 > x2 { x1 - x2 } else { x2 - x1 }) } else { (if y1 > y2 { y1 - y2 } else { y2 - y1 }) }) && 0 < #[trigger] line_point(x1, y1, x2, y2, k).0 < 800 && 0 < line_point(x1, y1, x2, y2, k).1 < 800
            ==> b1[line_point(x1, y1, x2, y2, k).1 * 800 + line_point(x1, y1, x2, y2, k).0] == color,
        0 < x1 < 800 && 0 < y1 < 800 ==> b1[y1 * 800 + x1] == color,
        0 < x2 < 800 && 0 < y2 < 800 ==> b1[y2 * 800 + x2] == color,
        forall|t: int| 0 <= t < b1.len() && #[trigger] b1[t] != b0[t] ==> b1[t] == color && exists|k: int|
            0 <= k <= (if (if x1 > x2 { x1 - x2 } else { x2 - x1 }) > (if y1 > y2 { y1 - y2 } else { y2 - y1 }) { (if x1 > x2 { x1 - x2 } else { x2 - x1 }) } else { (if y1 > y2 { y1 - y2 } else { y2 - y1 }) }) && 0 < #[trigger] line_point(x1, y1, x2, y2, k).0 < 800 && 0 < line_point(x1, y1, x2, y2, k).1 < 800 && t == line_point(x1, y1, x2, y2, k).1 * 800 + line_point(x1, y1, x2, y2, k).0,
{
    let n = line_steps(x1, y1, x2, y2);
    lemma_line_ends(x1, y1, x2, y2);
    assert forall|k: int| 0 <= k <= n && 0 < #[trigger] line_point(x1, y1, x2, y2, k).0 < 800 && 0
        < line_point(x1, y1, x2, y2, k).1 < 800 implies b1[line_point(x1, y1, x2, y2, k).1 * 800
        + line_point(x1, y1, x2, y2, k).0] == color by {
        let p = line_point(x1, y1, x2, y2, k);
        assert(drawable(p.0, p.1));
        assert(pixel_index(p.0, p.1) >= 0) by (nonlinear_arith)
            requires
                0 < p.0,
                0 < p.1,
        ;
        assert(plots_at(x1, y1, x2, y2, k, p.1 * 800 + p.0));
        assert(line_hits(x1, y1, x2, y2, p.1 * 800 + p.0));
    }
    assert(line_point(x1, y1, x2, y2, 0) == (x1, y1));
    assert(line_point(x1, y1, x2, y2, n) == (x2, y2));
    assert(n >= 0);
    if 0 < x1 < 800 && 0 < y1 < 800 {
        assert(0 < line_point(x1, y1, x2, y2, 0).0 < 800);
    }
    if 0 < x2 < 800 && 0 < y2 < 800 {
        assert(0 < line_point(x1, y1, x2, y2, n).0 < 800);
    }
    assert forall|t: int| 0 <= t < b1.len() && #[trigger] b1[t] != b0[t] implies b1[t] == color
        && exists|k: int|
        0 <= k <= n && 0 < #[trigger] line_point(x1, y1, x2, y2, k).0 < 800 && 0 < line_point(
            x1,
            y1,
            x2,
            y2,
            k,
        ).1 < 800 && t == line_point(x1, y1, x2, y2, k).1 * 800 + line_point(x1, y1, x2, y2, k).0 by {
        assert(line_hits(x1, y1, x2, y2, t));
        let k = choose|m: int| 0 <= m < n + 1 && #[trigger] plots_at(x1, y1, x2, y2, m, t);
        assert(0 <= k <= n && 0 < line_point(x1, y1, x2, y2, k).0 < 800);
    }
}

/// Draws the line from `p1` to `p2` into `buffer`, a row-major frame of `WIDTH`
/// pixels per row, with Bresenham's algorithm. Points outside the frame, and
/// points in column 0 or row 0, are skipped.
pub fn line(buffer: &mut [u32], p1: [i32; 2], p2: [i32; 2], color: u32)
    requires
        line_fits(p1[0] as int, p1[1] as int, p2[0] as int, p2[1] as int, old(buffer)@.len() as int),
    ensures
        line_drawn(
            old(buffer)@,
            final(buffer)@,
            p1[0] as int,
            p1[1] as int,
            p2[0] as int,
            p2[1] as int,
            color,
        ),
        final(buffer)@.len() == old(buffer)@.len(),
        forall|k: int| 0 <= k <= (if (if (p1[0] as int) > (p2[0] as int) { (p1[0] as int) - (p2[0] as int) } else { (p2[0] as int) - (p1[0] as int) }) > (if (p1[1] as int) > (p2[1] as int) { (p1[1] as int) - (p2[1] as int) } else { (p2[1] as int) - (p1[1] as int) }) { (if (p1[0] as int) > (p2[0] as int) { (p1[0] as int) - (p2[0] as int) } else { (p2[0] as int) - (p1[0] as int) }) } else { (if (p1[1] as int) > (p2[1] as int) { (p1[1] as int) - (p2[1] as int) } else { (p2[1] as int) - (p1[1] as int) }) }) && 0 < #[trigger] line_point((p1[0] as int), (p1[1] as int), (p2[0] as int), (p2[1] as int), k).0 < 800 && 0 < line_point((p1[0] as int), (p1[1] as int), (p2[0] as int), (p2[1] as int), k).1 < 800
            ==> final(buffer)@[line_point((p1[0] as int), (p1[1] as int), (p2[0] as int), (p2[1] as int), k).1 * 800 + line_point((p1[0] as int), (p1[1] as int), (p2[0] as int), (p2[1] as int), k).0] == color,
        0 < (p1[0] as int) < 800 && 0 < (p1[1] as int) < 800 ==> final(buffer)@[(p1[1] as int) * 800 + (p1[0] as int)] == color,
        0 < (p2[0] as int) < 800 && 0 < (p2[1] as int) < 800 ==> final(buffer)@[(p2[1] as int) * 800 + (p2[0] as int)] == color,
        forall|t: int| 0 <= t < final(buffer)@.len() && #[trigger] final(buffer)@[t] != old(buffer)@[t] ==> final(buffer)@[t] == color && exists|k: int|
            0 <= k <= (if (if (p1[0] as int) > (p2[0] as int) { (p1[0] as int) - (p2[0] as int) } else { (p2[0] as int) - (p1[0] as int) }) > (if (p1[1] as int) > (p2[1] as int) { (p1[1] as int) - (p2[1] as int) } else { (p2[1] as int) - (p1[1] as int) }) { (if (p1[0] as int) > (p2[0] as int) { (p1[0] as int) - (p2[0] as int) } else { (p2[0] as int) - (p1[0] as int) }) } else { (if (p1[1] as int) > (p2[1] as int) { (p1[1] as int) - (p2[1] as int) } else { (p2[1] as int) - (p1[1] as int) }) }) && 0 < #[trigger] line_point((p1[0] as int), (p1[1] as int), (p2[0] as int), (p2[1] as int), k).0 < 800 && 0 < line_point((p1[0] as int), (p1[1] as int), (p2[0] as int), (p2[1] as int), k).1 < 800 && t == line_point((p1[0] as int), (p1[1] as int), (p2[0] as int), (p2[1] as int), k).1 * 800 + line_point((p1[0] as int), (p1[1] as int), (p2[0] as int), (p2[1] as int), k).0,
{
    let x1 = p1[0];
    let y1 = p1[1];
    let x2 = p2[0];
    let y2 = p2[1];
    let ghost (gx1, gy1, gx2, gy2) = (x1 as int, y1 as int, x2 as int, y2 as int);
    let ghost b0 = buffer@;
    let ghost n = line_steps(gx1, gy1, gx2, gy2);

    let mut x = x1;
    let mut y = y1;

    let dx: i64 = if x1 > x2 { x1 as i64 - x2 as i64 } else { x2 as i64 - x1 as i64 };
    let dy: i64 = if y1 > y2 { y1 as i64 - y2 as i64 } else { y2 as i64 - y1 as i64 };

    let sx: i32 = if x1 < x2 { 1 } else { -1 };
    let sy: i32 = if y1 < y2 { 1 } else { -1 };

    let mut err: i64 = if dx > dy { dx / 2 } else { -(dy / 2) };
    let ghost mut k: int = 0;

    proof {
        if dx > dy {
            lemma_minor_offset_ends(dx as int, dy as int);
        } else if dy > 0 {
            lemma_minor_offset_ends(dy as int, dx as int);
        }
    }

    loop
        invariant_except_break
            0 <= k <= n,
            (x as int, y as int) == line_point(gx1, gy1, gx2, gy2, k),
            dx > dy ==> err == major_error(k, dx as int, dy as int),
            dx <= dy && dy > 0 ==> err == -major_error(k, dy as int, dx as int),
            buffer@.len() == b0.len(),
            forall|t: int|
                0 <= t < b0.len() ==> #[trigger] buffer@[t] == (if hits_before(
                    gx1,
                    gy1,
                    gx2,
                    gy2,
                    k,
                    t,
                ) {
                    color
                } else {
                    b0[t]
                }),
        invariant
            x1 == p1[0],
            y1 == p1[1],
            x2 == p2[0],
            y2 == p2[1],
            gx1 == x1,
            gy1 == y1,
            gx2 == x2,
            gy2 == y2,
            dx == span(gx1, gx2),
            dy == span(gy1, gy2),
            sx == step_dir(gx1, gx2),
            sy == step_dir(gy1, gy2),
            n == line_steps(gx1, gy1, gx2, gy2),
            b0 == old(buffer)@,
            line_fits(gx1, gy1, gx2, gy2, b0.len() as int),
            dx > dy ==> minor_offset(dx as int, dx as int, dy as int) == dy,
            dx <= dy && dy > 0 ==> minor_offset(dy as int, dy as int, dx as int) == dx,
        ensures
            line_drawn(b0, buffer@, gx1, gy1, gx2, gy2, color),
        decreases n - k,
    {
        let ghost before = buffer@;
        if x < WIDTH as i32 && y < HEIGHT as i32 && x > 0 && y > 0 {
            assert(drawable(line_point(gx1, gy1, gx2, gy2, k).0, line_point(gx1, gy1, gx2, gy2, k).1));
            buffer[(y as usize) * WIDTH + x as usize] = color;
        }
        assert forall|t: int| 0 <= t < b0.len() implies #[trigger] buffer@[t] == (if hits_before(
            gx1,
            gy1,
            gx2,
            gy2,
            k + 1,
            t,
        ) {
            color
        } else {
            b0[t]
        }) by {
            lemma_hits_extend(gx1, gy1, gx2, gy2, k, t);
            assert(before[t] == (if hits_before(gx1, gy1, gx2, gy2, k, t) {
                color
            } else {
                b0[t]
            }));
        }

        if x == x2 && y == y2 {
            assert(k == n);
            assert(line_drawn(b0, buffer@, gx1, gy1, gx2, gy2, color));
            break;
        }
        let e2 = err;
        proof {
            if dx > dy {
                lemma_minor_offset_step(k, dx as int, dy as int);
            } else {
                lemma_minor_offset_step(k, dy as int, dx as int);
            }
        }

        proof {
            if dx > dy {
                assert(k < dx);
            } else {
                assert(k < dy);
            }
            let cx = if dx > dy { k } else { minor_offset(k, dy as int, dx as int) };
            let nx = if dx > dy { k + 1 } else { minor_offset(k + 1, dy as int, dx as int) };
            let cy = if dx > dy { minor_offset(k, dx as int, dy as int) } else { k };
            let ny = if dx > dy { minor_offset(k + 1, dx as int, dy as int) } else { k + 1 };
            if sx == 1 {
                assert(sx * cx == cx && sx * nx == nx);
            } else {
                assert(sx * cx == -cx && sx * nx == -nx);
            }
            if sy == 1 {
                assert(sy * cy == cy && sy * ny == ny);
            } else {
                assert(sy * cy == -cy && sy * ny == -ny);
            }
        }
        if e2 > -dx {
            err -= dy;
            x += sx;
        }
        if e2 < dy {
            err += dx;
            y += sy;
        }
        proof {
            k = k + 1;
        }
    }
    proof {
        lemma_line_effect(b0, buffer@, gx1, gy1, gx2, gy2, color);
    }
}

/// Some edge of the triangle `a`, `b`, `c` (drawn as the lines `a`-`b`, `b`-`c`
/// and `c`-`a`) is drawn at buffer index `t`.
pub open spec fn edges_hit(tri: [[i32; 2]; 3], t: int) -> bool {
    let a = tri[0];
    let b = tri[1];
    let c = tri[2];
    ||| line_hits(a[0] as int, a[1] as int, b[0] as int, b[1] as int, t)
    ||| line_hits(b[0] as int, b[1] as int, c[0] as int, c[1] as int, t)
    ||| line_hits(c[0] as int, c[1] as int, a[0] as int, a[1] as int, t)
}

/// Every edge of the triangle fits in a buffer of `len` pixels.
pub open spec fn edges_fit(tri: [[i32; 2]; 3], len: int) -> bool {
    let a = tri[0];
    let b = tri[1];
    let c = tri[2];
    &&& line_fits(a[0] as int, a[1] as int, b[0] as int, b[1] as int, len)
    &&& line_fits(b[0] as int, b[1] as int, c[0] as int, c[1] as int, len)
    &&& line_fits(c[0] as int, c[1] as int, a[0] as int, a[1] as int, len)
}

/// A point of the line strictly inside the frame is drawn, at an index inside
/// the buffer.
proof fn lemma_frame_point_hit(x1: int, y1: int, x2: int, y2: int, k: int, len: int)
    requires
        line_fits(x1, y1, x2, y2, len),
        0 <= k <= line_steps(x1, y1, x2, y2),
        0 < line_point(x1, y1, x2, y2, k).0 < 800,
        0 < line_point(x1, y1, x2, y2, k).1 < 800,
    ensures
        line_hits(x1, y1, x2, y2, line_point(x1, y1, x2, y2, k).1 * 800 + line_point(
            x1,
            y1,
            x2,
            y2,
            k,
        ).0),
        0 <= line_point(x1, y1, x2, y2, k).1 * 800 + line_point(x1, y1, x2, y2, k).0 < len,
{
    let p = line_point(x1, y1, x2, y2, k);
    assert(drawable(p.0, p.1));
    assert(p.1 * 800 >= 0) by (nonlinear_arith)
        requires
            0 < p.1,
    ;
    assert(plots_at(x1, y1, x2, y2, k, p.1 * 800 + p.0));
}

/// What drawing a triangle's outline does to the frame buffer: a pixel takes
/// the color exactly when it is drawn by one of the lines from the first corner
/// to the second, from the second to the third and from the third back to the
/// first; every point of each of those lines that lies strictly inside the frame
/// is set to the color; all other pixels keep their value.
pub proof fn lemma_outline_effect(tri: [[i32; 2]; 3], b0: Seq<u32>, b1: Seq<u32>, color: u32)
    requires
        edges_fit(tri, b0.len() as int),
        b1.len() == b0.len(),
        forall|t: int|
            0 <= t < b1.len() ==> #[trigger] b1[t] == (if edges_hit(tri, t) {
                color
            } else {
                b0[t]
            }),
    ensures
        forall|t: int|
            0 <= t < b1.len() ==> #[trigger] b1[t] == (if line_hits((tri[0][0] as int), (tri[0][1] as int), (tri[1][0] as int), (tri[1][1] as int), t)
                || line_hits((tri[1][0] as int), (tri[1][1] as int), (tri[2][0] as int), (tri[2][1] as int), t) || line_hits((tri[2][0] as int), (tri[2][1] as int), (tri[0][0] as int), (tri[0][1] as int), t) {
                color
            } else {
                b0[t]
            }),
        forall|k: int| 0 <= k <= (if (if (tri[0][0] as int) > (tri[1][0] as int) { (tri[0][0] as int) - (tri[1][0] as int) } else { (tri[1][0] as int) - (tri[0][0] as int) }) > (if (tri[0][1] as int) > (tri[1][1] as int) { (tri[0][1] as int) - (tri[1][1] as int) } else { (tri[1][1] as int) - (tri[0][1] as int) }) { (if (tri[0][0] as int) > (tri[1][0] as int) { (tri[0][0] as int) - (tri[1][0] as int) } else { (tri[1][0] as int) - (tri[0][0] as int) }) } else { (if (tri[0][1] as int) > (tri[1][1] as int) { (tri[0][1] as int) - (tri[1][1] as int) } else { (tri[1][1] as int) - (tri[0][1] as int) }) }) && 0 < #[trigger] line_point((tri[0][0] as int), (tri[0][1] as int), (tri[1][0] as int), (tri[1][1] as int), k).0 < 800 && 0 < line_point((tri[0][0] as int), (tri[0][1] as int), (tri[1][0] as int), (tri[1][1] as int), k).1 < 800
            ==> b1[line_point((tri[0][0] as int), (tri[0][1] as int), (tri[1][0] as int), (tri[1][1] as int), k).1 * 800 + line_point((tri[0][0] as int), (tri[0][1] as int), (tri[1][0] as int), (tri[1][1] as int), k).0] == color,
        forall|k: int| 0 <= k <= (if (if (tri[1][0] as int) > (tri[2][0] as int) { (tri[1][0] as int) - (tri[2][0] as int) } else { (tri[2][0] as int) - (tri[1][0] as int) }) > (if (tri[1][1] as int) > (tri[2][1] as int) { (tri[1][1] as int) - (tri[2][1] as int) } else { (tri[2][1] as int) - (tri[1][1] as int) }) { (if (tri[1][0] as int) > (tri[2][0] as int) { (tri[1][0] as int) - (tri[2][0] as int) } else { (tri[2][0] as int) - (tri[1][0] as int) }) } else { (if (tri[1][1] as int) > (tri[2][1] as int) { (tri[1][1] as int) - (tri[2][1] as int) } else { (tri[2][1] as int) - (tri[1][1] as int) }) }) && 0 < #[trigger] line_point((tri[1][0] as int), (tri[1][1] as int), (tri[2][0] as int), (tri[2][1] as int), k).0 < 800 && 0 < line_point((tri[1][0] as int), (tri[1][1] as int), (tri[2][0] as int), (tri[2][1] as int), k).1 < 800
            ==> b1[line_point((tri[1][0] as int), (tri[1][1] as int), (tri[2][0] as int), (tri[2][1] as int), k).1 * 800 + line_point((tri[1][0] as int), (tri[1][1] as int), (tri[2][0] as int), (tri[2][1] as int), k).0] == color,
        forall|k: int| 0 <= k <= (if (if (tri[2][0] as int) > (tri[0][0] as int) { (tri[2][0] as int) - (tri[0][0] as int) } else { (tri[0][0] as int) - (tri[2][0] as int) }) > (if (tri[2][1] as int) > (tri[0][1] as int) { (tri[2][1] as int) - (tri[0][1] as int) } else { (tri[0][1] as int) - (tri[2][1] as int) }) { (if (tri[2][0] as int) > (tri[0][0] as int) { (tri[2][0] as int) - (tri[0][0] as int) } else { (tri[0][0] as int) - (tri[2][0] as int) }) } else { (if (tri[2][1] as int) > (tri[0][1] as int) { (tri[2][1] as int) - (tri[0][1] as int) } else { (tri[0][1] as int) - (tri[2][1] as int) }) }) && 0 < #[trigger] line_point((tri[2][0] as int), (tri[2][1] as int), (tri[0][0] as int), (tri[0][1] as int), k).0 < 800 && 0 < line_point((tri[2][0] as int), (tri[2][1] as int), (tri[0][0] as int), (tri[0][1] as int), k).1 < 800
            ==> b1[line_point((tri[2][0] as int), (tri[2][1] as int), (tri[0][0] as int), (tri[0][1] as int), k).1 * 800 + line_point((tri[2][0] as int), (tri[2][1] as int), (tri[0][0] as int), (tri[0][1] as int), k).0] == color,
{
    let (ax, ay, bx, by, cx, cy) = (tri[0][0] as int, tri[0][1] as int, tri[1][0] as int, tri[1][1] as int, tri[2][0] as int, tri[2][1] as int);
    assert forall|k: int| 0 <= k <= line_steps(ax, ay, bx, by) && 0 < #[trigger] line_point(ax, ay, bx, by, k).0 < 800 && 0 < line_point(ax, ay, bx, by, k).1 < 800 implies b1[line_point(ax, ay, bx, by, k).1 * 800 + line_point(ax, ay, bx, by, k).0] == color by {
        lemma_frame_point_hit(ax, ay, bx, by, k, b0.len() as int);
    }
    assert forall|k: int| 0 <= k <= line_steps(bx, by, cx, cy) && 0 < #[trigger] line_point(bx, by, cx, cy, k).0 < 800 && 0 < line_point(bx, by, cx, cy, k).1 < 800 implies b1[line_point(bx, by, cx, cy, k).1 * 800 + line_point(bx, by, cx, cy, k).0] == color by {
        lemma_frame_point_hit(bx, by, cx, cy, k, b0.len() as int);
    }
    assert forall|k: int| 0 <= k <= line_steps(cx, cy, ax, ay) && 0 < #[trigger] line_point(cx, cy, ax, ay, k).0 < 800 && 0 < line_point(cx, cy, ax, ay, k).1 < 800 implies b1[line_point(cx, cy, ax, ay, k).1 * 800 + line_point(cx, cy, ax, ay, k).0] == color by {
        lemma_frame_point_hit(cx, cy, ax, ay, k, b0.len() as int);
    }
}

/// Draws the outline of the triangle `tri`: the lines from its first corner to
/// its second, from its second to its third and from its third back to its first.
pub fn draw_edges(buffer: &mut [u32], tri: [[i32; 2]; 3], color: u32)
    requires
        edges_fit(tri, old(buffer)@.len() as int),
    ensures
        final(buffer)@.len() == old(buffer)@.len(),
        forall|t: int|
            0 <= t < final(buffer)@.len() ==> #[trigger] final(buffer)@[t] == (if edges_hit(tri, t) {
                color
            } else {
                old(buffer)@[t]
            }),
        forall|t: int|
            0 <= t < final(buffer)@.len() ==> #[trigger] final(buffer)@[t] == (if line_hits((tri[0][0] as int), (tri[0][1] as int), (tri[1][0] as int), (tri[1][1] as int), t)
                || line_hits((tri[1][0] as int), (tri[1][1] as int), (tri[2][0] as int), (tri[2][1] as int), t) || line_hits((tri[2][0] as int), (tri[2][1] as int), (tri[0][0] as int), (tri[0][1] as int), t) {
                color
            } else {
                old(buffer)@[t]
            }),
        forall|k: int| 0 <= k <= (if (if (tri[0][0] as int) > (tri[1][0] as int) { (tri[0][0] as int) - (tri[1][0] as int) } else { (tri[1][0] as int) - (tri[0][0] as int) }) > (if (tri[0][1] as int) > (tri[1][1] as int) { (tri[0][1] as int) - (tri[1][1] as int) } else { (tri[1][1] as int) - (tri[0][1] as int) }) { (if (tri[0][0] as int) > (tri[1][0] as int) { (tri[0][0] as int) - (tri[1][0] as int) } else { (tri[1][0] as int) - (tri[0][0] as int) }) } else { (if (tri[0][1] as int) > (tri[1][1] as int) { (tri[0][1] as int) - (tri[1][1] as int) } else { (tri[1][1] as int) - (tri[0][1] as int) }) }) && 0 < #[trigger] line_point((tri[0][0] as int), (tri[0][1] as int), (tri[1][0] as int), (tri[1][1] as int), k).0 < 800 && 0 < line_point((tri[0][0] as int), (tri[0][1] as int), (tri[1][0] as int), (tri[1][1] as int), k).1 < 800
            ==> final(buffer)@[line_point((tri[0][0] as int), (tri[0][1] as int), (tri[1][0] as int), (tri[1][1] as int), k).1 * 800 + line_point((tri[0][0] as int), (tri[0][1] as int), (tri[1][0] as int), (tri[1][1] as int), k).0] == color,
        forall|k: int| 0 <= k <= (if (if (tri[1][0] as int) > (tri[2][0] as int) { (tri[1][0] as int) - (tri[2][0] as int) } else { (tri[2][0] as int) - (tri[1][0] as int) }) > (if (tri[1][1] as int) > (tri[2][1] as int) { (tri[1][1] as int) - (tri[2][1] as int) } else { (tri[2][1] as int) - (tri[1][1] as int) }) { (if (tri[1][0] as int) > (tri[2][0] as int) { (tri[1][0] as int) - (tri[2][0] as int) } else { (tri[2][0] as int) - (tri[1][0] as int) }) } else { (if (tri[1][1] as int) > (tri[2][1] as int) { (tri[1][1] as int) - (tri[2][1] as int) } else { (tri[2][1] as int) - (tri[1][1] as int) }) }) && 0 < #[trigger] line_point((tri[1][0] as int), (tri[1][1] as int), (tri[2][0] as int), (tri[2][1] as int), k).0 < 800 && 0 < line_point((tri[1][0] as int), (tri[1][1] as int), (tri[2][0] as int), (tri[2][1] as int), k).1 < 800
            ==> final(buffer)@[line_point((tri[1][0] as int), (tri[1][1] as int), (tri[2][0] as int), (tri[2][1] as int), k).1 * 800 + line_point((tri[1][0] as int), (tri[1][1] as int), (tri[2][0] as int), (tri[2][1] as int), k).0] == color,
        forall|k: int| 0 <= k <= (if (if (tri[2][0] as int) > (tri[0][0] as int) { (tri[2][0] as int) - (tri[0][0] as int) } else { (tri[0][0] as int) - (tri[2][0] as int) }) > (if (tri[2][1] as int) > (tri[0][1] as int) { (tri[2][1] as int) - (tri[0][1] as int) } else { (tri[0][1] as int) - (tri[2][1] as int) }) { (if (tri[2][0] as int) > (tri[0][0] as int) { (tri[2][0] as int) - (tri[0][0] as int) } else { (tri[0][0] as int) - (tri[2][0] as int) }) } else { (if (tri[2][1] as int) > (tri[0][1] as int) { (tri[2][1] as int) - (tri[0][1] as int) } else { (tri[0][1] as int) - (tri[2][1] as int) }) }) && 0 < #[trigger] line_point((tri[2][0] as int), (tri[2][1] as int), (tri[0][0] as int), (tri[0][1] as int), k).0 < 800 && 0 < line_point((tri[2][0] as int), (tri[2][1] as int), (tri[0][0] as int), (tri[0][1] as int), k).1 < 800
            ==> final(buffer)@[line_point((tri[2][0] as int), (tri[2][1] as int), (tri[0][0] as int), (tri[0][1] as int), k).1 * 800 + line_point((tri[2][0] as int), (tri[2][1] as int), (tri[0][0] as int), (tri[0][1] as int), k).0] == color,
{
    let ghost b0 = buffer@;
    let a = tri[0];
    let b = tri[1];
    let c = tri[2];
    line(buffer, a, b, color);
    let ghost b1 = buffer@;
    line(buffer, b, c, color);
    let ghost b2 = buffer@;
    line(buffer, c, a, color);
    assert forall|t: int| 0 <= t < buffer@.len() implies #[trigger] buffer@[t] == (if edges_hit(
        tri,
        t,
    ) {
        color
    } else {
        b0[t]
    }) by {
        assert(b1[t] == (if line_hits(a[0] as int, a[1] as int, b[0] as int, b[1] as int, t) {
            color
        } else {
            b0[t]
        }));
        assert(b2[t] == (if line_hits(b[0] as int, b[1] as int, c[0] as int, c[1] as int, t) {
            color
        } else {
            b1[t]
        }));
    }
    proof {
        lemma_outline_effect(tri, b0, buffer@, color);
    }
}

/// The minor-axis offset after `k` of the `major` steps lies between 0 and `minor`.
proof fn lemma_minor_offset_range(k: int, major: int, minor: int)
    requires
        0 <= minor <= major,
        1 <= major,
        0 <= k <= major,
    ensures
        0 <= minor_offset(k, major, minor) <= minor,
{
    if k == 0 {
        lemma_minor_offset_ends(major, minor);
    } else {
        lemma_minor_offset_step(k - 1, major, minor);
    }
}

/// A line starts at its first end point and ends at its second.
pub proof fn lemma_line_ends(x1: int, y1: int, x2: int, y2: int)
    ensures
        line_point(x1, y1, x2, y2, 0) == (x1, y1),
        line_point(x1, y1, x2, y2, line_steps(x1, y1, x2, y2)) == (x2, y2),
{
    let dx = span(x1, x2);
    let dy = span(y1, y2);
    if dx > dy {
        lemma_minor_offset_ends(dx, dy);
    } else if dy > 0 {
        lemma_minor_offset_ends(dy, dx);
    }
    let sx = step_dir(x1, x2);
    let sy = step_dir(y1, y2);
    let n = line_steps(x1, y1, x2, y2);
    assert(sx * dx == (if sx == 1 { dx } else { -dx })) by (nonlinear_arith)
        requires
            sx == 1 || sx == -1,
    ;
    assert(sx * n == (if sx == 1 { n } else { -n })) by (nonlinear_arith)
        requires
            sx == 1 || sx == -1,
    ;
    assert(sy * dy == (if sy == 1 { dy } else { -dy })) by (nonlinear_arith)
        requires
            sy == 1 || sy == -1,
    ;
    assert(sy * n == (if sy == 1 { n } else { -n })) by (nonlinear_arith)
        requires
            sy == 1 || sy == -1,
    ;
}

/// Consecutive points of a line are neighbours: each step moves one pixel along
/// the major axis and at most one along the other, so the line has no gaps.
pub proof fn lemma_line_connected(x1: int, y1: int, x2: int, y2: int, k: int)
    requires
        0 <= k < line_steps(x1, y1, x2, y2),
    ensures
        ({
            let p = line_point(x1, y1, x2, y2, k);
            let q = line_point(x1, y1, x2, y2, k + 1);
            &&& span(p.0, q.0) <= 1
            &&& span(p.1, q.1) <= 1
            &&& (span(p.0, q.0) == 1 || span(p.1, q.1) == 1)
        }),
{
    let dx = span(x1, x2);
    let dy = span(y1, y2);
    let sx = step_dir(x1, x2);
    let sy = step_dir(y1, y2);
    let (cx, nx, cy, ny) = if dx > dy {
        lemma_minor_offset_step(k, dx, dy);
        (k, k + 1, minor_offset(k, dx, dy), minor_offset(k + 1, dx, dy))
    } else {
        lemma_minor_offset_step(k, dy, dx);
        (minor_offset(k, dy, dx), minor_offset(k + 1, dy, dx), k, k + 1)
    };
    if sx == 1 {
        assert(sx * cx == cx && sx * nx == nx);
    } else {
        assert(sx * cx == -cx && sx * nx == -nx);
    }
    if sy == 1 {
        assert(sy * cy == cy && sy * ny == ny);
    } else {
        assert(sy * cy == -cy && sy * ny == -ny);
    }
}

/// Every point of a line lies in the box spanned by its end points.
pub proof fn lemma_line_in_box(x1: int, y1: int, x2: int, y2: int, k: int)
    requires
        0 <= k <= line_steps(x1, y1, x2, y2),
    ensures
        ({
            let p = line_point(x1, y1, x2, y2, k);
            &&& (if x1 <= x2 { x1 <= p.0 <= x2 } else { x2 <= p.0 <= x1 })
            &&& (if y1 <= y2 { y1 <= p.1 <= y2 } else { y2 <= p.1 <= y1 })
        }),
{
    let dx = span(x1, x2);
    let dy = span(y1, y2);
    let sx = step_dir(x1, x2);
    let sy = step_dir(y1, y2);
    let (cx, cy) = if dx > dy {
        lemma_minor_offset_range(k, dx, dy);
        (k, minor_offset(k, dx, dy))
    } else if dy > 0 {
        lemma_minor_offset_range(k, dy, dx);
        (minor_offset(k, dy, dx), k)
    } else {
        (0, 0)
    };
    if sx == 1 {
        assert(sx * cx == cx);
    } else {
        assert(sx * cx == -cx);
    }
    if sy == 1 {
        assert(sy * cy == cy);
    } else {
        assert(sy * cy == -cy);
    }
}

/// Drawing a line a second time changes nothing.
pub proof fn lemma_line_idempotent(
    b0: Seq<u32>,
    b1: Seq<u32>,
    b2: Seq<u32>,
    x1: int,
    y1: int,
    x2: int,
    y2: int,
    color: u32,
)
    requires
        line_drawn(b0, b1, x1, y1, x2, y2, color),
        line_drawn(b1, b2, x1, y1, x2, y2, color),
    ensures
        b2 == b1,
{
    assert(b2 =~= b1);
}

/// A buffer that holds the whole frame has room for every line.
pub proof fn lemma_frame_fits_line(x1: int, y1: int, x2: int, y2: int, len: int)
    requires
        len >= WIDTH * HEIGHT,
    ensures
        line_fits(x1, y1, x2, y2, len),
{
    assert forall|m: int|
        0 <= m <= line_steps(x1, y1, x2, y2) && #[trigger] drawable(
            line_point(x1, y1, x2, y2, m).0,
            line_point(x1, y1, x2, y2, m).1,
        ) implies pixel_index(line_point(x1, y1, x2, y2, m).0, line_point(x1, y1, x2, y2, m).1)
        < len by {
        let p = line_point(x1, y1, x2, y2, m);
        assert(p.1 * 800 <= 799 * 800) by (nonlinear_arith)
            requires
                p.1 < 800,
        ;
    }
}

/// The minor-axis offset is the nearest integer to `k * minor / major`, halves
/// rounded down: `-major <= 2 * (offset * major - k * minor) < major`.
proof fn lemma_minor_offset_nearest(k: int, major: int, minor: int)
    requires
        1 <= major,
    ensures
        -major <= 2 * (minor_offset(k, major, minor) * major - k * minor) < major,
{
    let h = major / 2;
    let v = k * minor - h + major - 1;
    let q = v / major;
    vstd::arithmetic::div_mod::lemma_fundamental_div_mod(v, major);
    vstd::arithmetic::div_mod::lemma_mod_bound(v, major);
    vstd::arithmetic::div_mod::lemma_fundamental_div_mod(major, 2);
    vstd::arithmetic::div_mod::lemma_mod_bound(major, 2);
    lemma_mul_is_commutative(major, q);
    assert(minor_offset(k, major, minor) == q);
}

/// Each point of a line is the pixel nearest to the ideal segment: along the
/// longer axis the `k`-th point is `k` pixels from the start towards the end;
/// along the other axis its distance `j` from the start, towards the end,
/// satisfies `-long <= 2 * (j * long - k * short) < long`, so it is `k * short /
/// long` rounded to the nearest integer, halves rounded down. (When both extents
/// are equal the vertical axis counts as the longer one.) This fixes every point.
pub proof fn lemma_line_nearest(x1: int, y1: int, x2: int, y2: int, k: int)
    requires
        0 <= k <= (if (if x1 > x2 { x1 - x2 } else { x2 - x1 }) > (if y1 > y2 { y1 - y2 } else { y2
            - y1 }) {
            if x1 > x2 { x1 - x2 } else { x2 - x1 }
        } else {
            if y1 > y2 { y1 - y2 } else { y2 - y1 }
        }),
    ensures
        ({
            let dx = if x1 > x2 { x1 - x2 } else { x2 - x1 };
            let dy = if y1 > y2 { y1 - y2 } else { y2 - y1 };
            let p = line_point(x1, y1, x2, y2, k);
            let i = if x1 <= x2 { p.0 - x1 } else { x1 - p.0 };
            let j = if y1 <= y2 { p.1 - y1 } else { y1 - p.1 };
            if dx > dy {
                &&& i == k
                &&& -dx <= 2 * (j * dx - k * dy) < dx
            } else {
                &&& j == k
                &&& dy > 0 ==> -dy <= 2 * (i * dy - k * dx) < dy
                &&& dy == 0 ==> i == 0
            }
        }),
{
    let dx = span(x1, x2);
    let dy = span(y1, y2);
    let sx = step_dir(x1, x2);
    let sy = step_dir(y1, y2);
    let (cx, cy) = if dx > dy {
        lemma_minor_offset_nearest(k, dx, dy);
        (k, minor_offset(k, dx, dy))
    } else {
        if dy > 0 {
            lemma_minor_offset_nearest(k, dy, dx);
        }
        (minor_offset(k, dy, dx), k)
    };
    if sx == 1 {
        assert(sx * cx == cx);
    } else {
        assert(sx * cx == -cx);
    }
    if sy == 1 {
        assert(sy * cy == cy);
    } else {
        assert(sy * cy == -cy);
    }
    if dx > dy && y1 == y2 {
        lemma_minor_offset_range(k, dx, dy);
    }
    if dx <= dy && x1 == x2 && dy > 0 {
        lemma_minor_offset_range(k, dy, dx);
    }
}

} // verus!
