use celi_renderer::triangle::triangle_fragments;
use std::collections::HashSet;

fn edge(xa: i64, ya: i64, xb: i64, yb: i64, px: i64, py: i64) -> i128 {
    let ex = 16 * (xa - xb) as i128;
    let ey = 16 * (ya - yb) as i128;
    let bias = if ya < yb || (ya == yb && xa > xb) { 1 } else { 0 };
    ey * (16 * xa as i128) - ex * (16 * ya as i128) + bias + ex * (16 * py as i128)
        - ey * (16 * px as i128)
}

fn align_down(v: i64) -> i64 {
    v.div_euclid(8) * 8
}

/// The covered pixels of the frame whose block the scan visits, found pixel by pixel.
fn expected_set(t: [[i32; 2]; 3]) -> HashSet<(i32, i32)> {
    let (x1, y1) = (t[0][0] as i64, t[0][1] as i64);
    let (x2, y2) = (t[1][0] as i64, t[1][1] as i64);
    let (x3, y3) = (t[2][0] as i64, t[2][1] as i64);
    let max_x = x1.max(x2).max(x3);
    let max_y = y1.max(y2).max(y3);
    let mut set = HashSet::new();
    for py in 0..800i64 {
        for px in 0..800i64 {
            if edge(x1, y1, x2, y2, px, py) > 0
                && edge(x2, y2, x3, y3, px, py) > 0
                && edge(x3, y3, x1, y1, px, py) > 0
                && align_down(px) < max_x
                && align_down(py) < max_y
            {
                set.insert((px as i32, py as i32));
            }
        }
    }
    set
}

fn check_against_coverage(t: [[i32; 2]; 3]) {
    let frags = triangle_fragments(t);
    let set: HashSet<(i32, i32)> = frags.iter().cloned().collect();
    assert_eq!(set.len(), frags.len(), "a pixel occurs twice");
    assert_eq!(set, expected_set(t));
}

#[test]
fn triangle_small_corner() {
    let frags = triangle_fragments([[0, 0], [0, 4], [4, 0]]);
    let expected: Vec<(i32, i32)> = vec![(0, 0), (1, 0), (2, 0), (3, 0), (0, 1), (1, 1), (2, 1), (0, 2), (1, 2), (0, 3)];
    assert_eq!(frags, expected);
}

#[test]
fn triangle_wrong_winding_is_empty() {
    let frags = triangle_fragments([[0, 0], [4, 0], [0, 4]]);
    let expected: Vec<(i32, i32)> = vec![];
    assert_eq!(frags, expected);
}

#[test]
fn triangle_two_block_columns() {
    let frags = triangle_fragments([[2, 1], [2, 9], [12, 5]]);
    let expected: Vec<(i32, i32)> = vec![(2, 2), (3, 2), (4, 2), (2, 3), (3, 3), (4, 3), (5, 3), (6, 3), (2, 4), (3, 4), (4, 4), (5, 4), (6, 4), (7, 4), (2, 5), (3, 5), (4, 5), (5, 5), (6, 5), (7, 5), (2, 6), (3, 6), (4, 6), (5, 6), (6, 6), (7, 6), (2, 7), (3, 7), (4, 7), (5, 7), (6, 7), (8, 4), (9, 4), (8, 5), (9, 5), (10, 5), (11, 5), (8, 6), (9, 6), (2, 8), (3, 8), (4, 8)];
    assert_eq!(frags, expected);
}

#[test]
fn triangle_clipped_left() {
    let frags = triangle_fragments([[-3, 2], [-3, 6], [3, 4]]);
    let expected: Vec<(i32, i32)> = vec![(0, 4), (1, 4), (2, 4)];
    assert_eq!(frags, expected);
}

#[test]
fn triangle_degenerate_point() {
    let frags = triangle_fragments([[10, 10], [10, 10], [10, 10]]);
    let expected: Vec<(i32, i32)> = vec![];
    assert_eq!(frags, expected);
}

#[test]
fn triangle_clipped_right() {
    let frags = triangle_fragments([[795, 10], [795, 14], [805, 12]]);
    let expected: Vec<(i32, i32)> = vec![(795, 11), (796, 11), (797, 11), (798, 11), (799, 11), (795, 12), (796, 12), (797, 12), (798, 12), (799, 12), (795, 13), (796, 13), (797, 13), (798, 13), (799, 13)];
    assert_eq!(frags, expected);
}

#[test]
fn triangle_large_clipped() {
    let frags = triangle_fragments([[-9, 0], [-9, 30], [20, 15]]);
    let expected: Vec<(i32, i32)> = vec![(0, 5), (0, 6), (1, 6), (2, 6), (0, 7), (1, 7), (2, 7), (3, 7), (4, 7), (0, 8), (1, 8), (2, 8), (3, 8), (4, 8), (5, 8), (6, 8), (0, 9), (1, 9), (2, 9), (3, 9), (4, 9), (5, 9), (6, 9), (7, 9), (0, 10), (1, 10), (2, 10), (3, 10), (4, 10), (5, 10), (6, 10), (7, 10), (0, 11), (1, 11), (2, 11), (3, 11), (4, 11), (5, 11), (6, 11), (7, 11), (0, 12), (1, 12), (2, 12), (3, 12), (4, 12), (5, 12), (6, 12), (7, 12), (0, 13), (1, 13), (2, 13), (3, 13), (4, 13), (5, 13), (6, 13), (7, 13), (0, 14), (1, 14), (2, 14), (3, 14), (4, 14), (5, 14), (6, 14), (7, 14), (0, 15), (1, 15), (2, 15), (3, 15), (4, 15), (5, 15), (6, 15), (7, 15), (8, 9), (8, 10), (9, 10), (10, 10), (8, 11), (9, 11), (10, 11), (11, 11), (12, 11), (8, 12), (9, 12), (10, 12), (11, 12), (12, 12), (13, 12), (14, 12), (8, 13), (9, 13), (10, 13), (11, 13), (12, 13), (13, 13), (14, 13), (15, 13), (8, 14), (9, 14), (10, 14), (11, 14), (12, 14), (13, 14), (14, 14), (15, 14), (8, 15), (9, 15), (10, 15), (11, 15), (12, 15), (13, 15), (14, 15), (15, 15), (16, 13), (16, 14), (17, 14), (18, 14), (16, 15), (17, 15), (18, 15), (19, 15), (0, 16), (1, 16), (2, 16), (3, 16), (4, 16), (5, 16), (6, 16), (7, 16), (0, 17), (1, 17), (2, 17), (3, 17), (4, 17), (5, 17), (6, 17), (7, 17), (0, 18), (1, 18), (2, 18), (3, 18), (4, 18), (5, 18), (6, 18), (7, 18), (0, 19), (1, 19), (2, 19), (3, 19), (4, 19), (5, 19), (6, 19), (7, 19), (0, 20), (1, 20), (2, 20), (3, 20), (4, 20), (5, 20), (6, 20), (7, 20), (0, 21), (1, 21), (2, 21), (3, 21), (4, 21), (5, 21), (6, 21), (7, 21), (0, 22), (1, 22), (2, 22), (3, 22), (4, 22), (5, 22), (6, 22), (0, 23), (1, 23), (2, 23), (3, 23), (4, 23), (8, 16), (9, 16), (10, 16), (11, 16), (12, 16), (13, 16), (14, 16), (15, 16), (8, 17), (9, 17), (10, 17), (11, 17), (12, 17), (13, 17), (14, 17), (15, 17), (8, 18), (9, 18), (10, 18), (11, 18), (12, 18), (13, 18), (14, 18), (8, 19), (9, 19), (10, 19), (11, 19), (12, 19), (8, 20), (9, 20), (10, 20), (8, 21), (16, 16), (17, 16), (18, 16), (16, 17), (0, 24), (1, 24), (2, 24), (0, 25)];
    assert_eq!(frags, expected);
}


#[test]
fn triangle_matches_pixel_coverage() {
    let mut seed: u64 = 12345;
    let mut next = || {
        seed = seed.wrapping_mul(6364136223846793005).wrapping_add(1442695040888963407);
        ((seed >> 33) % 900) as i32 - 50
    };
    for _ in 0..12 {
        let t = [[next(), next()], [next(), next()], [next(), next()]];
        check_against_coverage(t);
    }
}

#[test]
fn triangle_both_windings_cover_fixed_shapes() {
    check_against_coverage([[0, 0], [0, 4], [4, 0]]);
    check_against_coverage([[100, 100], [100, 300], [400, 200]]);
    check_against_coverage([[100, 100], [400, 200], [100, 300]]);
    check_against_coverage([[-40, -40], [-40, 900], [900, 300]]);
    check_against_coverage([[795, 10], [795, 14], [805, 12]]);
    check_against_coverage([[5, 5], [5, 5], [9, 9]]);
}

#[test]
fn triangle_off_screen_yields_nothing() {
    assert!(triangle_fragments([[-100, -100], [-100, -50], [-50, -75]]).is_empty());
    assert!(triangle_fragments([[900, 10], [900, 50], [950, 30]]).is_empty());
}

#[test]
fn triangle_shared_edge_is_not_drawn_twice() {
    // Two triangles that share the edge from (10, 10) to (30, 30).
    let a = triangle_fragments([[10, 10], [10, 30], [30, 30]]);
    let b = triangle_fragments([[10, 10], [30, 30], [30, 10]]);
    let sa: HashSet<(i32, i32)> = a.into_iter().collect();
    let sb: HashSet<(i32, i32)> = b.into_iter().collect();
    assert!(sa.is_disjoint(&sb));
}

#[test]
fn triangle_rotation_same_fragments() {
    let t = [[2, 1], [2, 9], [12, 5]];
    let r = [[2, 9], [12, 5], [2, 1]];
    assert_eq!(triangle_fragments(t), triangle_fragments(r));
    let t = [[-40, -40], [-40, 900], [900, 300]];
    let r = [[-40, 900], [900, 300], [-40, -40]];
    assert_eq!(triangle_fragments(t), triangle_fragments(r));
}

#[test]
fn triangle_back_facing_is_empty() {
    assert!(triangle_fragments([[2, 1], [12, 5], [2, 9]]).is_empty());
    assert!(triangle_fragments([[100, 100], [200, 200], [300, 300]]).is_empty());
}

#[test]
fn triangle_fragments_are_distinct_and_on_screen() {
    let frags = triangle_fragments([[-300, -200], [-250, 1000], [1100, 400]]);
    let set: HashSet<(i32, i32)> = frags.iter().cloned().collect();
    assert_eq!(set.len(), frags.len());
    assert!(frags.iter().all(|&(x, y)| (0..800).contains(&x) && (0..800).contains(&y)));
    assert!(!frags.is_empty());
}
