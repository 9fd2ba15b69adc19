use celi_renderer::line::draw_edges;
use celi_renderer::screen::{gray_color, FRAME_LEN, HEIGHT, WIDTH};

fn lit(buffer: &[u32], color: u32) -> Vec<(usize, usize)> {
    let mut pts = Vec::new();
    for (i, &c) in buffer.iter().enumerate() {
        if c == color {
            pts.push((i % WIDTH, i / WIDTH));
        }
    }
    pts.sort();
    pts
}

fn sorted(mut v: Vec<(usize, usize)>) -> Vec<(usize, usize)> {
    v.sort();
    v
}

fn draw(p1: [i32; 2], p2: [i32; 2]) -> Vec<(usize, usize)> {
    let mut buffer = vec![0u32; FRAME_LEN];
    celi_renderer::line::line(&mut buffer, p1, p2, 7);
    lit(&buffer, 7)
}

#[test]
fn frame_constants() {
    assert_eq!(WIDTH, 800);
    assert_eq!(HEIGHT, 800);
    assert_eq!(FRAME_LEN, WIDTH * HEIGHT);
}

#[test]
fn line_shallow() {
    assert_eq!(
        draw([1, 1], [5, 3]),
        sorted(vec![(1, 1), (2, 1), (3, 2), (4, 2), (5, 3)])
    );
}

#[test]
fn line_shallow_reversed_rounds_the_other_way() {
    assert_eq!(
        draw([5, 3], [1, 1]),
        sorted(vec![(5, 3), (4, 3), (3, 2), (2, 2), (1, 1)])
    );
}

#[test]
fn line_steep() {
    assert_eq!(
        draw([3, 10], [5, 2]),
        sorted(vec![(3, 10), (3, 9), (3, 8), (4, 7), (4, 6), (4, 5), (4, 4), (5, 3), (5, 2)])
    );
}

#[test]
fn line_diagonal() {
    assert_eq!(draw([10, 10], [13, 13]), vec![(10, 10), (11, 11), (12, 12), (13, 13)]);
}

#[test]
fn line_single_point() {
    assert_eq!(draw([7, 7], [7, 7]), vec![(7, 7)]);
}

#[test]
fn line_skips_column_zero() {
    assert_eq!(draw([0, 5], [4, 5]), vec![(1, 5), (2, 5), (3, 5), (4, 5)]);
}

#[test]
fn line_clipped_at_top_left() {
    assert_eq!(draw([-2, -1], [3, 2]), sorted(vec![(1, 1), (2, 1), (3, 2)]));
}

#[test]
fn line_clipped_at_right() {
    assert_eq!(draw([798, 10], [802, 12]), vec![(798, 10), (799, 10)]);
}

#[test]
fn line_far_outside_draws_nothing() {
    assert_eq!(draw([-100000, -5], [100000, -5]), vec![]);
}

#[test]
fn line_extreme_coordinates() {
    // Differences of far apart coordinates do not overflow.
    let pts = draw([i32::MIN, i32::MIN], [i32::MIN + 3, i32::MIN + 1]);
    assert_eq!(pts, vec![]);
}

#[test]
fn line_keeps_other_pixels() {
    let mut buffer = vec![5u32; FRAME_LEN];
    celi_renderer::line::line(&mut buffer, [1, 1], [3, 1], 9);
    assert_eq!(buffer[WIDTH + 1], 9);
    assert_eq!(buffer[WIDTH + 2], 9);
    assert_eq!(buffer[WIDTH + 3], 9);
    assert_eq!(buffer[WIDTH + 4], 5);
    assert_eq!(buffer[0], 5);
    assert_eq!(buffer.iter().filter(|&&c| c == 9).count(), 3);
}

#[test]
fn line_drawn_twice_is_unchanged() {
    let mut once = vec![0u32; FRAME_LEN];
    celi_renderer::line::line(&mut once, [3, 10], [40, 2], 4);
    let mut twice = once.clone();
    celi_renderer::line::line(&mut twice, [3, 10], [40, 2], 4);
    assert_eq!(once, twice);
}

#[test]
fn line_points_are_connected() {
    let mut pts = draw([2, 3], [50, 20]);
    pts.sort();
    assert_eq!(pts.len(), 49);
    for w in pts.windows(2) {
        assert_eq!(w[1].0, w[0].0 + 1);
        assert!(w[1].1 >= w[0].1 && w[1].1 <= w[0].1 + 1);
    }
    assert_eq!(pts[0], (2, 3));
    assert_eq!(pts[48], (50, 20));
}

#[test]
fn line_short_buffer_untouched_when_line_misses_it() {
    let mut buffer = vec![0u32; 10];
    celi_renderer::line::line(&mut buffer, [5, 0], [9, 0], 1);
    assert_eq!(buffer, vec![0u32; 10]);
}

#[test]
fn draw_edges_outline() {
    let mut buffer = vec![0u32; FRAME_LEN];
    draw_edges(&mut buffer, [[1, 1], [4, 1], [1, 4]], 3);
    assert_eq!(
        lit(&buffer, 3),
        sorted(vec![(1, 1), (2, 1), (3, 1), (4, 1), (3, 2), (2, 3), (1, 4), (1, 3), (1, 2)])
    );
}

#[test]
fn gray_color_values() {
    assert_eq!(gray_color(0), 0x191919);
    assert_eq!(gray_color(200), 0xe1e1e1);
    assert_eq!(gray_color(0xff00 - 25), 0xff00 * 0x010101);
}

#[test]
fn line_stays_in_the_box_of_its_ends() {
    let pts = draw([30, 40], [10, 47]);
    assert_eq!(pts.len(), 21);
    assert!(pts.iter().all(|&(x, y)| (10..=30).contains(&x) && (40..=47).contains(&y)));
    assert!(pts.contains(&(30, 40)) && pts.contains(&(10, 47)));
}
