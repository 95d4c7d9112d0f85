use graphics::buffer::{line_cells, ScreenBuffer2D};

fn cells_with(buf: &ScreenBuffer2D<u8>, v: u8) -> Vec<(usize, usize)> {
    let mut out = Vec::new();
    for y in 0..buf.height {
        for x in 0..buf.width {
            if buf.back[y * buf.width + x] == v {
                out.push((x, y));
            }
        }
    }
    out
}

#[test]
fn new_buffer_holds_defaults() {
    let buf: ScreenBuffer2D<u8> = ScreenBuffer2D::new(4, 3);
    assert_eq!(buf.width(), 4);
    assert_eq!(buf.height(), 3);
    assert_eq!(buf.front, vec![0u8; 12]);
    assert_eq!(buf.back, vec![0u8; 12]);
}

#[test]
fn idx_is_row_major_inside_the_grid() {
    let buf: ScreenBuffer2D<u8> = ScreenBuffer2D::new(4, 3);
    assert_eq!(buf.idx(0, 0), Some(0));
    assert_eq!(buf.idx(2, 1), Some(6));
    assert_eq!(buf.idx(3, 2), Some(11));
    assert_eq!(buf.idx(4, 0), None);
    assert_eq!(buf.idx(0, 3), None);
}

#[test]
fn put_writes_one_cell_and_ignores_outside() {
    let mut buf: ScreenBuffer2D<u8> = ScreenBuffer2D::new(3, 2);
    buf.put(7, 1, 1);
    assert_eq!(buf.back, vec![0, 0, 0, 0, 7, 0]);
    buf.put(9, 3, 0);
    buf.put(9, 0, 2);
    assert_eq!(buf.back, vec![0, 0, 0, 0, 7, 0]);
    assert_eq!(buf.front, vec![0u8; 6]);
}

#[test]
fn fill_and_clear_touch_every_cell() {
    let mut buf: ScreenBuffer2D<u8> = ScreenBuffer2D::new(2, 2);
    buf.fill(5);
    assert_eq!(buf.back, vec![5u8; 4]);
    buf.clear();
    assert_eq!(buf.back, vec![0u8; 4]);
}

#[test]
fn fill_bound_is_clipped_to_the_grid() {
    let mut buf: ScreenBuffer2D<u8> = ScreenBuffer2D::new(4, 3);
    buf.fill_bound(1, 2, 1, 5, 5);
    assert_eq!(cells_with(&buf, 1), vec![(2, 1), (3, 1), (2, 2), (3, 2)]);
}

#[test]
fn horizontal_line_covers_its_cells() {
    let mut buf: ScreenBuffer2D<u8> = ScreenBuffer2D::new(5, 2);
    buf.line(1, 0, 0, 3, 0);
    assert_eq!(cells_with(&buf, 1), vec![(0, 0), (1, 0), (2, 0), (3, 0)]);
}

#[test]
fn steep_line_takes_one_cell_a_row() {
    let mut buf: ScreenBuffer2D<u8> = ScreenBuffer2D::new(3, 4);
    buf.line(1, 0, 0, 1, 3);
    assert_eq!(cells_with(&buf, 1), vec![(0, 0), (0, 1), (1, 2), (1, 3)]);
}

#[test]
fn line_drawn_backwards_has_the_same_length() {
    let mut buf: ScreenBuffer2D<u8> = ScreenBuffer2D::new(4, 4);
    buf.line(1, 3, 3, 0, 0);
    assert_eq!(cells_with(&buf, 1), vec![(0, 0), (1, 1), (2, 2), (3, 3)]);
}

#[test]
fn single_point_line() {
    let mut buf: ScreenBuffer2D<u8> = ScreenBuffer2D::new(3, 3);
    buf.line(4, 1, 2, 1, 2);
    assert_eq!(cells_with(&buf, 4), vec![(1, 2)]);
}

#[test]
fn line_skips_cells_off_the_grid() {
    let mut buf: ScreenBuffer2D<u8> = ScreenBuffer2D::new(3, 1);
    buf.line(1, -2, 0, 5, 0);
    assert_eq!(cells_with(&buf, 1), vec![(0, 0), (1, 0), (2, 0)]);
}

#[test]
fn triangle_is_its_three_edges() {
    let mut a: ScreenBuffer2D<u8> = ScreenBuffer2D::new(5, 5);
    a.triangle(1, [0, 0], [4, 0], [0, 4]);
    let mut b: ScreenBuffer2D<u8> = ScreenBuffer2D::new(5, 5);
    b.line(1, 0, 0, 4, 0);
    b.line(1, 4, 0, 0, 4);
    b.line(1, 0, 4, 0, 0);
    assert_eq!(a.back, b.back);
    assert!(cells_with(&a, 1).contains(&(2, 2)));
    assert!(!cells_with(&a, 1).contains(&(1, 1)));
}

#[test]
fn resize_makes_a_fresh_grid() {
    let mut buf: ScreenBuffer2D<u8> = ScreenBuffer2D::new(2, 2);
    buf.fill(3);
    buf.resize(3, 1);
    assert_eq!(buf.width(), 3);
    assert_eq!(buf.height(), 1);
    assert_eq!(buf.back, vec![0u8; 3]);
    assert_eq!(buf.front, vec![0u8; 3]);
}

#[test]
fn swap_exchanges_front_and_back() {
    let mut buf: ScreenBuffer2D<u8> = ScreenBuffer2D::new(2, 1);
    buf.put(8, 0, 0);
    buf.swap();
    assert_eq!(buf.front, vec![8, 0]);
    assert_eq!(buf.back, vec![0, 0]);
    buf.swap();
    assert_eq!(buf.back, vec![8, 0]);
}

#[test]
fn zero_sized_buffer_accepts_drawing() {
    let mut buf: ScreenBuffer2D<u8> = ScreenBuffer2D::new(0, 0);
    buf.put(1, 0, 0);
    buf.line(1, 0, 0, 2, 2);
    buf.fill(2);
    assert!(buf.back.is_empty());
}

#[test]
fn line_cells_walk_from_start_to_end() {
    assert_eq!(line_cells(0, 0, 1, 3), vec![(0, 0), (0, 1), (1, 2), (1, 3)]);
    assert_eq!(line_cells(2, 1, 2, 1), vec![(2, 1)]);
    assert_eq!(line_cells(3, 0, 0, 0), vec![(3, 0), (2, 0), (1, 0), (0, 0)]);
    let cells = line_cells(-5, 7, 9, -2);
    assert_eq!(cells.len(), 15);
    assert_eq!(cells[0], (-5, 7));
    assert_eq!(cells[14], (9, -2));
    for w in cells.windows(2) {
        assert!((w[0].0 - w[1].0).abs() <= 1 && (w[0].1 - w[1].1).abs() <= 1);
    }
}

#[test]
fn line_draws_exactly_its_cells() {
    let mut buf: ScreenBuffer2D<u8> = ScreenBuffer2D::new(6, 6);
    buf.line(1, 5, 1, 0, 4);
    let mut expected: Vec<(usize, usize)> = line_cells(5, 1, 0, 4)
        .into_iter()
        .map(|(x, y)| (x as usize, y as usize))
        .collect();
    expected.sort_by_key(|&(x, y)| (y, x));
    assert_eq!(cells_with(&buf, 1), expected);
}

#[test]
fn fill_bound_with_no_rows_paints_nothing() {
    let mut buf: ScreenBuffer2D<u8> = ScreenBuffer2D::new(2, 2);
    buf.fill_bound(1, usize::MAX, 0, 5, 0);
    assert_eq!(buf.back, vec![0u8; 4]);
}
