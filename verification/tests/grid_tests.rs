use pixeditor::color::Color;
use pixeditor::grid::PixelGrid;

fn red() -> Color {
    Color::new(255, 0, 0, 255)
}

fn blue() -> Color {
    Color::new(0, 0, 255, 255)
}

#[test]
fn grid_set_then_get_returns_written_color() {
    let mut g = PixelGrid::new(4, 4);
    g.set(1, 2, Some(red()));
    assert_eq!(g.get(1, 2), Some(red()));
    // every other cell is still unset
    for x in 0..4 {
        for y in 0..4 {
            if (x, y) != (1, 2) {
                assert_eq!(g.get(x, y), None);
            }
        }
    }
}

#[test]
fn grid_out_of_range_get_and_set_are_no_ops() {
    let mut g = PixelGrid::new(3, 3);
    g.set(0, 0, Some(red()));
    // out-of-range writes change nothing and do not panic
    g.set(3, 0, Some(blue()));
    g.set(0, 3, Some(blue()));
    g.set(100, 100, Some(blue()));
    assert_eq!(g.get(3, 0), None);
    assert_eq!(g.get(0, 3), None);
    assert_eq!(g.get(100, 100), None);
    assert_eq!(g.get(0, 0), Some(red()));
    for x in 0..3 {
        for y in 0..3 {
            if (x, y) != (0, 0) {
                assert_eq!(g.get(x, y), None);
            }
        }
    }
}

#[test]
fn grid_overwrite_and_clear_cell() {
    let mut g = PixelGrid::new(2, 2);
    g.set(1, 1, Some(red()));
    g.set(1, 1, Some(blue()));
    assert_eq!(g.get(1, 1), Some(blue()));
    g.set(1, 1, None);
    assert_eq!(g.get(1, 1), None);
}

#[test]
fn neighbors_exclude_row_wraparound() {
    let g = PixelGrid::new(3, 3);
    // middle cell: all four neighbors
    let mut mid = g.neighbors(4);
    mid.sort();
    assert_eq!(mid, vec![1, 3, 5, 7]);
    // top-left corner: only right and down
    let mut corner = g.neighbors(0);
    corner.sort();
    assert_eq!(corner, vec![1, 3]);
    // end of first row: no right neighbor into the next row
    let mut edge = g.neighbors(2);
    edge.sort();
    assert_eq!(edge, vec![1, 5]);
    // start of second row: no left neighbor into the previous row
    let mut edge2 = g.neighbors(3);
    edge2.sort();
    assert_eq!(edge2, vec![0, 4, 6]);
}

#[test]
fn mirror_horizontal_reverses_columns() {
    let mut g = PixelGrid::new(3, 2);
    g.set(0, 0, Some(red()));
    g.set(2, 1, Some(blue()));
    g.mirror_horizontal();
    assert_eq!(g.get(2, 0), Some(red()));
    assert_eq!(g.get(0, 1), Some(blue()));
    assert_eq!(g.get(0, 0), None);
    assert_eq!(g.get(2, 1), None);
}

#[test]
fn mirror_vertical_reverses_rows() {
    let mut g = PixelGrid::new(2, 3);
    g.set(0, 0, Some(red()));
    g.set(1, 2, Some(blue()));
    g.mirror_vertical();
    assert_eq!(g.get(0, 2), Some(red()));
    assert_eq!(g.get(1, 0), Some(blue()));
    assert_eq!(g.get(0, 0), None);
    assert_eq!(g.get(1, 2), None);
}

#[test]
fn flat_buffer_holds_rgba_and_zeros() {
    let mut g = PixelGrid::new(2, 1);
    g.set(1, 0, Some(Color::new(10, 20, 30, 40)));
    let buf = g.to_flat_buffer();
    assert_eq!(buf, vec![0, 0, 0, 0, 10, 20, 30, 40]);
}

#[test]
fn duplicate_is_independent() {
    let mut g = PixelGrid::new(2, 2);
    g.set(0, 1, Some(red()));
    let copy = g.duplicate();
    g.set(0, 1, None);
    assert_eq!(copy.get(0, 1), Some(red()));
    assert_eq!(g.get(0, 1), None);
    assert_eq!(copy.width(), 2);
    assert_eq!(copy.height(), 2);
}

#[test]
fn largest_grid_dimension_works() {
    let mut g = PixelGrid::new(127, 127);
    g.set(126, 126, Some(red()));
    assert_eq!(g.get(126, 126), Some(red()));
    assert_eq!(g.len(), 127 * 127);
}
