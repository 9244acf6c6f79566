use pixeditor::color::Color;
use pixeditor::line::get_line_cells;
use pixeditor::line::get_line_pixels;
use pixeditor::line::plot_line_high;
use pixeditor::line::plot_line_low;
use pixeditor::tools::Tool;
use pixeditor::tools::ToolKind;
use pixeditor::grid::PixelGrid;
use pixeditor::tools::compute_affected_cells;
use pixeditor::tools::rect_get_border_pixels;
use pixeditor::tools::rect_get_fill_pixels;

fn red() -> Color {
    Color::new(255, 0, 0, 255)
}

fn blue() -> Color {
    Color::new(0, 0, 255, 255)
}

#[test]
fn same_kind_ignores_carried_parameters() {
    let a = Tool::SinglePixel { color: red() };
    let b = Tool::SinglePixel { color: blue() };
    assert!(a.same_kind(&b));
    assert_eq!(a.kind(), ToolKind::SinglePixel);
    let rb = Tool::RectangleBorder { thickness: 1, color: red() };
    let rf = Tool::RectangleFill { color: red() };
    assert!(!rb.same_kind(&rf));
    assert!(rb.same_kind(&Tool::RectangleBorder { thickness: 3, color: blue() }));
    assert!(rb.is_drag());
    assert!(!Tool::Eraser.is_drag());
    assert!(!Tool::Fill { color: red() }.is_drag());
}

#[test]
fn rect_border_from_origin_to_three_three() {
    // the border of the 4-by-4 sub-square spanned by (0,0) and (3,3)
    let cells = rect_get_border_pixels(0, 0, 3, 3);
    let on_border = |x: u32, y: u32| {
        ((y == 0 || y == 3) && (1..=3).contains(&x)) || ((x == 0 || x == 3) && y <= 3)
    };
    for x in 0..5u32 {
        for y in 0..5u32 {
            assert_eq!(
                cells.contains(&(x, y)),
                on_border(x, y),
                "cell ({}, {})",
                x,
                y
            );
        }
    }
    // the interior stays untouched
    for &(x, y) in &[(1u32, 1u32), (1, 2), (2, 1), (2, 2)] {
        assert!(!cells.contains(&(x, y)));
    }
}

#[test]
fn rect_border_degenerate_stroke_is_empty() {
    assert!(rect_get_border_pixels(2, 0, 2, 3).is_empty());
    assert!(rect_get_border_pixels(0, 2, 3, 2).is_empty());
    assert!(rect_get_border_pixels(1, 1, 1, 1).is_empty());
    assert!(rect_get_fill_pixels(2, 0, 2, 3).is_empty());
    assert!(rect_get_fill_pixels(0, 2, 3, 2).is_empty());
}

#[test]
fn rect_fill_covers_the_whole_rectangle() {
    let cells = rect_get_fill_pixels(1, 1, 3, 2);
    for x in 0..5u32 {
        for y in 0..5u32 {
            let inside = (1..=3).contains(&x) && (1..=2).contains(&y);
            assert_eq!(cells.contains(&(x, y)), inside, "cell ({}, {})", x, y);
        }
    }
}

#[test]
fn line_horizontal_fills_row_range() {
    // shared row: the spanned columns, walked from the smaller column
    let px = get_line_pixels(5, (4, 2), (1, 2));
    assert_eq!(px, vec![11, 12, 13, 14]);
}

#[test]
fn line_vertical_fills_column_range() {
    let px = get_line_pixels(5, (2, 4), (2, 1));
    assert_eq!(px, vec![7, 12, 17, 22]);
}

#[test]
fn line_diagonal_steps_both_axes() {
    let px = get_line_pixels(4, (0, 0), (3, 3));
    assert_eq!(px, vec![0, 5, 10, 15]);
}

#[test]
fn line_shallow_slope_exact_cells() {
    // from (0,0) to (4,1): three cells on row 0, then two on row 1
    let px = get_line_pixels(5, (0, 0), (4, 1));
    assert_eq!(px, vec![0, 1, 2, 8, 9]);
}

#[test]
fn line_endpoint_order_gives_same_cells() {
    let a = get_line_pixels(8, (1, 2), (6, 5));
    let b = get_line_pixels(8, (6, 5), (1, 2));
    assert_eq!(a, b);
    let c = get_line_pixels(8, (2, 1), (5, 7));
    let d = get_line_pixels(8, (5, 7), (2, 1));
    assert_eq!(c, d);
}

#[test]
fn line_single_point_is_one_cell() {
    let px = get_line_pixels(3, (1, 1), (1, 1));
    assert_eq!(px, vec![4]);
}

#[test]
fn plot_line_low_walks_one_cell_per_column() {
    let px = plot_line_low(6, 0, 0, 5, 2);
    assert_eq!(px.len(), 6);
    // one cell per column, rows climbing from 0 to 2
    assert_eq!(px, vec![0, 1, 8, 9, 16, 17]);
}

#[test]
fn plot_line_high_walks_one_cell_per_row() {
    let px = plot_line_high(6, 0, 0, 2, 5);
    assert_eq!(px.len(), 6);
    assert_eq!(px, vec![0, 6, 13, 19, 26, 32]);
}

#[test]
fn line_cells_on_tall_grid_stay_in_bounds() {
    // a 3-wide, 7-tall grid: the pair form handles both axes
    let cells = get_line_cells(3, 7, (0, 0), (2, 6));
    assert_eq!(cells.len(), 7);
    assert_eq!(cells.first(), Some(&(0, 0)));
    assert_eq!(cells.last(), Some(&(2, 6)));
    for &(x, y) in cells.iter() {
        assert!(x < 3 && y < 7);
    }
}

#[test]
fn compute_affected_cells_dispatches_by_tool() {
    let grid = PixelGrid::new(4, 4);
    // click tools affect the current cell alone
    let px = compute_affected_cells(&Tool::SinglePixel { color: red() }, (0, 0), (2, 1), &grid);
    assert_eq!(px, vec![6]);
    let er = compute_affected_cells(&Tool::Eraser, (0, 0), (2, 1), &grid);
    assert_eq!(er, vec![6]);
    // the flood fill reaches the whole blank grid
    let mut fill = compute_affected_cells(&Tool::Fill { color: red() }, (0, 0), (0, 0), &grid);
    fill.sort();
    assert_eq!(fill, (0..16).collect::<Vec<usize>>());
    // a border stroke affects the outline of the spanned rectangle
    let tool = Tool::RectangleBorder { thickness: 1, color: blue() };
    let border = compute_affected_cells(&tool, (0, 0), (2, 2), &grid);
    assert!(border.contains(&1) && border.contains(&4) && border.contains(&10));
    assert!(!border.contains(&5));
    // a line stroke walks the diagonal
    let line = compute_affected_cells(&Tool::Line { color: blue() }, (0, 0), (3, 3), &grid);
    assert_eq!(line, vec![0, 5, 10, 15]);
}
