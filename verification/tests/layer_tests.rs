use pixeditor::color::Color;
use pixeditor::layer::Layer;
use pixeditor::tools::Tool;

fn red() -> Color {
    Color::new(255, 0, 0, 255)
}

fn blue() -> Color {
    Color::new(0, 0, 255, 255)
}

fn green() -> Color {
    Color::new(0, 255, 0, 255)
}

fn snapshot(layer: &Layer) -> Vec<Option<Color>> {
    let w = layer.width();
    let h = layer.height();
    let mut cells = Vec::new();
    for y in 0..h {
        for x in 0..w {
            cells.push(layer.get(x, y));
        }
    }
    cells
}

#[test]
fn single_pixel_click_paints_one_cell_and_undo_clears_it() {
    // 4x4 grid, all unset; the single-pixel tool at (1,1) paints exactly
    // that cell and records one history entry
    let mut layer = Layer::new(0, 4, 4);
    let tool = Tool::SinglePixel { color: red() };
    layer.apply_click(&tool, 1, 1);
    for x in 0..4 {
        for y in 0..4 {
            if (x, y) == (1, 1) {
                assert_eq!(layer.get(x, y), Some(red()));
            } else {
                assert_eq!(layer.get(x, y), None);
            }
        }
    }
    // exactly one entry: the first undo works, the second finds nothing
    assert!(layer.undo());
    for x in 0..4 {
        for y in 0..4 {
            assert_eq!(layer.get(x, y), None);
        }
    }
    assert!(!layer.undo());
}

#[test]
fn eraser_click_clears_a_painted_cell() {
    let mut layer = Layer::new(0, 3, 3);
    layer.apply_click(&Tool::SinglePixel { color: red() }, 2, 2);
    layer.apply_click(&Tool::Eraser, 2, 2);
    assert_eq!(layer.get(2, 2), None);
    // undoing the erase restores the paint
    assert!(layer.undo());
    assert_eq!(layer.get(2, 2), Some(red()));
}

#[test]
fn out_of_range_click_is_a_no_op() {
    let mut layer = Layer::new(0, 3, 3);
    layer.apply_click(&Tool::SinglePixel { color: red() }, 3, 0);
    layer.apply_click(&Tool::SinglePixel { color: red() }, 0, 7);
    assert_eq!(snapshot(&layer), vec![None; 9]);
    assert!(!layer.undo());
}

#[test]
fn rectangle_border_stroke_paints_the_outline() {
    // 5x5 grid, border stroke from (0,0) to (3,3) with blue
    let mut layer = Layer::new(0, 5, 5);
    let tool = Tool::RectangleBorder { thickness: 1, color: blue() };
    layer.begin_stroke(0, 0);
    layer.update_stroke(&tool, 3, 3);
    layer.commit_stroke(&tool);
    let on_border = |x: u32, y: u32| {
        ((y == 0 || y == 3) && (1..=3).contains(&x)) || ((x == 0 || x == 3) && y <= 3)
    };
    for x in 0..5 {
        for y in 0..5 {
            let want = if on_border(x, y) { Some(blue()) } else { None };
            assert_eq!(layer.get(x, y), want, "cell ({}, {})", x, y);
        }
    }
    // the two-by-two interior stayed unset
    for &(x, y) in &[(1, 1), (1, 2), (2, 1), (2, 2)] {
        assert_eq!(layer.get(x, y), None);
    }
    // the whole drag is one undoable action
    assert!(layer.undo());
    assert_eq!(snapshot(&layer), vec![None; 25]);
}

#[test]
fn degenerate_rectangle_stroke_leaves_no_trace() {
    // anchor and current cell share a column: no pixels, no history entry
    let mut layer = Layer::new(0, 5, 5);
    let tool = Tool::RectangleBorder { thickness: 1, color: blue() };
    layer.begin_stroke(2, 0);
    layer.update_stroke(&tool, 2, 4);
    layer.commit_stroke(&tool);
    assert_eq!(snapshot(&layer), vec![None; 25]);
    assert!(!layer.undo());

    let fill = Tool::RectangleFill { color: blue() };
    layer.begin_stroke(0, 3);
    layer.update_stroke(&fill, 4, 3);
    layer.commit_stroke(&fill);
    assert_eq!(snapshot(&layer), vec![None; 25]);
    assert!(!layer.undo());
}

#[test]
fn stroke_preview_is_repainted_from_scratch() {
    // moving the drag back and forth never leaves stale preview pixels
    let mut layer = Layer::new(0, 6, 6);
    let tool = Tool::RectangleFill { color: red() };
    layer.begin_stroke(0, 0);
    layer.update_stroke(&tool, 5, 5);
    layer.update_stroke(&tool, 1, 1);
    let small = snapshot(&layer);
    for x in 0..6u32 {
        for y in 0..6u32 {
            let want = if x <= 1 && y <= 1 { Some(red()) } else { None };
            assert_eq!(small[(y * 6 + x) as usize], want);
        }
    }
    // updating twice with the same cell changes nothing further
    layer.update_stroke(&tool, 1, 1);
    assert_eq!(snapshot(&layer), small);
    layer.commit_stroke(&tool);
    assert_eq!(snapshot(&layer), small);
}

#[test]
fn line_stroke_paints_the_segment() {
    let mut layer = Layer::new(0, 4, 4);
    let tool = Tool::Line { color: green() };
    layer.begin_stroke(0, 0);
    layer.update_stroke(&tool, 3, 3);
    layer.commit_stroke(&tool);
    for k in 0..4 {
        assert_eq!(layer.get(k, k), Some(green()));
    }
    assert_eq!(layer.get(1, 0), None);
    assert_eq!(layer.get(0, 1), None);
    assert!(layer.undo());
    assert_eq!(snapshot(&layer), vec![None; 16]);
}

#[test]
fn undo_redo_round_trip_restores_every_state() {
    // three committed actions; undoing all three and redoing all three
    // lands exactly on the state after the third action
    let mut layer = Layer::new(0, 4, 4);
    layer.apply_click(&Tool::SinglePixel { color: red() }, 0, 0);
    let s1 = snapshot(&layer);
    layer.apply_click(&Tool::SinglePixel { color: blue() }, 0, 0);
    let s2 = snapshot(&layer);
    layer.apply_click(&Tool::Fill { color: green() }, 3, 3);
    let s3 = snapshot(&layer);

    assert!(layer.undo());
    assert_eq!(snapshot(&layer), s2);
    assert!(layer.undo());
    assert_eq!(snapshot(&layer), s1);
    assert!(layer.undo());
    assert_eq!(snapshot(&layer), vec![None; 16]);
    assert!(!layer.undo());

    assert!(layer.redo());
    assert_eq!(snapshot(&layer), s1);
    assert!(layer.redo());
    assert_eq!(snapshot(&layer), s2);
    assert!(layer.redo());
    assert_eq!(snapshot(&layer), s3);
    assert!(!layer.redo());
}

#[test]
fn new_action_after_undo_discards_the_redo_branch() {
    let mut layer = Layer::new(0, 3, 3);
    layer.apply_click(&Tool::SinglePixel { color: red() }, 0, 0);
    layer.apply_click(&Tool::SinglePixel { color: red() }, 1, 1);
    assert!(layer.undo());
    layer.apply_click(&Tool::SinglePixel { color: blue() }, 2, 2);
    assert!(!layer.redo());
}

#[test]
fn set_pixel_writes_by_flat_index() {
    let mut layer = Layer::new(0, 3, 3);
    layer.set_pixel_color(4, red());
    assert_eq!(layer.get(1, 1), Some(red()));
    layer.set_pixel(4, None);
    assert_eq!(layer.get(1, 1), None);
    // both writes entered the history
    assert!(layer.undo());
    assert_eq!(layer.get(1, 1), Some(red()));
    assert!(layer.undo());
    assert_eq!(layer.get(1, 1), None);
}

#[test]
fn layer_duplicate_keeps_cells_and_history() {
    let mut layer = Layer::new(9, 3, 3);
    layer.apply_click(&Tool::SinglePixel { color: red() }, 1, 0);
    let mut copy = layer.duplicate();
    assert_eq!(copy.id(), 9);
    assert_eq!(copy.get(1, 0), Some(red()));
    assert!(copy.undo());
    assert_eq!(copy.get(1, 0), None);
    // the original is untouched by the copy's undo
    assert_eq!(layer.get(1, 0), Some(red()));
}

#[test]
fn drag_tool_click_does_nothing() {
    let mut layer = Layer::new(0, 3, 3);
    layer.apply_click(&Tool::RectangleFill { color: red() }, 1, 1);
    layer.apply_click(&Tool::Line { color: red() }, 1, 1);
    assert_eq!(snapshot(&layer), vec![None; 9]);
    assert!(!layer.undo());
}

#[test]
fn strokes_work_on_non_square_grids() {
    let mut layer = Layer::new(0, 3, 7);
    let tool = Tool::Line { color: red() };
    layer.begin_stroke(0, 0);
    layer.update_stroke(&tool, 2, 6);
    layer.commit_stroke(&tool);
    assert_eq!(layer.get(0, 0), Some(red()));
    assert_eq!(layer.get(2, 6), Some(red()));
    // one cell per row on this steep segment
    let painted = snapshot(&layer).iter().filter(|c| c.is_some()).count();
    assert_eq!(painted, 7);
}

#[test]
fn begin_stroke_discards_an_abandoned_preview() {
    let mut layer = Layer::new(0, 4, 4);
    let tool = Tool::RectangleFill { color: red() };
    layer.begin_stroke(0, 0);
    layer.update_stroke(&tool, 3, 3);
    // the button never came up; a new press starts over from the snapshot
    layer.begin_stroke(1, 1);
    assert_eq!(snapshot(&layer), vec![None; 16]);
    layer.update_stroke(&tool, 2, 2);
    layer.commit_stroke(&tool);
    assert_eq!(layer.get(0, 0), None);
    assert_eq!(layer.get(1, 1), Some(red()));
    assert_eq!(layer.get(2, 2), Some(red()));
}
