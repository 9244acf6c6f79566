use pixeditor::color::Color;
use pixeditor::fill::fill_get_all_pixels;
use pixeditor::grid::PixelGrid;
use pixeditor::layer::Layer;

fn red() -> Color {
    Color::new(255, 0, 0, 255)
}

fn black() -> Color {
    Color::new(0, 0, 0, 255)
}

#[test]
fn fill_search_collects_connected_unset_region() {
    // a black column at x = 1 splits the 4x4 grid in two unset regions
    let mut g = PixelGrid::new(4, 4);
    for y in 0..4 {
        g.set(1, y, Some(black()));
    }
    let mut visited: Vec<usize> = Vec::new();
    fill_get_all_pixels(0, &g, &mut visited, None);
    let mut got = visited.clone();
    got.sort();
    // only column 0 is connected to the seed
    assert_eq!(got, vec![0, 4, 8, 12]);
}

#[test]
fn fill_search_on_wrong_color_is_empty() {
    let g = PixelGrid::new(3, 3);
    let mut visited: Vec<usize> = Vec::new();
    // the seed is unset, not red, so nothing matches
    fill_get_all_pixels(4, &g, &mut visited, Some(red()));
    assert!(visited.is_empty());
}

#[test]
fn fill_search_out_of_range_seed_is_empty() {
    let g = PixelGrid::new(3, 3);
    let mut visited: Vec<usize> = Vec::new();
    fill_get_all_pixels(9, &g, &mut visited, None);
    assert!(visited.is_empty());
}

#[test]
fn fill_visits_each_cell_once() {
    let g = PixelGrid::new(5, 5);
    let mut visited: Vec<usize> = Vec::new();
    fill_get_all_pixels(12, &g, &mut visited, None);
    assert_eq!(visited.len(), 25);
    let mut sorted = visited.clone();
    sorted.sort();
    sorted.dedup();
    assert_eq!(sorted.len(), 25);
}

#[test]
fn flood_fill_is_idempotent() {
    // fill the left region red, twice; the second run changes nothing
    let mut layer = Layer::new(0, 4, 4);
    for y in 0..4 {
        let idx = (y * 4 + 1) as usize;
        layer.set_pixel(idx, Some(black()));
    }
    layer.apply_fill(0, 0, red());
    let after_first: Vec<Option<Color>> =
        (0..16).map(|i| layer.get((i % 4) as u32, (i / 4) as u32)).collect();
    layer.apply_fill(0, 0, red());
    let after_second: Vec<Option<Color>> =
        (0..16).map(|i| layer.get((i % 4) as u32, (i / 4) as u32)).collect();
    assert_eq!(after_first, after_second);
}

#[test]
fn flood_fill_never_crosses_a_separator() {
    // two same-colored regions split by a black column: filling the left
    // one leaves the right one untouched
    let mut layer = Layer::new(0, 4, 4);
    for y in 0..4 {
        let idx = (y * 4 + 1) as usize;
        layer.set_pixel(idx, Some(black()));
    }
    layer.apply_fill(0, 0, red());
    for y in 0..4 {
        assert_eq!(layer.get(0, y), Some(red()));
        assert_eq!(layer.get(1, y), Some(black()));
        assert_eq!(layer.get(2, y), None);
        assert_eq!(layer.get(3, y), None);
    }
}

#[test]
fn flood_fill_does_not_wrap_across_row_edges() {
    // a 2x2 grid with (1,0) and (0,1) set: the seed (0,0) is connected to
    // neither diagonal neighbor, and index arithmetic must not leak from
    // the end of one row to the start of the next
    let mut layer = Layer::new(0, 2, 2);
    layer.set_pixel(1, Some(black()));
    layer.set_pixel(2, Some(black()));
    layer.apply_fill(0, 0, red());
    assert_eq!(layer.get(0, 0), Some(red()));
    assert_eq!(layer.get(1, 0), Some(black()));
    assert_eq!(layer.get(0, 1), Some(black()));
    assert_eq!(layer.get(1, 1), None);
}

#[test]
fn flood_fill_replaces_a_colored_region() {
    let mut layer = Layer::new(0, 3, 3);
    layer.set_pixel(0, Some(black()));
    layer.set_pixel(1, Some(black()));
    layer.apply_fill(0, 0, red());
    assert_eq!(layer.get(0, 0), Some(red()));
    assert_eq!(layer.get(1, 0), Some(red()));
    // the unset rest did not share the seed's color
    assert_eq!(layer.get(2, 0), None);
    assert_eq!(layer.get(0, 1), None);
}
