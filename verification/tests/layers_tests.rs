use pixeditor::color::Color;
use pixeditor::layers::Layers;
use pixeditor::tools::Tool;

fn red() -> Color {
    Color::new(255, 0, 0, 255)
}

fn green() -> Color {
    Color::new(0, 255, 0, 255)
}

#[test]
fn new_stack_has_one_active_current_layer() {
    let mut stack = Layers::new(4, 4);
    assert_eq!(stack.get_all_layers().len(), 1);
    assert_eq!(stack.get_all_active(), &vec![0u64]);
    assert_eq!(stack.get_current_layer_index(), Some(0));
    let current = stack.get_current_layer().expect("a current layer");
    assert_eq!(current.id(), 0);
}

#[test]
fn added_layers_get_fresh_identifiers() {
    let mut stack = Layers::new(4, 4);
    let a = stack.add_layer();
    let b = stack.add_layer();
    assert_eq!(a, 1);
    assert_eq!(b, 2);
    assert_eq!(stack.get_all_layers().len(), 3);
    // new layers start inactive
    assert!(!stack.is_active(a));
    assert!(!stack.is_active(b));
    // identifiers look up the right layers
    assert_eq!(stack.get_layer(b).unwrap().id(), b);
    assert!(stack.get_layer(99).is_none());
}

#[test]
fn removing_the_last_active_layer_is_rejected() {
    let mut stack = Layers::new(4, 4);
    stack.remove_layer(0);
    assert_eq!(stack.get_all_layers().len(), 1);
    assert!(stack.is_active(0));
    // even with more layers around, the only active one stays
    let a = stack.add_layer();
    stack.remove_layer(0);
    assert_eq!(stack.get_all_layers().len(), 2);
    assert!(stack.get_layer(0).is_some());
    let _ = a;
}

#[test]
fn removing_an_inactive_layer_drops_it() {
    let mut stack = Layers::new(4, 4);
    let a = stack.add_layer();
    stack.remove_layer(a);
    assert_eq!(stack.get_all_layers().len(), 1);
    assert!(stack.get_layer(a).is_none());
}

#[test]
fn removing_the_current_layer_picks_an_active_one() {
    let mut stack = Layers::new(4, 4);
    let a = stack.add_layer();
    stack.set_active(a);
    assert_eq!(stack.get_current_layer_index(), Some(a));
    stack.remove_layer(a);
    assert!(stack.get_layer(a).is_none());
    let current = stack.get_current_layer().expect("a current layer");
    assert_eq!(current.id(), 0);
}

#[test]
fn deactivating_the_last_active_layer_is_rejected() {
    let mut stack = Layers::new(4, 4);
    stack.unactive(0);
    assert!(stack.is_active(0));
    let a = stack.add_layer();
    stack.set_active(a);
    stack.unactive(0);
    assert!(!stack.is_active(0));
    assert!(stack.is_active(a));
    stack.unactive(a);
    assert!(stack.is_active(a));
}

#[test]
fn current_layer_revalidates_to_an_active_layer() {
    let mut stack = Layers::new(4, 4);
    let a = stack.add_layer();
    // make the inactive top layer current, then ask for the current layer:
    // it must resolve to an active one instead
    stack.set_current_layer_newest();
    assert_eq!(stack.get_current_layer_index(), Some(a));
    let current = stack.get_current_layer().expect("a current layer");
    assert_eq!(current.id(), 0);
    stack.set_current_layer_oldest();
    assert_eq!(stack.get_current_layer_index(), Some(0));
}

#[test]
fn flatten_lets_upper_layers_win_and_lower_show_through() {
    // bottom layer fully red, top layer only (0,0) green: the flattened
    // image is green at (0,0) and red everywhere else
    let mut stack = Layers::new(3, 3);
    stack.apply_click_current(&Tool::Fill { color: red() }, 0, 0);
    let top = stack.add_layer();
    stack.set_active(top);
    stack.apply_click_current(&Tool::SinglePixel { color: green() }, 0, 0);
    let flat = stack.get_combined_export();
    for x in 0..3 {
        for y in 0..3 {
            let want = if (x, y) == (0, 0) { Some(green()) } else { Some(red()) };
            assert_eq!(flat.get(x, y), want, "cell ({}, {})", x, y);
        }
    }
}

#[test]
fn flatten_skips_inactive_layers() {
    let mut stack = Layers::new(2, 2);
    stack.apply_click_current(&Tool::SinglePixel { color: red() }, 0, 0);
    let top = stack.add_layer();
    stack.set_active(top);
    stack.apply_click_current(&Tool::SinglePixel { color: green() }, 0, 0);
    stack.unactive(top);
    let flat = stack.get_combined_export();
    assert_eq!(flat.get(0, 0), Some(red()));
    assert_eq!(flat.get(1, 1), None);
}

#[test]
fn stack_strokes_and_undo_reach_the_current_layer() {
    let mut stack = Layers::new(5, 5);
    let tool = Tool::RectangleFill { color: red() };
    stack.begin_stroke_current(1, 1);
    stack.update_stroke_current(&tool, 3, 3);
    stack.commit_stroke_current(&tool);
    {
        let layer = stack.get_current_layer().unwrap();
        assert_eq!(layer.get(2, 2), Some(red()));
        assert_eq!(layer.get(0, 0), None);
    }
    assert!(stack.undo_current());
    {
        let layer = stack.get_current_layer().unwrap();
        assert_eq!(layer.get(2, 2), None);
    }
    assert!(stack.redo_current());
    {
        let layer = stack.get_current_layer().unwrap();
        assert_eq!(layer.get(2, 2), Some(red()));
    }
    assert!(!stack.redo_current());
}

#[test]
fn active_copies_match_the_active_layers() {
    let mut stack = Layers::new(2, 2);
    let a = stack.add_layer();
    let b = stack.add_layer();
    stack.set_active(b);
    let copies = stack.get_all_active_canvas();
    let mut ids: Vec<u64> = copies.iter().map(|l| l.id()).collect();
    ids.sort();
    assert_eq!(ids, vec![0, b]);
    let _ = a;
}
