use pixeditor::color::Color;
use pixeditor::history::Action;
use pixeditor::history::ActionsManager;
use pixeditor::history::DrawInfo;
use pixeditor::history::DrawPixelsInfo;

fn red() -> Color {
    Color::new(255, 0, 0, 255)
}

fn entry(layer_id: u64) -> Action {
    let di = DrawInfo::new(None, Some(red()));
    Action::draw_pixels(vec![(0, di)], layer_id)
}

#[test]
fn undo_on_empty_history_yields_nothing() {
    let mut m = ActionsManager::new();
    assert!(m.undo().is_none());
    assert!(m.redo().is_none());
}

#[test]
fn undo_returns_newest_action_and_redo_brings_it_back() {
    let mut m = ActionsManager::new();
    m.add_action(entry(1));
    m.add_action(entry(2));
    let undone = m.undo().expect("one action to undo");
    assert_eq!(undone.get_layer_id(), Some(2));
    let redone = m.redo().expect("one action to redo");
    assert_eq!(redone.get_layer_id(), Some(2));
    assert!(m.redo().is_none());
}

#[test]
fn push_after_undo_discards_redo_history() {
    // push, push, undo, push: a later redo finds nothing
    let mut m = ActionsManager::new();
    m.add_action(entry(1));
    m.add_action(entry(2));
    assert!(m.undo().is_some());
    m.add_action(entry(3));
    assert!(m.redo().is_none());
}

#[test]
fn undo_exhausts_in_order() {
    let mut m = ActionsManager::new();
    m.add_action(entry(1));
    m.add_action(entry(2));
    m.add_action(entry(3));
    assert_eq!(m.undo().unwrap().get_layer_id(), Some(3));
    assert_eq!(m.undo().unwrap().get_layer_id(), Some(2));
    assert_eq!(m.undo().unwrap().get_layer_id(), Some(1));
    assert!(m.undo().is_none());
    assert_eq!(m.redo().unwrap().get_layer_id(), Some(1));
    assert_eq!(m.redo().unwrap().get_layer_id(), Some(2));
    assert_eq!(m.redo().unwrap().get_layer_id(), Some(3));
    assert!(m.redo().is_none());
}

#[test]
fn draw_pixels_info_carries_deltas() {
    let di = DrawInfo::new(Some(red()), None);
    assert_eq!(di.from, Some(red()));
    assert_eq!(di.to, None);
    let info = DrawPixelsInfo::new(vec![(3, di)], 7);
    assert_eq!(info.layer_id, 7);
    assert_eq!(info.pixels.len(), 1);
    assert_eq!(info.pixels[0].0, 3);
    let act = Action::draw_pixels(info.pixels.clone(), info.layer_id);
    assert_eq!(act.get_layer_id(), Some(7));
}
