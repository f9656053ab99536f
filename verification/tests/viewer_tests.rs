use zarr_tui::colormap::ColormapType;
use zarr_tui::viewer::{pixel_index_ranges, Area, HelpOverlay, PanDirection, ViewerAction, ViewerKey, ViewerState};

#[test]
fn keys_quit_zoom_and_pan() {
    let s = ViewerState::new();
    assert_eq!(s.handle_key(ViewerKey::Char('q'), 3).0.should_quit, true);
    assert_eq!(s.handle_key(ViewerKey::Escape, 3).0.should_quit, true);
    assert_eq!(s.handle_key(ViewerKey::Char('+'), 3), (s, ViewerAction::ZoomIn));
    assert_eq!(s.handle_key(ViewerKey::Char('='), 3), (s, ViewerAction::ZoomIn));
    assert_eq!(s.handle_key(ViewerKey::Char('-'), 3), (s, ViewerAction::ZoomOut));
    assert_eq!(s.handle_key(ViewerKey::Char('r'), 3), (s, ViewerAction::ResetView));
    assert_eq!(s.handle_key(ViewerKey::Left, 3).1, ViewerAction::Pan(PanDirection::West));
    assert_eq!(s.handle_key(ViewerKey::Char('l'), 3).1, ViewerAction::Pan(PanDirection::East));
    assert_eq!(s.handle_key(ViewerKey::Char('k'), 3).1, ViewerAction::Pan(PanDirection::North));
    assert_eq!(s.handle_key(ViewerKey::Down, 3).1, ViewerAction::Pan(PanDirection::South));
    assert_eq!(s.handle_key(ViewerKey::Char('z'), 3), (s, ViewerAction::Nothing));
    assert_eq!(s.handle_key(ViewerKey::Other, 3), (s, ViewerAction::Nothing));
}

#[test]
fn keys_toggle_help_and_cycle_colormaps() {
    let s = ViewerState::new();
    let (t, _) = s.handle_key(ViewerKey::Char('?'), 1);
    assert!(t.show_help);
    assert!(!t.handle_key(ViewerKey::Char('?'), 1).0.show_help);
    assert_eq!(s.handle_key(ViewerKey::Char('c'), 1).0.colormap, ColormapType::Plasma);
    assert_eq!(s.handle_key(ViewerKey::Char('C'), 1).0.colormap, ColormapType::GistNcar);
}

#[test]
fn keys_switch_variables_with_wrap() {
    let s = ViewerState::new();
    let (t, a) = s.handle_key(ViewerKey::Char('['), 3);
    assert_eq!((t.variable_index, a), (2, ViewerAction::SwitchVariable(2)));
    let (u, a) = t.handle_key(ViewerKey::Char(']'), 3);
    assert_eq!((u.variable_index, a), (0, ViewerAction::SwitchVariable(0)));
    let (v, a) = u.handle_key(ViewerKey::Char(']'), 3);
    assert_eq!((v.variable_index, a), (1, ViewerAction::SwitchVariable(1)));
    assert_eq!(s.handle_key(ViewerKey::Char(']'), 0), (s, ViewerAction::Nothing));
    assert_eq!(s.handle_key(ViewerKey::Char('['), 1).1, ViewerAction::SwitchVariable(0));
}

#[test]
fn help_overlay_lines() {
    let lines = HelpOverlay::keybindings();
    assert_eq!(lines.len(), 13);
    assert_eq!(lines[0], ("Navigation", ""));
    assert_eq!(lines[7], ("  [  /  ]", "Previous / next variable"));
    assert_eq!(lines[12], ("  q", "Quit"));
}

#[test]
fn help_overlay_centred() {
    let r = HelpOverlay::centered_rect(60, 70, Area { x: 0, y: 0, width: 100, height: 50 });
    assert_eq!(r, Area { x: 20, y: 7, width: 60, height: 35 });
    let r = HelpOverlay::centered_rect(60, 70, Area { x: 3, y: 4, width: 9, height: 1 });
    assert_eq!(r, Area { x: 5, y: 4, width: 5, height: 0 });
}

#[test]
fn pixel_ranges_cover_both_corners() {
    assert_eq!(pixel_index_ranges(Some(4), Some(2), Some(7), Some(7)), Some(((2, 5), (7, 8))));
    assert_eq!(pixel_index_ranges(Some(2), Some(4), Some(7), Some(9)), Some(((2, 5), (7, 10))));
    assert_eq!(pixel_index_ranges(None, Some(4), Some(7), Some(9)), None);
    assert_eq!(pixel_index_ranges(Some(1), Some(4), Some(7), None), None);
}
