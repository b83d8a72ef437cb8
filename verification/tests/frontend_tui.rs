use keith_shareit::frontend::tui::{centered_rect_margins, popup_geometry, PopupGeometry};

#[test]
fn popup_geometry_empty_input() {
    let g = popup_geometry(100, 0);
    assert_eq!(
        g,
        PopupGeometry { width_percent: 60, height: 3, cursor_col: 0, cursor_row: 0, has_cursor: true }
    );
}

#[test]
fn popup_geometry_wraps_long_input() {
    let g = popup_geometry(100, 130);
    assert_eq!(g.height, 5);
    assert_eq!((g.cursor_col, g.cursor_row), (14, 2));
}

#[test]
fn popup_geometry_without_room_for_text() {
    let g = popup_geometry(3, 5);
    assert_eq!(g.height, 3);
    assert!(!g.has_cursor);
    assert_eq!((g.cursor_col, g.cursor_row), (0, 0));
}

#[test]
fn centered_rect_margins_halves_the_rest() {
    assert_eq!(centered_rect_margins(60, 5, 20), (7, 20));
    assert_eq!(centered_rect_margins(100, 30, 20), (0, 0));
    assert_eq!(centered_rect_margins(61, 4, 11), (3, 19));
}
