use gol::selection::{
    clamped_cell_rect, edge_cursor, edge_near, resize_selection, selection_between,
    selection_rect_cells, world_selection, ResizeCursor, SelectionEdge,
};

#[test]
fn between_normalizes() {
    assert_eq!(selection_between((5, 1), (2, 7)), [2, 1, 5, 7]);
    assert_eq!(selection_between((-1, -1), (-1, -1)), [-1, -1, -1, -1]);
}

#[test]
fn resizing_each_edge() {
    let sel = [2, 2, 6, 6];
    assert_eq!(resize_selection(sel, SelectionEdge::Left, 0, 9), [0, 2, 6, 6]);
    assert_eq!(resize_selection(sel, SelectionEdge::Left, 9, 9), [6, 2, 6, 6]);
    assert_eq!(resize_selection(sel, SelectionEdge::Right, 1, 0), [2, 2, 2, 6]);
    assert_eq!(resize_selection(sel, SelectionEdge::Top, 0, 4), [2, 4, 6, 6]);
    assert_eq!(resize_selection(sel, SelectionEdge::Bottom, 0, 8), [2, 2, 6, 8]);
    assert_eq!(resize_selection(sel, SelectionEdge::TopLeft, 1, 1), [1, 1, 6, 6]);
    assert_eq!(resize_selection(sel, SelectionEdge::TopRight, 9, 9), [2, 6, 9, 6]);
    assert_eq!(resize_selection(sel, SelectionEdge::BottomLeft, 9, 0), [6, 2, 6, 2]);
    assert_eq!(resize_selection(sel, SelectionEdge::BottomRight, 7, 7), [2, 2, 7, 7]);
}

#[test]
fn resizing_keeps_normalized() {
    let edges = [
        SelectionEdge::Left, SelectionEdge::Right, SelectionEdge::Top, SelectionEdge::Bottom,
        SelectionEdge::TopLeft, SelectionEdge::TopRight, SelectionEdge::BottomLeft,
        SelectionEdge::BottomRight,
    ];
    for e in edges {
        for (cx, cy) in [(-10, -10), (3, 4), (20, 1)] {
            let r = resize_selection([0, 0, 5, 5], e, cx, cy);
            assert!(r[0] <= r[2] && r[1] <= r[3]);
        }
    }
}

#[test]
fn edges_and_cursors() {
    assert_eq!(edge_near(true, false, true, false), Some(SelectionEdge::TopLeft));
    assert_eq!(edge_near(false, true, false, true), Some(SelectionEdge::BottomRight));
    assert_eq!(edge_near(true, false, true, true), Some(SelectionEdge::Top));
    assert_eq!(edge_near(true, true, true, false), Some(SelectionEdge::Left));
    assert_eq!(edge_near(false, false, false, true), Some(SelectionEdge::Right));
    assert_eq!(edge_near(true, true, true, true), None);
    assert_eq!(edge_near(false, false, false, false), None);
    assert_eq!(edge_cursor(SelectionEdge::Left), ResizeCursor::Horizontal);
    assert_eq!(edge_cursor(SelectionEdge::Bottom), ResizeCursor::Vertical);
    assert_eq!(edge_cursor(SelectionEdge::BottomRight), ResizeCursor::NwSe);
    assert_eq!(edge_cursor(SelectionEdge::TopRight), ResizeCursor::NeSw);
}

#[test]
fn clamping_to_the_world() {
    assert_eq!(selection_rect_cells([-5, 2, 30, 3], 10, 10), Some((0, 2, 9, 3)));
    assert_eq!(selection_rect_cells([4, 4, 2, 5], 10, 10), None);
    assert_eq!(selection_rect_cells([20, 20, 30, 30], 10, 10), Some((9, 9, 9, 9)));
    assert_eq!(clamped_cell_rect(12, -3, -1, 4, 10, 8), [0, 0, 9, 4]);
    assert_eq!(world_selection(10, 8), Some([0, 0, 9, 7]));
    assert_eq!(world_selection(0, 8), None);
}
