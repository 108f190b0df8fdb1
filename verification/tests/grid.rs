use gol::grid::{
    clear_cells, count_live, current_after_steps, dispatch_groups, grow_world, in_grid,
    padded_row_bytes, paint_edit, readback_layout, resize_copy, rule_params, stamp_cells,
    unpad_rows, CopyRegion, Edit, Growth,
};
use gol::rules::Rule;

#[test]
fn grid_membership_and_edits() {
    assert!(in_grid(0, 0, 4, 3));
    assert!(in_grid(3, 2, 4, 3));
    assert!(!in_grid(4, 2, 4, 3));
    assert!(!in_grid(-1, 0, 4, 3));
    assert_eq!(paint_edit(1, 2, 4, 3, false), Some(Edit { x: 1, y: 2, value: 1 }));
    assert_eq!(paint_edit(1, 2, 4, 3, true), Some(Edit { x: 1, y: 2, value: 0 }));
    assert_eq!(paint_edit(1, 3, 4, 3, false), None);
}

#[test]
fn clearing_and_stamping() {
    let mut state = vec![7u32; 16];
    clear_cells(&mut state);
    assert!(state.iter().all(|&v| v == 0));
    // 4x4 grid, centre (2, 2)
    stamp_cells(&mut state, 4, 4, &[(0, -1), (1, 0), (-1, 1), (0, 1), (1, 1), (5, 5), (-3, 0)]);
    let mut expected = vec![0u32; 16];
    for (x, y) in [(2, 1), (3, 2), (1, 3), (2, 3), (3, 3)] {
        expected[y * 4 + x] = 1;
    }
    assert_eq!(state, expected);
}

#[test]
fn stamping_keeps_other_cells() {
    let mut state = vec![5u32; 6];
    stamp_cells(&mut state, 3, 2, &[(0, 0)]);
    assert_eq!(state, vec![5, 5, 5, 5, 1, 5]);
}

#[test]
fn live_count() {
    assert_eq!(count_live(&[0, 1, 0, 9, 3]), 3);
    assert_eq!(count_live(&[]), 0);
}

#[test]
fn unpadding() {
    let data = [1, 2, 3, 99, 4, 5, 6, 99, 7, 8, 9];
    assert_eq!(unpad_rows(&data, 3, 3, 4), vec![1, 2, 3, 4, 5, 6, 7, 8, 9]);
    assert_eq!(unpad_rows(&data, 0, 3, 4), Vec::<u32>::new());
    assert_eq!(unpad_rows(&data, 2, 1, 100), vec![1, 2]);
}

#[test]
fn resize_grow_and_shrink() {
    assert_eq!(
        resize_copy(4, 4, 8, 6),
        CopyRegion { src_x: 0, src_y: 0, dst_x: 2, dst_y: 1, width: 4, height: 4 }
    );
    assert_eq!(
        resize_copy(8, 6, 4, 4),
        CopyRegion { src_x: 2, src_y: 1, dst_x: 0, dst_y: 0, width: 4, height: 4 }
    );
    assert_eq!(
        resize_copy(5, 5, 2, 9),
        CopyRegion { src_x: 1, src_y: 0, dst_x: 0, dst_y: 2, width: 2, height: 5 }
    );
    assert_eq!(resize_copy(3, 3, 3, 3).width, 3);
}

#[test]
fn row_padding() {
    assert_eq!(padded_row_bytes(0), 0);
    assert_eq!(padded_row_bytes(1), 256);
    assert_eq!(padded_row_bytes(64), 256);
    assert_eq!(padded_row_bytes(65), 512);
    let l = readback_layout(10, 20, 19, 24);
    assert_eq!((l.width, l.height, l.padded_row, l.buffer_size), (10, 5, 256, 1280));
}

#[test]
fn work_groups() {
    assert_eq!(dispatch_groups(0, 16), 0);
    assert_eq!(dispatch_groups(1, 16), 1);
    assert_eq!(dispatch_groups(16, 16), 1);
    assert_eq!(dispatch_groups(1024, 16), 64);
    assert_eq!(dispatch_groups(65, 64), 2);
}

#[test]
fn params_and_parity() {
    assert_eq!(rule_params(Rule::conway(), true), [8, 12, 1, 0]);
    assert_eq!(rule_params(Rule::highlife(), false), [72, 12, 0, 0]);
    assert!(current_after_steps(true, 0));
    assert!(!current_after_steps(true, 3));
    assert!(current_after_steps(false, 7));
}

#[test]
fn world_growth() {
    assert_eq!(grow_world(1024, 1024, 800, 600), None);
    assert_eq!(
        grow_world(1024, 1024, 1920, 1080),
        Some(Growth { width: 1920, height: 1080, shift_x: 448, shift_y: 28 })
    );
    assert_eq!(
        grow_world(1024, 1024, 1000, 1081),
        Some(Growth { width: 1024, height: 1081, shift_x: 0, shift_y: 28 })
    );
}
