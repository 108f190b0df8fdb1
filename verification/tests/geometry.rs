use gol::geometry::line_cells;

fn check_line(x0: i32, y0: i32, x1: i32, y1: i32) {
    let pts = line_cells(x0, y0, x1, y1);
    assert_eq!(pts[0], (x0, y0));
    assert_eq!(*pts.last().unwrap(), (x1, y1));
    let n = (x1 - x0).abs().max((y1 - y0).abs()) as usize + 1;
    assert_eq!(pts.len(), n);
    for w in pts.windows(2) {
        let (a, b) = (w[0], w[1]);
        assert!((b.0 - a.0).abs() <= 1 && (b.1 - a.1).abs() <= 1 && a != b);
    }
}

#[test]
fn single_point() {
    assert_eq!(line_cells(4, -2, 4, -2), vec![(4, -2)]);
}

#[test]
fn shallow_line() {
    assert_eq!(
        line_cells(0, 0, 5, 2),
        vec![(0, 0), (1, 0), (2, 1), (3, 1), (4, 2), (5, 2)]
    );
}

#[test]
fn steep_backward_line() {
    assert_eq!(line_cells(0, 0, -1, -3), vec![(0, 0), (0, -1), (-1, -2), (-1, -3)]);
}

#[test]
fn diagonal_and_axis_lines() {
    assert_eq!(line_cells(0, 0, 3, 3), vec![(0, 0), (1, 1), (2, 2), (3, 3)]);
    assert_eq!(line_cells(2, 5, 2, 2), vec![(2, 5), (2, 4), (2, 3), (2, 2)]);
}

#[test]
fn line_laws_on_many_segments() {
    for &(x0, y0, x1, y1) in &[
        (0, 0, 7, 3),
        (-4, 9, 12, -20),
        (100, 100, 37, 141),
        (5, 5, -5, 5),
        (0, 0, 1, 1000),
    ] {
        check_line(x0, y0, x1, y1);
    }
}
