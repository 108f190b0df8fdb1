use gol::patterns::{presets, Pattern};

#[test]
fn new_computes_size() {
    let p = Pattern::new("Glider", &[(1, 0), (2, 1), (0, 2), (1, 2), (2, 2)]);
    assert_eq!(p.name, "Glider");
    assert_eq!(p.cells.len(), 5);
    assert_eq!((p.width, p.height), (3, 3));
    let e = Pattern::new("Empty", &[]);
    assert_eq!((e.width, e.height), (0, 0));
    let neg = Pattern::new("neg", &[(-5, -7), (-3, -9)]);
    assert_eq!((neg.width, neg.height), (-2, -6));
}

#[test]
fn rle_basic() {
    let p = Pattern::parse_rle("t", "bo$2bo$3o!", 3, 3);
    assert_eq!(p.cells, vec![(1, 0), (2, 1), (0, 2), (1, 2), (2, 2)]);
    assert_eq!((p.width, p.height), (3, 3));
    assert_eq!(p.name, "t");
}

#[test]
fn rle_comments_and_blank_lines() {
    let p = Pattern::parse_rle("t", "#C a glider\n\n   # indented comment\n2o$o!", 2, 2);
    assert_eq!(p.cells, vec![(0, 0), (1, 0), (0, 1)]);
    let q = Pattern::parse_rle("t", "  # c\nbo", 2, 1);
    assert_eq!(q.cells, vec![(1, 0)]);
}

#[test]
fn rle_bang_ends_only_its_line() {
    let p = Pattern::parse_rle("t", "3o!5o\n2o", 0, 0);
    assert_eq!(p.cells, vec![(0, 0), (1, 0), (2, 0), (3, 0), (4, 0)]);
}

#[test]
fn rle_counts() {
    assert_eq!(Pattern::parse_rle("t", "0o2b1o", 0, 0).cells, vec![(2, 0)]);
    // a count too large for an i32 counts as 1
    assert_eq!(Pattern::parse_rle("t", "99999999999o", 0, 0).cells, vec![(0, 0)]);
    // pending digits carry over a line break
    assert_eq!(Pattern::parse_rle("t", "2\n3o", 0, 0).cells.len(), 23);
    assert_eq!(Pattern::parse_rle("t", "o$$o", 0, 0).cells, vec![(0, 0), (0, 2)]);
    assert_eq!(Pattern::parse_rle("t", "x y o", 0, 0).cells, vec![(0, 0)]);
    assert_eq!(Pattern::parse_rle("t", "o\r\n$o", 0, 0).cells, vec![(0, 0), (0, 1)]);
}

#[test]
fn translate_moves_every_cell() {
    let p = Pattern::new("g", &[(1, 0), (2, 1)]);
    let t = p.translate(10, -3);
    assert_eq!(t.cells, vec![(11, -3), (12, -2)]);
    assert_eq!((t.width, t.height), (p.width, p.height));
    assert_eq!(t.translate(-10, 3).cells, p.cells);
}

#[test]
fn centered_glider() {
    let p = Pattern::new("Glider", &[(1, 0), (2, 1), (0, 2), (1, 2), (2, 2)]);
    let c = p.centered();
    assert_eq!(c.cells, vec![(0, -1), (1, 0), (-1, 1), (0, 1), (1, 1)]);
    let e = Pattern::new("Empty", &[]).centered();
    assert!(e.cells.is_empty());
}

#[test]
fn centered_rounds_toward_zero() {
    let p = Pattern { name: "n".to_string(), cells: vec![(0, 0)], width: -3, height: 5 };
    assert_eq!(p.centered().cells, vec![(1, -2)]);
}

#[test]
fn preset_list() {
    let ps = presets();
    let names: Vec<&str> = ps.iter().map(|p| p.name.as_str()).collect();
    assert_eq!(
        names,
        vec![
            "Empty", "Glider", "LWSS", "MWSS", "HWSS", "R-pentomino", "Diehard", "Acorn",
            "Gosper Glider Gun", "Pulsar", "Pentadecathlon", "Switch Engine",
            "Period-30 Glider Gun", "Puffer Train",
        ]
    );
}

#[test]
fn preset_cells() {
    let ps = presets();
    let counts: Vec<usize> = ps.iter().map(|p| p.cells.len()).collect();
    assert_eq!(counts, vec![0, 5, 9, 14, 21, 5, 7, 7, 38, 60, 12, 36, 45, 54]);
    assert_eq!((ps[1].width, ps[1].height), (3, 3));
    assert_eq!((ps[3].width, ps[3].height), (6, 5));
    assert_eq!((ps[4].width, ps[4].height), (8, 5));
    assert_eq!((ps[8].width, ps[8].height), (36, 9));
    assert_eq!(&ps[4].cells[..6], &[(3, 0), (4, 0), (5, 0), (6, 0), (7, 0), (0, 1)]);
    assert_eq!(&ps[8].cells[..3], &[(24, 0), (22, 1), (24, 1)]);
    assert_eq!(ps[12].cells[5], (1, 6));
}
