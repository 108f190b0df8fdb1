use gol::controls::{cycle_index, decimal_string, export_file_name, find_name, steps_down, steps_up};

#[test]
fn step_limits() {
    assert_eq!(steps_up(1), 2);
    assert_eq!(steps_up(19), 20);
    assert_eq!(steps_up(20), 20);
    assert_eq!(steps_up(50), 20);
    assert_eq!(steps_down(5), 4);
    assert_eq!(steps_down(1), 1);
    assert_eq!(steps_down(0), 1);
}

#[test]
fn cycling() {
    assert_eq!(cycle_index(0, 7, true), 1);
    assert_eq!(cycle_index(6, 7, true), 0);
    assert_eq!(cycle_index(0, 7, false), 6);
    assert_eq!(cycle_index(3, 7, false), 2);
    for i in 0..7 {
        assert_eq!(cycle_index(cycle_index(i, 7, true), 7, false), i);
    }
}

#[test]
fn finding_names() {
    let names: Vec<String> = ["Classic", "Neon", "Fire", "Neon"].iter().map(|s| s.to_string()).collect();
    assert_eq!(find_name(&names, &"Neon".to_string()), Some(1));
    assert_eq!(find_name(&names, &"Fire".to_string()), Some(2));
    assert_eq!(find_name(&names, &"neon".to_string()), None);
}

#[test]
fn export_names() {
    assert_eq!(decimal_string(0), "0");
    assert_eq!(decimal_string(907), "907");
    assert_eq!(decimal_string(u32::MAX), "4294967295");
    assert_eq!(export_file_name(1), "gol_img_1.png");
    assert_eq!(export_file_name(42), "gol_img_42.png");
}
