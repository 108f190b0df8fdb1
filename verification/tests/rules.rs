use gol::rules::{digits, mask_digits, Rule};

#[test]
fn parse_conway() {
    let r = Rule::parse("B3/S23").unwrap();
    assert_eq!(r.birth, 1 << 3);
    assert_eq!(r.survive, (1 << 2) | (1 << 3));
    assert_eq!(r.format(), "B3/S23");
}

#[test]
fn parse_slash() {
    let r = Rule::parse("23/3").unwrap();
    assert_eq!(r, Rule::conway());
}

#[test]
fn parse_reverse_notation() {
    assert_eq!(Rule::parse("S23/B3"), Some(Rule::conway()));
    assert_eq!(Rule::parse("s23/b36"), Some(Rule::highlife()));
}

#[test]
fn parse_lower_case_and_blanks() {
    assert_eq!(Rule::parse("  b3/s23\n"), Some(Rule::conway()));
    assert_eq!(Rule::parse("\u{3000}B36/S23\t"), Some(Rule::highlife()));
}

#[test]
fn parse_optional_s_prefix() {
    assert_eq!(Rule::parse("B3/23"), Some(Rule::conway()));
    assert_eq!(Rule::parse("S23/3"), Some(Rule::conway()));
}

#[test]
fn parse_rejects() {
    assert_eq!(Rule::parse(""), None);
    assert_eq!(Rule::parse("   "), None);
    assert_eq!(Rule::parse("B3S23"), None);
    assert_eq!(Rule::parse("B3/S2/3"), None);
    assert_eq!(Rule::parse("hello"), None);
}

#[test]
fn parse_ignores_non_digits() {
    assert_eq!(Rule::parse("B3x/S2y3"), Some(Rule::conway()));
    assert_eq!(Rule::parse("B/S"), Some(Rule::new(0, 0)));
    assert_eq!(Rule::parse("/"), Some(Rule::new(0, 0)));
}

#[test]
fn parse_nine_sets_bit_nine() {
    let r = Rule::parse("B9/S").unwrap();
    assert_eq!(r.birth, 1 << 9);
    // bit 9 is beyond what the text form holds
    assert_eq!(r.format(), "B/S");
}

#[test]
fn format_roundtrip_masks_high_bits() {
    for &(b, s) in &[(0u32, 0u32), (8, 12), (0x1ff, 0x1ff), (0xffff_ffff, 0x1234_5678), (456, 472)] {
        let r = Rule::new(b, s);
        let back = Rule::parse(&r.format()).unwrap();
        assert_eq!(back, Rule::new(b & 0x1ff, s & 0x1ff));
    }
}

#[test]
fn notations_agree() {
    for (b, s) in [("3", "23"), ("36", "23"), ("", "012345678"), ("2", "")] {
        let r1 = Rule::parse(&format!("B{b}/S{s}")).unwrap();
        let r2 = Rule::parse(&format!("S{s}/B{b}")).unwrap();
        let r3 = Rule::parse(&format!("{s}/{b}")).unwrap();
        assert_eq!(r1, r2);
        assert_eq!(r1, r3);
    }
}

#[test]
fn from_bs_sets_exactly_the_counts() {
    let r = Rule::from_bs(&[3, 3, 6], &[0, 31]);
    assert_eq!(r.birth, (1 << 3) | (1 << 6));
    assert_eq!(r.survive, 1 | (1 << 31));
    assert_eq!(Rule::from_bs(&[], &[]), Rule::new(0, 0));
}

#[test]
fn preset_masks() {
    assert_eq!(Rule::conway(), Rule::new(8, 12));
    assert_eq!(Rule::highlife(), Rule::new(72, 12));
    assert_eq!(Rule::day_and_night(), Rule::new(456, 472));
    assert_eq!(Rule::seeds(), Rule::new(4, 0));
    assert_eq!(Rule::life_without_death(), Rule::new(8, 511));
    assert_eq!(Rule::diamoeba(), Rule::new(488, 480));
    assert_eq!(Rule::anneal(), Rule::new(464, 488));
    assert_eq!(Rule::gnarl(), Rule::new(2, 2));
    assert_eq!(Rule::mor_anneal(), Rule::new(336, 168));
}

#[test]
fn preset_formats() {
    assert_eq!(Rule::highlife().format(), "B36/S23");
    assert_eq!(Rule::day_and_night().format(), "B3678/S34678");
    assert_eq!(Rule::seeds().format(), "B2/S");
    assert_eq!(Rule::life_without_death().format(), "B3/S012345678");
    assert_eq!(Rule::mor_anneal().format(), "B468/S357");
}

#[test]
fn digits_and_mask_digits() {
    assert_eq!(digits("a1b2 3"), vec![1, 2, 3]);
    assert_eq!(digits(""), Vec::<u8>::new());
    assert_eq!(mask_digits(0b1_0000_1101), "0238");
    assert_eq!(mask_digits(0xffff_fe00), "");
}
