use gol::text::{chars_of, is_whitespace, split_two, strip_prefix_char, to_upper, trim_range};

#[test]
fn whitespace_matches_std_for_every_char() {
    for u in 0u32..=0x10FFFF {
        if let Some(c) = char::from_u32(u) {
            assert_eq!(is_whitespace(c), c.is_whitespace(), "U+{u:04X}");
        }
    }
}

#[test]
fn trim_matches_std() {
    for s in ["", "  ", " a b ", "\tx\n", "\u{2003}mid\u{85}", "abc"] {
        let cs = chars_of(s);
        let (lo, hi) = trim_range(&cs);
        let got: String = cs[lo..hi].iter().collect();
        assert_eq!(got, s.trim());
    }
}

#[test]
fn upper_matches_std() {
    for s in ["b3/s23", "ÄbZ9", ""] {
        let cs = chars_of(s);
        let up: String = to_upper(&cs).into_iter().collect();
        assert_eq!(up, s.to_ascii_uppercase());
    }
}

#[test]
fn chars_in_order() {
    let cs = chars_of("héllo");
    assert_eq!(cs, vec!['h', 'é', 'l', 'l', 'o']);
    assert!(chars_of("").is_empty());
}

#[test]
fn splitting_and_stripping() {
    let cs = chars_of("ab/cd");
    let (a, b) = split_two(&cs, '/').unwrap();
    assert_eq!((a, b), (&['a', 'b'][..], &['c', 'd'][..]));
    assert!(split_two(&chars_of("a/b/c"), '/').is_none());
    assert!(split_two(&chars_of("abc"), '/').is_none());
    let s = chars_of("S23");
    assert_eq!(strip_prefix_char(&s, 'S'), &['2', '3'][..]);
    assert_eq!(strip_prefix_char(&s, 'B'), &['S', '2', '3'][..]);
}
