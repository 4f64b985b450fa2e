use fssa::fiber::get_loops;
use fssa::patches::remove_type;
use fssa::text::{char_width, chars_of, is_whitespace, lines_of, replace_exec, string_of, trim_exec};
use fssa::utils::get_ascii;

#[test]
fn whitespace_matches_std() {
    for v in 0u32..=0x10FFFF {
        if let Some(c) = char::from_u32(v) {
            assert_eq!(is_whitespace(c), c.is_whitespace(), "{v:#x}");
        }
    }
}

#[test]
fn char_width_matches_std() {
    for v in 0u32..=0x10FFFF {
        if let Some(c) = char::from_u32(v) {
            assert_eq!(char_width(c), c.len_utf8(), "{v:#x}");
        }
    }
}

#[test]
fn trim_matches_std() {
    for s in ["", "  ", " a ", "\u{3000}a b\u{85}", "\t\r\nx\u{2028}", "a", "\u{200B}a"] {
        let v = chars_of(s);
        assert_eq!(string_of(&trim_exec(&v)), s.trim());
        assert_eq!(remove_type(s.to_string()), s.trim());
    }
}

#[test]
fn replace_matches_std() {
    let cases = [
        ("aaaa", "aa", "b"),
        ("abcabc", "bc", ""),
        ("abc", "", "-"),
        ("", "", "x"),
        ("héllo", "é", "e"),
        ("xyz", "q", "r"),
        ("aXbXc", "X", "YY"),
    ];
    for (s, from, to) in cases {
        let r = replace_exec(&chars_of(s), &chars_of(from), &chars_of(to));
        assert_eq!(string_of(&r), s.replace(from, to));
    }
}

#[test]
fn lines_match_std() {
    for s in ["", "a", "a\n", "a\r\n", "a\r", "\n", "\r\n\r\n", "x\ny\r\nz", "a\r\r\n"] {
        let got: Vec<String> = lines_of(&chars_of(s)).iter().map(|l| string_of(l)).collect();
        let want: Vec<String> = s.lines().map(|l| l.to_string()).collect();
        assert_eq!(got, want, "{s:?}");
    }
}

#[test]
fn ascii_filter_matches_std() {
    for s in ["", "abc", "äbc", "日本a", "a\u{7f}\u{80}"] {
        let want: String = s.chars().filter(|c| c.is_ascii()).collect();
        assert_eq!(get_ascii(s), want);
    }
}

#[test]
fn count_parsing_matches_std() {
    for s in ["0", "1", "2", "9", "10", "99", "255", "256", "+1", "-1", "+", "007", "1 ", "x", "١", "+255", "+256", "1000"] {
        let code = format!("loop {s}\n{{\nx\n}}");
        match (get_loops(&code), s.parse::<u8>()) {
            (Ok(loops), Ok(n)) => {
                assert_eq!(loops.len(), 1);
                assert_eq!(loops[0].iterations, n.max(2));
            }
            (Err(_), Err(_)) => {}
            (got, want) => panic!("{s:?}: {:?} vs {:?}", got.map(|l| l.len()), want),
        }
    }
}
