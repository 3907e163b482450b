use rsomics_fligner::text::{
    has_tab, is_white_space_char, line_breaks_stripped_len, same_chars, split_tabs,
    split_white_space_chars, trim_chars,
};

fn chars(s: &str) -> Vec<char> {
    s.chars().collect()
}

fn strings(v: &[Vec<char>]) -> Vec<String> {
    v.iter().map(|x| x.iter().collect()).collect()
}

const SAMPLES: [&str; 12] = [
    "",
    "   ",
    "a",
    " a b ",
    "\t1.5\tx\t",
    "a\t\tb",
    "\u{3000}x\u{2009}y\u{85}",
    "1 2\t3",
    "\r\nq\r",
    "tail\r\r",
    "\u{a0}",
    "x  y   z",
];

#[test]
fn white_space_matches_char_is_whitespace() {
    for u in 0u32..0x1_1000 {
        if let Some(c) = char::from_u32(u) {
            assert_eq!(is_white_space_char(c), c.is_whitespace(), "U+{u:04X}");
        }
    }
}

#[test]
fn trim_matches_str_trim() {
    for s in SAMPLES {
        let t: String = trim_chars(&chars(s)).iter().collect();
        assert_eq!(t, s.trim(), "{s:?}");
    }
}

#[test]
fn tab_split_matches_str_split() {
    for s in SAMPLES {
        let got = strings(&split_tabs(&chars(s)));
        let want: Vec<String> = s.split('\t').map(str::to_string).collect();
        assert_eq!(got, want, "{s:?}");
    }
}

#[test]
fn white_space_split_matches_str_split_whitespace() {
    for s in SAMPLES {
        let got = strings(&split_white_space_chars(&chars(s)));
        let want: Vec<String> = s.split_whitespace().map(str::to_string).collect();
        assert_eq!(got, want, "{s:?}");
    }
}

#[test]
fn line_break_stripping_matches_trim_end_matches() {
    for s in SAMPLES {
        let c = chars(s);
        let b = line_breaks_stripped_len(&c);
        let got: String = c[..b].iter().collect();
        assert_eq!(got, s.trim_end_matches(['\r', '\n']), "{s:?}");
    }
}

#[test]
fn tab_and_equality_queries() {
    assert!(has_tab(&chars("a\tb")));
    assert!(!has_tab(&chars("a b")));
    assert!(same_chars(&chars("grp"), &chars("grp")));
    assert!(!same_chars(&chars("grp"), &chars("grq")));
    assert!(!same_chars(&chars("grp"), &chars("gr")));
}
