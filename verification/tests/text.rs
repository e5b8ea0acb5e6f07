use mkt_blanket::text::{
    contains_text, find_text, join2, remove_text, split_char, split_once_text, trim_char,
    trim_end_char, trim_spaces,
};

#[test]
fn trims_white_space_like_std() {
    assert_eq!(trim_spaces("  Mario \t\n"), "Mario");
    assert_eq!(trim_spaces("\u{a0}Luigi\u{3000}"), "Luigi");
    assert_eq!(trim_spaces("   "), "");
    assert_eq!(trim_spaces("a b"), "a b");
    for s in ["  x ", "\r\ny", "z", "", " \u{2009}w\u{85}"] {
        assert_eq!(trim_spaces(s), s.trim());
    }
}

#[test]
fn trims_characters() {
    assert_eq!(trim_char("__a_b__", '_'), "a_b");
    assert_eq!(trim_end_char("R, T))", ')'), "R, T");
    assert_eq!(trim_end_char("))", ')'), "");
    assert_eq!(trim_end_char("(x)y", ')'), "(x)y");
}

#[test]
fn finds_and_splits() {
    assert_eq!(find_text("Mario Circuit (R, T)", " ("), Some(13));
    assert_eq!(find_text("abc", "d"), None);
    assert_eq!(find_text("abc", ""), Some(0));
    assert_eq!(
        split_once_text("Mario Circuit (R, T)", " ("),
        Some(("Mario Circuit".to_string(), "R, T)".to_string()))
    );
    assert_eq!(split_once_text("a b c", " "), Some(("a".to_string(), "b c".to_string())));
    assert_eq!(split_once_text("abc", " "), None);
    assert!(contains_text("Mii Racing Suit", "Mii"));
    assert!(!contains_text("Mario", "Mii"));
    assert_eq!(split_char("R, T", ','), vec!["R".to_string(), " T".to_string()]);
    assert_eq!(split_char("", ','), vec!["".to_string()]);
    assert_eq!(join2("c_", "x"), "c_x");
}

#[test]
fn removes_like_std_replace() {
    assert_eq!(remove_text("Normal", "Normal"), "");
    assert_eq!(remove_text("NormalR", "Normal"), "R");
    assert_eq!(remove_text("aaa", "aa"), "a");
    for (s, p) in [("NoNormalrmal", "Normal"), ("xNormalNormaly", "Normal"), ("abab", "ba")] {
        assert_eq!(remove_text(s, p), s.replace(p, ""));
    }
}
