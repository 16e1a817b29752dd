use game_support::text::{all_lines, is_whitespace, string_from_chars, text_lines, text_words};

fn strs(v: &[&str]) -> Vec<String> {
    v.iter().map(|s| s.to_string()).collect()
}

#[test]
fn lines_split_at_newlines() {
    assert_eq!(text_lines("first\nsecond"), strs(&["first", "second"]));
}

#[test]
fn lines_drop_carriage_return_before_newline() {
    assert_eq!(text_lines("a\r\nb\r\n"), strs(&["a", "b"]));
}

#[test]
fn lines_keep_lone_carriage_return() {
    assert_eq!(text_lines("a\rb\r"), strs(&["a\rb\r"]));
}

#[test]
fn lines_of_empty_text() {
    assert_eq!(text_lines(""), Vec::<String>::new());
}

#[test]
fn lines_keep_empty_lines_but_not_a_final_one() {
    assert_eq!(text_lines("a\n\nb\n"), strs(&["a", "", "b"]));
    assert_eq!(text_lines("\n"), strs(&[""]));
    assert_eq!(text_lines("a\n\n"), strs(&["a", ""]));
}

#[test]
fn lines_agree_with_std() {
    for t in ["", "x", "x\n", "x\r\ny", "\r\n\r\n", "a\nb\nc", " \n \r\n", "tail\r"] {
        let expected: Vec<String> = t.lines().map(|l| l.to_string()).collect();
        assert_eq!(text_lines(t), expected, "text {:?}", t);
    }
}

#[test]
fn words_split_at_any_white_space() {
    assert_eq!(text_words("  hello \t world\n!  "), strs(&["hello", "world", "!"]));
}

#[test]
fn words_split_at_unicode_white_space() {
    assert_eq!(text_words("\u{3000}a\u{a0}b\u{2009}c\u{85}"), strs(&["a", "b", "c"]));
}

#[test]
fn words_of_blank_text() {
    assert_eq!(text_words(" \t\r\n"), Vec::<String>::new());
    assert_eq!(text_words(""), Vec::<String>::new());
}

#[test]
fn words_agree_with_std() {
    for t in ["", "one", " one  two ", "a\u{2028}b", "x\u{200b}y", "tab\tsep\u{1680}z"] {
        let expected: Vec<String> = t.split_whitespace().map(|w| w.to_string()).collect();
        assert_eq!(text_words(t), expected, "text {:?}", t);
    }
}

#[test]
fn whitespace_agrees_with_std() {
    for code in 0u32..0x3100 {
        if let Some(c) = char::from_u32(code) {
            assert_eq!(is_whitespace(c), c.is_whitespace(), "char {:?}", c);
        }
    }
    for c in ['\u{feff}', '\u{10ffff}', 'é', '字'] {
        assert_eq!(is_whitespace(c), c.is_whitespace());
    }
}

#[test]
fn string_from_characters() {
    assert_eq!(string_from_chars(&vec!['h', 'é', '!']), "hé!".to_string());
    assert_eq!(string_from_chars(&vec![]), String::new());
}

#[test]
fn all_lines_of_several_texts() {
    let texts = strs(&["one\ntwo", "", "three\n"]);
    assert_eq!(all_lines(&texts), strs(&["one", "two", "three"]));
    assert_eq!(all_lines(&texts).len(), 3);
}
