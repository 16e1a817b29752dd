use game_support::wrap::TextWrap;

fn strs(v: &[&str]) -> Vec<String> {
    v.iter().map(|s| s.to_string()).collect()
}

/// Wraps `text`, letting a line stand when it has at most `width` characters.
fn wrap_to(text: &str, width: usize) -> Vec<String> {
    let mut wrap = TextWrap::new(text);
    while let Some(candidate) = wrap.candidate() {
        let fits = candidate.chars().count() <= width;
        wrap.place(fits);
    }
    wrap.into_lines()
}

#[test]
fn wraps_greedily() {
    assert_eq!(
        wrap_to("the quick brown fox jumps over the lazy dog", 10),
        strs(&["the quick", "brown fox", "jumps over", "the lazy", "dog"]),
    );
}

#[test]
fn wide_word_stands_alone() {
    assert_eq!(
        wrap_to("a extraordinarily b", 5),
        strs(&["a", "extraordinarily", "b"]),
    );
}

#[test]
fn source_lines_stay_apart() {
    assert_eq!(wrap_to("one two\nthree", 100), strs(&["one two", "three"]));
}

#[test]
fn blank_lines_and_extra_spaces_vanish() {
    assert_eq!(wrap_to("  a   b \n\n \t \nc  ", 100), strs(&["a b", "c"]));
}

#[test]
fn nothing_fits() {
    assert_eq!(wrap_to("x y z", 0), strs(&["x", "y", "z"]));
}

#[test]
fn empty_text_has_no_lines() {
    let wrap = TextWrap::new("");
    assert_eq!(wrap.candidate(), None);
    assert_eq!(wrap.into_lines(), Vec::<String>::new());
}

#[test]
fn single_word_needs_no_measure() {
    let wrap = TextWrap::new("  lonely\n");
    assert_eq!(wrap.candidate(), None);
    assert_eq!(wrap.into_lines(), strs(&["lonely"]));
}

#[test]
fn candidate_joins_line_and_next_word() {
    let mut wrap = TextWrap::new("ab cd ef");
    assert_eq!(wrap.candidate(), Some("ab cd".to_string()));
    wrap.place(true);
    assert_eq!(wrap.candidate(), Some("ab cd ef".to_string()));
    wrap.place(false);
    assert_eq!(wrap.candidate(), None);
    assert_eq!(wrap.into_lines(), strs(&["ab cd", "ef"]));
}

#[test]
fn place_without_candidate_changes_nothing() {
    let mut wrap = TextWrap::new("solo");
    wrap.place(false);
    wrap.place(true);
    assert_eq!(wrap.into_lines(), strs(&["solo"]));
}

#[test]
fn wrapped_words_are_the_text_words() {
    let text = "Lorem ipsum dolor sit amet,\nconsectetur adipiscing elit; sed do eiusmod";
    for width in [0, 3, 8, 15, 40] {
        let lines = wrap_to(text, width);
        let words: Vec<&str> = lines.iter().flat_map(|l| l.split_whitespace()).collect();
        let expected: Vec<&str> = text.split_whitespace().collect();
        assert_eq!(words, expected);
        for l in &lines {
            assert!(l.chars().count() <= width || !l.contains(' '));
        }
    }
}

#[test]
fn lines_break_only_when_the_next_word_does_not_fit() {
    let text = "pack as many words as will fit on every single line of this text";
    for width in [4, 9, 12, 20] {
        let lines = wrap_to(text, width);
        for pair in lines.windows(2) {
            let next_word = pair[1].split_whitespace().next().unwrap();
            let joined = format!("{} {}", pair[0], next_word);
            assert!(joined.chars().count() > width, "{:?} at width {}", joined, width);
        }
    }
}
