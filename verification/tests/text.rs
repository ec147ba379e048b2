use oxidyze::text::{
    compose, decimal_of, is_control, is_white_space, join_strings, lines_of, number_of,
    same_ignoring_case, split_chars, split_chars_once, to_ascii_lower, trim_chars, words_of,
};

fn chars(s: &str) -> Vec<char> {
    s.chars().collect()
}

fn strings(parts: Vec<Vec<char>>) -> Vec<String> {
    parts.into_iter().map(|p| p.into_iter().collect()).collect()
}

#[test]
fn character_classes_agree_with_unicode() {
    for code in 0..=0x10FFFFu32 {
        if let Some(c) = char::from_u32(code) {
            assert_eq!(is_white_space(c), c.is_whitespace(), "{code:x}");
            assert_eq!(is_control(c), c.is_control(), "{code:x}");
            assert_eq!(to_ascii_lower(c), c.to_ascii_lowercase(), "{code:x}");
        }
    }
}

#[test]
fn splitting_and_joining_undo_each_other() {
    for text in ["", "a", "a.b", ".", "a..b.", "no dots"] {
        let parts = strings(split_chars(&chars(text), &['.']));
        assert_eq!(parts, text.split('.').collect::<Vec<_>>());
        assert_eq!(join_strings(&parts, "."), text);
    }
    assert_eq!(
        strings(split_chars(&chars("a\r\nb\r\r\n"), &['\r', '\n'])),
        vec!["a", "b\r", ""]
    );
}

#[test]
fn texts_are_split_at_the_first_match() {
    let text = chars("x at y at z");
    let pat = chars(" at ");
    let (a, b) = split_chars_once(&text, &pat).unwrap();
    assert_eq!(a, &['x']);
    assert_eq!(b, chars("y at z").as_slice());
    assert!(split_chars_once(&text, &['q']).is_none());
}

#[test]
fn lines_and_words_agree_with_std() {
    for text in [
        "",
        "\n",
        "a",
        "a\n",
        "a\r\nb\r\n",
        "a\r\r\n\nb\r",
        " a  b\tc\u{2003}d ",
    ] {
        assert_eq!(
            strings(lines_of(&chars(text))),
            text.lines().collect::<Vec<_>>()
        );
        assert_eq!(
            strings(words_of(&chars(text))),
            text.split_whitespace().collect::<Vec<_>>()
        );
        assert_eq!(
            trim_chars(&chars(text)).iter().collect::<String>(),
            text.trim()
        );
    }
}

#[test]
fn numbers_are_read_back_as_written() {
    for n in [0, 7, 10, 255, 65535, 4294967296, u64::MAX] {
        assert_eq!(decimal_of(n), n.to_string());
        assert_eq!(number_of(&chars(&decimal_of(n)), u64::MAX), Some(n));
    }
    assert_eq!(number_of(&chars("256"), 255), None);
    assert_eq!(number_of(&chars("+12"), 255), Some(12));
    assert_eq!(number_of(&chars("00012"), 255), Some(12));
    for text in ["", "+", "-1", "1 ", "1a", "++1", "18446744073709551616"] {
        assert_eq!(number_of(&chars(text), u64::MAX), None, "{text}");
    }
}

#[test]
fn strings_are_composed_and_compared() {
    assert_eq!(compose("a", &['b', 'ä'], "c"), "abäc");
    assert!(same_ignoring_case(&chars("SerVer:"), &chars("server:")));
    assert!(!same_ignoring_case(&chars("ä"), &chars("Ä")));
    assert!(!same_ignoring_case(&chars("ab"), &chars("abc")));
}
