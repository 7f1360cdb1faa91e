use npma::text::{chars_of, find_char, holds, same_chars, trim_range, Strip};

fn trimmed(text: &str, strip: Strip) -> String {
    let chars = chars_of(text);
    let (from, to) = trim_range(&chars, 0, chars.len(), strip);
    chars[from..to].iter().collect()
}

#[test]
fn chars_of_counts_characters_not_bytes() {
    assert_eq!(chars_of("añb"), vec!['a', 'ñ', 'b']);
    assert_eq!(chars_of(""), Vec::<char>::new());
}

#[test]
fn find_char_gives_the_first_place() {
    assert_eq!(find_char(&chars_of("a:b:c"), ':'), Some(1));
    assert_eq!(find_char(&chars_of(":"), ':'), Some(0));
    assert_eq!(find_char(&chars_of("abc"), ':'), None);
    assert_eq!(find_char(&chars_of(""), ':'), None);
    // Places count characters: the byte offset of the colon here is 3.
    assert_eq!(find_char(&chars_of("ñé:x"), ':'), Some(2));
}

#[test]
fn holds_finds_a_pattern_anywhere() {
    let needle = chars_of("abc");
    assert!(holds(&chars_of("abc"), &needle));
    assert!(holds(&chars_of("xxabc"), &needle));
    assert!(holds(&chars_of("abcxx"), &needle));
    assert!(holds(&chars_of("ababc"), &needle));
    assert!(!holds(&chars_of("ab"), &needle));
    assert!(!holds(&chars_of("abxc"), &needle));
    assert!(!holds(&chars_of("ABC"), &needle));
    assert!(!holds(&chars_of(""), &needle));
}

#[test]
fn holds_the_empty_pattern_everywhere() {
    let nothing = chars_of("");
    assert!(holds(&chars_of(""), &nothing));
    assert!(holds(&chars_of("abc"), &nothing));
}

#[test]
fn trim_whitespace_matches_std_trim() {
    for text in
        ["", " ", "a", " a", "a ", "  a b  ", "\t\r\n a \u{a0}\u{3000}", "\u{2003}x\u{2028}", "\u{85}"]
    {
        assert_eq!(trimmed(text, Strip::Whitespace), text.trim());
    }
}

#[test]
fn trim_separators_matches_std_trim_matches() {
    for text in ["", ":", ": ", ": value", ":: : v : ", ":a:b:", " x", ":\tvalue"] {
        assert_eq!(trimmed(text, Strip::Separators), text.trim_matches(&[':', ' '][..]));
    }
}

#[test]
fn trim_quotes_matches_std_trim_matches() {
    for text in ["", "\"", "\"\"", "\"a\"", "\"\"a\"b\"\"", "a\"", " \"a\""] {
        assert_eq!(trimmed(text, Strip::Quotes), text.trim_matches('"'));
    }
}

#[test]
fn trim_range_works_inside_a_text() {
    let chars = chars_of("ab  cd  ef");
    assert_eq!(trim_range(&chars, 2, 8, Strip::Whitespace), (4, 6));
    assert_eq!(trim_range(&chars, 2, 4, Strip::Whitespace), (4, 4));
    assert_eq!(trim_range(&chars, 0, 0, Strip::Whitespace), (0, 0));
    assert_eq!(trim_range(&chars, 0, 10, Strip::Whitespace), (0, 10));
}

#[test]
fn whitespace_is_what_std_calls_whitespace() {
    let mut code: u32 = 0;
    while code <= 0x3100 {
        if let Some(c) = char::from_u32(code) {
            assert_eq!(Strip::Whitespace.has(c), c.is_whitespace(), "U+{:04X}", code);
        }
        code += 1;
    }
}

#[test]
fn strip_sets() {
    assert!(Strip::Separators.has(':'));
    assert!(Strip::Separators.has(' '));
    assert!(!Strip::Separators.has('\t'));
    assert!(Strip::Quotes.has('"'));
    assert!(!Strip::Quotes.has('\''));
}

#[test]
fn same_chars_compares_contents() {
    assert!(same_chars(&chars_of("abc"), &chars_of("abc")));
    assert!(same_chars(&chars_of(""), &chars_of("")));
    assert!(!same_chars(&chars_of("abc"), &chars_of("abd")));
    assert!(!same_chars(&chars_of("abc"), &chars_of("ab")));
}
