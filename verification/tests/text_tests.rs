use component_inliner::text::{
    chars_lt, contains, contains_chars, from_chars, is_whitespace, matches_at, push_range,
    remove_whitespace, replace, replace_chars, same_chars, same_text, split_chars,
    strip_whitespace, to_chars,
};

fn chars(s: &str) -> Vec<char> {
    s.chars().collect()
}

fn strings(pieces: Vec<Vec<char>>) -> Vec<String> {
    pieces.into_iter().map(|p| p.into_iter().collect()).collect()
}

#[test]
fn to_chars_and_back() {
    assert_eq!(to_chars("héllo ✓"), chars("héllo ✓"));
    assert_eq!(from_chars(&chars("héllo ✓")), "héllo ✓");
    assert_eq!(to_chars(""), Vec::<char>::new());
    assert_eq!(from_chars(&vec![]), "");
}

#[test]
fn push_range_appends_the_range() {
    let mut out = chars("ab");
    push_range(&mut out, &chars("01234"), 1, 4);
    assert_eq!(out, chars("ab123"));
    push_range(&mut out, &chars("01234"), 2, 2);
    assert_eq!(out, chars("ab123"));
}

#[test]
fn matches_at_checks_one_place() {
    assert!(matches_at(&chars("hello"), &chars("ll"), 2));
    assert!(!matches_at(&chars("hello"), &chars("ll"), 1));
    assert!(!matches_at(&chars("hello"), &chars("lo!"), 3));
    assert!(matches_at(&chars("hello"), &chars(""), 5));
    assert!(!matches_at(&chars("hello"), &chars(""), 6));
}

#[test]
fn contains_finds_substrings() {
    assert!(contains("a{name}b", "{name}"));
    assert!(contains("abc", "abc"));
    assert!(contains("abc", "c"));
    assert!(contains("abc", ""));
    assert!(contains("", ""));
    assert!(!contains("", "a"));
    assert!(!contains("abc", "abcd"));
    assert!(!contains("abc", "ac"));
    assert!(contains("aab", "ab"));
    assert!(contains_chars(&chars("aaab"), &chars("aab")));
}

#[test]
fn replace_replaces_every_occurrence_from_the_left() {
    assert_eq!(replace("Hello {name}!", "{name}", "World"), "Hello World!");
    assert_eq!(replace("{a}{a}", "{a}", "x"), "xx");
    assert_eq!(replace("aaa", "aa", "b"), "ba");
    assert_eq!(replace("abc", "x", "y"), "abc");
    assert_eq!(replace("", "x", "y"), "");
    assert_eq!(replace("abc", "b", ""), "ac");
    assert_eq!(replace("aXa", "X", "aXa"), "aaXaa");
    assert_eq!(replace_chars(&chars("abab"), &chars("ab"), &chars("ab ")), chars("ab ab "));
}

#[test]
fn replace_agrees_with_std_on_patterns_that_are_not_empty() {
    let texts = ["", "a", "aa", "aaa", "abab", "{x}{y}{x}", "xx{x}", "{{x}}", "a{x", "日本語{x}語"];
    let patterns = ["a", "aa", "ab", "{x}", "x}", "語"];
    let values = ["", "a", "{x}", "zz"];
    for text in texts {
        for pattern in patterns {
            for value in values {
                assert_eq!(replace(text, pattern, value), text.replace(pattern, value));
            }
        }
    }
}

#[test]
fn an_empty_pattern_replaces_nothing() {
    assert_eq!(replace("abc", "", "x"), "abc");
}

#[test]
fn split_gives_one_piece_more_than_separators() {
    assert_eq!(strings(split_chars(&chars("a\nb"), '\n')), vec!["a", "b"]);
    assert_eq!(strings(split_chars(&chars(""), '\n')), vec![""]);
    assert_eq!(strings(split_chars(&chars("a\n"), '\n')), vec!["a", ""]);
    assert_eq!(strings(split_chars(&chars("\n\n"), '\n')), vec!["", "", ""]);
    assert_eq!(strings(split_chars(&chars("/a//b"), '/')), vec!["", "a", "", "b"]);
    assert_eq!(strings(split_chars(&chars("abc"), '/')), vec!["abc"]);
}

#[test]
fn split_agrees_with_std() {
    for text in ["", "a", "\n", "a\nb\nc", "\na\n\nb\n", "x\r\ny"] {
        let expected: Vec<String> = text.split('\n').map(|s| s.to_string()).collect();
        assert_eq!(strings(split_chars(&chars(text), '\n')), expected);
    }
}

#[test]
fn is_whitespace_agrees_with_std_on_every_character() {
    let mut code: u32 = 0;
    while code <= 0x10ffff {
        if let Some(c) = char::from_u32(code) {
            assert_eq!(is_whitespace(c), c.is_whitespace(), "U+{:04X}", code);
        }
        code += 1;
    }
}

#[test]
fn remove_whitespace_removes_all_of_it() {
    let mut s = "  import\t'a b.html'\u{a0}\r\n".to_string();
    remove_whitespace(&mut s);
    assert_eq!(s, "import'ab.html'");
    let mut empty = String::new();
    remove_whitespace(&mut empty);
    assert_eq!(empty, "");
    let mut only = " \n\t".to_string();
    remove_whitespace(&mut only);
    assert_eq!(only, "");
    assert_eq!(strip_whitespace(&chars("a \u{3000}b")), chars("ab"));
}

#[test]
fn same_text_compares_characters() {
    assert!(same_text("card", "card"));
    assert!(!same_text("card", "Card"));
    assert!(!same_text("card", "car"));
    assert!(same_text("", ""));
    assert!(same_chars(&chars("ab"), &chars("ab")));
    assert!(!same_chars(&chars("ab"), &chars("ba")));
    assert!(!same_chars(&chars("ab"), &chars("abc")));
}

#[test]
fn chars_lt_is_the_order_of_str() {
    let words = ["", "a", "ab", "b", "B", "aa", "é", "z", "日本", "a b", "ab "];
    for a in words {
        for b in words {
            assert_eq!(chars_lt(&chars(a), &chars(b)), a < b, "{:?} < {:?}", a, b);
        }
    }
}
