use socketutils::socketinfo::utils::{isdigit, remove_non_printable_chars, split_text_by_words, truncate};

#[test]
fn isdigit_accepts_unsigned_numbers() {
    assert!(isdigit(&"123"));
    assert!(isdigit(&"0"));
    assert!(isdigit(&"+5"));
    assert!(isdigit(&"007"));
    assert!(!isdigit(&""));
    assert!(!isdigit(&"+"));
    assert!(!isdigit(&"-5"));
    assert!(!isdigit(&"12a"));
    assert!(!isdigit(&"self"));
    assert!(!isdigit(&" 1"));
    assert!(!isdigit(&"٣"));
    let max = usize::MAX.to_string();
    assert!(isdigit(&max.as_str()));
    let over = format!("{}0", usize::MAX);
    assert!(!isdigit(&over.as_str()));
}

#[test]
fn decimal_text_parses_back() {
    for n in [0usize, 1, 9, 10, 99, 100, 12345, usize::MAX] {
        let s = n.to_string();
        assert!(isdigit(&s.as_str()));
    }
}

#[test]
fn truncate_keeps_a_prefix() {
    let s = String::from("hello");
    assert_eq!(truncate(&s, 3), "hel");
    assert_eq!(truncate(&s, 0), "");
    assert_eq!(truncate(&s, 5), "hello");
    assert_eq!(truncate(&s, 50), "hello");
    let u = String::from("héllo");
    assert_eq!(truncate(&u, 1), "h");
    assert_eq!(truncate(&u, 3), "hé");
    assert_eq!(s, "hello");
}

#[test]
fn remove_non_printable_chars_replaces_nul() {
    let dirty = String::from("/usr/bin/app\0--flag\0value\0");
    let clean = remove_non_printable_chars(&dirty);
    assert_eq!(clean, "/usr/bin/app --flag value ");
    assert_eq!(remove_non_printable_chars(&clean), clean);
    assert_eq!(remove_non_printable_chars(&String::from("\0\0é")), "  é");
    assert_eq!(remove_non_printable_chars(&String::new()), "");
}

#[test]
fn split_words_are_non_empty() {
    let words = split_text_by_words("  a  bb\tccc\n");
    assert_eq!(words, vec!["a", "bb", "ccc"]);
    for w in words {
        assert!(!w.is_empty());
        assert!(!w.chars().any(char::is_whitespace));
    }
}

#[test]
fn resplitting_joined_words_gives_them_back() {
    for s in ["8: 1400000A:C4B2  5A131268:01BB\t06", "", "   ", "a\u{3000}b\u{85}c", " x "] {
        let words = split_text_by_words(s);
        let joined = words.join(" ");
        assert_eq!(split_text_by_words(&joined), words);
    }
}
