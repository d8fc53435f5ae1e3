use bufo_search::text::{
    char_is_whitespace, concatenate, contains, from_chars, push_decimal, split_list, str_eq, to_chars,
    trim,
};

#[test]
fn whitespace_is_what_the_standard_library_calls_whitespace() {
    for code in 0..=0x10FFFFu32 {
        if let Some(c) = char::from_u32(code) {
            assert_eq!(char_is_whitespace(c), c.is_whitespace(), "U+{:04X}", code);
        }
    }
}

#[test]
fn trim_agrees_with_the_standard_library() {
    for text in [
        "",
        " ",
        "a",
        "  a  ",
        "\t\n a b \r\n",
        "a \u{3000}",
        "\u{a0}\u{2003}x\u{205f}",
        "é  ",
        " \u{200b} ",
        "no-space",
        " inner  space ",
    ] {
        assert_eq!(trim(text), text.trim(), "{:?}", text);
    }
}

#[test]
fn trim_removes_both_ends_only() {
    assert_eq!(trim("  bufo party \n"), "bufo party");
    assert_eq!(trim(" \t "), "");
}

#[test]
fn split_list_trims_and_drops_empty_entries() {
    assert_eq!(split_list("test, draft", ','), vec!["test", "draft"]);
    assert_eq!(split_list(",,a, ,b,", ','), vec!["a", "b"]);
    assert_eq!(split_list("", ','), Vec::<String>::new());
    assert_eq!(split_list("  ", ','), Vec::<String>::new());
    assert_eq!(split_list(",", ','), Vec::<String>::new());
    assert_eq!(split_list("one", ','), vec!["one"]);
    assert_eq!(split_list(" a b , c\td ", ','), vec!["a b", "c\td"]);
    assert_eq!(split_list("a;b,c", ';'), vec!["a", "b,c"]);
    assert_eq!(split_list("é , ü", ','), vec!["é", "ü"]);
}

#[test]
fn split_list_agrees_with_split_trim_filter() {
    for text in ["a,b", " a , , b ,", ",", "x", "", "a,,b", ", ,", "party, (unclosed, draft"] {
        let expected: Vec<String> = text
            .split(',')
            .map(|p| p.trim())
            .filter(|p| !p.is_empty())
            .map(|p| p.to_string())
            .collect();
        assert_eq!(split_list(text, ','), expected, "{:?}", text);
    }
}

fn words(alphabet: &[char], max_len: usize) -> Vec<String> {
    let mut all = vec![String::new()];
    let mut last = vec![String::new()];
    for _ in 0..max_len {
        let mut next = Vec::new();
        for word in &last {
            for c in alphabet {
                let mut longer = word.clone();
                longer.push(*c);
                next.push(longer);
            }
        }
        all.extend(next.iter().cloned());
        last = next;
    }
    all
}

#[test]
fn contains_agrees_with_the_standard_library() {
    let texts = words(&['a', 'b', 'é'], 4);
    let patterns = words(&['a', 'b', 'é'], 3);
    for text in &texts {
        for pattern in &patterns {
            assert_eq!(
                contains(text, pattern),
                text.contains(pattern.as_str()),
                "{:?} in {:?}",
                pattern,
                text
            );
        }
    }
}

#[test]
fn contains_examples() {
    assert!(contains("bufo-juicy", "juicy"));
    assert!(contains("bufo-juicy", ""));
    assert!(contains("", ""));
    assert!(!contains("", "a"));
    assert!(!contains("juic", "juicy"));
    assert!(contains("query is too long (max 1024)", "max 1024"));
}

#[test]
fn str_eq_compares_contents() {
    assert!(str_eq("", ""));
    assert!(str_eq("bufo", "bufo"));
    assert!(!str_eq("bufo", "bufa"));
    assert!(!str_eq("bufo", "buf"));
    assert!(!str_eq("buf", "bufo"));
    assert!(str_eq("é\u{3000}", "é\u{3000}"));
    assert!(!str_eq("é", "e"));
}

#[test]
fn chars_round_trip() {
    let chars = to_chars("bufo-é!");
    assert_eq!(chars, vec!['b', 'u', 'f', 'o', '-', 'é', '!']);
    assert_eq!(from_chars(&chars, 0, chars.len()), "bufo-é!");
    assert_eq!(from_chars(&chars, 5, 6), "é");
    assert_eq!(from_chars(&chars, 3, 3), "");
}

#[test]
fn decimal_notation() {
    for n in [0u64, 1, 9, 10, 11, 99, 100, 404, 1024, 65_535, 1_000_000, u64::MAX] {
        let mut text = String::from("n=");
        push_decimal(&mut text, n);
        assert_eq!(text, format!("n={}", n));
    }
}

#[test]
fn concat_puts_one_text_after_the_other() {
    assert_eq!(concatenate("parse error: ", "eof"), "parse error: eof");
    assert_eq!(concatenate("", ""), "");
}
