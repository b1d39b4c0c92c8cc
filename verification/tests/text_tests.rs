use indexer_native::hashing::hash_content;
use indexer_native::text::{
    append_chars, chars_equal, chars_of, equals_str, find_char_from, has_prefix, has_str_prefix,
    is_whitespace_char, join_range, join_range_with, push_decimal, push_hex, split_lines,
    split_words, str_equal, trim_chars,
};

fn chars(s: &str) -> Vec<char> {
    s.chars().collect()
}

fn text(v: &[char]) -> String {
    v.iter().collect()
}

#[test]
fn hash_of_known_texts() {
    assert_eq!(
        hash_content(""),
        "e3b0c44298fc1c149afbf4c8996fb92427ae41e4649b934ca495991b7852b855"
    );
    assert_eq!(
        hash_content("abc"),
        "ba7816bf8f01cfea414140de5dae2223b00361a396177a9cb410ff61f20015ad"
    );
}

#[test]
fn hash_is_sixty_four_lowercase_hex_digits() {
    let digest = hash_content("héllo wörld");
    assert_eq!(digest.len(), 64);
    assert!(digest.chars().all(|c| c.is_ascii_digit() || ('a'..='f').contains(&c)));
}

#[test]
fn chars_of_keeps_every_character() {
    assert_eq!(chars_of("aé€😀"), vec!['a', 'é', '€', '😀']);
    assert_eq!(chars_of(""), Vec::<char>::new());
}

#[test]
fn str_equal_compares_contents() {
    assert!(str_equal("rust", "rust"));
    assert!(!str_equal("rust", "rusT"));
    assert!(!str_equal("rust", "rus"));
    assert!(str_equal("", ""));
    assert!(!str_equal("é", "e"));
}

#[test]
fn chars_equal_and_equals_str() {
    assert!(chars_equal(&chars("abc"), &chars("abc")));
    assert!(!chars_equal(&chars("abc"), &chars("abd")));
    assert!(!chars_equal(&chars("abc"), &chars("ab")));
    assert!(equals_str(&chars("};"), "};"));
    assert!(!equals_str(&chars("}"), "};"));
}

#[test]
fn prefixes() {
    assert!(has_prefix(&chars("export const"), &chars("export ")));
    assert!(!has_prefix(&chars("expor"), &chars("export ")));
    assert!(has_prefix(&chars("abc"), &chars("")));
    assert!(has_str_prefix(&chars("pub fn x"), "pub "));
    assert!(!has_str_prefix(&chars("public"), "pub "));
}

#[test]
fn append_chars_appends() {
    let mut v = chars("ab");
    append_chars(&mut v, &chars("cd"));
    assert_eq!(text(&v), "abcd");
    append_chars(&mut v, &[]);
    assert_eq!(text(&v), "abcd");
}

#[test]
fn whitespace_agrees_with_the_unicode_property() {
    let mut code: u32 = 0;
    while code <= 0x10ffff {
        if let Some(c) = char::from_u32(code) {
            assert_eq!(is_whitespace_char(c), c.is_whitespace(), "U+{:04X}", code);
        }
        code += 1;
    }
}

#[test]
fn trim_drops_whitespace_at_both_ends() {
    assert_eq!(text(trim_chars(&chars("  \t a b \r\n"))), "a b");
    assert_eq!(text(trim_chars(&chars("   "))), "");
    assert_eq!(text(trim_chars(&chars(""))), "");
    assert_eq!(text(trim_chars(&chars("x"))), "x");
    assert_eq!(text(trim_chars(&chars("\u{3000}x\u{a0}"))), "x");
}

#[test]
fn trim_agrees_with_std() {
    for s in ["", " ", "a", " a", "a ", "\t\n a \u{2003}b\u{2028} ", "}\r", " } ; "] {
        assert_eq!(text(trim_chars(&chars(s))), s.trim());
    }
}

#[test]
fn find_char_from_finds_the_first() {
    let t = chars("a:b{c:d");
    assert_eq!(find_char_from(&t, ':', 0), 1);
    assert_eq!(find_char_from(&t, ':', 2), 5);
    assert_eq!(find_char_from(&t, '{', 0), 3);
    assert_eq!(find_char_from(&t, 'z', 0), 7);
    assert_eq!(find_char_from(&t, 'a', 7), 7);
}

fn lines_as_strings(s: &str) -> Vec<String> {
    split_lines(&chars(s)).iter().map(|l| text(l)).collect()
}

#[test]
fn split_lines_on_named_cases() {
    assert_eq!(lines_as_strings(""), Vec::<String>::new());
    assert_eq!(lines_as_strings("\n"), vec![""]);
    assert_eq!(lines_as_strings("a"), vec!["a"]);
    assert_eq!(lines_as_strings("a\n"), vec!["a"]);
    assert_eq!(lines_as_strings("a\n\nb"), vec!["a", "", "b"]);
    assert_eq!(lines_as_strings("foo\r\nbar\n\nbaz\r"), vec!["foo", "bar", "", "baz\r"]);
    assert_eq!(lines_as_strings("a\r\r\nb"), vec!["a\r", "b"]);
    assert_eq!(lines_as_strings("\r\n"), vec![""]);
}

#[test]
fn split_lines_agrees_with_std() {
    for s in [
        "",
        "\n",
        "\n\n",
        "a\nb\nc",
        "a\r\nb\rc\n",
        "\r",
        "x\n\r\ny\r\n\r\n",
        "\nfunction foo() {\n    return 1;\n}\n",
    ] {
        let expected: Vec<String> = s.lines().map(|l| l.to_string()).collect();
        assert_eq!(lines_as_strings(s), expected, "{:?}", s);
    }
}

#[test]
fn join_range_joins_with_line_feeds() {
    let lines = vec![chars("a"), chars(""), chars("b"), chars("c")];
    assert_eq!(text(&join_range(&lines, 0, 4)), "a\n\nb\nc");
    assert_eq!(text(&join_range(&lines, 1, 3)), "\nb");
    assert_eq!(text(&join_range(&lines, 2, 3)), "b");
    assert_eq!(text(&join_range(&lines, 2, 2)), "");
}

#[test]
fn push_decimal_writes_digits() {
    for (n, want) in [(0usize, "0"), (7, "7"), (10, "10"), (42, "42"), (1000, "1000"), (4294967295, "4294967295")] {
        let mut v = chars("n=");
        push_decimal(&mut v, n);
        assert_eq!(text(&v), format!("n={}", want));
    }
}

#[test]
fn join_range_with_any_separator() {
    let parts = vec![chars("a"), chars("bc"), chars("")];
    assert_eq!(text(&join_range_with(&parts, 0, 3, ' ')), "a bc ");
    assert_eq!(text(&join_range_with(&parts, 0, 2, ',')), "a,bc");
    assert_eq!(text(&join_range_with(&parts, 1, 1, ',')), "");
}

fn words_as_strings(s: &str) -> Vec<String> {
    split_words(&chars(s)).iter().map(|w| text(w)).collect()
}

#[test]
fn split_words_on_named_cases() {
    assert_eq!(words_as_strings(""), Vec::<String>::new());
    assert_eq!(words_as_strings("  \n\t "), Vec::<String>::new());
    assert_eq!(words_as_strings("one"), vec!["one"]);
    assert_eq!(words_as_strings("  one  two\nthree "), vec!["one", "two", "three"]);
    assert_eq!(words_as_strings("a\u{a0}b\u{3000}c"), vec!["a", "b", "c"]);
}

#[test]
fn split_words_agrees_with_std() {
    for s in ["", " ", "a", " a b ", "fn main() { println!(\"Hello\"); }", "x\r\ny\tz", "é ü\u{2003}ß"] {
        let expected: Vec<String> = s.split_whitespace().map(|w| w.to_string()).collect();
        assert_eq!(words_as_strings(s), expected, "{:?}", s);
    }
}

#[test]
fn push_hex_writes_padded_digits() {
    for (n, width, want) in [
        (0u64, 16usize, "0000000000000000"),
        (255, 16, "00000000000000ff"),
        (0xdeadbeef, 16, "00000000deadbeef"),
        (u64::MAX, 16, "ffffffffffffffff"),
        (0x1234, 2, "34"),
        (0x1234, 0, ""),
        (10, 1, "a"),
    ] {
        let mut v = chars("0x");
        push_hex(&mut v, n, width);
        assert_eq!(text(&v), format!("0x{}", want));
    }
    let mut v = Vec::new();
    push_hex(&mut v, 0x0123456789abcdef, 16);
    assert_eq!(text(&v), format!("{:016x}", 0x0123456789abcdefu64));
}
