use sysaudit::text::{
    chars_of, has_prefix, has_substring, has_suffix, i64_decimal, join_strings, pad_to,
    repeat_str, split, split_lines, split_words, trim_str, u64_decimal,
};

fn v(items: &[&str]) -> Vec<String> {
    items.iter().map(|s| s.to_string()).collect()
}

#[test]
fn split_like_str_split() {
    assert_eq!(split("a:b::c", ':'), v(&["a", "b", "", "c"]));
    assert_eq!(split("", ':'), v(&[""]));
    assert_eq!(split("a:", ':'), v(&["a", ""]));
    assert_eq!(split("ünï:cødé", ':'), v(&["ünï", "cødé"]));
}

#[test]
fn split_then_join_gives_text_back() {
    for s in ["", "a", "a/b", "/a//b/", "///"] {
        assert_eq!(join_strings(&split(s, '/'), "/"), s);
    }
}

#[test]
fn join_like_slice_join() {
    assert_eq!(join_strings(&v(&[]), ", "), "");
    assert_eq!(join_strings(&v(&["x"]), ", "), "x");
    assert_eq!(join_strings(&v(&["x", "y", "z"]), ", "), "x, y, z");
}

#[test]
fn trim_like_str_trim() {
    assert_eq!(trim_str("  a b \t\n"), "a b");
    assert_eq!(trim_str(" \u{a0}\u{3000} "), "");
    assert_eq!(trim_str("x"), "x");
    assert_eq!(trim_str(""), "");
}

#[test]
fn words_like_split_whitespace() {
    assert_eq!(split_words("  d41d8  usr/bin/x \t"), v(&["d41d8", "usr/bin/x"]));
    assert_eq!(split_words(""), v(&[]));
    assert_eq!(split_words(" \u{2003} "), v(&[]));
    let s = "a\u{85}b  c";
    let ours = split_words(s);
    let std: Vec<String> = s.split_whitespace().map(|x| x.to_string()).collect();
    assert_eq!(ours, std);
}

#[test]
fn lines_like_str_lines() {
    for s in ["", "a", "a\n", "a\r\nb", "a\n\nb\n", "a\r", "\n", "a\rb\r\n\r\n"] {
        let std: Vec<String> = s.lines().map(|x| x.to_string()).collect();
        assert_eq!(split_lines(s), std, "input {:?}", s);
    }
}

#[test]
fn affixes_and_substrings() {
    assert!(has_prefix("Package: x", "Package: "));
    assert!(!has_prefix("Pack", "Package: "));
    assert!(has_suffix("x_Packages", "_Packages"));
    assert!(!has_suffix("Packages", "_Packages"));
    assert!(has_substring("/usr/bin/python3.12", "python"));
    assert!(!has_substring("pyth", "python"));
    assert!(has_substring("abc", ""));
}

#[test]
fn decimal_numbers() {
    assert_eq!(u64_decimal(0), "0");
    assert_eq!(u64_decimal(1000), "1000");
    assert_eq!(u64_decimal(u64::MAX), u64::MAX.to_string());
    assert_eq!(i64_decimal(-42), "-42");
    assert_eq!(i64_decimal(i64::MIN), i64::MIN.to_string());
}

#[test]
fn padding_and_repeating() {
    assert_eq!(pad_to("ab", 5), "ab   ");
    assert_eq!(pad_to("abcdef", 3), "abcdef");
    assert_eq!(pad_to("é", 3), format!("{:<3}", "é"));
    assert_eq!(repeat_str("    ", 2), "        ");
    assert_eq!(repeat_str("x", 0), "");
}

#[test]
fn characters() {
    assert_eq!(chars_of("aé"), vec!['a', 'é']);
}
