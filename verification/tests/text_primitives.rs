use tilb::text::{
    chars_of, copy_range, find_char, has_text, is_whitespace, range_eq, split_from, starts_with,
    string_of, trim_bounds,
};

fn chars(s: &str) -> Vec<char> {
    s.chars().collect()
}

#[test]
fn whitespace_is_what_the_standard_library_trims() {
    let mut code: u32 = 0;
    while code <= 0x10ffff {
        if let Some(c) = char::from_u32(code) {
            assert_eq!(is_whitespace(c), c.is_whitespace(), "U+{:04X}", code);
        }
        code += 1;
    }
}

#[test]
fn characters_and_strings_convert_both_ways() {
    for s in ["", "a", "héllo wörld", "tab\there", "日本語\n"] {
        let v = chars_of(s);
        assert_eq!(v, chars(s));
        assert_eq!(string_of(&v, 0, v.len()), s);
    }
    let v = chars_of("abcdef");
    assert_eq!(string_of(&v, 2, 4), "cd");
    assert_eq!(string_of(&v, 3, 3), "");
    assert_eq!(copy_range(&v, 1, 5), chars("bcde"));
}

#[test]
fn trim_bounds_agree_with_trim() {
    for s in ["", " ", "  a  ", "a", "\t\r\n x y \u{a0}\u{3000}", "x\u{2003}", "\u{85}\u{1680}"] {
        let v = chars_of(s);
        let (a, b) = trim_bounds(&v);
        assert!(a <= b && b <= v.len());
        assert_eq!(string_of(&v, a, b), s.trim());
    }
}

#[test]
fn ranges_compare_character_by_character() {
    let v = chars_of("Host alpha");
    assert!(range_eq(&v, 0, 4, &chars("Host")));
    assert!(range_eq(&v, 5, 10, &chars("alpha")));
    assert!(!range_eq(&v, 5, 10, &chars("alphA")));
    assert!(!range_eq(&v, 5, 10, &chars("alph")));
    assert!(range_eq(&v, 3, 3, &chars("")));
    assert!(starts_with(&v, &chars("Host ")));
    assert!(starts_with(&v, &chars("")));
    assert!(!starts_with(&v, &chars("host ")));
    assert!(!starts_with(&chars("Ho"), &chars("Host ")));
}

#[test]
fn first_occurrence_is_found_from_a_position() {
    let v = chars_of("a/b/c");
    assert_eq!(find_char(&v, 0, '/'), 1);
    assert_eq!(find_char(&v, 1, '/'), 1);
    assert_eq!(find_char(&v, 2, '/'), 3);
    assert_eq!(find_char(&v, 4, '/'), 5);
    assert_eq!(find_char(&v, 5, '/'), 5);
    assert_eq!(find_char(&v, 0, 'x'), 5);
}

#[test]
fn splitting_agrees_with_split() {
    for s in ["", "/", "a", "a/b", "/a//b/", "host/owner/repo"] {
        let parts: Vec<String> =
            split_from(&chars_of(s), 0, '/').iter().map(|p| p.iter().collect()).collect();
        let expected: Vec<String> = s.split('/').map(|p| p.to_string()).collect();
        assert_eq!(parts, expected);
    }
    let parts = split_from(&chars_of("x:a/b"), 2, '/');
    assert_eq!(parts, vec![chars("a"), chars("b")]);
}

#[test]
fn text_search_agrees_with_contains() {
    for (s, p) in [
        ("", ""),
        ("abc", ""),
        ("", "a"),
        ("abc", "abc"),
        ("abc", "bc"),
        ("abc", "abcd"),
        ("aab", "ab"),
        ("error: remote origin already exists.", "already exists"),
        ("already exist", "already exists"),
    ] {
        assert_eq!(has_text(&chars_of(s), &chars_of(p)), s.contains(p), "{:?} in {:?}", p, s);
    }
}
