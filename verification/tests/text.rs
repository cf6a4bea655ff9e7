use ci_timing::text::{
    chars_eq, chars_lt, count_until, find_get_after, find_in, find_line, from_chars,
    is_whitespace, rfind_char, split_lines, split_whitespace, starts_at, str_lt, to_chars, trim,
};

fn chars(s: &str) -> Vec<char> {
    s.chars().collect()
}

fn text(v: &[char]) -> String {
    v.iter().collect()
}

#[test]
fn to_chars_and_back() {
    let s = "héllo \u{3000}wörld\n";
    assert_eq!(to_chars(s), chars(s));
    assert_eq!(from_chars(&chars(s)), s);
    assert_eq!(from_chars(&[]), "");
    assert_eq!(from_chars(&['a', 'b']), "ab");
}

#[test]
fn white_space_is_what_std_says() {
    for u in 0..0x11_0000u32 {
        if let Some(c) = char::from_u32(u) {
            assert_eq!(is_whitespace(c), c.is_whitespace(), "{:x}", u);
        }
    }
}

#[test]
fn trim_is_what_std_does() {
    for s in ["", "  ", " a b \t\r\n", "x", "\u{a0}x\u{2003}", "a  ", "  a", "\u{85}"] {
        assert_eq!(text(trim(&chars(s))), s.trim(), "{:?}", s);
    }
}

#[test]
fn lines_are_what_std_gives() {
    for s in [
        "",
        "\n",
        "a",
        "a\n",
        "a\nb",
        "foo\nbar\n\r\nbaz\r",
        "a\r\nb\r\n",
        "\r\n\r\n",
        "a\r\r\nb",
        "\n\n\n",
        "x\ry\nz",
    ] {
        let v = chars(s);
        let got: Vec<String> = split_lines(&v).iter().map(|l| text(l)).collect();
        let want: Vec<String> = s.lines().map(|l| l.to_string()).collect();
        assert_eq!(got, want, "{:?}", s);
    }
}

#[test]
fn the_last_carriage_return_stays_without_a_line_feed() {
    let v = chars("foo\nbar\n\r\nbaz\r");
    let got: Vec<String> = split_lines(&v).iter().map(|l| text(l)).collect();
    assert_eq!(got, vec!["foo", "bar", "", "baz\r"]);
}

#[test]
fn find_gives_the_first_occurrence() {
    assert_eq!(find_in(&chars("abcabc"), &chars("bc")), Some(1));
    assert_eq!(find_in(&chars("abcabc"), &chars("cb")), None);
    assert_eq!(find_in(&chars("abc"), &chars("abcd")), None);
    assert_eq!(find_in(&chars("abc"), &chars("")), Some(0));
    assert_eq!(find_in(&chars(""), &chars("")), Some(0));
    assert_eq!(find_in(&chars("aab"), &chars("ab")), Some(1));
    assert_eq!(find_in(&chars("xyz"), &chars("z")), Some(2));
}

#[test]
fn find_get_after_gives_what_follows_the_needle() {
    let line = chars("12:00 [TIMING] build -- 4.0");
    assert_eq!(find_get_after(&line, &chars("[TIMING] ")).map(text), Some("build -- 4.0".to_string()));
    assert_eq!(find_get_after(&line, &chars("[RUSTC-TIMING] ")), None);
    assert_eq!(find_get_after(&chars("ab"), &chars("ab")).map(text), Some(String::new()));
}

#[test]
fn starts_at_tells_where_a_needle_stands() {
    assert!(starts_at(&chars("https://x"), &chars("https://"), 0));
    assert!(!starts_at(&chars("http://x"), &chars("https://"), 0));
    assert!(starts_at(&chars("abc"), &chars("bc"), 1));
    assert!(!starts_at(&chars("abc"), &chars("bc"), 2));
    assert!(!starts_at(&chars("abc"), &chars("bc"), 7));
    assert!(starts_at(&chars("abc"), &chars(""), 3));
}

#[test]
fn count_until_and_rfind() {
    assert_eq!(count_until(&chars("abc]def]"), ']'), 3);
    assert_eq!(count_until(&chars("abc"), ']'), 3);
    assert_eq!(count_until(&chars(""), ']'), 0);
    assert_eq!(rfind_char(&chars("a b c"), ' '), Some(3));
    assert_eq!(rfind_char(&chars("abc"), ' '), None);
    assert_eq!(rfind_char(&chars(" "), ' '), Some(0));
}

#[test]
fn words_are_what_std_gives() {
    for s in ["", "  ", "a", " a  b\tc\n", "Job12 dist-x86 extra", "\u{3000}x\u{a0}y"] {
        let v = chars(s);
        let got: Vec<String> = split_whitespace(&v).iter().map(|l| text(l)).collect();
        let want: Vec<String> = s.split_whitespace().map(|l| l.to_string()).collect();
        assert_eq!(got, want, "{:?}", s);
    }
}

#[test]
fn dictionary_order_is_that_of_std() {
    let words = ["", "a", "aa", "ab", "b", "B", "é", "z", "a\u{10000}", "a\u{ffff}", "dist", "dist-x"];
    for a in words {
        for b in words {
            assert_eq!(str_lt(a, b), a < b, "{:?} {:?}", a, b);
            assert_eq!(chars_lt(&chars(a), &chars(b)), a < b, "{:?} {:?}", a, b);
            assert_eq!(chars_eq(&chars(a), &chars(b)), a == b);
        }
    }
}

#[test]
fn find_line_gives_the_first_line_with_the_needle() {
    let a = chars("one");
    let b = chars("two x=1");
    let c = chars("three x=2");
    let ls: Vec<&[char]> = vec![&a, &b, &c];
    let needle = chars("x=");
    assert_eq!(find_line(&ls, &needle, 0).map(|(i, r)| (i, text(r))), Some((1, "1".to_string())));
    assert_eq!(find_line(&ls, &needle, 2).map(|(i, r)| (i, text(r))), Some((2, "2".to_string())));
    assert_eq!(find_line(&ls, &needle, 3), None);
    assert_eq!(find_line(&ls, &chars("y="), 0), None);
}
