use finance_analyzer::text::{is_text_le, is_whitespace, lines, split, trim};

#[test]
fn split_at_every_separator() {
    assert_eq!(split("Home/Rent", '/'), vec!["Home", "Rent"]);
    assert_eq!(split("Home", '/'), vec!["Home"]);
    assert_eq!(split("", '/'), vec![""]);
    assert_eq!(split("/", '/'), vec!["", ""]);
    assert_eq!(split("a//b/", '/'), vec!["a", "", "b", ""]);
    assert_eq!(split("é/ü", '/'), vec!["é", "ü"]);
}

#[test]
fn split_agrees_with_the_standard_library() {
    let samples = ["", "/", "//", "a", "a/b", "/a/b/", "Home/Rent/2024", "a_b/c_d", "日本/語"];
    for s in samples.iter() {
        let expected: Vec<String> = s.split('/').map(|p| p.to_string()).collect();
        assert_eq!(split(s, '/'), expected);
    }
}

#[test]
fn lines_of_a_text() {
    assert_eq!(lines("Holiday\nGifts\n"), vec!["Holiday", "Gifts"]);
    assert_eq!(lines("Holiday\r\nGifts"), vec!["Holiday", "Gifts"]);
    assert_eq!(lines(""), Vec::<String>::new());
    assert_eq!(lines("\n"), vec![""]);
    assert_eq!(lines("a\n\nb"), vec!["a", "", "b"]);
}

#[test]
fn lines_agree_with_the_standard_library() {
    let samples = [
        "",
        "\n",
        "\r\n",
        "\r",
        "a",
        "a\n",
        "a\r\n",
        "a\rb\n",
        "foo\nbar\n\r\nbaz\r",
        "one\n\ntwo\r\n\r\nthree",
        "\r\r\n",
    ];
    for s in samples.iter() {
        let expected: Vec<String> = s.lines().map(|l| l.to_string()).collect();
        assert_eq!(lines(s), expected);
    }
}

#[test]
fn trim_takes_the_white_space_off_both_ends() {
    assert_eq!(trim("   with to many spaces at each end   "), "with to many spaces at each end");
    assert_eq!(trim(""), "");
    assert_eq!(trim(" \t\r\n"), "");
    assert_eq!(trim("a"), "a");
    assert_eq!(trim(" a b "), "a b");
    assert_eq!(trim("\u{3000}Sort Code\u{a0}"), "Sort Code");
}

#[test]
fn white_space_is_what_the_standard_library_takes_for_it() {
    for code in 0..=0x10FFFFu32 {
        if let Some(c) = char::from_u32(code) {
            assert_eq!(is_whitespace(c), c.is_whitespace(), "at {}", code);
        }
    }
}

#[test]
fn texts_are_ordered_as_strings_are() {
    let samples = ["", "a", "A", "ab", "abc", "b", "2024-01-31", "2024-02-01", "é", "z", "日本"];
    for a in samples.iter() {
        for b in samples.iter() {
            assert_eq!(is_text_le(a, b), a <= b, "{} and {}", a, b);
        }
    }
}
