use rgrep::lines::lines;
use rgrep::substring::contains;

#[test]
fn empty_text_has_no_lines() {
    assert_eq!(lines(""), Vec::<&str>::new());
}

#[test]
fn last_line_needs_no_line_feed() {
    assert_eq!(lines("a"), vec!["a"]);
    assert_eq!(lines("a\nb"), vec!["a", "b"]);
    assert_eq!(lines("a\nb\n"), vec!["a", "b"]);
}

#[test]
fn final_line_feed_adds_no_line() {
    assert_eq!(lines("\n"), vec![""]);
    assert_eq!(lines("a\n"), vec!["a"]);
    assert_eq!(lines("a\n\n"), vec!["a", ""]);
}

#[test]
fn empty_lines_are_lines() {
    assert_eq!(lines("\n\n\n"), vec!["", "", ""]);
    assert_eq!(lines("a\n\nb"), vec!["a", "", "b"]);
    assert_eq!(lines("\na"), vec!["", "a"]);
}

#[test]
fn carriage_return_before_line_feed_is_dropped() {
    assert_eq!(lines("a\r\n"), vec!["a"]);
    assert_eq!(lines("a\r\nb\r\n"), vec!["a", "b"]);
    assert_eq!(lines("\r\n"), vec![""]);
    assert_eq!(lines("a\r\n\r\nb"), vec!["a", "", "b"]);
}

#[test]
fn only_one_carriage_return_is_dropped() {
    assert_eq!(lines("a\r\r\n"), vec!["a\r"]);
    assert_eq!(lines("\r\r\n"), vec!["\r"]);
}

#[test]
fn bare_carriage_return_stays() {
    assert_eq!(lines("a\r"), vec!["a\r"]);
    assert_eq!(lines("a\rb\nc"), vec!["a\rb", "c"]);
    assert_eq!(lines("a\n\r"), vec!["a", "\r"]);
    assert_eq!(lines("\r"), vec!["\r"]);
}

#[test]
fn lines_of_text_beyond_ascii() {
    assert_eq!(lines("grüße\r\n日本語\n🦀"), vec!["grüße", "日本語", "🦀"]);
    assert_eq!(lines("é\né"), vec!["é", "é"]);
}

#[test]
fn lines_agree_with_the_standard_library() {
    let texts = [
        "",
        "\n",
        "\r",
        "\r\n",
        "\n\r",
        "a\r\n\rb\n\r\nc\r",
        "Rust:\nsafe, fast, productive.\nPick three.\nDuct tape.",
        "x\u{85}y\u{2028}z\n",
        "tab\there\u{b}\u{c}\n",
    ];
    for text in texts {
        let expected: Vec<&str> = text.lines().collect();
        assert_eq!(lines(text), expected);
    }
}

#[test]
fn contains_finds_a_run_of_characters() {
    assert!(contains("safe, fast, productive.", "duct"));
    assert!(!contains("Duct tape.", "duct"));
    assert!(contains("abc", "abc"));
    assert!(contains("abc", "a"));
    assert!(contains("abc", "c"));
    assert!(contains("abc", "bc"));
    assert!(!contains("abc", "abcd"));
    assert!(!contains("abc", "ac"));
    assert!(!contains("abc", "cb"));
    assert!(contains("aab", "ab"));
    assert!(contains("ababac", "abac"));
}

#[test]
fn contains_the_empty_query_always() {
    assert!(contains("abc", ""));
    assert!(contains("", ""));
    assert!(!contains("", "a"));
}

#[test]
fn contains_compares_whole_characters() {
    assert!(contains("日本語", "本"));
    assert!(contains("naïve", "ïv"));
    assert!(!contains("naive", "ï"));
    assert!(!contains("é", "e"));
    // U+00E9 is c3 a9, U+0069 is 69: no byte run of one is in the other.
    assert!(!contains("\u{e9}", "\u{69}"));
    assert!(contains("a🦀b", "🦀"));
}

#[test]
fn contains_agrees_with_the_standard_library() {
    let hays = ["", "a", "abracadabra", "aaaa", "ünïcödé", "日本語のテキスト", "a\r\nb"];
    let needles = ["", "a", "abra", "cad", "aaaaa", "ï", "ö", "のテ", "\r\n", "ra", "dab"];
    for hay in hays {
        for needle in needles {
            assert_eq!(contains(hay, needle), hay.contains(needle));
        }
    }
}
