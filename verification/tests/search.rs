use rgrep::config::{run, Config};
use rgrep::search::{
    filter_lines, filter_lines_case_insensitive, search, search_case_insensitive,
};

#[test]
fn case_sensitive() {
    let query = "duct";
    let contents = "\
Rust:
safe, fast, productive.
Pick three.
Duct tape.";

    assert_eq!(vec!["safe, fast, productive."], search(query, contents));
}

#[test]
fn case_insensitive() {
    let query = "rUsT";
    let contents = "\
Rust:
safe, fast, productive.
Pick three.
Trust me.";

    assert_eq!(
        vec!["Rust:", "Trust me."],
        search_case_insensitive(query, contents)
    );
}

#[test]
fn empty_query_returns_every_line() {
    let contents = "one\ntwo\r\n\nfour";
    assert_eq!(search("", contents), vec!["one", "two", "", "four"]);
    assert_eq!(
        search_case_insensitive("", contents),
        vec!["one", "two", "", "four"]
    );
}

#[test]
fn empty_contents_have_no_lines() {
    assert_eq!(search("a", ""), Vec::<&str>::new());
    assert_eq!(search("", ""), Vec::<&str>::new());
    assert_eq!(search_case_insensitive("", ""), Vec::<&str>::new());
}

#[test]
fn no_line_matches() {
    assert_eq!(search("zebra", "one\ntwo\nthree"), Vec::<&str>::new());
    assert_eq!(
        search_case_insensitive("zebra", "one\ntwo\nthree"),
        Vec::<&str>::new()
    );
}

#[test]
fn repeated_lines_are_returned_once_per_occurrence() {
    let contents = "echo\nother\necho\necho\n";
    assert_eq!(search("ech", contents), vec!["echo", "echo", "echo"]);
}

#[test]
fn results_keep_the_order_of_the_text() {
    let contents = "b1\na\nb2\na\nb3";
    assert_eq!(search("b", contents), vec!["b1", "b2", "b3"]);
}

#[test]
fn results_are_slices_of_the_contents() {
    let contents = String::from("alpha\nbeta\r\ngamma");
    let found = search("a", &contents);
    assert_eq!(found, vec!["alpha", "beta", "gamma"]);
    let start = contents.as_ptr() as usize;
    let offsets: Vec<usize> = found.iter().map(|line| line.as_ptr() as usize - start).collect();
    assert_eq!(offsets, vec![0, 6, 12]);
}

#[test]
fn case_insensitive_returns_lines_unfolded() {
    let contents = "HELLO World\nbye";
    assert_eq!(search_case_insensitive("hello w", contents), vec!["HELLO World"]);
    assert_eq!(search_case_insensitive("HELLO W", contents), vec!["HELLO World"]);
    assert_eq!(search("hello w", contents), Vec::<&str>::new());
}

#[test]
fn case_insensitive_folds_beyond_ascii() {
    let contents = "ÄRGER\nstraße\nÉcole";
    assert_eq!(search_case_insensitive("ärger", contents), vec!["ÄRGER"]);
    assert_eq!(search_case_insensitive("éCOLE", contents), vec!["École"]);
    assert_eq!(search("ärger", contents), Vec::<&str>::new());
}

#[test]
fn query_may_span_several_bytes() {
    let contents = "naïve\nnaive\n日本語のテキスト\n";
    assert_eq!(search("ï", contents), vec!["naïve"]);
    assert_eq!(search("本語", contents), vec!["日本語のテキスト"]);
    assert_eq!(search("语", contents), Vec::<&str>::new());
}

#[test]
fn query_never_matches_across_lines() {
    assert_eq!(search("a\nb", "a\nb"), Vec::<&str>::new());
    assert_eq!(search("ab", "a\nb"), Vec::<&str>::new());
}

#[test]
fn carriage_return_of_a_line_ending_is_not_searched() {
    assert_eq!(search("\r", "a\r\nb\r\n"), Vec::<&str>::new());
    assert_eq!(search("\r", "a\r\r\nb"), vec!["a\r"]);
    assert_eq!(search("\r", "a\nb\r"), vec!["b\r"]);
}

#[test]
fn filtering_a_result_again_changes_nothing() {
    let contents = "to be\nor not\nto be\nthat is\nthe question\r\n";
    for query in ["", "t", "to", "be", "question", "x"] {
        let once = search(query, contents);
        let twice = filter_lines(query, &once);
        assert_eq!(once, twice);
    }
}

#[test]
fn filter_lines_keeps_the_matching_slices() {
    let lines = ["abc", "", "bcd", "cde"];
    assert_eq!(filter_lines("bc", &lines), vec!["abc", "bcd"]);
    assert_eq!(filter_lines("", &lines), vec!["abc", "", "bcd", "cde"]);
    assert_eq!(filter_lines("bc", &[]), Vec::<&str>::new());
    assert_eq!(
        filter_lines_case_insensitive("BC", &lines),
        vec!["abc", "bcd"]
    );
    assert_eq!(filter_lines_case_insensitive("BC", &["aBc", "Abd"]), vec!["aBc"]);
}

#[test]
fn exact_matches_are_among_the_case_insensitive_ones() {
    let contents = "Rust:\nsafe, fast, productive.\nPick three.\nTrust me.\nrust\nRUST";
    for query in ["", "rust", "Rust", "RUST", "t", "T", "me.", "xyz"] {
        let exact = search(query, contents);
        let folded = search_case_insensitive(query, contents);
        assert_eq!(filter_lines(query, &folded), exact);
        for line in exact {
            assert!(folded.contains(&line));
        }
    }
}

#[test]
fn folding_is_that_of_the_standard_library() {
    // A capital sigma at the end of a word folds to the final form, alone
    // it folds to the medial one: the folded line no longer holds the
    // folded query.
    assert_eq!(search("Σ", "ΟΔΟΣ"), vec!["ΟΔΟΣ"]);
    assert_eq!(search_case_insensitive("Σ", "ΟΔΟΣ"), Vec::<&str>::new());
    assert_eq!(search_case_insensitive("οδος", "ΟΔΟΣ"), vec!["ΟΔΟΣ"]);
    // The capital dotted I folds to two characters.
    assert_eq!(search_case_insensitive("i\u{307}", "İstanbul"), vec!["İstanbul"]);
}

#[test]
fn search_agrees_with_the_standard_library() {
    let texts = [
        "",
        "\n",
        "\r\n",
        "a",
        "a\n",
        "a\r\n",
        "a\r",
        "\na",
        "a\n\nb",
        "a\r\n\r\nb\r\n",
        "one two\ntwo three\r\nthree four\n\nfive",
        "ünïcödé\nunicode\nÜNÏCÖDÉ\n",
        "\r\r\n\r",
    ];
    let queries = ["", "a", "\r", "two", "t", "ü", "Ü", "ï", "e\n", "three four"];
    for text in texts {
        for query in queries {
            let expected: Vec<&str> = text.lines().filter(|line| line.contains(query)).collect();
            assert_eq!(search(query, text), expected);
            let folded = query.to_lowercase();
            let expected: Vec<&str> = text
                .lines()
                .filter(|line| line.to_lowercase().contains(&folded))
                .collect();
            assert_eq!(search_case_insensitive(query, text), expected);
        }
    }
}

#[test]
fn run_searches_as_the_configuration_says() {
    let contents = "Rust:\nsafe, fast, productive.\nPick three.\nTrust me.";
    let exact = Config {
        query: String::from("rUsT"),
        file_path: String::from("poem.txt"),
        ignore_case: false,
    };
    assert_eq!(run(&exact, contents), Vec::<&str>::new());
    let folded = Config {
        query: String::from("rUsT"),
        file_path: String::from("poem.txt"),
        ignore_case: true,
    };
    assert_eq!(run(&folded, contents), vec!["Rust:", "Trust me."]);
    let exact = Config {
        query: String::from("rust"),
        file_path: String::from("poem.txt"),
        ignore_case: false,
    };
    assert_eq!(run(&exact, contents), vec!["Trust me."]);
}
