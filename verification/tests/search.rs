use minigrep::{search, search_case_insensitive};

#[test]
fn case_sensitive() {
    let query = "duct";
    let contents = "\
        Rust:
Safe, fast, productive.
Pick three.
Duct one.";

    assert_eq!(search(query, contents), vec!["Safe, fast, productive."]);
}

#[test]
fn case_insensitive() {
    let query = "rUsT";
    let contents = "\
        Rust:
Safe, fast, productive.
Pick three.
Rust all the way.";

    assert_eq!(search_case_insensitive(query, contents), vec!["Rust:", "Rust all the way."]);
}

#[test]
fn capitalised_line_is_left_out() {
    let contents = "Rust:\nSafe, fast, productive.\nPick three.\nDuct one.";
    assert_eq!(search("duct", contents), vec!["Safe, fast, productive."]);
    assert_eq!(search("Duct", contents), vec!["Duct one."]);
}

#[test]
fn folded_search_keeps_the_case_of_the_line() {
    let contents = "Rust:\nSafe, fast, productive.\nPick three.\nRust all the way.";
    assert_eq!(search_case_insensitive("rUsT", contents), vec!["Rust:", "Rust all the way."]);
    let contents = "trust me\nTRUSTED\nno";
    assert_eq!(search_case_insensitive("RUST", contents), vec!["trust me", "TRUSTED"]);
}

#[test]
fn folded_search_folds_the_line() {
    assert_eq!(search_case_insensitive("rust", "RUST"), vec!["RUST"]);
    assert_eq!(search("rust", "RUST"), Vec::<&str>::new());
}

#[test]
fn folded_search_folds_the_query() {
    assert_eq!(search_case_insensitive("RUST", "rust"), vec!["rust"]);
    assert_eq!(search("RUST", "rust"), Vec::<&str>::new());
}

#[test]
fn folded_search_folds_beyond_ascii() {
    assert_eq!(search_case_insensitive("ÉCOLE", "une école\nun lycée"), vec!["une école"]);
    assert_eq!(search_case_insensitive("straße", "Die STRASSE\nDie Straße"), vec!["Die Straße"]);
}

#[test]
fn folded_search_folds_each_line_as_a_whole() {
    // A capital sigma at the end of a word has a lowercase form of its own.
    assert_eq!(search_case_insensitive("σ", "ΟΔΟΣ"), Vec::<&str>::new());
    assert_eq!(search_case_insensitive("ς", "ΟΔΟΣ"), vec!["ΟΔΟΣ"]);
    assert_eq!(search_case_insensitive("σ", "ΟΔΟΣΑ"), vec!["ΟΔΟΣΑ"]);
}

#[test]
fn lowercase_text_is_searched_alike() {
    let contents = "rust:\nsafe, fast, productive.\npick three.\ntrust me.";
    for query in ["rust", "t", "", "pick three.", "zzz", " "] {
        assert_eq!(search(query, contents), search_case_insensitive(query, contents));
    }
    assert_eq!(search("rust", contents), vec!["rust:", "trust me."]);
}

#[test]
fn empty_query_matches_every_line() {
    assert_eq!(search("", "a\nb\nc"), vec!["a", "b", "c"]);
    assert_eq!(search_case_insensitive("", "a\nB\nc"), vec!["a", "B", "c"]);
    assert_eq!(search("", "\n\n"), vec!["", ""]);
}

#[test]
fn empty_contents_match_nothing() {
    assert_eq!(search("a", ""), Vec::<&str>::new());
    assert_eq!(search("", ""), Vec::<&str>::new());
    assert_eq!(search_case_insensitive("a", ""), Vec::<&str>::new());
    assert_eq!(search_case_insensitive("", ""), Vec::<&str>::new());
}

#[test]
fn absent_query_matches_nothing() {
    let contents = "Rust:\nSafe, fast, productive.\nPick three.";
    assert_eq!(search("zzz", contents), Vec::<&str>::new());
    assert_eq!(search_case_insensitive("zzz", contents), Vec::<&str>::new());
}

#[test]
fn closing_line_feed_adds_no_line() {
    assert_eq!(search("", "a\nb\n"), vec!["a", "b"]);
    assert_eq!(search("", "a\nb"), vec!["a", "b"]);
    assert_eq!(search("", "a\nb\n\n"), vec!["a", "b", ""]);
}

#[test]
fn matches_come_in_the_order_of_the_text() {
    let contents = "one fish\ntwo\nred fish\nblue\nfish";
    assert_eq!(search("fish", contents), vec!["one fish", "red fish", "fish"]);
}

#[test]
fn repeated_lines_are_each_returned() {
    assert_eq!(search("ab", "ab\ncd\nab\nab"), vec!["ab", "ab", "ab"]);
    assert_eq!(search_case_insensitive("AB", "ab\ncd\nAb\nab"), vec!["ab", "Ab", "ab"]);
}

#[test]
fn query_does_not_match_across_lines() {
    assert_eq!(search("ab", "a\nb"), Vec::<&str>::new());
    assert_eq!(search("a\nb", "a\nb"), Vec::<&str>::new());
    assert_eq!(search("\n", "a\nb"), Vec::<&str>::new());
}

#[test]
fn carriage_return_before_line_feed_is_not_searched() {
    assert_eq!(search("a", "a\r\nb\r\n"), vec!["a"]);
    assert_eq!(search("\r", "a\r\nb\r\n"), Vec::<&str>::new());
    assert_eq!(search("\r", "a\rb\nc"), vec!["a\rb"]);
    assert_eq!(search("\r", "a\nb\r"), vec!["b\r"]);
}

#[test]
fn query_as_long_as_the_line() {
    assert_eq!(search("abc", "abc\nab\nabcd"), vec!["abc", "abcd"]);
    assert_eq!(search("abcd", "abc"), Vec::<&str>::new());
}

#[test]
fn query_at_the_end_of_a_line() {
    assert_eq!(search("ab", "aab\nxab\naba"), vec!["aab", "xab", "aba"]);
    assert_eq!(search("aab", "aaab"), vec!["aaab"]);
}

#[test]
fn query_beyond_ascii() {
    let contents = "naïve\nnaive\n日本語のテキスト\nテキ";
    assert_eq!(search("ï", contents), vec!["naïve"]);
    assert_eq!(search("テキ", contents), vec!["日本語のテキスト", "テキ"]);
    assert_eq!(search("i", contents), vec!["naive"]);
}

#[test]
fn found_lines_are_parts_of_the_contents() {
    let contents = String::from("first\nsecond line\nthird");
    let found = search("line", &contents);
    assert_eq!(found.len(), 1);
    let start = contents.as_ptr() as usize;
    let at = found[0].as_ptr() as usize;
    assert_eq!(at - start, 6);
    assert_eq!(&contents[6..17], found[0]);
}

#[test]
fn search_agrees_with_the_standard_library() {
    let texts = [
        "",
        "\n",
        "\r",
        "\r\n",
        "a",
        "a\n",
        "a\r",
        "a\r\n",
        "a\r\r\n",
        "\na",
        "a\n\nb",
        "a\r\nb\rc\n\rd",
        "x\n\r\n\n\ry\r",
        "één\ntwee\r\ndrie\n",
        "tab\there\n  spaces  \n",
    ];
    let queries = ["", "a", "\r", "e", "é", "ee", "x", " "];
    for text in texts {
        for query in queries {
            let expected: Vec<&str> = text.lines().filter(|line| line.contains(query)).collect();
            assert_eq!(search(query, text), expected);
            let folded: Vec<&str> = text
                .lines()
                .filter(|line| line.to_lowercase().contains(&query.to_lowercase()))
                .collect();
            assert_eq!(search_case_insensitive(query, text), folded);
        }
    }
}
