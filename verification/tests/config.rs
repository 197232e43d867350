use minigrep::{run, Config};

fn command_line(words: &[&str]) -> Vec<String> {
    words.iter().map(|word| word.to_string()).collect()
}

#[test]
fn build_reads_query_and_path() {
    let args = command_line(&["minigrep", "duct", "poem.txt"]);
    let config = Config::build(&args, false).unwrap();
    assert_eq!(config.query, "duct");
    assert_eq!(config.file_path, "poem.txt");
    assert!(!config.ignore_case);
}

#[test]
fn build_hands_the_flag_over() {
    let args = command_line(&["minigrep", "duct", "poem.txt"]);
    assert!(Config::build(&args, true).unwrap().ignore_case);
    assert!(!Config::build(&args, false).unwrap().ignore_case);
}

#[test]
fn build_does_not_read_further_words() {
    let args = command_line(&["minigrep", "duct", "poem.txt", "more", "words"]);
    let config = Config::build(&args, true).unwrap();
    assert_eq!(config.query, "duct");
    assert_eq!(config.file_path, "poem.txt");
}

#[test]
fn build_refuses_a_short_command_line() {
    for words in [&[][..], &["minigrep"][..], &["minigrep", "duct"][..]] {
        let args = command_line(words);
        assert_eq!(Config::build(&args, false).err(), Some("not enough arguments"));
        assert_eq!(Config::build(&args, true).err(), Some("not enough arguments"));
    }
}

#[test]
fn run_counts_letter_case_unless_told_otherwise() {
    let contents = "Rust:\nSafe, fast, productive.\nPick three.\nTrust me.";
    let query = String::from("rust");
    let exact = Config { query: query.clone(), file_path: String::new(), ignore_case: false };
    assert_eq!(run(&exact, contents), vec!["Trust me."]);
    let folded = Config { query, file_path: String::new(), ignore_case: true };
    assert_eq!(run(&folded, contents), vec!["Rust:", "Trust me."]);
}

#[test]
fn run_does_not_read_the_path() {
    let query = String::from("a");
    let here = Config { query: query.clone(), file_path: String::from("here"), ignore_case: false };
    let there = Config { query, file_path: String::from("there"), ignore_case: false };
    assert_eq!(run(&here, "a\nb"), vec!["a"]);
    assert_eq!(run(&there, "a\nb"), vec!["a"]);
}
