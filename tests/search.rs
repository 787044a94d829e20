use minigrep::{chars_of, contains_chars, search, split_lines, Config, ConfigError};

fn config(query: &str, is_case_sensitive: bool) -> Config {
    Config {
        query: String::from(query),
        filepath: String::from(""),
        is_case_sensitive,
    }
}

#[test]
fn config_from_valid_args() {
    let args = vec![
        String::from("sg"),
        String::from("query"),
        String::from("filepath"),
    ];
    let config = Config::from(args, false).unwrap();
    assert_eq!(config.query, "query");
    assert_eq!(config.filepath, "filepath");
}

#[test]
fn config_from_invalid_args() {
    let args = vec![String::from("sg")];
    let config = Config::from(args, false);
    assert!(config.is_err());
}

#[test]
fn search_one_result() {
    let cfg = config("safe", true);
    let contents = "\
Rust:
safe, fast, productive.
Pick three.";
    let results = search(&cfg, contents);
    assert_eq!(vec!["safe, fast, productive."], results);
}

#[test]
fn search_multiple_results() {
    let cfg = config("the", true);
    let contents = "\
The a
The b
the c
the d";
    let results = search(&cfg, contents);
    assert_eq!(vec!["the c", "the d"], results);
}

#[test]
fn search_no_results() {
    let cfg = config("begin", true);
    let contents = "The end.";
    let results = search(&cfg, contents);
    assert_eq!(Vec::<&str>::new(), results);
}

#[test]
fn case_sensitive() {
    let cfg = config("the", true);
    let contents = "The a\nThe b\nthe c\nthe d";
    let results = search(&cfg, contents);
    assert_eq!(vec!["the c", "the d"], results);
}

#[test]
fn case_insensitive() {
    let cfg = config("the", false);
    let contents = "The a\nThe b\nthe c\nthe d";
    let results = search(&cfg, contents);
    assert_eq!(vec!["The a", "The b", "the c", "the d"], results);
}

#[test]
fn search_fox_in_the_end_finds_nothing() {
    let results = search(&config("fox", true), "The end.");
    assert!(results.is_empty());
    let results = search(&config("fox", false), "The end.");
    assert!(results.is_empty());
}

#[test]
fn empty_query_keeps_every_line() {
    let contents = "one\n\nTwo\nthree";
    assert_eq!(vec!["one", "", "Two", "three"], search(&config("", true), contents));
    assert_eq!(vec!["one", "", "Two", "three"], search(&config("", false), contents));
}

#[test]
fn insensitive_keeps_what_sensitive_keeps() {
    let contents = "Rust rocks\nrust is fun\nRUST\nno match here";
    let sensitive = search(&config("Rust", true), contents);
    let insensitive = search(&config("Rust", false), contents);
    assert_eq!(vec!["Rust rocks"], sensitive);
    assert_eq!(vec!["Rust rocks", "rust is fun", "RUST"], insensitive);
    for line in &sensitive {
        assert!(insensitive.contains(line));
    }
}

#[test]
fn insensitive_lowers_the_query_too() {
    let results = search(&config("THE", false), "the c\nother\nThe d");
    assert_eq!(vec!["the c", "other", "The d"], results);
}

#[test]
fn insensitive_lowers_non_ascii_letters() {
    let results = search(&config("ÄPFEL", false), "äpfel und birnen\nbirnen");
    assert_eq!(vec!["äpfel und birnen"], results);
}

#[test]
fn insensitive_final_sigma_is_lowered_by_context() {
    // A capital sigma at the end of a word lowers to the final form, so the
    // lowered line no longer holds the lowered query.
    assert_eq!(vec!["AΣ"], search(&config("Σ", true), "AΣ"));
    assert!(search(&config("Σ", false), "AΣ").is_empty());
}

#[test]
fn lines_drop_only_a_final_line_feed() {
    assert_eq!(vec!["a", "b"], split_lines("a\nb\n"));
    assert_eq!(vec!["a", "", "b", ""], split_lines("a\n\nb\n\n"));
    assert_eq!(vec!["", "x"], split_lines("\nx"));
    assert!(split_lines("").is_empty());
    assert_eq!(vec![""], split_lines("\n"));
}

#[test]
fn lines_strip_carriage_return_before_line_feed() {
    assert_eq!(vec!["a", "b"], split_lines("a\r\nb\r\n"));
    assert_eq!(vec!["a\rb", "c\r"], split_lines("a\rb\r\nc\r"));
}

#[test]
fn search_on_crlf_text() {
    let results = search(&config("fast", true), "Rust:\r\nsafe, fast\r\nend\r\n");
    assert_eq!(vec!["safe, fast"], results);
}

#[test]
fn search_empty_contents() {
    assert!(search(&config("a", true), "").is_empty());
    assert!(search(&config("", true), "").is_empty());
}

#[test]
fn search_keeps_duplicate_lines() {
    let results = search(&config("x", true), "x\ny\nx\nx");
    assert_eq!(vec!["x", "x", "x"], results);
}

#[test]
fn contains_chars_cases() {
    let hay = chars_of("hello world");
    assert!(contains_chars(&hay, &chars_of("lo w")));
    assert!(contains_chars(&hay, &chars_of("hello world")));
    assert!(contains_chars(&hay, &chars_of("")));
    assert!(!contains_chars(&hay, &chars_of("world!")));
    assert!(!contains_chars(&hay, &chars_of("wold")));
    assert!(!contains_chars(&chars_of(""), &chars_of("a")));
}

#[test]
fn chars_of_multibyte() {
    assert_eq!(vec!['ä', 'b', 'ς'], chars_of("äbς"));
}

#[test]
fn from_needs_query_and_path() {
    let one = vec![String::from("prog")];
    assert_eq!(Some(ConfigError::MissingQuery), Config::from(one, false).err());
    let two = vec![String::from("prog"), String::from("q")];
    assert_eq!(Some(ConfigError::MissingFilePath), Config::from(two, false).err());
    assert_eq!(Some(ConfigError::MissingQuery), Config::from(Vec::new(), true).err());
}

#[test]
fn from_takes_two_and_ignores_extras() {
    let args = vec![String::from("prog"), String::from("q"), String::from("f")];
    let cfg = Config::from(args, false).unwrap();
    assert_eq!("q", cfg.query);
    assert_eq!("f", cfg.filepath);
    assert!(cfg.is_case_sensitive);
    let args = vec![
        String::from("prog"),
        String::from("q"),
        String::from("f"),
        String::from("extra"),
    ];
    let cfg = Config::from(args, true).unwrap();
    assert_eq!("q", cfg.query);
    assert_eq!("f", cfg.filepath);
    assert!(!cfg.is_case_sensitive);
}

#[test]
fn build_from_borrowed_args() {
    let args = vec![String::from("prog"), String::from("q"), String::from("f")];
    let cfg = Config::build(&args).unwrap();
    assert_eq!("q", cfg.query);
    assert_eq!("f", cfg.filepath);
    assert!(cfg.is_case_sensitive);
    assert_eq!(
        Some(ConfigError::MissingQuery),
        Config::build(&args[..1]).err()
    );
    assert_eq!(
        Some(ConfigError::MissingFilePath),
        Config::build(&args[..2]).err()
    );
}

#[test]
fn error_messages() {
    assert_eq!("Missing query string", ConfigError::MissingQuery.message());
    assert_eq!("Missing file path", ConfigError::MissingFilePath.message());
}
