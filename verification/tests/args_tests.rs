use fsgen::args::{parse_args, starts_option, AppConfig, ArgError};

fn words(list: &[&str]) -> Vec<String> {
    list.iter().map(|s| s.to_string()).collect()
}

fn parse(list: &[&str]) -> AppConfig {
    match parse_args(&words(list)) {
        Ok(config) => config,
        Err(_) => panic!("refused"),
    }
}

#[test]
fn defaults() {
    for line in [words(&[]), words(&["fsgen"])] {
        let config = match parse_args(&line) {
            Ok(c) => c,
            Err(_) => panic!("refused"),
        };
        assert_eq!(config.input_dir, ".");
        assert_eq!(config.output_file, "output.txt");
        assert!(config.skip_dirs.is_empty());
        assert!(config.skip_files.is_empty());
        assert!(config.show_files);
    }
}

#[test]
fn program_name_is_not_read() {
    let config = parse(&["--no-files"]);
    assert!(config.show_files);
}

#[test]
fn every_option() {
    let config = parse(&[
        "fsgen", "-i", "some/dir", "-s", "target", ".git", "-f", "Cargo.lock", "-o", "tree.txt", "--no-files",
    ]);
    assert_eq!(config.input_dir, "some/dir");
    assert_eq!(config.skip_dirs, vec!["target", ".git"]);
    assert_eq!(config.skip_files, vec!["Cargo.lock"]);
    assert_eq!(config.output_file, "tree.txt");
    assert!(!config.show_files);
}

#[test]
fn lists_add_up_and_may_be_empty() {
    let config = parse(&["fsgen", "-s", "a", "-f", "-s", "b", "c", "-f", "x", "-s"]);
    assert_eq!(config.skip_dirs, vec!["a", "b", "c"]);
    assert_eq!(config.skip_files, vec!["x"]);
}

#[test]
fn later_value_wins() {
    let config = parse(&["fsgen", "-i", "one", "-o", "a.txt", "-i", "two", "-o", "b.txt"]);
    assert_eq!(config.input_dir, "two");
    assert_eq!(config.output_file, "b.txt");
}

#[test]
fn value_may_begin_with_hyphen() {
    let config = parse(&["fsgen", "-i", "-s", "-o", "--no-files"]);
    assert_eq!(config.input_dir, "-s");
    assert_eq!(config.output_file, "--no-files");
    assert!(config.show_files);
    assert!(config.skip_dirs.is_empty());
}

#[test]
fn missing_input() {
    assert!(matches!(parse_args(&words(&["fsgen", "-i"])), Err(ArgError::MissingInput)));
    assert!(matches!(parse_args(&words(&["fsgen", "-o", "x", "-i"])), Err(ArgError::MissingInput)));
}

#[test]
fn missing_output() {
    assert!(matches!(parse_args(&words(&["fsgen", "-o"])), Err(ArgError::MissingOutput)));
}

#[test]
fn unknown_words() {
    for (line, word) in [
        (words(&["fsgen", "dir"]), "dir"),
        (words(&["fsgen", "-x"]), "-x"),
        (words(&["fsgen", "-s", "a", "--files"]), "--files"),
        (words(&["fsgen", "-i", "a", "b"]), "b"),
        (words(&["fsgen", ""]), ""),
        (words(&["fsgen", "--no-files", "-I"]), "-I"),
    ] {
        match parse_args(&line) {
            Err(ArgError::Unknown(w)) => assert_eq!(w, word),
            _ => panic!("not refused"),
        }
    }
}

#[test]
fn first_error_wins() {
    assert!(matches!(parse_args(&words(&["fsgen", "bad", "-i"])), Err(ArgError::Unknown(_))));
}

#[test]
fn option_words_begin_with_hyphen() {
    assert!(starts_option("-"));
    assert!(starts_option("-s"));
    assert!(starts_option("--no-files"));
    assert!(!starts_option(""));
    assert!(!starts_option("a-"));
    assert!(!starts_option("—"));
}

#[test]
fn filters_of_a_command_line() {
    let config = parse(&["fsgen", "-s", "a", "b", "-f", "c", "--no-files"]);
    let filters = config.filters();
    assert_eq!(filters.skip_dirs, vec!["a", "b"]);
    assert_eq!(filters.skip_files, vec!["c"]);
    assert!(!filters.show_files);
}

#[test]
fn messages() {
    assert_eq!(ArgError::MissingInput.message(), "Missing argument for -i flag");
    assert_eq!(ArgError::MissingOutput.message(), "Missing argument for -o flag");
    assert_eq!(ArgError::Unknown("--wrong".to_string()).message(), "Unknown argument: --wrong");
    assert_eq!(ArgError::Unknown(String::new()).message(), "Unknown argument: ");
}
