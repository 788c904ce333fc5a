use minigrep::run;
use minigrep::Config;
use minigrep::ConfigError;

fn args_of(strs: &[&str]) -> Vec<String> {
    strs.iter().map(|s| s.to_string()).collect()
}

#[test]
fn program_name_alone_is_missing_query() {
    let args = args_of(&["minigrep"]);
    assert_eq!(Err(ConfigError::MissingQuery), Config::new(&args, false).map(|c| c.query));
}

#[test]
fn no_arguments_at_all_is_missing_query() {
    let args: Vec<String> = Vec::new();
    assert_eq!(Err(ConfigError::MissingQuery), Config::new(&args, false).map(|c| c.query));
}

#[test]
fn query_without_path_is_missing_file_path() {
    let args = args_of(&["minigrep", "needle"]);
    assert_eq!(
        Err(ConfigError::MissingFilePath),
        Config::new(&args, false).map(|c| c.query)
    );
}

#[test]
fn full_arguments_build_the_config() {
    let args = args_of(&["minigrep", "needle", "hay.txt"]);
    let config = Config::new(&args, false).unwrap();
    assert_eq!("needle", config.query);
    assert_eq!("hay.txt", config.file_path);
    assert!(!config.ignore_case);
}

#[test]
fn extra_arguments_are_ignored() {
    let args = args_of(&["minigrep", "needle", "hay.txt", "extra", "more"]);
    let config = Config::new(&args, true).unwrap();
    assert_eq!("needle", config.query);
    assert_eq!("hay.txt", config.file_path);
    assert!(config.ignore_case);
}

#[test]
fn error_messages_are_distinguishable() {
    assert_eq!("Didn't get a query string", ConfigError::MissingQuery.message());
    assert_eq!("Didn't get a file path", ConfigError::MissingFilePath.message());
    assert_ne!(
        ConfigError::MissingQuery.message(),
        ConfigError::MissingFilePath.message()
    );
}

#[test]
fn run_dispatches_on_ignore_case() {
    let contents = "Rust:\nsafe, fast, productive.\nPick three.\nTrust me.";
    let args = args_of(&["minigrep", "rUsT", "unused.txt"]);

    let sensitive = Config::new(&args, false).unwrap();
    assert_eq!(Vec::<&str>::new(), run(&sensitive, contents));

    let insensitive = Config::new(&args, true).unwrap();
    assert_eq!(vec!["Rust:", "Trust me."], run(&insensitive, contents));
}

#[test]
fn run_with_no_matches_returns_empty() {
    let config = Config::new(&args_of(&["minigrep", "absent", "unused.txt"]), false).unwrap();
    assert_eq!(Vec::<&str>::new(), run(&config, "some\ncontents"));
}
