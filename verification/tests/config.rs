use minigrep::{run, Config, ConfigError};

fn texts(items: &[&str]) -> Vec<String> {
    items.iter().map(|item| item.to_string()).collect()
}

fn variables(items: &[(&str, &str)]) -> Vec<(String, String)> {
    items.iter().map(|(name, value)| (name.to_string(), value.to_string())).collect()
}

#[test]
fn query_and_filename_give_a_case_sensitive_config() {
    let config = Config::new(&texts(&["prog", "foo", "bar.txt"]), &variables(&[])).unwrap();
    assert_eq!("foo", config.query);
    assert_eq!("bar.txt", config.filename);
    assert!(config.case_sensitive);
}

#[test]
fn no_query_is_an_error() {
    let result = Config::new(&texts(&["prog"]), &variables(&[]));
    assert_eq!(Some(ConfigError::MissingQuery), result.err());
}

#[test]
fn no_arguments_at_all_is_a_missing_query() {
    let result = Config::new(&texts(&[]), &variables(&[("CASE_INSENSITIVE", "1")]));
    assert_eq!(Some(ConfigError::MissingQuery), result.err());
}

#[test]
fn no_filename_is_an_error() {
    let result = Config::new(&texts(&["prog", "foo"]), &variables(&[]));
    assert_eq!(Some(ConfigError::MissingFilename), result.err());
}

#[test]
fn errors_have_messages() {
    assert_eq!("Didn't get a query string", ConfigError::MissingQuery.message());
    assert_eq!("Didn't get a filename", ConfigError::MissingFilename.message());
}

#[test]
fn the_variable_wins_with_and_without_the_flag() {
    let env = variables(&[("PATH", "/bin"), ("CASE_INSENSITIVE", "1")]);
    let plain = Config::new(&texts(&["prog", "foo", "bar.txt"]), &env).unwrap();
    assert!(!plain.case_sensitive);
    let flagged = Config::new(&texts(&["prog", "foo", "bar.txt", "-i"]), &env).unwrap();
    assert!(!flagged.case_sensitive);
    let other = Config::new(&texts(&["prog", "foo", "bar.txt", "-x"]), &env).unwrap();
    assert!(!other.case_sensitive);
}

#[test]
fn the_variable_counts_whatever_its_value() {
    let args = texts(&["prog", "foo", "bar.txt"]);
    for value in ["", "0", "false", "yes"] {
        let config = Config::new(&args, &variables(&[("CASE_INSENSITIVE", value)])).unwrap();
        assert!(!config.case_sensitive);
    }
}

#[test]
fn other_variables_do_not_count() {
    let args = texts(&["prog", "foo", "bar.txt"]);
    let env = variables(&[
        ("case_insensitive", "1"),
        ("CASE_INSENSITIVE_", "1"),
        ("CASE", "INSENSITIVE"),
        ("X", "CASE_INSENSITIVE"),
    ]);
    assert!(Config::new(&args, &env).unwrap().case_sensitive);
}

#[test]
fn the_flag_counts_anywhere_behind_the_filename() {
    let env = variables(&[("HOME", "/root")]);
    let first = Config::new(&texts(&["prog", "foo", "bar.txt", "-i"]), &env).unwrap();
    assert!(!first.case_sensitive);
    let later = Config::new(&texts(&["prog", "foo", "bar.txt", "--x", "y", "-i"]), &env).unwrap();
    assert!(!later.case_sensitive);
    assert_eq!("foo", later.query);
    assert_eq!("bar.txt", later.filename);
}

#[test]
fn without_variable_and_flag_case_matters() {
    let env = variables(&[]);
    assert!(Config::new(&texts(&["prog", "foo", "bar.txt"]), &env).unwrap().case_sensitive);
    let others = Config::new(&texts(&["prog", "foo", "bar.txt", "-I", "i", "-i "]), &env).unwrap();
    assert!(others.case_sensitive);
}

#[test]
fn the_flag_before_the_filename_is_an_argument_like_any_other() {
    let env = variables(&[]);
    let config = Config::new(&texts(&["prog", "-i", "foo", "bar.txt"]), &env).unwrap();
    assert_eq!("-i", config.query);
    assert_eq!("foo", config.filename);
    assert!(config.case_sensitive);
    let as_name = Config::new(&texts(&["-i", "foo", "bar.txt"]), &env).unwrap();
    assert!(as_name.case_sensitive);
    let as_filename = Config::new(&texts(&["prog", "foo", "-i"]), &env).unwrap();
    assert_eq!("-i", as_filename.filename);
    assert!(as_filename.case_sensitive);
}

#[test]
fn an_empty_query_is_taken() {
    let config = Config::new(&texts(&["prog", "", "bar.txt"]), &variables(&[])).unwrap();
    assert_eq!("", config.query);
}

#[test]
fn run_searches_as_the_config_says() {
    let contents = "Rust:\nsafe, fast, productive.\nPick three.\nTrust me.";
    let mut config = Config {
        query: String::from("rUsT"),
        filename: String::from("poem.txt"),
        case_sensitive: true,
    };
    assert!(run(&config, contents).is_empty());
    config.case_sensitive = false;
    assert_eq!(vec!["Rust:", "Trust me."], run(&config, contents));
    let plain = Config {
        query: String::from("Rust"),
        filename: String::from("poem.txt"),
        case_sensitive: true,
    };
    assert_eq!(vec!["Rust:"], run(&plain, contents));
}

#[test]
fn run_follows_the_arguments() {
    let contents = "To be\nor not TO be";
    let env = variables(&[]);
    let exact = Config::new(&texts(&["prog", "to", "poem.txt"]), &env).unwrap();
    assert!(run(&exact, contents).is_empty());
    let loose = Config::new(&texts(&["prog", "to", "poem.txt", "-i"]), &env).unwrap();
    assert_eq!(vec!["To be", "or not TO be"], run(&loose, contents));
}
