use dotenv_build::{build_instructions, Config, Error};

fn config(fail_if_missing: bool) -> Config {
    Config { fail_if_missing_dotenv: fail_if_missing, ..Config::default() }
}

fn found(path: &str, text: &str) -> Result<(String, Vec<String>), Error> {
    Ok((path.to_string(), text.lines().map(|l| l.to_string()).collect()))
}

#[test]
fn default_config() {
    let c = Config::default();
    assert_eq!(c.filename, vec![".env".to_string()]);
    assert!(c.recursive_search);
    assert!(!c.fail_if_missing_dotenv);
}

#[test]
fn instructions_for_a_found_file() {
    let text = "RUST_LOG=debug\nRUST_BACKTRACE=1\n\n## comment\nTEST=\"hello world!\"\nANOTHER_ONE=test\n";
    assert_eq!(
        build_instructions(&config(false), found("/p/.env", text)),
        Ok(vec![
            "cargo:rustc-env=RUST_LOG=debug".to_string(),
            "cargo:rustc-env=RUST_BACKTRACE=1".to_string(),
            "cargo:rustc-env=TEST=hello world!".to_string(),
            "cargo:rustc-env=ANOTHER_ONE=test".to_string(),
            "cargo:rerun-if-changed=/p/.env".to_string(),
        ])
    );
}

#[test]
fn empty_file_still_registers_its_path() {
    assert_eq!(
        build_instructions(&config(false), found("/x/.env", "")),
        Ok(vec!["cargo:rerun-if-changed=/x/.env".to_string()])
    );
}

#[test]
fn missing_file_is_ignored_by_default() {
    assert_eq!(build_instructions(&config(false), Err(Error::NotFound)), Ok(vec![]));
}

#[test]
fn missing_file_fails_when_asked() {
    assert_eq!(build_instructions(&config(true), Err(Error::NotFound)), Err(Error::NotFound));
}

#[test]
fn io_error_is_passed_on() {
    let e = Error::Io("denied".to_string());
    assert_eq!(build_instructions(&config(false), Err(Error::Io("denied".to_string()))), Err(e));
}

#[test]
fn parse_error_is_passed_on() {
    assert_eq!(
        build_instructions(&config(false), found("/p/.env", "A=1\nB\n")),
        Err(Error::LineParse("B".to_string()))
    );
}

#[test]
fn not_found_predicate() {
    assert!(Error::NotFound.not_found());
    assert!(!Error::Io("x".to_string()).not_found());
    assert!(!Error::LineParse("x".to_string()).not_found());
}
