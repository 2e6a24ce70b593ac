use kindle_notes_core::config::{DEFAULT_OUTPUT_FOLDER, DEFAULT_OUTPUT_PATH, MISSING_FILE_NAME};
use kindle_notes_core::Config;

fn args(values: &[&str]) -> Vec<String> {
    values.iter().map(|value| value.to_string()).collect()
}

#[test]
fn config_takes_all_three_settings() {
    let config = Config::new(&args(&["prog", "clippings.txt", "/tmp/out", "notes"])).unwrap();
    assert_eq!(config.filename, "clippings.txt");
    assert_eq!(config.output_path, "/tmp/out");
    assert_eq!(config.output_folder, "notes");
}

#[test]
fn config_defaults_the_folder() {
    let config = Config::new(&args(&["prog", "clippings.txt", "/tmp/out"])).unwrap();
    assert_eq!(config.filename, "clippings.txt");
    assert_eq!(config.output_path, "/tmp/out");
    assert_eq!(config.output_folder, "kindle-notes");
}

#[test]
fn config_defaults_path_and_folder() {
    let config = Config::new(&args(&["prog", "clippings.txt"])).unwrap();
    assert_eq!(config.filename, "clippings.txt");
    assert_eq!(config.output_path, ".");
    assert_eq!(config.output_folder, "kindle-notes");
}

#[test]
fn config_ignores_further_arguments() {
    let config = Config::new(&args(&["prog", "a", "b", "c", "d", "e"])).unwrap();
    assert_eq!(config.filename, "a");
    assert_eq!(config.output_path, "b");
    assert_eq!(config.output_folder, "c");
}

#[test]
fn config_needs_a_file_name() {
    assert_eq!(Config::new(&args(&["prog"])).err(), Some("Didn't get a file name"));
    assert_eq!(Config::new(&args(&[])).err(), Some("Didn't get a file name"));
}

#[test]
fn config_takes_an_empty_file_name_as_given() {
    let config = Config::new(&args(&["", ""])).unwrap();
    assert_eq!(config.filename, "");
}

#[test]
fn config_constants() {
    assert_eq!(DEFAULT_OUTPUT_PATH, ".");
    assert_eq!(DEFAULT_OUTPUT_FOLDER, "kindle-notes");
    assert_eq!(MISSING_FILE_NAME, "Didn't get a file name");
}
