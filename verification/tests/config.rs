use serde_json::Value;
use tuxdrive::config::{child_path, is_absolute, Config, PathConfig};
use tuxdrive::error::TuxDriveError;

/// Reads the entries out of a configuration text, as the program does it
/// before it hands them to the library.
fn parse(text: &str) -> Result<Vec<PathConfig>, String> {
    let value: Value = serde_json::from_str(text).map_err(|e| e.to_string())?;
    let items = value.as_array().ok_or(String::from("expected a sequence"))?;
    let mut entries = Vec::new();
    for item in items {
        let path = item.get("path").and_then(Value::as_str).ok_or(String::from("missing field `path`"))?;
        let recursive = item
            .get("recursive")
            .and_then(Value::as_bool)
            .ok_or(String::from("missing field `recursive`"))?;
        entries.push(PathConfig::new(String::from(path), recursive));
    }
    Ok(entries)
}

#[test]
pub fn test_correct() {
    let config_text = r#"
[
    {
        "path": "/home/foo/rec_dir",
        "recursive": true
    },
    {
        "path": "/home/foo/non_rec_dir",
        "recursive": false
    }
]
"#;
    let config = Config::from_parsed(parse(config_text)).unwrap();
    let expected_config = Config::from_entries(vec![
        PathConfig::new(String::from("/home/foo/rec_dir"), true),
        PathConfig::new(String::from("/home/foo/non_rec_dir"), false),
    ])
    .unwrap();
    assert_eq!(config, expected_config);
    assert_eq!(config.paths().len(), 2);
    assert_eq!(config.paths()[0].path(), "/home/foo/rec_dir");
    assert!(config.paths()[0].recursive());
    assert_eq!(config.paths()[1].path(), "/home/foo/non_rec_dir");
    assert!(!config.paths()[1].recursive());
}

#[test]
pub fn test_no_path() {
    let config_text = r#"
[
    {
        "path": "/home/foo/rec_dir",
        "recursive": true
    },
    {
        "recursive": false
    }
]
"#;
    let config = Config::from_parsed(parse(config_text));
    assert!(config.is_err());
}

#[test]
pub fn test_no_recursive() {
    let config_text = r#"
[
    {
        "path": "/home/foo/rec_dir",
        "recursive": true
    },
    {
        "path": "/home/foo/rec_dir",
    }
]
"#;
    let config = Config::from_parsed(parse(config_text));
    assert!(config.is_err());
}

#[test]
pub fn test_not_abs_path() {
    let config_text = r#"
[
    {
        "path": "foo/rec_dir",
        "recursive": true
    }
]
"#;
    let config = Config::from_parsed(parse(config_text));
    assert!(config.is_err());
    assert!(matches!(config, Err(TuxDriveError::PathNotAbs(_))));
}

#[test]
fn first_relative_path_is_named() {
    let entries = vec![
        PathConfig::new(String::from("/a"), true),
        PathConfig::new(String::from("b/c"), false),
        PathConfig::new(String::from(""), false),
    ];
    assert_eq!(Config::from_entries(entries), Err(TuxDriveError::PathNotAbs(String::from("b/c"))));
    assert_eq!(
        Config::from_entries(vec![PathConfig::new(String::new(), true)]),
        Err(TuxDriveError::PathNotAbs(String::new()))
    );
    assert_eq!(Config::from_entries(Vec::new()).unwrap().paths().len(), 0);
}

#[test]
fn failure_to_parse_is_handed_on() {
    assert_eq!(
        Config::from_parsed(Err(String::from("expected value at line 1"))),
        Err(TuxDriveError::DeserializeFailed(String::from("expected value at line 1")))
    );
}

#[test]
fn absolute_paths_start_with_a_slash() {
    assert!(is_absolute("/"));
    assert!(is_absolute("/home/foo"));
    assert!(!is_absolute(""));
    assert!(!is_absolute("home/foo"));
    assert!(!is_absolute("./home"));
    assert!(!is_absolute("\u{e4}/x"));
}

#[test]
fn configuration_is_searched_in_four_places() {
    assert_eq!(
        Config::search_paths(Some("/home/foo"), Some("/home/foo/.config")),
        Ok(vec![
            String::from("/home/foo/.tuxdriver.json"),
            String::from("/home/foo/.config/.tuxdriver.json"),
            String::from("/home/foo/.config/.config/tuxdriver/tuxdriver.json"),
            String::from("./tuxdriver.json"),
        ])
    );
    assert_eq!(Config::search_paths(None, Some("/c")), Err(TuxDriveError::HomeDirNotFound));
    assert_eq!(Config::search_paths(None, None), Err(TuxDriveError::HomeDirNotFound));
    assert_eq!(Config::search_paths(Some("/h"), None), Err(TuxDriveError::ConfigDirNotFound));
    assert_eq!(child_path("/home/", "x"), "/home/x");
    assert_eq!(child_path("/home", "x"), "/home/x");
    assert_eq!(child_path("", "x"), "x");
    assert_eq!(child_path("/", "x"), "/x");
}

#[test]
fn first_file_that_was_found_is_picked() {
    assert_eq!(Config::pick_file(&vec![false, true, false, true]), Ok(1));
    assert_eq!(Config::pick_file(&vec![true, true, true, true]), Ok(0));
    assert_eq!(Config::pick_file(&vec![false, false, false, true]), Ok(3));
    assert_eq!(
        Config::pick_file(&vec![false, false, false, false]),
        Err(TuxDriveError::ConfigFileNotFound)
    );
    assert_eq!(Config::pick_file(&Vec::new()), Err(TuxDriveError::ConfigFileNotFound));
}
