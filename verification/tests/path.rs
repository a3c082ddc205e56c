use irondag::path::validate_path;

#[test]
fn test_validate_path_normal_relative() {
    let result = validate_path("config/node.toml", "test_path");
    assert!(result.is_ok());
    let path = result.unwrap();
    assert_eq!(path, String::from("config/node.toml"));
}

#[test]
fn test_validate_path_traversal() {
    let result = validate_path("../etc/passwd", "test_path");
    assert!(result.is_err());
    let err = result.unwrap_err();
    assert!(err.contains("path traversal"));
}

#[test]
fn test_validate_path_empty() {
    let result = validate_path("", "test_path");
    assert!(result.is_err());
    let err = result.unwrap_err();
    assert!(err.contains("empty"));
}

#[test]
fn test_validate_path_absolute() {
    let abs_path = "/etc/passwd";
    let result = validate_path(abs_path, "test_path");
    assert!(result.is_err());
    let err = result.unwrap_err();
    assert!(err.contains("absolute"));
}

#[test]
fn test_path_traversal_embedded() {
    let result = validate_path("foo/../bar", "test_path");
    assert!(result.is_err());
    let err = result.unwrap_err();
    assert!(err.contains("path traversal"));
}

#[test]
fn test_path_traversal_multiple() {
    let result = validate_path("../../etc/passwd", "test_path");
    assert!(result.is_err());
    let err = result.unwrap_err();
    assert!(err.contains("path traversal"));
}

#[test]
fn test_path_normal_nested() {
    let result = validate_path("config/node.toml", "test_path");
    assert!(result.is_ok());
}

#[test]
fn test_path_dots_in_filename() {
    let result = validate_path("node.config.toml", "test_path");
    assert!(result.is_ok());
}

#[test]
fn test_path_single_dot() {
    let result = validate_path("./config.toml", "test_path");
    assert!(result.is_ok());
}

#[test]
fn whitespace_only_path_is_empty() {
    assert_eq!(validate_path(" \t\n", "data").unwrap_err(), "data: path cannot be empty");
    assert_eq!(validate_path("\u{3000}", "data").unwrap_err(), "data: path cannot be empty");
}

#[test]
fn error_messages_carry_the_label() {
    assert_eq!(validate_path("a/..", "cfg").unwrap_err(), "cfg: path traversal ('..') not allowed");
    assert_eq!(validate_path("/abs", "cfg").unwrap_err(), "cfg: absolute paths not allowed");
}

#[test]
fn traversal_is_checked_before_absoluteness() {
    assert_eq!(validate_path("/a/../b", "x").unwrap_err(), "x: path traversal ('..') not allowed");
}
