use wrath::cli::{parse_target, Cli, Target};

#[test]
fn test_parse_target_port() {
    assert_eq!(parse_target("3000"), Target::Port(3000));
}

#[test]
fn test_parse_target_port_min() {
    assert_eq!(parse_target("1"), Target::Port(1));
}

#[test]
fn test_parse_target_port_max() {
    assert_eq!(parse_target("65535"), Target::Port(65535));
}

#[test]
fn test_parse_target_zero_is_name() {
    assert_eq!(parse_target("0"), Target::Name("0".to_string()));
}

#[test]
fn test_parse_target_name() {
    assert_eq!(parse_target("node"), Target::Name("node".to_string()));
}

#[test]
fn test_parse_target_name_with_dots() {
    assert_eq!(
        parse_target("my.process"),
        Target::Name("my.process".to_string())
    );
}

#[test]
fn test_parse_target_name_with_dashes() {
    assert_eq!(
        parse_target("my-process"),
        Target::Name("my-process".to_string())
    );
}

#[test]
fn test_parse_target_large_number_is_name() {
    // 70000 exceeds u16 range, so it should be treated as a name
    assert_eq!(parse_target("70000"), Target::Name("70000".to_string()));
}

#[test]
fn test_parse_target_negative_is_name() {
    assert_eq!(parse_target("-1"), Target::Name("-1".to_string()));
}

#[test]
fn test_parse_target_empty_is_name() {
    assert_eq!(parse_target(""), Target::Name(String::new()));
}

#[test]
fn test_parse_target_mixed_input() {
    assert_eq!(
        parse_target("node3000"),
        Target::Name("node3000".to_string())
    );
}

#[test]
fn test_cli_debug() {
    let cli = Cli {
        target: "3000".to_string(),
    };
    let debug_str = format!("{cli:?}");
    assert!(debug_str.contains("3000"));
}

#[test]
fn test_target_equality() {
    assert_eq!(Target::Port(80), Target::Port(80));
    assert_ne!(Target::Port(80), Target::Port(81));
    assert_ne!(Target::Port(80), Target::Name("80".to_string()));
}

#[test]
fn parse_target_accepts_a_plus_sign_like_integer_parsing() {
    assert_eq!(parse_target("+8080"), Target::Port(8080));
}

#[test]
fn parse_target_keeps_padded_numbers_as_names() {
    assert_eq!(parse_target(" 80"), Target::Name(" 80".to_string()));
    assert_eq!(parse_target("00080"), Target::Port(80));
}
