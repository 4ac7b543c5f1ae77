use nadi_cairo::config::{parse_config_key, str_equals, unknown_key_message, ConfigKey};

#[test]
fn every_key_is_recognised_by_its_name() {
    let cases = [
        ("width", ConfigKey::Width),
        ("height", ConfigKey::Height),
        ("delta_x", ConfigKey::DeltaX),
        ("delta_y", ConfigKey::DeltaY),
        ("offset", ConfigKey::Offset),
        ("radius", ConfigKey::Radius),
        ("fontsize", ConfigKey::Fontsize),
        ("fontface", ConfigKey::Fontface),
    ];
    for (name, key) in cases {
        assert_eq!(parse_config_key(name), Ok(key));
    }
}

#[test]
fn unknown_key_is_rejected_with_its_quoted_name() {
    assert_eq!(
        parse_config_key("color"),
        Err("unknown key \"color\" in networkplot config".to_string())
    );
}

#[test]
fn unknown_key_message_escapes_like_debug() {
    assert_eq!(
        parse_config_key("a\"b\n"),
        Err("unknown key \"a\\\"b\\n\" in networkplot config".to_string())
    );
}

#[test]
fn keys_are_case_sensitive() {
    assert!(parse_config_key("Width").is_err());
    assert!(parse_config_key("width ").is_err());
    assert!(parse_config_key("").is_err());
    assert!(parse_config_key("delta").is_err());
}

#[test]
fn message_wraps_the_quoted_key() {
    assert_eq!(
        unknown_key_message("\"xy\""),
        "unknown key \"xy\" in networkplot config"
    );
}

#[test]
fn string_equality_compares_characters() {
    assert!(str_equals("radius", "radius"));
    assert!(!str_equals("radius", "radiu"));
    assert!(!str_equals("éa", "ea"));
    assert!(str_equals("", ""));
}
