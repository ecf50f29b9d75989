use rustidemy_bot::number::{parse_i64, parse_u16};
use rustidemy_bot::server_config::ServerConfig;

#[test]
fn i64_like_str_parse() {
    assert_eq!(parse_i64("-1001234567890"), Some(-1001234567890));
    assert_eq!(parse_i64("+42"), Some(42));
    assert_eq!(parse_i64("-9223372036854775808"), Some(i64::MIN));
    assert_eq!(parse_i64("9223372036854775807"), Some(i64::MAX));
    assert_eq!(parse_i64("9223372036854775808"), None);
    assert_eq!(parse_i64("99999999999999999999999"), None);
    assert_eq!(parse_i64(""), None);
    assert_eq!(parse_i64("-"), None);
    assert_eq!(parse_i64(" 1"), None);
    assert_eq!(parse_i64("1x"), None);
}

#[test]
fn u16_like_str_parse() {
    assert_eq!(parse_u16("8080"), Some(8080));
    assert_eq!(parse_u16("+65535"), Some(65535));
    assert_eq!(parse_u16("65536"), None);
    assert_eq!(parse_u16("-0"), None);
    assert_eq!(parse_u16("0007"), Some(7));
    for s in ["1", "+5", "-3", "70000", "abc", ""] {
        assert_eq!(parse_u16(s), s.parse::<u16>().ok());
        assert_eq!(parse_i64(s), s.parse::<i64>().ok());
    }
}

#[test]
fn server_config_from_port_variable() {
    let c = ServerConfig::from_env(None);
    assert_eq!(c.host, [0, 0, 0, 0]);
    assert_eq!(c.port, 8080);
    let c = ServerConfig::from_env(Some("3000".to_string()));
    assert_eq!(c.port, 3000);
}
