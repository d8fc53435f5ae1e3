use bufo_search::config::{parse_port, Config, ConfigError};

fn some(text: &str) -> Option<String> {
    Some(text.to_string())
}

#[test]
fn parse_port_agrees_with_the_standard_library() {
    for text in [
        "", "+", "-", "0", "+0", "-0", "8080", "+8080", "08080", "000000080", "65535", "65536",
        "+65535", "99999", "4294967296", "18446744073709551616", "80a", "a80", "8 0", " 80", "80 ",
        "8_0", "0x50", "++1", "+-1", "1+", "٨٠", "８０", "1e3", "1.0",
    ] {
        assert_eq!(parse_port(text), text.parse::<u16>().ok(), "{:?}", text);
    }
    for n in 0..=70_000u32 {
        let text = n.to_string();
        assert_eq!(parse_port(&text), text.parse::<u16>().ok(), "{:?}", text);
    }
}

#[test]
fn parse_port_examples() {
    assert_eq!(parse_port("8080"), Some(8080));
    assert_eq!(parse_port("0"), Some(0));
    assert_eq!(parse_port("65535"), Some(65535));
    assert_eq!(parse_port("65536"), None);
    assert_eq!(parse_port(""), None);
    assert_eq!(parse_port("http"), None);
}

#[test]
fn config_defaults() {
    let config = Config::from_values(None, None, some("tp-key"), None, some("voyage-key")).unwrap();
    assert_eq!(config.host, "0.0.0.0");
    assert_eq!(config.port, 8080);
    assert_eq!(config.turbopuffer_api_key, "tp-key");
    assert_eq!(config.turbopuffer_namespace, "bufos");
    assert_eq!(config.voyage_api_key, "voyage-key");
}

#[test]
fn config_takes_what_is_given() {
    let config = Config::from_values(
        some("127.0.0.1"),
        some("3000"),
        some("tp-key"),
        some("frogs"),
        some("voyage-key"),
    )
    .unwrap();
    assert_eq!(config.host, "127.0.0.1");
    assert_eq!(config.port, 3000);
    assert_eq!(config.turbopuffer_namespace, "frogs");
}

#[test]
fn config_errors_in_order() {
    let error = Config::from_values(None, some("eighty"), None, None, None).unwrap_err();
    assert_eq!(error, ConfigError::InvalidPort);
    assert_eq!(error.message(), "failed to parse PORT");

    let error = Config::from_values(None, some("80"), None, None, None).unwrap_err();
    assert_eq!(error, ConfigError::MissingTurbopufferKey);
    assert_eq!(error.message(), "TURBOPUFFER_API_KEY must be set");

    let error = Config::from_values(None, None, some("tp-key"), None, None).unwrap_err();
    assert_eq!(error, ConfigError::MissingVoyageKey);
    assert_eq!(error.message(), "VOYAGE_API_TOKEN must be set");

    let error = Config::from_values(None, some(""), some("tp-key"), None, some("v")).unwrap_err();
    assert_eq!(error, ConfigError::InvalidPort);
}
