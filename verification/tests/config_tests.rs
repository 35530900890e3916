//! Tests of the install config.
use ssh_broker::provision::config::{resolve_target_user, Config, ConfigError};

#[test]
fn config_toml_round_trips() {
    let c = Config {
        target_user: "Test.User".into(),
    };
    let parsed = Config::from_toml(&c.to_toml().unwrap()).unwrap();
    assert_eq!(parsed, c);
}

#[test]
fn config_round_trips_whatever_the_name_holds() {
    for name in [
        "",
        "DOM\\user",
        "quo\"te's",
        "tab\tnew\nline\r\n",
        "bell\u{7}del\u{7f}",
        "'''\"\"\"",
        "\u{e9}\u{1f600}\u{85}",
        "\n\nends in quotes\"\"",
    ] {
        let c = Config { target_user: name.into() };
        let text = c.to_toml().unwrap();
        assert_eq!(Config::from_toml(&text).unwrap(), c, "{text}");
    }
}

#[test]
fn config_document_is_plain_toml() {
    let c = Config { target_user: "Test.User".into() };
    assert_eq!(c.to_toml().unwrap(), "target_user = \"Test.User\"\n");
}

#[test]
fn config_ignores_other_keys_and_rejects_what_is_none() {
    let c = Config::from_toml("other = 3\ntarget_user = 'x'\n[table]\na = []\n").unwrap();
    assert_eq!(c.target_user, "x");
    // Even one that fits no integer type.
    let big = "x = 18446744073709551615\ny = 99999999999999999999\ntarget_user = \"a\"\n";
    assert_eq!(Config::from_toml(big).unwrap().target_user, "a");
    // A number that no type at all can hold is no value, under whatever key.
    for none in [
        "target_user = \"a\"\nx = 999999999999999999999999999999999999999999\n",
        "target_user = \"a\"\nx = 1e999\n",
        "target_user = \"a\"\n[t]\ny = [1e999]\n",
    ] {
        let refused = Config::from_toml(none).unwrap_err();
        assert!(matches!(refused, ConfigError::NotReadable(_)), "{none}");
        assert!(refused.message().contains("overflowed"), "{}", refused.message());
    }
    let listed = "target_user = \"a\"\n\n[[declared_subsystems]]\nname = \"sftp\"\n";
    assert_eq!(Config::from_toml(listed).unwrap().target_user, "a");
    assert_eq!(Config::from_toml("other = 3"), Err(ConfigError::MissingUser));
    assert_eq!(ConfigError::MissingUser.message(), "missing field `target_user`");
    assert_eq!(
        Config::from_toml("target_user = 3"),
        Err(ConfigError::NotReadable(
            "invalid type: integer `3`, expected a string".into()
        ))
    );
    let refused = Config::from_toml("target_user = ").unwrap_err();
    assert!(matches!(refused, ConfigError::NotReadable(_)));
    assert!(refused.message().starts_with("TOML parse error at line 1"));
    assert_eq!(
        Config::from_toml("target_user = 'a'\ntarget_user = 'b'").is_err(),
        true,
        "a key stands only once"
    );
    assert_eq!(Config::from_lookup(Ok(None)), Err(ConfigError::MissingUser));
    assert_eq!(
        Config::from_lookup(Err("why".into())),
        Err(ConfigError::NotReadable("why".into()))
    );
    assert!(Config::from_lookup(Ok(Some("u".into()))).is_ok());
}

#[test]
fn resolve_prefers_cli_then_config_then_interactive() {
    assert_eq!(
        resolve_target_user(Some("cli"), Some("cfg"), Some("me")).unwrap(),
        "cli"
    );
    assert_eq!(resolve_target_user(None, Some("cfg"), Some("me")).unwrap(), "cfg");
    assert_eq!(resolve_target_user(None, None, Some("me")).unwrap(), "me");
}

#[test]
fn resolve_treats_empty_strings_as_absent() {
    // An empty CLI/config value must not shadow a real fallback.
    assert_eq!(resolve_target_user(Some(""), Some("cfg"), None).unwrap(), "cfg");
    assert_eq!(resolve_target_user(Some(""), Some(""), Some("me")).unwrap(), "me");
}

#[test]
fn resolve_errors_when_no_source() {
    // The SYSTEM-with-no-config case must fail loudly, never guess.
    assert!(resolve_target_user(None, None, None).is_err());
    assert!(resolve_target_user(Some(""), None, Some("")).is_err());
    assert_eq!(
        resolve_target_user(None, None, None).unwrap_err().message(),
        "cannot resolve the target user: pass --user <account> (required when apply runs as SYSTEM with no saved config)"
    );
}
