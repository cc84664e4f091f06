use internal_checks::config::{Config, ConfigError, ItemClass, ItemKind, Visibility};

#[test]
fn parses_configured_order() {
    let config = Config::parse(
        r#"
            order = ["pub use", "use"]
            "#,
    )
    .expect("the configuration parses");

    assert_eq!(
        config.rank(ItemClass::new(ItemKind::Use, Visibility::Public)),
        Some(0)
    );
    assert_eq!(
        config.rank(ItemClass::new(ItemKind::Use, Visibility::Private)),
        Some(1)
    );
    assert_eq!(
        config.rank(ItemClass::new(ItemKind::Mod, Visibility::Private)),
        None
    );
}

#[test]
fn formats_every_supported_item_class() {
    let cases = [
        (ItemKind::Use, Visibility::Private, "use"),
        (ItemKind::Use, Visibility::Crate, "pub(crate) use"),
        (ItemKind::Use, Visibility::Public, "pub use"),
        (ItemKind::Mod, Visibility::Private, "mod"),
        (ItemKind::Mod, Visibility::Crate, "pub(crate) mod"),
        (ItemKind::Mod, Visibility::Public, "pub mod"),
    ];

    for (kind, visibility, expected) in cases {
        assert_eq!(ItemClass::new(kind, visibility).to_string(), expected);
    }
}

#[test]
fn rejects_invalid_configurations() {
    let cases = [
        (r#"order = []"#, "must contain at least one item class"),
        (r#"order = ["use", "use"]"#, "duplicate item class"),
        (r#"order = ["pub(super) use"]"#, "unsupported item class"),
    ];

    for (source, expected) in cases {
        let error = Config::parse(source)
            .err()
            .expect("configuration should be rejected");
        assert!(error.message().contains(expected));
    }
}

#[test]
fn rejects_unknown_fields_and_invalid_toml() {
    let unknown = Config::parse("order = [\"use\"]\nextra = []\n").err().expect("rejected");
    assert_eq!(unknown.message(), "invalid TOML: unknown field `extra`, expected `order`");
    assert!(matches!(unknown, ConfigError::InvalidToml { .. }));

    let missing = Config::parse("").err().expect("rejected");
    assert_eq!(missing.message(), "invalid TOML: missing field `order`");
    assert!(matches!(missing, ConfigError::InvalidToml { .. }));

    let invalid = Config::parse("order = [").err().expect("rejected");
    assert!(invalid.message().starts_with("invalid TOML: "));
}

#[test]
fn parses_every_supported_class_back() {
    for text in ["use", "pub(crate) use", "pub use", "mod", "pub(crate) mod", "pub mod"] {
        let class = ItemClass::parse(text).expect("a supported class");
        assert_eq!(class.to_string(), text);
    }
    assert!(ItemClass::parse("pub(super) use").is_none());
}

#[test]
fn ranks_each_class_at_its_position() {
    let config = Config::parse(r#"order = ["mod", "pub mod", "use"]"#).expect("parses");

    assert_eq!(config.rank(ItemClass::new(ItemKind::Mod, Visibility::Private)), Some(0));
    assert_eq!(config.rank(ItemClass::new(ItemKind::Mod, Visibility::Public)), Some(1));
    assert_eq!(config.rank(ItemClass::new(ItemKind::Use, Visibility::Private)), Some(2));
    assert_eq!(ItemClass::new(ItemKind::Use, Visibility::Crate).rank(), 1);
}
