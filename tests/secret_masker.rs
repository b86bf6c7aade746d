use psenv::secret_masker::SecretMasker;

#[test]
fn test_sensitive_key_detection() {
    let masker = SecretMasker::new();

    assert!(masker.is_sensitive_key("DATABASE_PASSWORD"));
    assert!(masker.is_sensitive_key("API_KEY"));
    assert!(masker.is_sensitive_key("SECRET_TOKEN"));
    assert!(masker.is_sensitive_key("AUTH_SECRET"));
    assert!(masker.is_sensitive_key("POSTGRES_PASSWORD"));
    assert!(masker.is_sensitive_key("JWT_SECRET"));
    assert!(masker.is_sensitive_key("PRIVATE_KEY"));
    assert!(masker.is_sensitive_key("CERT_FILE"));
    assert!(masker.is_sensitive_key("HASH_SALT"));

    assert!(!masker.is_sensitive_key("DATABASE_HOST"));
    assert!(!masker.is_sensitive_key("DEBUG"));
    assert!(!masker.is_sensitive_key("PORT"));
    assert!(!masker.is_sensitive_key("NODE_ENV"));
    assert!(!masker.is_sensitive_key("LOG_LEVEL"));
}

#[test]
fn test_mask_value() {
    let masker = SecretMasker::new();

    assert_eq!(masker.mask_value("mysecretpassword"), "****** (16 chars, hidden)");
    assert_eq!(masker.mask_value("short"), "****** (5 chars, hidden)");
    assert_eq!(masker.mask_value(""), "****** (0 chars, hidden)");
}

#[test]
fn test_format_output() {
    let masker = SecretMasker::new();

    assert_eq!(masker.format_output("DEBUG", "true", false), "DEBUG=true");
    assert_eq!(
        masker.format_output("API_KEY", "secret123", false),
        "API_KEY=****** (9 chars, hidden)"
    );
    assert_eq!(masker.format_output("API_KEY", "secret123", true), "API_KEY=secret123");
}

#[test]
fn mask_counts_characters_not_bytes() {
    let masker = SecretMasker::new();
    assert_eq!(masker.mask_value("héllo✓"), "****** (6 chars, hidden)");
    assert_eq!(masker.mask_value("0123456789"), "****** (10 chars, hidden)");
    assert_eq!(masker.mask_value(&"x".repeat(1234)), "****** (1234 chars, hidden)");
}

#[test]
fn masked_line_never_holds_the_value() {
    let masker = SecretMasker::new();
    for key in ["API_KEY", "DB_PASSWORD"] {
        let value = "hunter2-VALUE";
        let line = masker.format_output(key, value, false);
        assert!(!line.contains(value));
        assert_eq!(line, format!("{}=****** (13 chars, hidden)", key));
        assert_eq!(masker.format_output(key, value, true), format!("{}={}", key, value));
    }
}

#[test]
fn plain_key_shows_value_either_way() {
    let masker = SecretMasker::new();
    assert_eq!(masker.format_output("HOST", "db.local", false), "HOST=db.local");
    assert_eq!(masker.format_output("HOST", "db.local", true), "HOST=db.local");
}

#[test]
fn masks_of_equal_length_values_agree() {
    let masker = SecretMasker::new();
    assert_eq!(
        masker.format_output("TOKEN", "abcdef", false),
        masker.format_output("TOKEN", "uvwxyz", false)
    );
}

#[test]
fn every_vocabulary_word_is_sensitive() {
    let masker = SecretMasker::new();
    for word in [
        "password", "passwd", "pwd", "secret", "key", "token", "auth", "credential", "cred",
        "private", "secure", "salt", "hash", "signature", "cert", "certificate",
    ] {
        assert!(masker.is_sensitive_key(&word.to_uppercase()), "{}", word);
        assert!(masker.is_sensitive_lowercase(word), "{}", word);
        assert!(masker.is_sensitive_key(&format!("MY_{}_X", word.to_uppercase())), "{}", word);
    }
}

#[test]
fn lowercase_classification_follows_case_folding() {
    let masker = SecretMasker::new();
    assert!(masker.is_sensitive_lowercase("\u{17f}ecret"));
    assert!(masker.is_sensitive_lowercase("API_KEY"));
    assert!(!masker.is_sensitive_lowercase("database_host"));
    assert!(masker.is_sensitive_key("\u{212a}EY"));
}
