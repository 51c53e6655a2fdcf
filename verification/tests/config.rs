use optifunkin::config::{CustomLog, LogLevel, CLI};

#[test]
fn level_tokens_are_plain_uppercase() {
    let style = CustomLog;
    assert_eq!(style.level_token(&LogLevel::Error), "ERROR");
    assert_eq!(style.level_token(&LogLevel::Warn), "WARN");
    assert_eq!(style.level_token(&LogLevel::Info), "INFO");
    assert_eq!(style.level_token(&LogLevel::Debug), "DEBUG");
    assert_eq!(style.level_token(&LogLevel::Trace), "TRACE");
}

#[test]
fn cli_carries_plain_values() {
    let cli = CLI { files: vec!["sheets/hero.png".to_string()], recursive: true, verbose: false };
    assert_eq!(cli.files.len(), 1);
    assert!(cli.recursive);
    assert!(!cli.verbose);
}
