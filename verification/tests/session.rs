use o4t::Config;
use o4t::CurrentWord;
use o4t::CursorType;
use o4t::WordAttempt;

#[test]
fn fresh_word_attempt_is_untyped() {
    let attempt = WordAttempt::new("quick".to_string());
    assert_eq!(attempt.word, "quick");
    assert_eq!(attempt.user_attempt, "");
}

#[test]
fn default_config_values() {
    let config = Config::default();
    assert_eq!(config.time, 30);
    assert_eq!(config.theme, "dracula");
    assert_eq!(config.target_wpm, 0);
    assert!(matches!(config.cursor, CursorType::Underline));
    assert!(matches!(config.current_word, CurrentWord::Highlight));
}
