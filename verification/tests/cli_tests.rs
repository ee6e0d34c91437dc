use television::cli::{
    parse_expect_bindings, parse_key, parse_source_entry_delimiter,
    validate_adhoc_mode_constraints, Action, Actions, Cli, CliError, Key, KeyBindings,
};
use television::config::{InputPosition, UiConfig};

#[test]
fn test_validate_adhoc_mode_constraints_stdin() {
    let cli = Cli {
        source_display: Some("display".to_string()),
        source_output: Some("output".to_string()),
        preview_command: Some("preview".to_string()),
        preview_offset: Some("offset".to_string()),
        preview_size: Some(10),
        preview_header: Some("header".to_string()),
        preview_footer: Some("footer".to_string()),
        ..Default::default()
    };

    assert!(validate_adhoc_mode_constraints(&cli, true).is_ok());
}

#[test]
fn test_parse_expect_keybindings() {
    let expect = "ctrl-q;esc";
    let bindings = parse_expect_bindings(expect).unwrap();

    let mut expected = KeyBindings::default();
    expected.insert(
        Key::Ctrl('q'),
        Actions::single(Action::Expect(Key::Ctrl('q'))),
    );
    expected.insert(Key::Esc, Actions::single(Action::Expect(Key::Esc)));

    assert_eq!(bindings, expected);
}

#[test]
fn test_adhoc_source_flags_require_source_command() {
    let cli = Cli {
        source_display: Some("d".to_string()),
        ..Default::default()
    };
    assert_eq!(
        validate_adhoc_mode_constraints(&cli, false),
        Err(CliError::RequiresSourceCommand)
    );
}

#[test]
fn test_adhoc_preview_flags_require_preview_command() {
    let cli = Cli {
        preview_header: Some("h".to_string()),
        ..Default::default()
    };
    assert_eq!(
        validate_adhoc_mode_constraints(&cli, false),
        Err(CliError::RequiresPreviewCommand)
    );
}

#[test]
fn test_adhoc_checks_skipped_with_channel() {
    let cli = Cli {
        channel: Some("files".to_string()),
        preview_header: Some("h".to_string()),
        ..Default::default()
    };
    assert!(validate_adhoc_mode_constraints(&cli, false).is_ok());
}

#[test]
fn test_parse_delimiter_single_char() {
    assert_eq!(parse_source_entry_delimiter(":"), Ok(':'));
}

#[test]
fn test_parse_delimiter_escapes() {
    assert_eq!(parse_source_entry_delimiter("\\n"), Ok('\n'));
    assert_eq!(parse_source_entry_delimiter("\\t"), Ok('\t'));
    assert_eq!(parse_source_entry_delimiter("\\r"), Ok('\r'));
    assert_eq!(parse_source_entry_delimiter("\\0"), Ok('\0'));
}

#[test]
fn test_parse_delimiter_errors() {
    assert_eq!(
        parse_source_entry_delimiter(""),
        Err(CliError::EmptyDelimiter)
    );
    assert_eq!(
        parse_source_entry_delimiter("\\x"),
        Err(CliError::InvalidDelimiterEscape)
    );
    assert_eq!(
        parse_source_entry_delimiter("ab"),
        Err(CliError::DelimiterNotSingleCharacter)
    );
    // A multi-byte character is not a single-byte delimiter.
    assert_eq!(
        parse_source_entry_delimiter("é"),
        Err(CliError::DelimiterNotSingleCharacter)
    );
}

#[test]
fn test_parse_key_grammar() {
    assert_eq!(parse_key("esc"), Some(Key::Esc));
    assert_eq!(parse_key("enter"), Some(Key::Enter));
    assert_eq!(parse_key("down"), Some(Key::Down));
    assert_eq!(parse_key("space"), Some(Key::Space));
    assert_eq!(parse_key("ctrl-j"), Some(Key::Ctrl('j')));
    assert_eq!(parse_key("alt-x"), Some(Key::Alt('x')));
    assert_eq!(parse_key("q"), Some(Key::Char('q')));
    assert_eq!(parse_key("not-a-key"), None);
    assert_eq!(parse_key(""), None);
}

#[test]
fn test_parse_expect_skips_blank_pieces() {
    let bindings = parse_expect_bindings(" esc ; ;").unwrap();
    assert_eq!(bindings.bindings.len(), 1);
    assert_eq!(bindings.bindings[0].0, Key::Esc);
}

#[test]
fn test_parse_expect_invalid_key_errors() {
    assert_eq!(
        parse_expect_bindings("esc;bogus-key"),
        Err(CliError::InvalidKeyInExpect)
    );
}

#[test]
fn test_parse_expect_duplicate_key_bound_once() {
    let bindings = parse_expect_bindings("esc;esc").unwrap();
    assert_eq!(bindings.bindings.len(), 1);
}

#[test]
fn test_keybindings_insert_replaces() {
    let mut kb = KeyBindings::default();
    kb.insert(Key::Esc, Actions::single(Action::Quit));
    kb.insert(Key::Esc, Actions::single(Action::SelectNextEntry));
    assert_eq!(kb.bindings.len(), 1);
    assert_eq!(kb.bindings[0].1.actions, vec![Action::SelectNextEntry]);
}

#[test]
fn test_ui_config_default() {
    let cfg = UiConfig::default();
    assert!(!cfg.use_nerd_font_icons);
    assert_eq!(cfg.ui_scale, 100);
    assert!(!cfg.show_help_bar);
    assert!(cfg.show_preview_panel);
    assert_eq!(cfg.input_bar_position, InputPosition::Top);
    assert!(cfg.preview_title_position.is_none());
    assert_eq!(cfg.theme, "default");
}
