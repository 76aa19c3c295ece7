use keybinder::config::ConfigFile;
use keybinder::editor::{
    create_shortcut, delete_shortcut, update_shortcut, ConfigState, CreateShortcutRequest,
    UpdateShortcutRequest,
};
use keybinder::grammar::LineFault;
use keybinder::loader::config_from_parsed;
use keybinder::parser::{parse_config, parse_config_lines, ConfigLine, ParseError};
use keybinder::serializer::{checked_serialization, serialize_config};
use keybinder::shortcut::Shortcut;
use keybinder::validation::{validate_config, validate_config_text, validate_shortcut, ValidationResult};

fn round(text: &str) -> String {
    let parsed = parse_config(text).unwrap();
    serialize_config(&config_from_parsed("/p".to_string(), &parsed))
}

#[test]
fn test_parse_simple_shortcut() {
    let config = "cmd - return : open -a Terminal\n";
    let result = parse_config(config);
    assert!(result.is_ok());

    let parsed = result.unwrap();
    let shortcuts = parsed.shortcuts();
    assert_eq!(shortcuts.len(), 1);
    assert_eq!(shortcuts[0].modifiers, vec!["cmd"]);
    assert_eq!(shortcuts[0].key, "return");
    assert_eq!(shortcuts[0].command, "open -a Terminal");
}

#[test]
fn test_parse_multiple_modifiers() {
    let config = "cmd + shift - f : open ~\n";
    let result = parse_config(config);
    assert!(result.is_ok());

    let parsed = result.unwrap();
    let shortcuts = parsed.shortcuts();
    assert_eq!(shortcuts.len(), 1);
    assert_eq!(shortcuts[0].modifiers, vec!["cmd", "shift"]);
    assert_eq!(shortcuts[0].key, "f");
}

#[test]
fn test_parse_with_comments() {
    let config = "# This is a comment\ncmd - return : open -a Terminal\n";
    let result = parse_config(config);
    assert!(result.is_ok());

    let parsed = result.unwrap();
    assert_eq!(parsed.comments().len(), 1);
    assert_eq!(parsed.shortcuts().len(), 1);
}

#[test]
fn test_serialize_config() {
    let mut config = ConfigFile::new("/test/path".to_string());

    config.global_comments.push("Global config".to_string());

    let s1 = Shortcut::new(
        vec!["cmd".to_string()],
        "return".to_string(),
        "open -a Terminal".to_string(),
        1,
    );

    let s2 = Shortcut::new(
        vec!["cmd".to_string(), "shift".to_string()],
        "f".to_string(),
        "open ~".to_string(),
        2,
    );

    config.add_shortcut(s1);
    config.add_shortcut(s2);

    let serialized = serialize_config(&config);
    println!("Serialized output:\n{}", serialized);

    assert!(serialized.contains("# Global config"));
    assert!(serialized.contains("cmd - return : open -a Terminal"));
    assert!(serialized.contains("cmd + shift - f : open ~"));
}

#[test]
fn test_serialize_config_no_modifiers() {
    let mut config = ConfigFile::new("/test/path".to_string());

    let shortcut = Shortcut::new(vec![], "f1".to_string(), "echo test".to_string(), 1);

    config.add_shortcut(shortcut);

    let serialized = serialize_config(&config);
    assert!(serialized.contains("- f1 : echo test"));
}

#[test]
fn serialize_exact_layout() {
    let mut config = ConfigFile::new("/p".to_string());
    config.global_comments.push("head".to_string());
    let mut a = Shortcut::with_id("a".to_string(), vec!["shift".to_string(), "alt".to_string()], "x".to_string(), "run a".to_string(), 5);
    a.comment = Some("note".to_string());
    config.add_shortcut(a);
    config.add_shortcut(Shortcut::with_id("b".to_string(), vec![], "y".to_string(), "run b".to_string(), 2));
    assert_eq!(
        serialize_config(&config),
        "# head\n\n- y : run b\n# note\nalt + shift - x : run a\n"
    );
}

#[test]
fn end_to_end_single_binding() {
    let parsed = parse_config("cmd + shift - f : open ~\n").unwrap();
    let shortcuts = parsed.shortcuts();
    assert_eq!(shortcuts.len(), 1);
    assert_eq!(shortcuts[0].modifiers, vec!["cmd", "shift"]);
    assert_eq!(shortcuts[0].key, "f");
    assert_eq!(shortcuts[0].command, "open ~");
    assert_eq!(round("cmd + shift - f : open ~\n"), "cmd + shift - f : open ~\n");
}

#[test]
fn malformed_line_gives_one_error_at_its_line() {
    let text = "cmd - a : one\ngarbage line\nalt - b : two\n";
    let errors = parse_config(text).unwrap_err();
    assert_eq!(errors.len(), 1);
    assert_eq!(errors[0].line_number, 2);
    assert_eq!(errors[0].kind, LineFault::Syntax);
    let report = validate_config_text(text);
    assert_eq!(report.errors, vec!["Line 2: Syntax error: unrecognized line".to_string()]);
}

#[test]
fn valid_lines_around_a_bad_one_still_classify() {
    let good = parse_config("cmd - a : one\n\nalt - b : two\n").unwrap();
    let s = good.shortcuts();
    assert_eq!(s.len(), 2);
    assert_eq!(s[0].line_number, 1);
    assert_eq!(s[1].line_number, 3);
    assert!(matches!(good.lines[1], ConfigLine::Empty(2)));
}

#[test]
fn missing_key_and_command_are_named() {
    let errors = parse_config("cmd - : open\ncmd - f :   \ncmd - g\n").unwrap_err();
    assert_eq!(errors.len(), 3);
    assert_eq!(errors[0].kind, LineFault::MissingKey);
    assert_eq!(errors[0].message, "Missing key specification");
    assert_eq!(errors[1].kind, LineFault::MissingCommand);
    assert_eq!(errors[1].message, "Missing command specification");
    assert_eq!(errors[2].line_number, 3);
    assert_eq!(errors[2].kind, LineFault::MissingCommand);
}

#[test]
fn parse_error_display() {
    let e = ParseError { line_number: 3, column: Some(7), kind: LineFault::Syntax, message: "bad".to_string() };
    assert_eq!(e.display(), "Parse error at line 3, column 7: bad");
    let f = ParseError { line_number: 12, column: None, kind: LineFault::Syntax, message: "bad".to_string() };
    assert_eq!(f.display(), "Parse error at line 12: bad");
}

#[test]
fn command_keeps_colons_and_dashes() {
    let parsed = parse_config("alt - x : echo a:b - c + d\r\n").unwrap();
    assert_eq!(parsed.shortcuts()[0].command, "echo a:b - c + d");
}

#[test]
fn empty_text_and_comment_text() {
    assert_eq!(parse_config("").unwrap().lines.len(), 0);
    let parsed = parse_config("  #   hello  \n").unwrap();
    assert_eq!(parsed.comments()[0].text, "hello");
}

#[test]
fn reserialization_is_idempotent() {
    let text = "# top\nshift + cmd - f : open ~\n\n# note\n- f1 : echo  a \nctrl+alt - x:run\n";
    let first = round(text);
    assert_eq!(first, "# top\n# note\n\ncmd + shift - f : open ~\n- f1 : echo  a\nalt + ctrl - x : run\n");
    assert_eq!(round(&first), first);
}

#[test]
fn test_validate_valid_shortcut() {
    let shortcut = Shortcut::new(
        vec!["cmd".to_string()],
        "return".to_string(),
        "open -a Terminal".to_string(),
        1,
    );

    let result = validate_shortcut(&shortcut);
    assert!(result.is_valid);
    assert_eq!(result.errors.len(), 0);
}

#[test]
fn test_validate_shortcut_empty_command() {
    let shortcut = Shortcut::new(
        vec!["cmd".to_string()],
        "return".to_string(),
        "".to_string(),
        1,
    );

    let result = validate_shortcut(&shortcut);
    assert!(!result.is_valid);
    assert!(result.errors.len() > 0);
}

#[test]
fn test_validate_config_with_duplicates() {
    let mut config = ConfigFile::new("/test/path".to_string());

    let s1 = Shortcut::new(
        vec!["cmd".to_string()],
        "f".to_string(),
        "command1".to_string(),
        1,
    );

    let s2 = Shortcut::new(
        vec!["cmd".to_string()],
        "f".to_string(),
        "command2".to_string(),
        2,
    );

    config.add_shortcut(s1);
    config.add_shortcut(s2);

    let result = validate_config(&config);
    assert!(!result.is_valid);
    assert!(result.errors.iter().any(|e| e.contains("Duplicate")));
}

#[test]
fn test_validate_config_text() {
    let text = "cmd - return : open -a Terminal\n";
    let result = validate_config_text(text);
    assert!(result.is_valid);
}

#[test]
fn test_validate_config_text_invalid() {
    let text = "invalid syntax here\n";
    let result = validate_config_text(text);
    assert!(!result.is_valid);
}

#[test]
fn test_system_shortcut_warning() {
    let mut config = ConfigFile::new("/test/path".to_string());

    let shortcut = Shortcut::new(
        vec!["cmd".to_string()],
        "space".to_string(),
        "my_command".to_string(),
        1,
    );

    config.add_shortcut(shortcut);

    let result = validate_config(&config);
    assert!(result
        .warnings
        .iter()
        .any(|w| w.contains("system shortcut")));
}

#[test]
fn warnings_never_invalidate() {
    let long = "x".repeat(501);
    let shortcut = Shortcut::with_id("a".to_string(), vec![], "f".to_string(), long, 1);
    let result = validate_shortcut(&shortcut);
    assert!(result.is_valid);
    assert_eq!(
        result.warnings,
        vec![
            "Command is very long (>500 chars)".to_string(),
            "Shortcut has no modifiers - may conflict with system shortcuts".to_string(),
        ]
    );
    let mut config = ConfigFile::new("/p".to_string());
    config.add_shortcut(Shortcut::with_id("b".to_string(), vec!["shift".to_string(), "cmd".to_string()], "3".to_string(), "shot".to_string(), 1));
    let report = validate_config(&config);
    assert!(report.is_valid);
    assert_eq!(report.warnings, vec!["Shortcut cmd + shift - 3 conflicts with system shortcut".to_string()]);
}

#[test]
fn validation_result_accumulates() {
    let mut r = ValidationResult::new();
    assert!(r.is_valid);
    r.add_warning("w".to_string());
    assert!(r.is_valid);
    r.add_error("e".to_string());
    assert!(!r.is_valid);
    assert_eq!(r.errors, vec!["e".to_string()]);
    assert_eq!(r.warnings, vec!["w".to_string()]);
}

#[test]
fn test_create_shortcut_request() {
    let request = CreateShortcutRequest {
        modifiers: vec!["cmd".to_string()],
        key: "return".to_string(),
        command: "open -a Terminal".to_string(),
        mode: None,
        comment: Some("Terminal shortcut".to_string()),
    };

    assert_eq!(request.modifiers, vec!["cmd"]);
    assert_eq!(request.key, "return");
}

#[test]
fn test_update_shortcut_request() {
    let request = UpdateShortcutRequest {
        id: "test-id".to_string(),
        modifiers: vec!["cmd".to_string(), "shift".to_string()],
        key: "f".to_string(),
        command: "open ~".to_string(),
        mode: None,
        comment: None,
    };

    assert_eq!(request.id, "test-id");
    assert_eq!(request.modifiers.len(), 2);
}

fn create_req(mods: &[&str], key: &str) -> CreateShortcutRequest {
    CreateShortcutRequest {
        modifiers: mods.iter().map(|m| m.to_string()).collect(),
        key: key.to_string(),
        command: "run".to_string(),
        mode: None,
        comment: None,
    }
}

#[test]
fn edits_through_the_context() {
    let mut state = ConfigState::new();
    assert_eq!(create_shortcut(&mut state, create_req(&["cmd"], "a")), Err("No config loaded".to_string()));
    let mut config = ConfigFile::new("/p".to_string());
    config.add_shortcut(Shortcut::with_id("x".to_string(), vec!["alt".to_string()], "q".to_string(), "z".to_string(), 7));
    state.config = Some(config);
    let made = create_shortcut(&mut state, create_req(&["cmd"], "a")).unwrap();
    assert_eq!(made.line_number, 8);
    assert_eq!(state.config.as_ref().unwrap().shortcuts.len(), 2);
    assert_eq!(
        create_shortcut(&mut state, create_req(&["cmd"], "a")),
        Err("Duplicate key combination: cmd - a".to_string())
    );
    assert_eq!(
        create_shortcut(&mut state, create_req(&["meta"], "a")),
        Err("Invalid shortcut: Invalid modifier: meta".to_string())
    );
    let upd = UpdateShortcutRequest {
        id: made.id.clone(),
        modifiers: vec!["alt".to_string()],
        key: "q".to_string(),
        command: "new".to_string(),
        mode: None,
        comment: None,
    };
    assert_eq!(update_shortcut(&mut state, upd.clone()), Err("Duplicate key combination: alt - q".to_string()));
    let ok = UpdateShortcutRequest { key: "w".to_string(), ..upd };
    let updated = update_shortcut(&mut state, ok).unwrap();
    assert_eq!(updated.line_number, 8);
    assert_eq!(state.config.as_ref().unwrap().find_shortcut(&made.id).unwrap().key, "w");
    assert_eq!(delete_shortcut(&mut state, "nope"), Err("Shortcut not found".to_string()));
    assert_eq!(delete_shortcut(&mut state, &made.id), Ok(()));
    assert_eq!(state.config.as_ref().unwrap().shortcuts.len(), 1);
}

#[test]
fn checked_serialization_refuses_unreadable_text() {
    let mut config = ConfigFile::new("/p".to_string());
    config.add_shortcut(Shortcut::with_id("a".to_string(), vec!["cmd".to_string()], "f".to_string(), "run".to_string(), 1));
    assert_eq!(checked_serialization(&config), Ok("cmd - f : run\n".to_string()));
    config.add_shortcut(Shortcut::with_id("b".to_string(), vec!["meta".to_string()], "g".to_string(), "x".to_string(), 2));
    config.add_shortcut(Shortcut::with_id("c".to_string(), vec![], "two words".to_string(), "x".to_string(), 3));
    assert_eq!(
        checked_serialization(&config),
        Err("Validation failed: 2 syntax errors detected".to_string())
    );
}

#[test]
fn valid_lines_survive_a_broken_one() {
    let (parsed, errors) =
        parse_config_lines("cmd - a : echo a\ngarbage line\ncmd - b : echo b\n");
    assert_eq!(errors.len(), 1);
    assert_eq!(errors[0].line_number, 2);
    let shortcuts = parsed.shortcuts();
    assert_eq!(shortcuts.len(), 2);
    assert_eq!(shortcuts[0].line_number, 1);
    assert_eq!(shortcuts[0].modifiers, vec!["cmd"]);
    assert_eq!(shortcuts[0].key, "a");
    assert_eq!(shortcuts[0].command, "echo a");
    assert_eq!(shortcuts[1].line_number, 3);
    assert_eq!(shortcuts[1].key, "b");
    assert_eq!(shortcuts[1].command, "echo b");
}

#[test]
fn update_reports_which_error() {
    let req = UpdateShortcutRequest {
        id: "ghost".to_string(),
        modifiers: vec!["cmd".to_string()],
        key: "k".to_string(),
        command: "run".to_string(),
        mode: None,
        comment: None,
    };
    let mut empty = ConfigState::new();
    assert_eq!(update_shortcut(&mut empty, req.clone()), Err("No config loaded".to_string()));
    assert_eq!(delete_shortcut(&mut empty, "ghost"), Err("No config loaded".to_string()));
    let mut state = ConfigState::new();
    state.config = Some(ConfigFile::new("/p".to_string()));
    assert_eq!(update_shortcut(&mut state, req), Err("Shortcut not found".to_string()));
    assert!(state.config.as_ref().unwrap().shortcuts.is_empty());
}

#[test]
fn validate_config_reports_own_fault_once() {
    let mut config = ConfigFile::new("/p".to_string());
    config.add_shortcut(Shortcut::with_id("a".to_string(), vec!["meta".to_string()], "g".to_string(), "x".to_string(), 7));
    let report = validate_config(&config);
    assert_eq!(report.errors, vec!["Line 7: Invalid modifier: meta".to_string()]);
}
