use keybinder::backup::new_backup_record;
use keybinder::execution::{ExecutionGuard, ExecutionState};
use keybinder::preview::format_command_preview;
use keybinder::shortcut::Shortcut;
use keybinder::templates::{
    generate_command_from_template, get_categories, get_templates, CommandCategory, CommandParameter,
    CommandTemplate,
};

fn template(id: &str, category: &str) -> CommandTemplate {
    CommandTemplate {
        id: id.to_string(),
        name: id.to_string(),
        description: String::new(),
        category_id: category.to_string(),
        command_pattern: "echo".to_string(),
        parameters: vec![],
        requires_admin: false,
    }
}

fn category(id: &str, order: i32) -> CommandCategory {
    CommandCategory {
        id: id.to_string(),
        name: id.to_string(),
        description: String::new(),
        icon: None,
        display_order: order,
    }
}

fn sample_templates() -> Vec<CommandTemplate> {
    vec![template("play", "media"), template("tile", "windows"), template("mute", "media")]
}

#[test]
fn test_format_command_preview_open_app() {
    let shortcut = Shortcut {
        id: "test".to_string(),
        modifiers: vec!["cmd".to_string()],
        key: "return".to_string(),
        command: "open -a Terminal".to_string(),
        comment: Some("Open Terminal".to_string()),
        mode: None,
        line_number: 1,
    };

    let preview = format_command_preview(&shortcut);
    assert!(preview.contains("Shortcut: cmd + return"));
    assert!(preview.contains("Application: Terminal"));
    assert!(preview.contains("Description: Open Terminal"));
}

#[test]
fn test_format_command_preview_chained() {
    let shortcut = Shortcut {
        id: "test".to_string(),
        modifiers: vec![],
        key: "f".to_string(),
        command: "echo hello && echo world".to_string(),
        comment: None,
        mode: None,
        line_number: 1,
    };

    let preview = format_command_preview(&shortcut);
    assert!(preview.contains("Multiple commands"));
    assert!(preview.contains("echo hello"));
    assert!(preview.contains("echo world"));
}

#[test]
fn preview_exact_texts() {
    let mut s = Shortcut::with_id("a".to_string(), vec![], "f".to_string(), "a; b ;c".to_string(), 1);
    assert_eq!(
        format_command_preview(&s),
        "Shortcut: No modifiers + f\n\nCommand: a; b ;c\n\nAction: Multiple commands (chained)\n\nSteps:\n  1. a\n  2. b\n  3. c\n"
    );
    s.command = "open ~/notes".to_string();
    assert_eq!(
        format_command_preview(&s),
        "Shortcut: No modifiers + f\n\nCommand: open ~/notes\n\nAction: Opens an application or file\nPath: ~/notes\n"
    );
    s.command = "yabai -m space --focus next".to_string();
    assert!(format_command_preview(&s).ends_with("Action: Window management (yabai)\n"));
    s.command = "ls".to_string();
    s.modifiers = vec!["shift".to_string(), "alt".to_string()];
    assert_eq!(
        format_command_preview(&s),
        "Shortcut: shift + alt + f\n\nCommand: ls\n\nAction: Shell command\n"
    );
}

#[test]
fn test_get_templates_all() {
    let templates = get_templates(sample_templates(), None);
    assert!(templates.len() > 0, "Should return all templates");
    assert_eq!(templates.len(), 3);
}

#[test]
fn test_get_templates_by_category() {
    let templates = get_templates(sample_templates(), Some("media".to_string()));
    assert!(templates.len() > 0, "Should have media templates");
    let ids: Vec<&str> = templates.iter().map(|t| t.id.as_str()).collect();
    assert_eq!(ids, vec!["play", "mute"]);
    for template in templates {
        assert_eq!(template.category_id, "media");
    }
    assert!(get_templates(sample_templates(), Some("none".to_string())).is_empty());
}

#[test]
fn test_get_categories() {
    let categories = get_categories(vec![category("c", 3), category("a", 1), category("b", 3), category("z", -2)]);
    assert!(categories.len() > 0, "Should have categories");
    for i in 1..categories.len() {
        assert!(categories[i - 1].display_order <= categories[i].display_order);
    }
    let ids: Vec<&str> = categories.iter().map(|c| c.id.as_str()).collect();
    assert_eq!(ids, vec!["z", "a", "c", "b"]);
}

#[test]
fn one_execution_per_binding() {
    let mut state = ExecutionState::new();
    let first = ExecutionGuard::new("a".to_string(), &mut state);
    assert_eq!(first.map(|g| g.shortcut_id), Some("a".to_string()));
    assert!(ExecutionGuard::new("a".to_string(), &mut state).is_none());
    assert!(ExecutionGuard::new("b".to_string(), &mut state).is_some());
    assert!(state.is_running("a"));
    state.finish("a");
    assert!(!state.is_running("a"));
    assert!(state.is_running("b"));
    assert!(ExecutionGuard::new("a".to_string(), &mut state).is_some());
}

#[test]
fn backup_record_made_now() {
    let b = new_backup_record("/cfg/skhdrc", &b"x".to_vec(), "/bk", None);
    assert!(b.file_path.starts_with("/bk/skhdrc_"));
    assert!(b.file_path.ends_with(".backup"));
    assert_eq!(b.file_path.len(), "/bk/skhdrc_".len() + 15 + ".backup".len());
    assert_eq!(b.size_bytes, 1);
}

fn parameter(data_type: &str, regex: Option<&str>, min: Option<i32>, max: Option<i32>, values: Option<Vec<&str>>) -> CommandParameter {
    CommandParameter {
        name: "level".to_string(),
        description: String::new(),
        data_type: data_type.to_string(),
        default_value: String::new(),
        validation_regex: regex.map(|r| r.to_string()),
        min_value: min,
        max_value: max,
        enum_values: values.map(|v| v.iter().map(|s| s.to_string()).collect()),
    }
}

#[test]
fn parameter_values_are_checked_in_order() {
    let p = parameter("integer", Some("^-?[0-9]+$"), Some(-5), Some(100), None);
    assert_eq!(p.validate_value("42"), Ok(()));
    assert_eq!(p.validate_value("-5"), Ok(()));
    assert_eq!(p.validate_value("abc"), Err("Invalid value for level: must match pattern ^-?[0-9]+$".to_string()));
    assert_eq!(p.validate_value("-6"), Err("level must be at least -5".to_string()));
    assert_eq!(p.validate_value("101"), Err("level must be at most 100".to_string()));
    assert_eq!(p.validate_value("99999999999"), Err("Invalid integer value for level".to_string()));
    let q = parameter("integer", None, None, None, None);
    assert_eq!(q.validate_value("+7"), Ok(()));
    assert_eq!(q.validate_value("2147483647"), Ok(()));
    assert_eq!(q.validate_value("-2147483648"), Ok(()));
    assert!(q.validate_value("2147483648").is_err());
    assert!(q.validate_value("-").is_err());
    assert!(q.validate_value("").is_err());
    let bad = parameter("string", Some("(unclosed"), None, None, None);
    assert!(bad.validate_value("x").unwrap_err().starts_with("Invalid regex pattern: "));
    let e = parameter("string", None, None, None, Some(vec!["low", "high"]));
    assert_eq!(e.validate_value("high"), Ok(()));
    assert_eq!(e.validate_value("mid"), Err("level must be one of: low, high".to_string()));
}

fn volume_templates() -> Vec<CommandTemplate> {
    let mut up = template("volume-up", "media");
    up.command_pattern = "osascript -e 'set volume output volume ((output volume of (get volume settings)) + {amount})'".to_string();
    let mut amount = parameter("integer", None, Some(1), Some(100), None);
    amount.name = "amount".to_string();
    amount.default_value = "10".to_string();
    up.parameters = vec![amount];
    vec![template("play", "media"), up]
}

#[test]
fn test_generate_command_from_template() {
    let params = vec![("amount".to_string(), "15".to_string())];
    let result = generate_command_from_template(&volume_templates(), "volume-up", &params);
    assert!(result.is_ok());
    let command = result.unwrap();
    assert!(command.contains("15"), "Should contain the parameter value");
    assert!(!command.contains("{amount}"), "Should not contain placeholder");
}

#[test]
fn test_generate_command_with_defaults() {
    let params = vec![];
    let result = generate_command_from_template(&volume_templates(), "volume-up", &params);
    assert!(result.is_ok());
    let command = result.unwrap();
    assert!(command.contains("10"), "Should use default value");
}

#[test]
fn test_generate_command_invalid_template() {
    let params = vec![];
    let result = generate_command_from_template(&volume_templates(), "nonexistent", &params);
    assert_eq!(result, Err("Template not found: nonexistent".to_string()));
}

#[test]
fn generated_command_checks_values_and_replaces_every_placeholder() {
    let mut t = template("t", "misc");
    t.command_pattern = "echo {amount} {amount} {other}".to_string();
    let mut amount = parameter("integer", None, Some(1), Some(100), None);
    amount.name = "amount".to_string();
    amount.default_value = "10".to_string();
    t.parameters = vec![amount];
    let templates = vec![t];
    assert_eq!(
        generate_command_from_template(&templates, "t", &vec![("amount".to_string(), "7".to_string())]),
        Ok("echo 7 7 {other}".to_string())
    );
    assert_eq!(
        generate_command_from_template(&templates, "t", &vec![("amount".to_string(), "700".to_string())]),
        Err("amount must be at most 100".to_string())
    );
}
