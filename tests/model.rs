use keybinder::config::ConfigFile;
use keybinder::shortcut::{Shortcut, ShortcutError};

fn s(v: &[&str]) -> Vec<String> {
    v.iter().map(|x| x.to_string()).collect()
}

#[test]
fn test_new_shortcut() {
    let shortcut = Shortcut::new(
        vec!["cmd".to_string()],
        "return".to_string(),
        "open -a Terminal".to_string(),
        1,
    );

    assert!(!shortcut.id.is_empty());
    assert_eq!(shortcut.modifiers, vec!["cmd"]);
    assert_eq!(shortcut.key, "return");
    assert_eq!(shortcut.command, "open -a Terminal");
}

#[test]
fn test_key_combination_string() {
    let shortcut = Shortcut::new(
        vec!["cmd".to_string(), "shift".to_string()],
        "f".to_string(),
        "open ~".to_string(),
        1,
    );

    assert_eq!(shortcut.key_combination_string(), "cmd + shift - f");
}

#[test]
fn test_has_same_combination() {
    let s1 = Shortcut::new(
        vec!["cmd".to_string(), "shift".to_string()],
        "f".to_string(),
        "cmd1".to_string(),
        1,
    );

    let s2 = Shortcut::new(
        vec!["shift".to_string(), "cmd".to_string()],
        "f".to_string(),
        "cmd2".to_string(),
        2,
    );

    assert!(s1.has_same_combination(&s2));
}

#[test]
fn test_validate() {
    let valid = Shortcut::new(
        vec!["cmd".to_string()],
        "return".to_string(),
        "open -a Terminal".to_string(),
        1,
    );
    assert!(valid.validate().is_ok());

    let invalid_empty_cmd = Shortcut::new(
        vec!["cmd".to_string()],
        "return".to_string(),
        "".to_string(),
        1,
    );
    assert!(invalid_empty_cmd.validate().is_err());
}

#[test]
fn test_new_config() {
    let config = ConfigFile::new("/test/path".to_string());
    assert_eq!(config.file_path, "/test/path");
    assert_eq!(config.shortcuts.len(), 0);
    assert!(!config.is_modified);
}

#[test]
fn test_add_shortcut() {
    let mut config = ConfigFile::new("/test/path".to_string());
    let shortcut = Shortcut::new(
        vec!["cmd".to_string()],
        "return".to_string(),
        "open -a Terminal".to_string(),
        1,
    );

    config.add_shortcut(shortcut);
    assert_eq!(config.shortcuts.len(), 1);
    assert!(config.is_modified);
}

#[test]
fn test_remove_shortcut() {
    let mut config = ConfigFile::new("/test/path".to_string());
    let shortcut = Shortcut::new(
        vec!["cmd".to_string()],
        "return".to_string(),
        "open -a Terminal".to_string(),
        1,
    );
    let id = shortcut.id.clone();

    config.add_shortcut(shortcut);
    let removed = config.remove_shortcut(&id);
    assert!(removed.is_some());
    assert_eq!(config.shortcuts.len(), 0);
}

#[test]
fn test_find_duplicates() {
    let mut config = ConfigFile::new("/test/path".to_string());

    let s1 = Shortcut::new(
        vec!["cmd".to_string()],
        "f".to_string(),
        "command1".to_string(),
        1,
    );

    let s2 = Shortcut::new(
        vec!["cmd".to_string()],
        "f".to_string(),
        "command2".to_string(),
        2,
    );

    config.add_shortcut(s1.clone());
    config.add_shortcut(s2.clone());

    let duplicates = config.find_duplicates(&s1);
    assert_eq!(duplicates.len(), 1);
}

#[test]
fn fresh_ids_are_hyphenated_uuids_and_differ() {
    let a = Shortcut::new(s(&["cmd"]), "a".to_string(), "x".to_string(), 1);
    let b = Shortcut::new(s(&["cmd"]), "a".to_string(), "x".to_string(), 1);
    assert_eq!(a.id.chars().count(), 36);
    assert_ne!(a.id, b.id);
}

#[test]
fn combination_is_canonical_in_either_order() {
    let a = Shortcut::with_id("a".to_string(), s(&["shift", "cmd"]), "k".to_string(), "x".to_string(), 1);
    let b = Shortcut::with_id("b".to_string(), s(&["cmd", "shift"]), "k".to_string(), "x".to_string(), 1);
    assert_eq!(a.key_combination_string(), "cmd + shift - k");
    assert_eq!(b.key_combination_string(), "cmd + shift - k");
    let bare = Shortcut::with_id("c".to_string(), vec![], "f1".to_string(), "x".to_string(), 1);
    assert_eq!(bare.key_combination_string(), "f1");
}

#[test]
fn own_id_is_not_a_duplicate_after_adding() {
    let mut config = ConfigFile::new("/p".to_string());
    let a = Shortcut::new(s(&["cmd"]), "f".to_string(), "x".to_string(), 1);
    config.add_shortcut(a.clone());
    assert!(config.find_duplicates(&a).is_empty());
}

#[test]
fn different_modes_are_not_duplicates() {
    let mut a = Shortcut::with_id("a".to_string(), s(&["cmd"]), "f".to_string(), "x".to_string(), 1);
    let mut b = Shortcut::with_id("b".to_string(), s(&["cmd"]), "f".to_string(), "y".to_string(), 2);
    a.mode = Some("normal".to_string());
    b.mode = Some("resize".to_string());
    assert!(!a.has_same_combination(&b));
    assert!(!b.has_same_combination(&a));
    b.mode = Some("normal".to_string());
    assert!(a.has_same_combination(&b));
    assert!(b.has_same_combination(&a));
}

#[test]
fn validation_errors_by_kind() {
    let dup = Shortcut::with_id("a".to_string(), s(&["cmd", "cmd"]), "f".to_string(), "x".to_string(), 1);
    assert_eq!(dup.validate(), Err(ShortcutError::DuplicateModifiers));
    assert_eq!(ShortcutError::DuplicateModifiers.message(), "Duplicate modifiers not allowed");
    let meta = Shortcut::with_id("a".to_string(), s(&["meta"]), "f".to_string(), "x".to_string(), 1);
    assert_eq!(meta.validate(), Err(ShortcutError::InvalidModifier("meta".to_string())));
    assert_eq!(
        ShortcutError::InvalidModifier("meta".to_string()).message(),
        "Invalid modifier: meta"
    );
    let no_key = Shortcut::with_id("a".to_string(), s(&["cmd"]), "  ".to_string(), "x".to_string(), 1);
    assert_eq!(no_key.validate(), Err(ShortcutError::EmptyKey));
    let no_cmd = Shortcut::with_id("a".to_string(), s(&["cmd"]), "f".to_string(), " \t".to_string(), 1);
    assert_eq!(no_cmd.validate(), Err(ShortcutError::EmptyCommand));
    assert_eq!(ShortcutError::EmptyCommand.message(), "Command cannot be empty");
}

#[test]
fn update_and_find_by_id() {
    let mut config = ConfigFile::new("/p".to_string());
    config.add_shortcut(Shortcut::with_id("a".to_string(), s(&["cmd"]), "f".to_string(), "x".to_string(), 1));
    config.is_modified = false;
    let replaced = Shortcut::with_id("a".to_string(), s(&["alt"]), "g".to_string(), "y".to_string(), 1);
    assert!(config.update_shortcut(replaced));
    assert!(config.is_modified);
    assert_eq!(config.find_shortcut("a").unwrap().key, "g");
    let missing = Shortcut::with_id("zz".to_string(), vec![], "g".to_string(), "y".to_string(), 1);
    assert!(!config.update_shortcut(missing));
    assert_eq!(config.shortcuts.len(), 1);
    assert!(config.find_shortcut("zz").is_none());
    assert!(config.remove_shortcut("zz").is_none());
}

#[test]
fn sort_by_line_number_is_stable() {
    let mut config = ConfigFile::new("/p".to_string());
    config.add_shortcut(Shortcut::with_id("c".to_string(), vec![], "c".to_string(), "x".to_string(), 3));
    config.add_shortcut(Shortcut::with_id("a".to_string(), vec![], "a".to_string(), "x".to_string(), 1));
    config.add_shortcut(Shortcut::with_id("b".to_string(), vec![], "b".to_string(), "x".to_string(), 3));
    config.sort_by_line_number();
    let ids: Vec<&str> = config.shortcuts.iter().map(|s| s.id.as_str()).collect();
    assert_eq!(ids, vec!["a", "c", "b"]);
}

#[test]
fn config_validate_reports_lines() {
    let mut config = ConfigFile::new("/p".to_string());
    config.add_shortcut(Shortcut::with_id("a".to_string(), s(&["shift", "cmd"]), "f".to_string(), "x".to_string(), 4));
    config.add_shortcut(Shortcut::with_id("b".to_string(), s(&["meta"]), "g".to_string(), "x".to_string(), 7));
    config.add_shortcut(Shortcut::with_id("c".to_string(), s(&["cmd", "shift"]), "f".to_string(), "y".to_string(), 12));
    let errors = config.validate().unwrap_err();
    assert_eq!(
        errors,
        vec![
            "Line 7: Invalid modifier: meta".to_string(),
            "Duplicate key combination 'cmd + shift - f' at lines 4 and 12".to_string(),
        ]
    );
    let empty = ConfigFile::new("/p".to_string());
    assert!(empty.validate().is_ok());
}

#[test]
fn next_line_number_is_one_past_the_largest() {
    let mut config = ConfigFile::new("/p".to_string());
    assert_eq!(config.next_line_number(), Some(1));
    config.add_shortcut(Shortcut::with_id("a".to_string(), vec![], "a".to_string(), "x".to_string(), 9));
    config.add_shortcut(Shortcut::with_id("b".to_string(), vec![], "b".to_string(), "x".to_string(), 4));
    assert_eq!(config.next_line_number(), Some(10));
    config.add_shortcut(Shortcut::with_id("m".to_string(), vec![], "m".to_string(), "x".to_string(), usize::MAX));
    assert_eq!(config.next_line_number(), None);
}

#[test]
fn duplicate_lookup_is_symmetric() {
    let mut config = ConfigFile::new("/p".to_string());
    let a = Shortcut::with_id("a".to_string(), s(&["shift", "cmd"]), "f".to_string(), "x".to_string(), 1);
    let b = Shortcut::with_id("b".to_string(), s(&["cmd", "shift"]), "f".to_string(), "y".to_string(), 2);
    let c = Shortcut::with_id("c".to_string(), s(&["cmd"]), "f".to_string(), "z".to_string(), 3);
    config.add_shortcut(a.clone());
    config.add_shortcut(b.clone());
    config.add_shortcut(c.clone());
    let of_a: Vec<&str> = config.find_duplicates(&a).iter().map(|x| x.id.as_str()).collect();
    let of_b: Vec<&str> = config.find_duplicates(&b).iter().map(|x| x.id.as_str()).collect();
    assert_eq!(of_a, vec!["b"]);
    assert_eq!(of_b, vec!["a"]);
    assert!(config.find_duplicates(&c).is_empty());
}

#[test]
fn combination_text_ignores_modifier_order() {
    let orders = [["ctrl", "shift", "alt"], ["shift", "alt", "ctrl"], ["alt", "ctrl", "shift"]];
    for order in orders.iter() {
        let sc = Shortcut::with_id("a".to_string(), s(order), "q".to_string(), "x".to_string(), 1);
        assert_eq!(sc.key_combination_string(), "alt + ctrl + shift - q");
    }
}
