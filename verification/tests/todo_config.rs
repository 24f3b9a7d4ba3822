use notectl::todo_config::{default_daily_note_patterns, Config};

#[test]
fn todo_config_should_exclude_substring() {
    let config = Config {
        exclude_paths: vec!["Template".to_string(), "Recipes".to_string()],
        daily_note_patterns: default_daily_note_patterns(),
    };
    assert!(config.should_exclude("/vault/Templates/note.md"));
    assert!(config.should_exclude("/vault/Recipes/recipe.md"));
    assert!(!config.should_exclude("/vault/Notes/note.md"));
}

#[test]
fn todo_config_should_exclude_glob_pattern() {
    let config = Config {
        exclude_paths: vec!["**/Template/**".to_string(), "**/Recipes/**".to_string()],
        daily_note_patterns: default_daily_note_patterns(),
    };
    assert!(config.should_exclude("/vault/Template/note.md"));
    assert!(config.should_exclude("/vault/Recipes/recipe.md"));
    assert!(config.should_exclude("/vault/sub/Template/note.md"));
    assert!(!config.should_exclude("/vault/Notes/note.md"));
}

#[test]
fn todo_config_default_config() {
    let config = Config::default();
    assert!(config.exclude_paths.is_empty());
    assert_eq!(config.daily_note_patterns, vec!["YYYY-MM-DD.md".to_string()]);
    assert!(!config.should_exclude("/vault/anything.md"));
}

#[test]
fn todo_config_merge_from_env() {
    let mut config = Config { exclude_paths: vec!["Template".to_string()], daily_note_patterns: default_daily_note_patterns() };
    config.merge_from_env(&Some("Archive, Backup, **/tmp/**".to_string()), &Some("Daily/YYYY-MM-DD.md".to_string()));
    assert_eq!(config.exclude_paths.len(), 4);
    assert!(config.exclude_paths.contains(&"**/tmp/**".to_string()));
    assert_eq!(config.daily_note_patterns.len(), 2);
}

#[test]
fn todo_config_env_with_empty_patterns() {
    let mut config = Config::default();
    config.merge_from_env(&Some("Archive, , Backup,  ,".to_string()), &None);
    assert_eq!(config.exclude_paths, vec!["Archive".to_string(), "Backup".to_string()]);
}
