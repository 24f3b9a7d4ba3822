use notectl::error::INVALID_PARAMS;
use notectl::paths::{check_vault_file, has_md_extension, is_within};

#[test]
fn paths_within_a_base_compare_by_component() {
    assert!(is_within("/vault", "/vault"));
    assert!(is_within("/vault", "/vault/notes/a.md"));
    assert!(is_within("/", "/etc/passwd"));
    assert!(!is_within("/vault", "/vault2/a.md"));
    assert!(!is_within("/vault", "/other/a.md"));
    assert!(!is_within("/vault/notes", "/vault"));
}

#[test]
fn markdown_extension_is_the_last_dot_of_the_name() {
    assert!(has_md_extension("/vault/a.md"));
    assert!(has_md_extension("notes/archive.tar.md"));
    assert!(!has_md_extension("/vault/a.txt"));
    assert!(!has_md_extension("/vault/.md"));
    assert!(!has_md_extension("/vault/md"));
    assert!(!has_md_extension("/vault.md/readme"));
    assert!(!has_md_extension("/vault/a.MD"));
}

#[test]
fn vault_files_must_be_inside_and_markdown() {
    assert!(check_vault_file("/vault", "/vault/notes/a.md", "notes/a.md").is_ok());

    let err = check_vault_file("/vault", "/etc/passwd.md", "../etc/passwd.md").unwrap_err();
    assert_eq!(err.code, INVALID_PARAMS);
    assert_eq!(err.message, "Invalid path '../etc/passwd.md': must be within vault");

    let err = check_vault_file("/vault", "/vault/a.txt", "a.txt").unwrap_err();
    assert_eq!(err.code, INVALID_PARAMS);
    assert_eq!(err.message, "Invalid file type 'a.txt': only .md files allowed");
}
