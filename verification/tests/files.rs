use notectl::config::{default_daily_note_patterns, Config, SearchConfig};
use notectl::error::{invalid_params, INTERNAL_ERROR, INVALID_PARAMS};
use notectl::files::{
    build_file_tree, check_list_target, check_read_target, extract_file_name, file_timestamp_from,
    read_files_response, recent_entry, select_recent, since_timestamp, validate_read_request,
    format_tree_visual, FileTreeNode, FsEntry, ReadFilesRequest, RecentFileEntry,
};

fn file(path: &str, size: u64) -> FsEntry {
    FsEntry { path: path.to_string(), is_dir: false, size, entries: Ok(Vec::new()) }
}

fn dir(path: &str, entries: Vec<FsEntry>) -> FsEntry {
    FsEntry { path: path.to_string(), is_dir: true, size: 4096, entries: Ok(entries) }
}

fn sample_vault() -> FsEntry {
    dir(
        "/vault",
        vec![
            file("/vault/zeta.md", 10),
            dir("/vault/notes", vec![file("/vault/notes/b.md", 5), file("/vault/notes/a.md", 7)]),
            file("/vault/.hidden.md", 1),
            file("/vault/alpha.md", 2048),
            dir("/vault/.obsidian", vec![file("/vault/.obsidian/app.json", 3)]),
            dir("/vault/archive", vec![]),
        ],
    )
}

#[test]
fn file_tree_puts_directories_first_and_skips_hidden_entries() {
    let config = Config::default();
    let (root, files, dirs) = build_file_tree(&sample_vault(), "/vault", &config, 0, None, false).unwrap();
    assert_eq!(files, 4);
    assert_eq!(dirs, 3);
    assert_eq!(root.name, "vault");
    assert_eq!(root.path, "");
    assert!(root.is_directory);
    let names: Vec<&str> = root.children.iter().map(|c| c.name.as_str()).collect();
    assert_eq!(names, vec!["archive", "notes", "alpha.md", "zeta.md"]);
    let notes = &root.children[1];
    assert_eq!(notes.path, "notes");
    let inner: Vec<&str> = notes.children.iter().map(|c| c.path.as_str()).collect();
    assert_eq!(inner, vec!["notes/a.md", "notes/b.md"]);
    assert!(root.children[2].size_bytes.is_none());
}

#[test]
fn file_tree_sizes_and_depth_limit() {
    let config = Config::default();
    let (root, files, dirs) = build_file_tree(&sample_vault(), "/vault", &config, 0, Some(1), true).unwrap();
    assert_eq!(files, 2);
    assert_eq!(dirs, 1);
    let notes = root.children.iter().find(|c| c.name == "notes").unwrap();
    assert!(notes.children.is_empty());
    assert!(notes.size_bytes.is_none());
    let alpha = root.children.iter().find(|c| c.name == "alpha.md").unwrap();
    assert_eq!(alpha.size_bytes, Some(2048));

    let (leaf, files, dirs) = build_file_tree(&sample_vault(), "/vault", &config, 0, Some(0), true).unwrap();
    assert!(leaf.children.is_empty());
    assert_eq!((files, dirs), (0, 0));
}

#[test]
fn file_tree_drops_excluded_and_unreadable_entries() {
    let config = Config {
        exclude_paths: vec!["archive".to_string()],
        daily_note_patterns: default_daily_note_patterns(),
        search: SearchConfig::default(),
    };
    let mut vault = sample_vault();
    if let Ok(entries) = &mut vault.entries {
        entries.push(FsEntry {
            path: "/vault/locked".to_string(),
            is_dir: true,
            size: 0,
            entries: Err("permission denied".to_string()),
        });
    }
    let (root, files, dirs) = build_file_tree(&vault, "/vault", &config, 0, None, false).unwrap();
    let names: Vec<&str> = root.children.iter().map(|c| c.name.as_str()).collect();
    assert_eq!(names, vec!["notes", "alpha.md", "zeta.md"]);
    assert_eq!((files, dirs), (4, 2));

    let err = build_file_tree(&file("/vault/archive/x.md", 1), "/vault", &config, 0, None, false).unwrap_err();
    assert_eq!(err, "Path excluded by configuration");
    let locked = FsEntry { path: "/vault/locked".to_string(), is_dir: true, size: 0, entries: Err("denied".to_string()) };
    assert_eq!(build_file_tree(&locked, "/vault", &Config::default(), 0, None, false).unwrap_err(), "denied");
}

#[test]
fn excluded_entries_stay_out_at_the_depth_limit() {
    let config = Config {
        exclude_paths: vec!["zeta".to_string(), "archive".to_string()],
        daily_note_patterns: default_daily_note_patterns(),
        search: SearchConfig::default(),
    };
    let (root, files, dirs) = build_file_tree(&sample_vault(), "/vault", &config, 0, Some(1), false).unwrap();
    let names: Vec<&str> = root.children.iter().map(|c| c.name.as_str()).collect();
    assert_eq!(names, vec!["notes", "alpha.md"]);
    assert_eq!((files, dirs), (1, 1));
}

#[test]
fn listing_must_stay_inside_the_vault() {
    assert!(check_list_target("/vault", "/vault/notes").is_ok());
    let err = check_list_target("/vault", "/elsewhere").unwrap_err();
    assert_eq!(err.code, INVALID_PARAMS);
    assert_eq!(err.message, "Invalid path: path must be within the vault");
}

#[test]
fn file_names_of_requested_paths() {
    assert_eq!(extract_file_name("notes/a.md"), "a.md");
    assert_eq!(extract_file_name("a.md"), "a.md");
    assert_eq!(extract_file_name("notes/"), "notes");
    assert_eq!(extract_file_name(".."), "");
}

fn request(paths: &[&str], continue_on_error: Option<bool>) -> ReadFilesRequest {
    ReadFilesRequest {
        vault_path: None,
        file_paths: paths.iter().map(|p| p.to_string()).collect(),
        continue_on_error,
    }
}

#[test]
fn read_targets_are_checked() {
    assert!(check_read_target("/vault", &Some("/vault/a.md".to_string()), "a.md").is_ok());
    let err = check_read_target("/vault", &None, "missing.md").unwrap_err();
    assert_eq!(err.code, INVALID_PARAMS);
    assert_eq!(err.message, "File not found: missing.md");
    let err = check_read_target("/vault", &Some("/etc/x.md".to_string()), "../etc/x.md").unwrap_err();
    assert_eq!(err.message, "Invalid path '../etc/x.md': must be within vault");
}

#[test]
fn read_requests_are_validated_up_front() {
    let req = request(&[], None);
    let err = validate_read_request("/vault", &req, &vec![]).unwrap_err();
    assert_eq!(err.message, "file_paths cannot be empty");

    let req = request(&["a.md", "b.txt", "c.md"], None);
    let resolved = vec![Some("/vault/a.md".to_string()), Some("/vault/b.txt".to_string()), None];
    let err = validate_read_request("/vault", &req, &resolved).unwrap_err();
    assert_eq!(err.message, "Invalid file type 'b.txt': only .md files allowed");

    let req = request(&["a.md", "b.txt"], Some(true));
    assert!(validate_read_request("/vault", &req, &resolved[..2].to_vec()).is_ok());
}

#[test]
fn read_results_report_each_file() {
    let req = request(&["a.md", "sub/b.md"], Some(true));
    let outcomes = vec![Ok("alpha".to_string()), Err(invalid_params("File not found: sub/b.md"))];
    let response = read_files_response(&req, &outcomes).unwrap();
    assert_eq!(response.total_requested, 2);
    assert_eq!(response.success_count, 1);
    assert_eq!(response.failure_count, 1);
    assert_eq!(response.files[0].file_name, "a.md");
    assert_eq!(response.files[0].content.as_deref(), Some("alpha"));
    assert!(response.files[0].error.is_none());
    assert!(!response.files[1].success);
    assert_eq!(response.files[1].file_name, "b.md");
    assert_eq!(response.files[1].error.as_deref(), Some("-32602: File not found: sub/b.md"));
}

#[test]
fn read_stops_at_the_first_failure_without_continue() {
    let req = request(&["a.md", "b.md", "c.md"], None);
    let outcomes = vec![
        Ok("alpha".to_string()),
        Err(notectl::error::internal_error("Failed to read file: boom")),
        Err(invalid_params("later")),
    ];
    let err = read_files_response(&req, &outcomes).unwrap_err();
    assert_eq!(err.code, INTERNAL_ERROR);
    assert_eq!(err.message, "Failed to read file: boom");
}

#[test]
fn since_dates_start_at_midnight() {
    assert_eq!(since_timestamp(&None).unwrap(), None);
    assert_eq!(since_timestamp(&Some("1970-01-02".to_string())).unwrap(), Some(86400));
    let err = since_timestamp(&Some("yesterday".to_string())).unwrap_err();
    assert_eq!(err.code, INVALID_PARAMS);
    assert_eq!(err.message, "Invalid since date: yesterday");
}

#[test]
fn timestamps_prefer_frontmatter() {
    let content = Some("---\nupdated: 2026-01-01T00:00:00Z\n---\nbody".to_string());
    let (ts, source, shown) = file_timestamp_from(&content, Some(5)).unwrap();
    assert_eq!(source, "frontmatter");
    assert_eq!(shown, "2026-01-01T00:00:00Z");
    assert_eq!(ts, 1_767_225_600);

    let (ts, source, shown) = file_timestamp_from(&Some("no frontmatter".to_string()), Some(86400)).unwrap();
    assert_eq!((ts, source.as_str(), shown.as_str()), (86400, "mtime", "1970-01-02T00:00:00Z"));
    let (_, source, _) = file_timestamp_from(&Some("---\nupdated: soon\n---".to_string()), Some(0)).unwrap();
    assert_eq!(source, "mtime");
    assert!(file_timestamp_from(&None, None).is_none());
}

fn stamped(path: &str, ts: i64) -> (i64, RecentFileEntry) {
    recent_entry("/vault", path, (ts, "mtime".to_string(), ts.to_string()))
}

#[test]
fn recent_entries_are_relative() {
    let (ts, e) = stamped("/vault/notes/a.md", 7);
    assert_eq!(ts, 7);
    assert_eq!(e.file_path, "notes/a.md");
    assert_eq!(e.file_name, "a.md");
    assert_eq!(e.updated_at, "7");
    assert_eq!(e.date_source, "mtime");
}

#[test]
fn recent_files_newest_first_with_limit() {
    let entries = vec![
        stamped("/vault/a.md", 10),
        stamped("/vault/b.md", 30),
        stamped("/vault/c.md", 20),
        stamped("/vault/d.md", 30),
        stamped("/vault/e.md", 5),
    ];
    let (files, total) = select_recent(entries, Some(10), 3);
    assert_eq!(total, 4);
    let names: Vec<&str> = files.iter().map(|f| f.file_name.as_str()).collect();
    assert_eq!(names, vec!["b.md", "d.md", "c.md"]);

    let (files, total) = select_recent(vec![stamped("/vault/a.md", 1)], None, 20);
    assert_eq!((files.len(), total), (1, 1));
}

#[test]
fn a_tree_as_indented_text() {
    let tree = FileTreeNode {
        name: "vault".to_string(),
        path: String::new(),
        is_directory: true,
        size_bytes: None,
        children: vec![
            FileTreeNode {
                name: "notes".to_string(),
                path: "notes".to_string(),
                is_directory: true,
                size_bytes: None,
                children: vec![FileTreeNode {
                    name: "a.md".to_string(),
                    path: "notes/a.md".to_string(),
                    is_directory: false,
                    size_bytes: Some(2048),
                    children: vec![],
                }],
            },
            FileTreeNode { name: "b.md".to_string(), path: "b.md".to_string(), is_directory: false, size_bytes: None, children: vec![] },
        ],
    };
    let labels = vec![(2048u64, "2.0 KB".to_string())];
    assert_eq!(format_tree_visual(&tree, 0, &labels), "vault/\n  notes/\n    a.md (2.0 KB)\n  b.md\n");
    assert_eq!(format_tree_visual(&tree.children[1], 2, &labels), "    b.md\n");
}
