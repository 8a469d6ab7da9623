use shelv::updates::{
    dir, load_updates, parse_folder_name, root, FsDir, FsEntry, FsFile, InMemoryFileSystem,
    Version,
};

#[test]
fn test_version_parse() {
    let v = Version::parse("1.3.9").unwrap();
    assert_eq!(v.major, 1);
    assert_eq!(v.minor, 3);
    assert_eq!(v.patch, 9);

    let v2 = Version::parse("1_3_9").unwrap();
    assert_eq!(v2, v);
}

#[test]
fn test_version_formats() {
    let v = Version {
        major: 1,
        minor: 3,
        patch: 9,
    };
    assert_eq!(v.to_route_format(), "1_3_9");
    assert_eq!(v.to_file_format(), "1.3.9");
}

#[test]
fn test_version_sorting() {
    let mut versions = vec![
        Version {
            major: 1,
            minor: 3,
            patch: 9,
        },
        Version {
            major: 1,
            minor: 4,
            patch: 0,
        },
        Version {
            major: 1,
            minor: 3,
            patch: 10,
        },
    ];
    versions.sort();

    assert_eq!(
        versions[0],
        Version {
            major: 1,
            minor: 3,
            patch: 9
        }
    );
    assert_eq!(
        versions[1],
        Version {
            major: 1,
            minor: 3,
            patch: 10
        }
    );
    assert_eq!(
        versions[2],
        Version {
            major: 1,
            minor: 4,
            patch: 0
        }
    );
}

#[test]
fn test_parse_folder_name() {
    let (version, name) = parse_folder_name("1.3.9-bug-fixes").unwrap();
    assert_eq!(version.to_file_format(), "1.3.9");
    assert_eq!(name, Some("bug-fixes".to_string()));

    let (version2, name2) = parse_folder_name("1.4.0").unwrap();
    assert_eq!(version2.to_file_format(), "1.4.0");
    assert_eq!(name2, None);
}

#[test]
fn test_fs_entry() {
    let file_entry = FsEntry::File(FsFile::new("test.txt"));
    assert!(file_entry.is_file());
    assert!(!file_entry.is_dir());
    assert_eq!(file_entry.as_file().unwrap().path(), "test.txt");

    let dir_entry = FsEntry::Dir(FsDir::new("test_dir"));
    assert!(dir_entry.is_dir());
    assert!(!dir_entry.is_file());
    assert_eq!(dir_entry.as_dir().unwrap().path(), "test_dir");
}

#[test]
fn test_as_dir() {
    let structure = root(vec![dir(
        "updates",
        vec![dir("1.3.9-test", vec![shelv::updates::file("1.3.9.md", "# Test")])],
    )]);

    let fs = InMemoryFileSystem::from_structure(structure);

    // Valid directory
    let updates_dir = fs.as_dir("updates");
    assert!(updates_dir.is_some());
    assert_eq!(updates_dir.unwrap().path(), "updates");

    // Invalid path (file, not directory)
    let file_as_dir = fs.as_dir("updates/1.3.9-test/1.3.9.md");
    assert!(file_as_dir.is_none());

    // Non-existent path
    let nonexistent = fs.as_dir("nonexistent");
    assert!(nonexistent.is_none());
}

#[test]
fn test_vfs_dsl() {
    let structure = root(vec![dir(
        "updates",
        vec![dir(
            "1.3.9-test",
            vec![shelv::updates::file("1.3.9.md", "# Test Update\n\nThis is a test.")],
        )],
    )]);

    let fs = InMemoryFileSystem::from_structure(structure);

    let file = FsFile::new("updates/1.3.9-test/1.3.9.md");
    let content = fs.read_file(&file).unwrap();
    assert_eq!(content, "# Test Update\n\nThis is a test.");

    let dir = fs.as_dir("updates").unwrap();
    let entries = fs.list_dir(&dir).unwrap();
    assert_eq!(entries.len(), 1);
    assert!(entries[0].is_dir());
    assert_eq!(entries[0].as_dir().unwrap().path(), "updates/1.3.9-test");
}

#[test]
fn test_load_updates_with_dsl() {
    let structure = root(vec![dir(
        "updates",
        vec![
            dir(
                "1.3.9-bug-fixes",
                vec![shelv::updates::file("1.3.9.md", "# Version 1.3.9\n\nBug fixes")],
            ),
            dir(
                "1.4.0-new-features",
                vec![shelv::updates::file("1.4.0.md", "# Version 1.4.0\n\nNew features")],
            ),
        ],
    )]);

    let fs = InMemoryFileSystem::from_structure(structure);
    let updates_dir = fs.as_dir("updates").unwrap();
    let updates = load_updates(&fs, &updates_dir).unwrap();

    assert_eq!(updates.len(), 2);

    // Should be sorted newest first
    assert_eq!(updates[0].version.to_file_format(), "1.4.0");
    assert_eq!(updates[0].optional_name, Some("new-features".to_string()));
    assert!(updates[0].markdown_content.contains("New features"));

    assert_eq!(updates[1].version.to_file_format(), "1.3.9");
    assert_eq!(updates[1].optional_name, Some("bug-fixes".to_string()));
    assert!(updates[1].markdown_content.contains("Bug fixes"));
}

#[test]
fn test_load_updates_skips_invalid_folders() {
    let structure = root(vec![dir(
        "updates",
        vec![
            dir("1.3.9-valid", vec![shelv::updates::file("1.3.9.md", "# Valid")]),
            dir("invalid-folder", vec![shelv::updates::file("test.md", "# Invalid")]),
        ],
    )]);

    let fs = InMemoryFileSystem::from_structure(structure);
    let updates_dir = fs.as_dir("updates").unwrap();
    let updates = load_updates(&fs, &updates_dir).unwrap();

    // Should only load the valid entry
    assert_eq!(updates.len(), 1);
    assert_eq!(updates[0].version.to_file_format(), "1.3.9");
}

#[test]
fn test_load_updates_with_multiple_versions() {
    let structure = root(vec![dir(
        "updates",
        vec![
            dir("1.3.9-bug-fixes", vec![shelv::updates::file("1.3.9.md", "# 1.3.9")]),
            dir("1.4.0", vec![shelv::updates::file("1.4.0.md", "# 1.4.0")]),
            dir("1.3.10-hotfix", vec![shelv::updates::file("1.3.10.md", "# 1.3.10")]),
        ],
    )]);

    let fs = InMemoryFileSystem::from_structure(structure);
    let updates_dir = fs.as_dir("updates").unwrap();
    let updates = load_updates(&fs, &updates_dir).unwrap();

    assert_eq!(updates.len(), 3);

    // Should be sorted newest first: 1.4.0, 1.3.10, 1.3.9
    assert_eq!(updates[0].version.to_file_format(), "1.4.0");
    assert_eq!(updates[1].version.to_file_format(), "1.3.10");
    assert_eq!(updates[2].version.to_file_format(), "1.3.9");
}

// ---- further cases ----

#[test]
fn version_parse_reports_bad_input() {
    assert!(Version::parse("1.3").is_err());
    assert!(Version::parse("1.x.3").is_err());
    assert!(Version::parse("").is_err());
}

#[test]
fn folder_without_version_is_refused() {
    assert!(parse_folder_name("invalid-folder").is_err());
}

#[test]
fn reading_a_missing_file_fails() {
    let fs = InMemoryFileSystem::from_structure(root(vec![shelv::updates::file("a.md", "x")]));
    assert!(fs.read_file(&FsFile::new("b.md")).is_err());
    assert_eq!(fs.read_file(&FsFile::new("a.md")).unwrap(), "x");
}

#[test]
fn added_file_is_listed_and_read_back() {
    let mut fs = InMemoryFileSystem::new();
    fs.add_file("notes/today.md", "hello".to_string());
    assert_eq!(fs.read_file(&FsFile::new("notes/today.md")).unwrap(), "hello");
    let entries = fs.list_dir(&fs.as_dir("notes").unwrap()).unwrap();
    assert_eq!(entries.len(), 1);
    assert!(entries[0].is_file());
    assert_eq!(entries[0].as_file().unwrap().path(), "notes/today.md");
}

#[test]
fn a_failed_listing_is_reported_with_its_message() {
    let fs = InMemoryFileSystem::new();
    let r = shelv::updates::collect_updates(
        &fs,
        Err(shelv::updates::FsError::NotFound("no such directory".to_string())),
    );
    assert_eq!(r.unwrap_err(), "Failed to read updates directory: no such directory");
}

#[test]
fn a_listed_folder_without_its_markdown_file_is_skipped() {
    let structure = root(vec![dir(
        "updates",
        vec![
            dir("1.0.0", vec![shelv::updates::file("notes.md", "# wrong name")]),
            dir("1.1.0", vec![shelv::updates::file("1.1.0.md", "# ok")]),
        ],
    )]);
    let fs = InMemoryFileSystem::from_structure(structure);
    let updates_dir = fs.as_dir("updates").unwrap();
    let listing = fs.list_dir(&updates_dir);
    let updates = shelv::updates::collect_updates(&fs, listing).unwrap();
    assert_eq!(updates.len(), 1);
    assert_eq!(updates[0].version.to_file_format(), "1.1.0");
}

#[test]
fn assembling_keeps_each_read_update_folder_once() {
    let structure = root(vec![dir(
        "updates",
        vec![
            dir("1.0.0-a", vec![shelv::updates::file("1.0.0.md", "x")]),
            dir("2.0.0", vec![shelv::updates::file("2.0.0.md", "y")]),
            dir("3.0.0-c", vec![shelv::updates::file("3.0.0.md", "z")]),
            dir("notes", vec![shelv::updates::file("n.md", "n")]),
        ],
    )]);
    let fs = InMemoryFileSystem::from_structure(structure);
    let updates_dir = fs.as_dir("updates").unwrap();
    let listing = fs.list_dir(&updates_dir).unwrap();
    let reads: Vec<Option<Result<String, shelv::updates::FsError>>> = listing
        .iter()
        .map(|e| match e.as_dir().map(|d| d.path()) {
            Some(p) if p.ends_with("1.0.0-a") => Some(Ok("text of one".to_string())),
            Some(p) if p.ends_with("2.0.0") => {
                Some(Err(shelv::updates::FsError::NotFound("gone".to_string())))
            }
            Some(p) if p.ends_with("3.0.0-c") => Some(Ok("text of three".to_string())),
            _ => None,
        })
        .collect();
    let updates = shelv::updates::assemble_updates(listing, reads);
    assert_eq!(updates.len(), 2);
    assert_eq!(updates[0].version.to_file_format(), "3.0.0");
    assert_eq!(updates[0].optional_name, Some("c".to_string()));
    assert_eq!(updates[0].markdown_content, "text of three");
    assert_eq!(updates[0].folder_path.path(), "updates/3.0.0-c");
    assert_eq!(updates[1].version.to_file_format(), "1.0.0");
    assert_eq!(updates[1].markdown_content, "text of one");
}
