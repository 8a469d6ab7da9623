use shelv::persistent_state::v1;
use shelv::persistent_state::{
    bootstrap, extract_note_file, fn_migrate_from_v1, get_tutorial_note_content, hydrate,
    load_and_migrate, note_file_name, save_layout, DataToSave, DefaultNotes, HydrationResult,
    NoteFile, SaveState, CURRENT_VERSION,
};

fn defaults() -> DefaultNotes {
    DefaultNotes {
        settings: "settings text",
        notes: ["first", "second", "third", "fourth"],
    }
}

#[test]
fn note_file_names_are_read() {
    assert_eq!(
        extract_note_file("settings.md"),
        Some((NoteFile::Settings, "settings.md"))
    );
    assert_eq!(
        extract_note_file("note-1.md"),
        Some((NoteFile::Note(0), "note-1.md"))
    );
    assert_eq!(
        extract_note_file("note-12.md"),
        Some((NoteFile::Note(11), "note-12.md"))
    );
    assert_eq!(extract_note_file("note-.md"), None);
    assert_eq!(extract_note_file("note-x.md"), None);
    assert_eq!(extract_note_file("state.json"), None);
    assert_eq!(extract_note_file("note-1.txt"), None);
}

#[test]
fn note_file_names_are_written_and_read_back() {
    assert_eq!(note_file_name(NoteFile::Note(0)), "note-1.md");
    assert_eq!(note_file_name(NoteFile::Note(41)), "note-42.md");
    assert_eq!(note_file_name(NoteFile::Settings), "settings.md");
    for f in [NoteFile::Note(0), NoteFile::Note(7), NoteFile::Settings] {
        let name = note_file_name(f);
        assert_eq!(extract_note_file(&name).map(|(n, _)| n), Some(f));
    }
}

#[test]
fn tutorial_content_by_note() {
    let d = defaults();
    assert_eq!(get_tutorial_note_content(&d, NoteFile::Settings), "settings text");
    assert_eq!(get_tutorial_note_content(&d, NoteFile::Note(0)), "first");
    assert_eq!(get_tutorial_note_content(&d, NoteFile::Note(3)), "fourth");
    assert_eq!(get_tutorial_note_content(&d, NoteFile::Note(4)), "");
}

#[test]
fn first_run_writes_every_note_and_the_settings() {
    let d = defaults();
    let (to_save, restored) = bootstrap(2, 77, &d);
    assert_eq!(
        to_save.files,
        vec![
            (NoteFile::Note(0), "first"),
            (NoteFile::Note(1), "second"),
            (NoteFile::Settings, "settings text")
        ]
    );
    assert_eq!(to_save.selected, NoteFile::Note(0));
    assert!(to_save.is_pinned);
    assert_eq!(restored.notes, vec!["first".to_string(), "second".to_string()]);
    assert_eq!(restored.settings, "settings text");
    assert_eq!(restored.state.version, CURRENT_VERSION);
    assert_eq!(restored.state.last_saved, 77);
    assert_eq!(restored.state.selected, NoteFile::Note(0));
}

#[test]
fn migration_keeps_the_notes() {
    let d = defaults();
    let old = v1::PersistentState {
        notes: vec!["a".to_string(), "b".to_string()],
        selected_note: 1,
    };
    let (to_save, restored) = fn_migrate_from_v1(&old, 5, &d);
    assert_eq!(
        to_save.files,
        vec![
            (NoteFile::Note(0), "a"),
            (NoteFile::Note(1), "b"),
            (NoteFile::Settings, "settings text")
        ]
    );
    assert_eq!(to_save.selected, NoteFile::Note(1));
    assert_eq!(restored.notes, vec!["a".to_string(), "b".to_string()]);
    assert_eq!(restored.state.selected, NoteFile::Note(1));
    assert_eq!(restored.state.last_saved, 5);
}

#[test]
fn full_restore_needs_state_and_every_note() {
    let d = defaults();
    let state = SaveState {
        version: 2,
        is_pinned: false,
        last_saved: 9,
        selected: NoteFile::Note(1),
    };
    let files = vec![
        (NoteFile::Note(1), "two".to_string()),
        (NoteFile::Settings, "s".to_string()),
        (NoteFile::Note(0), "one".to_string()),
    ];
    match hydrate(2, files, Some(state), 100, &d) {
        HydrationResult::Success(data) => {
            assert_eq!(data.notes, vec!["one".to_string(), "two".to_string()]);
            assert_eq!(data.settings, "s");
            assert_eq!(data.state.last_saved, 9);
            assert!(!data.state.is_pinned);
        }
        _ => panic!("expected a full restore"),
    }
}

#[test]
fn missing_notes_make_a_partial_restore() {
    let d = defaults();
    let files = vec![(NoteFile::Note(1), "two".to_string())];
    match hydrate(3, files, None, 100, &d) {
        HydrationResult::Partial(data, to_save) => {
            assert_eq!(
                data.notes,
                vec!["first".to_string(), "two".to_string(), "third".to_string()]
            );
            assert_eq!(data.settings, "");
            assert_eq!(data.state.last_saved, 100);
            assert_eq!(
                to_save.files,
                vec![(NoteFile::Note(0), "first"), (NoteFile::Note(2), "third")]
            );
            assert_eq!(to_save.selected, NoteFile::Note(0));
            assert!(to_save.is_pinned);
        }
        _ => panic!("expected a partial restore"),
    }
}

#[test]
fn loading_falls_back_to_migration_or_first_run() {
    let d = defaults();
    let old = v1::PersistentState {
        notes: vec!["old".to_string()],
        selected_note: 0,
    };
    let (to_save, data) = load_and_migrate(1, Some(&old), None, 3, &d);
    assert_eq!(data.notes, vec!["old".to_string()]);
    assert_eq!(to_save.unwrap().files.len(), 2);

    let (to_save, data) =
        load_and_migrate(1, None, Some(HydrationResult::FolderIsMissing), 3, &d);
    assert_eq!(data.notes, vec!["first".to_string()]);
    assert_eq!(to_save.unwrap().files.len(), 2);
}

#[test]
fn saving_names_every_file() {
    let data = DataToSave {
        files: vec![(NoteFile::Note(2), "x"), (NoteFile::Settings, "y")],
        selected: NoteFile::Note(2),
        is_pinned: false,
    };
    let (state, named) = save_layout(data, 42);
    assert_eq!(state.version, CURRENT_VERSION);
    assert_eq!(state.last_saved, 42);
    assert_eq!(state.selected, NoteFile::Note(2));
    assert!(!state.is_pinned);
    assert_eq!(
        named,
        vec![
            ("note-3.md".to_string(), "x"),
            ("settings.md".to_string(), "y")
        ]
    );
}
