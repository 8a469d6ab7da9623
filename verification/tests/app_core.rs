use shelv::app_core::{
    initial_core_state, AppEffect, CoreAction, CoreAppState, CoreNote, InlinePrompt, InlinePromptStatus,
    UnsavedChange,
};
use shelv::persistent_state::{DefaultNotes, RestoredData, SaveState};
use shelv::byte_span::{ByteSpan, UnOrderedByteSpan};
use shelv::persistent_state::NoteFile;
use shelv::text_change::TextChange;

fn state() -> CoreAppState {
    CoreAppState {
        notes: vec![
            CoreNote { file: NoteFile::Note(0), text: "first".to_string(), cursor: Some(UnOrderedByteSpan::new(1, 1)) },
            CoreNote { file: NoteFile::Note(1), text: "second note".to_string(), cursor: None },
            CoreNote { file: NoteFile::Settings, text: "".to_string(), cursor: None },
        ],
        selected_note: NoteFile::Note(0),
        is_pinned: false,
        hidden: false,
        unsaved_changes: vec![],
        inline_prompt: Some(InlinePrompt {
            note_file: NoteFile::Note(0),
            span: ByteSpan::new(0, 5),
            prompt: "shout".to_string(),
            response_text: "FIRST".to_string(),
            status: InlinePromptStatus::NotStarted,
        }),
    }
}

#[test]
fn switching_by_shortcut_puts_the_cursor_at_the_end() {
    let mut s = state();
    let effects = s.next_app_step(CoreAction::SwitchToNote { note_file: NoteFile::Note(1), via_shortcut: true });
    assert!(matches!(effects.as_slice(), [AppEffect::FocusCurrentNoteAfterRender]));
    assert_eq!(s.selected_note, NoteFile::Note(1));
    assert_eq!(s.notes[1].cursor, Some(UnOrderedByteSpan::new(11, 11)));
    assert_eq!(s.notes[0].cursor, Some(UnOrderedByteSpan::new(1, 1)));
    assert_eq!(s.unsaved_changes, vec![UnsavedChange::SelectionChanged]);
    assert!(s.inline_prompt.is_none());
}

#[test]
fn switching_from_the_list_clears_both_cursors() {
    let mut s = state();
    let effects = s.next_app_step(CoreAction::SwitchToNote { note_file: NoteFile::Note(1), via_shortcut: false });
    assert!(effects.is_empty());
    assert_eq!(s.notes[0].cursor, None);
    assert_eq!(s.notes[1].cursor, None);
    assert_eq!(s.selected_note, NoteFile::Note(1));
}

#[test]
fn switching_to_the_selected_note_changes_nothing() {
    let mut s = state();
    let effects = s.next_app_step(CoreAction::SwitchToNote { note_file: NoteFile::Note(0), via_shortcut: false });
    assert!(effects.is_empty());
    assert!(s.unsaved_changes.is_empty());
    assert!(s.inline_prompt.is_some());
}

#[test]
fn pinning_is_recorded_once() {
    let mut s = state();
    s.next_app_step(CoreAction::SetWindowPinned(true));
    s.next_app_step(CoreAction::SetWindowPinned(false));
    assert!(!s.is_pinned);
    assert_eq!(s.unsaved_changes, vec![UnsavedChange::PinStateChanged]);
}

#[test]
fn applied_changes_update_the_note_and_ask_for_evaluation() {
    let mut s = state();
    let effects = s.next_app_step(CoreAction::ApplyTextChanges {
        target: NoteFile::Note(1),
        changes: vec![TextChange::Insert(ByteSpan::new(0, 6), "last".to_string())],
        should_trigger_eval: true,
    });
    assert!(matches!(effects.as_slice(), [AppEffect::EvalNote(NoteFile::Note(1))]));
    assert_eq!(s.notes[1].text, "last note");
    assert_eq!(s.unsaved_changes, vec![UnsavedChange::NoteContentChanged(NoteFile::Note(1))]);
    assert!(s.inline_prompt.is_none());

    let effects = s.next_app_step(CoreAction::ApplyTextChanges {
        target: NoteFile::Note(0),
        changes: vec![TextChange::Insert(ByteSpan::new(5, 5), "!".to_string())],
        should_trigger_eval: false,
    });
    assert!(effects.is_empty());
    assert_eq!(s.notes[0].text, "first!");
    assert_eq!(s.notes[0].cursor, Some(UnOrderedByteSpan::new(1, 1)));
}

#[test]
fn overlapping_changes_leave_the_state_alone() {
    let mut s = state();
    let effects = s.next_app_step(CoreAction::ApplyTextChanges {
        target: NoteFile::Note(1),
        changes: vec![
            TextChange::Insert(ByteSpan::new(0, 4), "a".to_string()),
            TextChange::Insert(ByteSpan::new(2, 6), "b".to_string()),
        ],
        should_trigger_eval: true,
    });
    assert!(effects.is_empty());
    assert_eq!(s.notes[1].text, "second note");
    assert!(s.unsaved_changes.is_empty());
}

#[test]
fn visibility_toggles_with_its_effects() {
    let mut s = state();
    assert!(matches!(s.next_app_step(CoreAction::ToggleVisibility).as_slice(), [AppEffect::HideApp]));
    assert!(s.hidden);
    assert!(matches!(
        s.next_app_step(CoreAction::ToggleVisibility).as_slice(),
        [AppEffect::ShowApp, AppEffect::FocusCurrentNoteAfterRender]
    ));
    assert!(!s.hidden);
}

#[test]
fn a_newer_file_replaces_the_note() {
    let mut s = state();
    let effects = s.next_app_step(CoreAction::NoteFileChanged {
        note_file: NoteFile::Note(0),
        newer_content: Some("from disk".to_string()),
    });
    assert!(matches!(effects.as_slice(), [AppEffect::EvalNote(NoteFile::Note(0))]));
    assert_eq!(s.notes[0].text, "from disk");
    assert_eq!(s.notes[0].cursor, None);
    assert!(s.inline_prompt.is_none());
    assert_eq!(s.unsaved_changes, vec![UnsavedChange::LastUpdated]);

    let effects = s.next_app_step(CoreAction::NoteFileChanged { note_file: NoteFile::Note(1), newer_content: None });
    assert!(effects.is_empty());
}

fn single_insert(effects: &[AppEffect]) -> (NoteFile, ByteSpan, String, bool) {
    match effects {
        [AppEffect::Then(CoreAction::ApplyTextChanges { target, changes, should_trigger_eval })] => {
            match changes.as_slice() {
                [TextChange::Insert(at, text)] => (*target, *at, text.clone(), *should_trigger_eval),
                _ => panic!("one change expected"),
            }
        }
        _ => panic!("one follow-up action expected"),
    }
}

#[test]
fn llm_chunks_go_before_the_closing_fence() {
    let mut s = state();
    let effects = s.next_app_step(CoreAction::LlmBlockChunk {
        note_file: NoteFile::Note(1),
        chunk: "see ```code```".to_string(),
        block_end: Some((20, true)),
    });
    let (target, at, text, eval) = single_insert(&effects);
    assert_eq!(target, NoteFile::Note(1));
    assert_eq!(at, ByteSpan::new(17, 17));
    assert_eq!(text, "see -```code-```\n");
    assert!(!eval);

    let effects = s.next_app_step(CoreAction::LlmBlockChunk {
        note_file: NoteFile::Note(1),
        chunk: "more".to_string(),
        block_end: Some((30, false)),
    });
    let (_, at, text, _) = single_insert(&effects);
    assert_eq!(at, ByteSpan::new(26, 26));
    assert_eq!(text, "more");

    let effects = s.next_app_step(CoreAction::LlmBlockChunk {
        note_file: NoteFile::Note(1),
        chunk: "lost".to_string(),
        block_end: None,
    });
    assert!(effects.is_empty());
}

#[test]
fn an_accepted_suggestion_replaces_the_selection() {
    let mut s = state();
    s.notes[0].cursor = None;
    let effects = s.next_app_step(CoreAction::AcceptPromptSuggestion { accept: true });
    assert!(matches!(effects[0], AppEffect::FocusCurrentNoteAfterRender));
    let (target, at, text, eval) = single_insert(&effects[1..]);
    assert_eq!(target, NoteFile::Note(0));
    assert_eq!(at, ByteSpan::new(0, 5));
    assert_eq!(text, "FIRST");
    assert!(eval);
    assert!(s.inline_prompt.is_none());
    assert_eq!(s.notes[0].cursor, Some(UnOrderedByteSpan::new(0, 5)));
}

#[test]
fn a_rejected_suggestion_only_refocuses() {
    let mut s = state();
    let effects = s.next_app_step(CoreAction::AcceptPromptSuggestion { accept: false });
    assert!(matches!(effects.as_slice(), [AppEffect::FocusCurrentNoteAfterRender]));
    assert!(s.inline_prompt.is_none());
    assert_eq!(s.notes[0].cursor, Some(UnOrderedByteSpan::new(1, 1)));
}

#[test]
fn showing_a_prompt_opens_an_empty_one() {
    let mut s = state();
    let effects = s.next_app_step(CoreAction::ShowPrompt { note_file: NoteFile::Note(1), span: ByteSpan::new(0, 6) });
    assert!(matches!(effects.as_slice(), [AppEffect::FocusPromptAfterRender]));
    let p = s.inline_prompt.as_ref().unwrap();
    assert_eq!(p.note_file, NoteFile::Note(1));
    assert_eq!(p.span, ByteSpan::new(0, 6));
    assert!(p.prompt.is_empty() && p.response_text.is_empty());
    assert!(matches!(p.status, InlinePromptStatus::NotStarted));
}

#[test]
fn executing_a_prompt_sends_the_selection_and_its_surroundings() {
    let mut s = state();
    s.inline_prompt.as_mut().unwrap().span = ByteSpan::new(1, 3);
    let effects = s.next_app_step(CoreAction::ExecutePrompt);
    match effects.as_slice() {
        [AppEffect::AskPrompt(req)] => {
            assert_eq!(req.prompt, "shout");
            assert_eq!(req.selection, "ir");
            assert_eq!(req.before_selection, "f");
            assert_eq!(req.after_selection, "st");
            assert_eq!(req.note_file, NoteFile::Note(0));
        }
        _ => panic!("one request expected"),
    }
    let p = s.inline_prompt.as_ref().unwrap();
    assert!(p.response_text.is_empty());
    assert!(matches!(&p.status, InlinePromptStatus::Streaming { prompt } if prompt == "shout"));

    let mut empty = state();
    empty.inline_prompt = None;
    assert!(empty.next_app_step(CoreAction::ExecutePrompt).is_empty());
}

#[test]
fn answer_chunks_accumulate_and_the_end_marks_it_done() {
    let mut s = state();
    s.inline_prompt.as_mut().unwrap().response_text = String::new();
    let at = ByteSpan::new(0, 5);
    s.next_app_step(CoreAction::InlineLlmResponse { note_file: NoteFile::Note(0), span: at, answer: Some("he".to_string()) });
    s.next_app_step(CoreAction::InlineLlmResponse { note_file: NoteFile::Note(0), span: at, answer: Some("llo".to_string()) });
    // a chunk for another selection is ignored
    s.next_app_step(CoreAction::InlineLlmResponse { note_file: NoteFile::Note(1), span: at, answer: Some("x".to_string()) });
    assert_eq!(s.inline_prompt.as_ref().unwrap().response_text, "hello");
    s.next_app_step(CoreAction::InlineLlmResponse { note_file: NoteFile::Note(0), span: at, answer: None });
    assert!(matches!(&s.inline_prompt.as_ref().unwrap().status, InlinePromptStatus::Done { prompt } if prompt == "shout"));
}

#[test]
fn the_tutorial_goes_on_top_of_each_note() {
    let mut s = state();
    s.notes[1].text = " \n\t".to_string();
    let defaults = DefaultNotes { settings: "SET", notes: ["ONE", "TWO", "", ""] };
    let effects = s.next_app_step(CoreAction::StartTutorial(defaults));
    assert_eq!(effects.len(), 4);
    let inserted: Vec<(NoteFile, String)> = effects[..3]
        .iter()
        .map(|e| match e {
            AppEffect::Then(CoreAction::ApplyTextChanges { target, changes, should_trigger_eval: false }) => {
                match changes.as_slice() {
                    [TextChange::Insert(at, text)] if *at == ByteSpan::new(0, 0) => (*target, text.clone()),
                    _ => panic!("one insertion expected"),
                }
            }
            _ => panic!("an insertion expected"),
        })
        .collect();
    assert_eq!(inserted[0], (NoteFile::Note(0), "{||}ONE\n\n-------end of tutorial-------\n\n".to_string()));
    assert_eq!(inserted[1], (NoteFile::Note(1), "{||}TWO".to_string()));
    assert_eq!(inserted[2].0, NoteFile::Settings);
    assert!(inserted[2].1.starts_with("{||}SET"));
    assert!(matches!(
        effects[3],
        AppEffect::Then(CoreAction::SwitchToNote { note_file: NoteFile::Note(0), via_shortcut: true })
    ));
}

#[test]
fn pending_changes_are_saved_once_each() {
    let mut s = state();
    s.unsaved_changes = vec![
        UnsavedChange::NoteContentChanged(NoteFile::Note(1)),
        UnsavedChange::SelectionChanged,
        UnsavedChange::NoteContentChanged(NoteFile::Note(1)),
        UnsavedChange::NoteContentChanged(NoteFile::Note(7)),
        UnsavedChange::NoteContentChanged(NoteFile::Settings),
    ];
    {
        let data = s.should_persist().unwrap();
        assert_eq!(data.files, vec![(NoteFile::Note(1), "second note"), (NoteFile::Settings, "")]);
        assert_eq!(data.selected, NoteFile::Note(0));
        assert!(!data.is_pinned);
    }
    assert!(s.unsaved_changes.is_empty());
    assert!(s.should_persist().is_none());
}

#[test]
fn the_first_state_holds_the_restored_notes() {
    let restored = RestoredData {
        state: SaveState { version: 1, is_pinned: true, last_saved: 5, selected: NoteFile::Note(1) },
        notes: vec!["a".to_string(), "b".to_string()],
        settings: "s".to_string(),
    };
    let (s, effects) = initial_core_state(restored);
    assert_eq!(s.notes.len(), 3);
    assert_eq!(s.notes[1].file, NoteFile::Note(1));
    assert_eq!(s.notes[1].text, "b");
    assert_eq!(s.notes[2].file, NoteFile::Settings);
    assert_eq!(s.notes[2].text, "s");
    assert_eq!(s.selected_note, NoteFile::Note(1));
    assert!(s.is_pinned && !s.hidden && s.unsaved_changes.is_empty() && s.inline_prompt.is_none());
    assert!(matches!(effects.as_slice(), [AppEffect::EvalNote(NoteFile::Settings)]));
}
