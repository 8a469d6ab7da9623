//! The app's decisions on its actions: the state it starts in, which note is
//! selected, where cursors go, which changes are waiting to be saved and what
//! is saved for them, when text changes land and a note is evaluated again,
//! how AI answers and the inline prompt move along, and where the tutorial
//! goes. The app performs the effects that come back (focus, window
//! visibility, evaluation, requests to the language model) and keeps the
//! user interface.
use vstd::prelude::*;
use crate::byte_span::{ByteSpan, UnOrderedByteSpan};
use crate::word_jump::push_char;
use crate::persistent_state::{NoteFile, DataToSave, RestoredData, DefaultNotes, tutorial_spec, get_tutorial_note_content};
use crate::text_bytes::{sub_string, append_str};
use vstd::utf8::{is_char_boundary, encode_utf8_valid_utf8};
use crate::text_bytes::utf8_bytes;
use crate::text_change::TextChange;
use crate::apply_changes::{apply_text_changes, batch_applicable, changes_view, plan_spec, apply_planned, cursor_spec};

verus! {

/// A change that has not been saved yet.
#[derive(Debug, Clone, Copy, PartialEq, Eq, Structural, Hash)]
pub enum UnsavedChange {
    NoteContentChanged(NoteFile),
    SelectionChanged,
    LastUpdated,
    PinStateChanged,
}

/// An open note: its file, its text and its cursor.
#[derive(Debug)]
pub struct CoreNote {
    pub file: NoteFile,
    pub text: String,
    pub cursor: Option<UnOrderedByteSpan>,
}

/// What the app's decisions read and change. Where two notes share a file,
/// the first one is the note of that file.
#[derive(Debug)]
pub struct CoreAppState {
    pub notes: Vec<CoreNote>,
    pub selected_note: NoteFile,
    pub is_pinned: bool,
    pub hidden: bool,
    pub unsaved_changes: Vec<UnsavedChange>,
    /// The open inline prompt, if any.
    pub inline_prompt: Option<InlinePrompt>,
}

/// An inline prompt over a selection of a note, with the answer streamed
/// back so far.
#[derive(Debug)]
pub struct InlinePrompt {
    pub note_file: NoteFile,
    pub span: ByteSpan,
    /// What the user asks.
    pub prompt: String,
    pub response_text: String,
    pub status: InlinePromptStatus,
}

/// Where an inline prompt stands: not sent, its answer streaming, or done.
#[derive(Debug)]
pub enum InlinePromptStatus {
    NotStarted,
    Streaming { prompt: String },
    Done { prompt: String },
}

/// What an inline prompt sends: the question, the selected text and the text
/// around it, and where the selection is.
#[derive(Debug)]
pub struct PromptRequest {
    pub note_file: NoteFile,
    pub span: ByteSpan,
    pub prompt: String,
    pub selection: String,
    pub before_selection: String,
    pub after_selection: String,
}

/// An action the app hands to its decisions.
#[derive(Debug)]
pub enum CoreAction {
    SwitchToNote { note_file: NoteFile, via_shortcut: bool },
    SetWindowPinned(bool),
    ApplyTextChanges { target: NoteFile, changes: Vec<TextChange>, should_trigger_eval: bool },
    /// The global show/hide hotkey was pressed.
    ToggleVisibility,
    /// A note file changed on disk; `newer_content` is its text when the file
    /// is newer than the last save and could be read.
    NoteFileChanged { note_file: NoteFile, newer_content: Option<String> },
    /// A chunk of an AI block's answer arrived for a note. `block_end` is
    /// where the note's output code block for that answer ends, and whether
    /// the block is still empty (two lines), when there is such a block.
    LlmBlockChunk { note_file: NoteFile, chunk: String, block_end: Option<(usize, bool)> },
    /// The suggestion of the inline prompt is accepted or rejected.
    AcceptPromptSuggestion { accept: bool },
    /// Opens an inline prompt over a selection.
    ShowPrompt { note_file: NoteFile, span: ByteSpan },
    /// Sends the open inline prompt.
    ExecutePrompt,
    /// A chunk of the answer to the inline prompt over a selection arrived
    /// (`Some`), or the answer ended (`None`).
    InlineLlmResponse { note_file: NoteFile, span: ByteSpan, answer: Option<String> },
    /// Puts the tutorial texts at the top of the notes.
    StartTutorial(DefaultNotes),
}

/// What the app does after a decision.
#[derive(Debug)]
pub enum AppEffect {
    /// Take this action next.
    Then(CoreAction),
    /// Once this frame is drawn, give the current note's editor the focus.
    FocusCurrentNoteAfterRender,
    /// Evaluate the note's code blocks again.
    EvalNote(NoteFile),
    HideApp,
    /// Make the window visible and focus it.
    ShowApp,
    /// Once this frame is drawn, give the inline prompt's input the focus.
    FocusPromptAfterRender,
    /// Send the prompt to the language model.
    AskPrompt(PromptRequest),
}

/// `s` with every `\`\`\`` turned into `-\`\`\``, scanning from the left, so
/// that it can stand inside a fenced code block.
pub open spec fn escape_fences(s: Seq<char>) -> Seq<char>
    decreases s.len(),
{
    if s.len() == 0 {
        s
    } else if s.len() >= 3 && s[0] == '`' && s[1] == '`' && s[2] == '`' {
        seq!['-', '`', '`', '`'] + escape_fences(s.subrange(3, s.len() as int))
    } else {
        seq![s[0]] + escape_fences(s.subrange(1, s.len() as int))
    }
}

/// The position of the first note of file `f` from `i` on.
pub open spec fn note_pos_from(notes: Seq<CoreNote>, f: NoteFile, i: int) -> Option<int>
    decreases notes.len() - i,
{
    if i < 0 || i >= notes.len() {
        None
    } else if notes[i].file == f {
        Some(i)
    } else {
        note_pos_from(notes, f, i + 1)
    }
}

/// The position of the note of file `f`.
pub open spec fn note_pos(notes: Seq<CoreNote>, f: NoteFile) -> Option<int> {
    note_pos_from(notes, f, 0)
}

/// The pending changes after recording `c`: a change already pending is not
/// recorded twice.
pub open spec fn with_unsaved(s: Seq<UnsavedChange>, c: UnsavedChange) -> Seq<UnsavedChange> {
    if s.contains(c) { s } else { s.push(c) }
}

/// The notes with the cursor of the note of `f` set to `c` (unchanged when
/// there is no such note).
pub open spec fn with_cursor(notes: Seq<CoreNote>, f: NoteFile, c: Option<UnOrderedByteSpan>) -> Seq<CoreNote> {
    match note_pos(notes, f) {
        Some(i) => notes.update(i, CoreNote { file: notes[i].file, text: notes[i].text, cursor: c }),
        None => notes,
    }
}

/// The text and cursor that applying the changes gives, or `None` when they
/// overlap.
pub open spec fn changes_outcome(
    text: Seq<u8>,
    cursor: Option<UnOrderedByteSpan>,
    changes: Seq<TextChange>,
) -> Option<(Seq<u8>, Option<UnOrderedByteSpan>)> {
    let cv = changes_view(changes);
    match plan_spec(cv, cv.len() as int) {
        Err(_) => None,
        Ok((_, planned, ic)) => Some(
            (apply_planned(text, planned, planned.len() as int)->0, cursor_spec(cursor, planned, ic)->0),
        ),
    }
}

proof fn lemma_note_pos_from(notes: Seq<CoreNote>, f: NoteFile, i: int)
    requires
        0 <= i,
    ensures
        note_pos_from(notes, f, i) matches Some(p) ==> i <= p < notes.len() && notes[p].file == f && forall|q: int|
            i <= q < p ==> notes[q].file != f,
        note_pos_from(notes, f, i) is None ==> forall|q: int| i <= q < notes.len() ==> notes[q].file != f,
    decreases notes.len() - i,
{
    if i < notes.len() && notes[i].file != f {
        lemma_note_pos_from(notes, f, i + 1);
    }
}

fn find_note(notes: &Vec<CoreNote>, f: NoteFile) -> (r: Option<usize>)
    ensures
        match r {
            Some(i) => note_pos(notes@, f) == Some(i as int),
            None => note_pos(notes@, f) is None,
        },
        r matches Some(i) ==> i < notes@.len() && notes@[i as int].file == f,
{
    let mut i: usize = 0;
    while i < notes.len()
        invariant
            i <= notes@.len(),
            note_pos(notes@, f) == note_pos_from(notes@, f, i as int),
        decreases notes@.len() - i,
    {
        if notes[i].file == f {
            return Some(i);
        }
        i = i + 1;
    }
    None
}

fn add_unsaved_change(changes: &mut Vec<UnsavedChange>, change: UnsavedChange)
    ensures
        final(changes)@ == with_unsaved(old(changes)@, change),
{
    let mut i: usize = 0;
    while i < changes.len()
        invariant
            i <= changes@.len(),
            changes@ == old(changes)@,
            forall|j: int| 0 <= j < i ==> changes@[j] != change,
        decreases changes@.len() - i,
    {
        if changes[i] == change {
            assert(changes@.contains(change));
            return;
        }
        i = i + 1;
    }
    assert(!changes@.contains(change));
    changes.push(change);
}

fn set_cursor(notes: &mut Vec<CoreNote>, f: NoteFile, c: Option<UnOrderedByteSpan>)
    ensures
        final(notes)@ == with_cursor(old(notes)@, f, c),
{
    match find_note(notes, f) {
        Some(i) => {
            let note = notes.remove(i);
            let CoreNote { file, text, cursor: _ } = note;
            notes.insert(i, CoreNote { file, text, cursor: c });
            proof {
                assert(notes@ =~= with_cursor(old(notes)@, f, c));
            }
        },
        None => {},
    }
}

impl CoreAppState {
    /// Decides what an action does to the state and which effects the app
    /// then performs.
    pub fn next_app_step(&mut self, action: CoreAction) -> (effects: Vec<AppEffect>)
        requires
            action matches CoreAction::SwitchToNote { note_file, via_shortcut } ==> (via_shortcut
                && note_file != old(self).selected_note ==> note_pos(old(self).notes@, note_file) is Some),
            action matches CoreAction::ApplyTextChanges { target, changes, .. } ==> (
            note_pos(old(self).notes@, target) matches Some(i) && batch_applicable(
                utf8_bytes(old(self).notes@[i].text@),
                old(self).notes@[i].cursor,
                changes_view(changes@),
            )),
            action matches CoreAction::LlmBlockChunk { block_end, .. } ==> (block_end matches Some(
                (end, empty_block),
            ) ==> end >= (if empty_block { 3usize } else { 4usize })),
            action is ExecutePrompt ==> prompt_sendable(*old(self)),
            action is AcceptPromptSuggestion ==> (old(self).inline_prompt matches Some(p) ==> note_pos(
                old(self).notes@,
                p.note_file,
            ) is Some),
        ensures
            match action {
                CoreAction::SwitchToNote { note_file, via_shortcut } => {
                    &&& effects@ == (if via_shortcut {
                        seq![AppEffect::FocusCurrentNoteAfterRender]
                    } else {
                        Seq::<AppEffect>::empty()
                    })
                    &&& final(self).is_pinned == old(self).is_pinned
                    &&& final(self).hidden == old(self).hidden
                    &&& if note_file == old(self).selected_note {
                        &&& final(self).notes@ == old(self).notes@
                        &&& final(self).selected_note == old(self).selected_note
                        &&& final(self).unsaved_changes@ == old(self).unsaved_changes@
                        &&& final(self).inline_prompt == old(self).inline_prompt
                    } else {
                        &&& final(self).unsaved_changes@ == with_unsaved(
                            old(self).unsaved_changes@,
                            UnsavedChange::SelectionChanged,
                        )
                        &&& final(self).inline_prompt is None
                        &&& final(self).selected_note == (if note_pos(old(self).notes@, note_file) is Some {
                            note_file
                        } else {
                            old(self).selected_note
                        })
                        &&& final(self).notes@ == if via_shortcut {
                            let n = old(self).notes@[note_pos(old(self).notes@, note_file)->0];
                            let len = utf8_bytes(n.text@).len();
                            with_cursor(
                                old(self).notes@,
                                note_file,
                                if n.cursor is Some {
                                    n.cursor
                                } else {
                                    Some(UnOrderedByteSpan { start: len as usize, end: len as usize })
                                },
                            )
                        } else {
                            with_cursor(
                                with_cursor(old(self).notes@, old(self).selected_note, None),
                                note_file,
                                None,
                            )
                        }
                    }
                },
                CoreAction::SetWindowPinned(p) => {
                    &&& effects@ == Seq::<AppEffect>::empty()
                    &&& final(self).is_pinned == p
                    &&& final(self).unsaved_changes@ == with_unsaved(
                        old(self).unsaved_changes@,
                        UnsavedChange::PinStateChanged,
                    )
                    &&& final(self).notes@ == old(self).notes@
                    &&& final(self).selected_note == old(self).selected_note
                    &&& final(self).hidden == old(self).hidden
                    &&& final(self).inline_prompt == old(self).inline_prompt
                },
                CoreAction::ApplyTextChanges { target, changes, should_trigger_eval } => {
                    let i = note_pos(old(self).notes@, target)->0;
                    let n = old(self).notes@[i];
                    &&& final(self).is_pinned == old(self).is_pinned
                    &&& final(self).hidden == old(self).hidden
                    &&& final(self).selected_note == old(self).selected_note
                    &&& match changes_outcome(utf8_bytes(n.text@), n.cursor, changes@) {
                        None => {
                            &&& effects@ == Seq::<AppEffect>::empty()
                            &&& final(self).notes@ == old(self).notes@
                            &&& final(self).unsaved_changes@ == old(self).unsaved_changes@
                            &&& final(self).inline_prompt == old(self).inline_prompt
                        },
                        Some((t, c)) => {
                            &&& effects@ == (if should_trigger_eval {
                                seq![AppEffect::EvalNote(target)]
                            } else {
                                Seq::<AppEffect>::empty()
                            })
                            &&& final(self).notes@.len() == old(self).notes@.len()
                            &&& forall|j: int|
                                0 <= j < old(self).notes@.len() && j != i ==> final(self).notes@[j]
                                    == old(self).notes@[j]
                            &&& final(self).notes@[i].file == target
                            &&& utf8_bytes(final(self).notes@[i].text@) == t
                            &&& final(self).notes@[i].cursor == c
                            &&& final(self).unsaved_changes@ == with_unsaved(
                                old(self).unsaved_changes@,
                                UnsavedChange::NoteContentChanged(target),
                            )
                            &&& final(self).inline_prompt is None
                        },
                    }
                },
                CoreAction::ToggleVisibility => {
                    &&& final(self).hidden == !old(self).hidden
                    &&& effects@ == (if old(self).hidden {
                        seq![AppEffect::ShowApp, AppEffect::FocusCurrentNoteAfterRender]
                    } else {
                        seq![AppEffect::HideApp]
                    })
                    &&& final(self).notes@ == old(self).notes@
                    &&& final(self).selected_note == old(self).selected_note
                    &&& final(self).is_pinned == old(self).is_pinned
                    &&& final(self).unsaved_changes@ == old(self).unsaved_changes@
                    &&& final(self).inline_prompt == old(self).inline_prompt
                },
                CoreAction::NoteFileChanged { note_file, newer_content } => {
                    &&& final(self).selected_note == old(self).selected_note
                    &&& final(self).is_pinned == old(self).is_pinned
                    &&& final(self).hidden == old(self).hidden
                    &&& match newer_content {
                        None => {
                            &&& effects@ == Seq::<AppEffect>::empty()
                            &&& final(self).notes@ == old(self).notes@
                            &&& final(self).unsaved_changes@ == old(self).unsaved_changes@
                            &&& final(self).inline_prompt == old(self).inline_prompt
                        },
                        Some(content) => {
                            &&& effects@ == seq![AppEffect::EvalNote(note_file)]
                            &&& match note_pos(old(self).notes@, note_file) {
                                None => {
                                    &&& final(self).notes@ == old(self).notes@
                                    &&& final(self).unsaved_changes@ == old(self).unsaved_changes@
                                    &&& final(self).inline_prompt == old(self).inline_prompt
                                },
                                Some(i) => {
                                    &&& final(self).notes@ == old(self).notes@.update(
                                        i,
                                        CoreNote { file: note_file, text: content, cursor: None },
                                    )
                                    &&& final(self).unsaved_changes@ == with_unsaved(
                                        old(self).unsaved_changes@,
                                        UnsavedChange::LastUpdated,
                                    )
                                    &&& final(self).inline_prompt == (if old(self).inline_prompt matches Some(
                                        p,
                                    ) && p.note_file == note_file {
                                        None
                                    } else {
                                        old(self).inline_prompt
                                    })
                                },
                            }
                        },
                    }
                },
                CoreAction::LlmBlockChunk { note_file, chunk, block_end } => {
                    &&& *final(self) == *old(self)
                    &&& match block_end {
                        None => effects@ == Seq::<AppEffect>::empty(),
                        Some((end, empty_block)) => effects@.len() == 1 && (effects@[0] matches AppEffect::Then(
                            CoreAction::ApplyTextChanges { target, changes, should_trigger_eval },
                        ) && target == note_file && !should_trigger_eval && changes@.len() == 1 && (
                        changes@[0] matches TextChange::Insert(at, text) && at == (if empty_block {
                            ByteSpan { start: (end - 3) as usize, end: (end - 3) as usize }
                        } else {
                            ByteSpan { start: (end - 4) as usize, end: (end - 4) as usize }
                        }) && text@ == escape_fences(chunk@) + (if empty_block {
                            seq!['\n']
                        } else {
                            Seq::<char>::empty()
                        }))),
                    }
                },
                CoreAction::AcceptPromptSuggestion { accept } => {
                    &&& final(self).inline_prompt is None
                    &&& final(self).selected_note == old(self).selected_note
                    &&& final(self).is_pinned == old(self).is_pinned
                    &&& final(self).hidden == old(self).hidden
                    &&& final(self).unsaved_changes@ == old(self).unsaved_changes@
                    &&& effects@.len() >= 1 && effects@[0] is FocusCurrentNoteAfterRender
                    &&& match old(self).inline_prompt {
                        None => effects@.len() == 1 && final(self).notes@ == old(self).notes@,
                        Some(p) => {
                            let n = old(self).notes@[note_pos(old(self).notes@, p.note_file)->0];
                            let len = utf8_bytes(n.text@).len();
                            &&& final(self).notes@ == with_cursor(
                                old(self).notes@,
                                p.note_file,
                                if n.cursor is Some {
                                    n.cursor
                                } else {
                                    Some(
                                        UnOrderedByteSpan {
                                            start: if p.span.start <= len { p.span.start } else { len as usize },
                                            end: if p.span.end <= len { p.span.end } else { len as usize },
                                        },
                                    )
                                },
                            )
                            &&& if accept {
                                effects@.len() == 2 && (effects@[1] matches AppEffect::Then(
                                    CoreAction::ApplyTextChanges { target, changes, should_trigger_eval },
                                ) && target == p.note_file && should_trigger_eval && changes@.len() == 1 && (
                                changes@[0] matches TextChange::Insert(at, text) && at == p.span && text@
                                    == p.response_text@))
                            } else {
                                effects@.len() == 1
                            }
                        },
                    }
                },
                CoreAction::ShowPrompt { note_file, span } => {
                    &&& same_but_prompt(*old(self), *final(self))
                    &&& final(self).inline_prompt matches Some(p) && p.note_file == note_file && p.span == span
                        && p.prompt@.len() == 0 && p.response_text@.len() == 0 && p.status is NotStarted
                    &&& effects@.len() == 1 && effects@[0] is FocusPromptAfterRender
                },
                CoreAction::ExecutePrompt => execute_prompt_post(*old(self), *final(self), effects@),
                CoreAction::InlineLlmResponse { note_file, span, answer } => inline_response_post(
                    *old(self),
                    *final(self),
                    effects@,
                    note_file,
                    span,
                    answer,
                ),
                CoreAction::StartTutorial(defaults) => tutorial_post(*old(self), *final(self), effects@, defaults),
            },
    {
        match action {
            CoreAction::SwitchToNote { note_file, via_shortcut } => {
                if note_file != self.selected_note {
                    add_unsaved_change(&mut self.unsaved_changes, UnsavedChange::SelectionChanged);
                    if via_shortcut {
                        let i = find_note(&self.notes, note_file).unwrap();
                        let new_cursor = match self.notes[i].cursor {
                            None => {
                                let len = self.notes[i].text.as_str().as_bytes().len();
                                Some(UnOrderedByteSpan::new(len, len))
                            },
                            prev => prev,
                        };
                        set_cursor(&mut self.notes, note_file, new_cursor);
                    } else {
                        let prev = self.selected_note;
                        set_cursor(&mut self.notes, prev, None);
                        set_cursor(&mut self.notes, note_file, None);
                    }
                    self.inline_prompt = None;
                    if find_note(&self.notes, note_file).is_some() {
                        self.selected_note = note_file;
                    }
                    proof {
                        let o = old(self).notes@;
                        lemma_with_cursor_pos(o, note_file, note_file, None);
                        lemma_with_cursor_pos(o, old(self).selected_note, note_file, None);
                        lemma_with_cursor_pos(with_cursor(o, old(self).selected_note, None), note_file, note_file, None);
                        if note_pos(o, note_file) is Some {
                            let n = o[note_pos(o, note_file)->0];
                            lemma_with_cursor_pos(o, note_file, note_file, n.cursor);
                            lemma_with_cursor_pos(
                                o,
                                note_file,
                                note_file,
                                Some(UnOrderedByteSpan { start: utf8_bytes(n.text@).len() as usize, end: utf8_bytes(n.text@).len() as usize }),
                            );
                        }
                    }
                }
                if via_shortcut {
                    vec![AppEffect::FocusCurrentNoteAfterRender]
                } else {
                    Vec::new()
                }
            },
            CoreAction::SetWindowPinned(is_pinned) => {
                self.is_pinned = is_pinned;
                add_unsaved_change(&mut self.unsaved_changes, UnsavedChange::PinStateChanged);
                Vec::new()
            },
            CoreAction::ApplyTextChanges { target, changes, should_trigger_eval } => {
                let i = find_note(&self.notes, target).unwrap();
                let note = self.notes.remove(i);
                let CoreNote { file, text, cursor } = note;
                let mut new_text = text.clone();
                match apply_text_changes(&mut new_text, cursor, changes) {
                    Ok(updated_cursor) => {
                        self.notes.insert(i, CoreNote { file, text: new_text, cursor: updated_cursor });
                        add_unsaved_change(&mut self.unsaved_changes, UnsavedChange::NoteContentChanged(target));
                        self.inline_prompt = None;
                        if should_trigger_eval {
                            vec![AppEffect::EvalNote(target)]
                        } else {
                            Vec::new()
                        }
                    },
                    Err(_) => {
                        self.notes.insert(i, CoreNote { file, text, cursor });
                        proof {
                            assert(self.notes@ =~= old(self).notes@);
                        }
                        Vec::new()
                    },
                }
            },
            CoreAction::ToggleVisibility => {
                self.hidden = !self.hidden;
                if self.hidden {
                    vec![AppEffect::HideApp]
                } else {
                    vec![AppEffect::ShowApp, AppEffect::FocusCurrentNoteAfterRender]
                }
            },
            CoreAction::NoteFileChanged { note_file, newer_content } => {
                match newer_content {
                    None => Vec::new(),
                    Some(content) => {
                        match find_note(&self.notes, note_file) {
                            Some(i) => {
                                let _ = self.notes.remove(i);
                                self.notes.insert(i, CoreNote { file: note_file, text: content, cursor: None });
                                proof {
                                    assert(self.notes@ =~= old(self).notes@.update(
                                        i as int,
                                        CoreNote { file: note_file, text: content, cursor: None },
                                    ));
                                }
                                let reset = match &self.inline_prompt {
                                    Some(p) => p.note_file == note_file,
                                    None => false,
                                };
                                if reset {
                                    self.inline_prompt = None;
                                }
                                add_unsaved_change(&mut self.unsaved_changes, UnsavedChange::LastUpdated);
                            },
                            None => {},
                        }
                        vec![AppEffect::EvalNote(note_file)]
                    },
                }
            },
            CoreAction::LlmBlockChunk { note_file, chunk, block_end } => {
                match block_end {
                    None => Vec::new(),
                    Some((end, empty_block)) => {
                        let mut text = escape_code_fences(chunk.as_str());
                        let pos = if empty_block {
                            push_char(&mut text, '\n');
                            end - 3
                        } else {
                            end - 4
                        };
                        proof {
                            assert(text@ =~= escape_fences(chunk@) + (if empty_block {
                                seq!['\n']
                            } else {
                                Seq::<char>::empty()
                            }));
                        }
                        let change = TextChange::Insert(ByteSpan { start: pos, end: pos }, text);
                        vec![
                            AppEffect::Then(
                                CoreAction::ApplyTextChanges {
                                    target: note_file,
                                    changes: vec![change],
                                    should_trigger_eval: false,
                                },
                            ),
                        ]
                    },
                }
            },
            CoreAction::AcceptPromptSuggestion { accept } => {
                let mut effects = vec![AppEffect::FocusCurrentNoteAfterRender];
                let prompt = self.inline_prompt.take();
                match prompt {
                    None => effects,
                    Some(p) => {
                        let InlinePrompt { note_file, span, response_text, .. } = p;
                        let i = find_note(&self.notes, note_file).unwrap();
                        let len = self.notes[i].text.as_str().as_bytes().len();
                        let new_cursor = match self.notes[i].cursor {
                            Some(c) => Some(c),
                            None => Some(
                                UnOrderedByteSpan {
                                    start: if span.start <= len { span.start } else { len },
                                    end: if span.end <= len { span.end } else { len },
                                },
                            ),
                        };
                        set_cursor(&mut self.notes, note_file, new_cursor);
                        if accept {
                            let change = TextChange::Insert(span, response_text);
                            effects.push(
                                AppEffect::Then(
                                    CoreAction::ApplyTextChanges {
                                        target: note_file,
                                        changes: vec![change],
                                        should_trigger_eval: true,
                                    },
                                ),
                            );
                        }
                        effects
                    },
                }
            },
            CoreAction::ShowPrompt { note_file, span } => self.show_prompt(note_file, span),
            CoreAction::ExecutePrompt => self.execute_prompt(),
            CoreAction::InlineLlmResponse { note_file, span, answer } => self.inline_response(note_file, span, answer),
            CoreAction::StartTutorial(defaults) => self.start_tutorial(defaults),
        }
    }
}

/// Copies `s` with every `\`\`\`` turned into `-\`\`\``.
fn escape_code_fences(s: &str) -> (r: String)
    ensures
        r@ == escape_fences(s@),
{
    let n = s.unicode_len();
    let mut out = String::new();
    let mut i: usize = 0;
    proof {
        assert(s@.subrange(0, s@.len() as int) =~= s@);
    }
    while i < n
        invariant
            n == s@.len(),
            i <= n,
            out@ + escape_fences(s@.subrange(i as int, n as int)) == escape_fences(s@),
        decreases n - i,
    {
        let ghost rest = s@.subrange(i as int, n as int);
        if n - i >= 3 && s.get_char(i) == '`' && s.get_char(i + 1) == '`' && s.get_char(i + 2) == '`' {
            proof {
                assert(rest[0] == '`' && rest[1] == '`' && rest[2] == '`');
                assert(rest.subrange(3, rest.len() as int) =~= s@.subrange(i + 3, n as int));
            }
            push_char(&mut out, '-');
            push_char(&mut out, '`');
            push_char(&mut out, '`');
            push_char(&mut out, '`');
            i = i + 3;
            proof {
                assert(out@ + escape_fences(s@.subrange(i as int, n as int)) =~= escape_fences(s@));
            }
        } else {
            let c = s.get_char(i);
            proof {
                assert(rest[0] == c);
                assert(!(rest.len() >= 3 && rest[0] == '`' && rest[1] == '`' && rest[2] == '`'));
                assert(rest.subrange(1, rest.len() as int) =~= s@.subrange(i + 1, n as int));
            }
            push_char(&mut out, c);
            i = i + 1;
            proof {
                assert(out@ + escape_fences(s@.subrange(i as int, n as int)) =~= escape_fences(s@));
            }
        }
    }
    proof {
        assert(s@.subrange(n as int, n as int) =~= Seq::<char>::empty());
        assert(out@ =~= escape_fences(s@));
    }
    out
}

/// The first occurrence of each of the first `k` changes, in order.
pub open spec fn distinct_changes(s: Seq<UnsavedChange>, k: int) -> Seq<UnsavedChange>
    decreases k,
{
    if k <= 0 || k > s.len() {
        Seq::empty()
    } else {
        with_unsaved(distinct_changes(s, k - 1), s[k - 1])
    }
}

/// The files to write for pending changes: each note whose content changed,
/// with its text, in the order the changes were made.
pub open spec fn files_to_save(changes: Seq<UnsavedChange>, notes: Seq<CoreNote>) -> Seq<(NoteFile, Seq<char>)>
    decreases changes.len(),
{
    if changes.len() == 0 {
        Seq::empty()
    } else {
        let before = files_to_save(changes.drop_last(), notes);
        match changes.last() {
            UnsavedChange::NoteContentChanged(f) => match note_pos(notes, f) {
                Some(i) => before.push((f, notes[i].text@)),
                None => before,
            },
            _ => before,
        }
    }
}

impl CoreAppState {
    /// When changes are pending, takes them and gives what to save: the text
    /// of every note whose content changed (once each), the selected note and
    /// the pinned flag; `None` when nothing is pending.
    pub fn should_persist(&mut self) -> (r: Option<DataToSave<'_>>)
        ensures
            old(self).unsaved_changes@.len() == 0 <==> r is None,
            final(self).unsaved_changes@ == Seq::<UnsavedChange>::empty(),
            final(self).notes@ == old(self).notes@,
            final(self).selected_note == old(self).selected_note,
            final(self).is_pinned == old(self).is_pinned,
            final(self).hidden == old(self).hidden,
            final(self).inline_prompt == old(self).inline_prompt,
            r matches Some(d) ==> {
                &&& d.selected == old(self).selected_note
                &&& d.is_pinned == old(self).is_pinned
                &&& d.files@.map_values(|p: (NoteFile, &str)| (p.0, p.1@)) == files_to_save(
                    distinct_changes(old(self).unsaved_changes@, old(self).unsaved_changes@.len() as int),
                    old(self).notes@,
                )
            },
    {
        if self.unsaved_changes.len() == 0 {
            return None;
        }
        let mut pending: Vec<UnsavedChange> = Vec::new();
        std::mem::swap(&mut pending, &mut self.unsaved_changes);
        let mut changes: Vec<UnsavedChange> = Vec::new();
        let mut i: usize = 0;
        while i < pending.len()
            invariant
                i <= pending@.len(),
                changes@ == distinct_changes(pending@, i as int),
            decreases pending@.len() - i,
        {
            add_unsaved_change(&mut changes, pending[i]);
            i = i + 1;
        }
        let this: &CoreAppState = self;
        let mut files: Vec<(NoteFile, &str)> = Vec::new();
        let mut j: usize = 0;
        while j < changes.len()
            invariant
                j <= changes@.len(),
                files@.map_values(|p: (NoteFile, &str)| (p.0, p.1@)) == files_to_save(
                    changes@.subrange(0, j as int),
                    this.notes@,
                ),
            decreases changes@.len() - j,
        {
            let ghost before = files@;
            match changes[j] {
                UnsavedChange::NoteContentChanged(f) => {
                    match find_note(&this.notes, f) {
                        Some(k) => {
                            files.push((f, this.notes[k].text.as_str()));
                        },
                        None => {},
                    }
                },
                _ => {},
            }
            proof {
                assert(changes@.subrange(0, j + 1).drop_last() =~= changes@.subrange(0, j as int));
                assert(files@.map_values(|p: (NoteFile, &str)| (p.0, p.1@)) =~= files_to_save(
                    changes@.subrange(0, j + 1),
                    this.notes@,
                ));
            }
            j = j + 1;
        }
        proof {
            assert(changes@.subrange(0, changes@.len() as int) =~= changes@);
        }
        Some(DataToSave { files, selected: this.selected_note, is_pinned: this.is_pinned })
    }
}

/// The notes of a restored folder: the numbered notes in order, then the
/// settings note, none with a cursor.
pub open spec fn initial_notes(texts: Seq<String>, settings: String) -> Seq<CoreNote> {
    Seq::new(texts.len(), |i: int| CoreNote { file: NoteFile::Note(i as u32), text: texts[i], cursor: None }).push(
        CoreNote { file: NoteFile::Settings, text: settings, cursor: None },
    )
}

/// The state the app starts in from the restored notes and saved state:
/// the notes in order then the settings note, the saved selection and pinned
/// flag, a visible window, nothing pending and no prompt. The settings note
/// is then evaluated.
pub fn initial_core_state(restored: RestoredData) -> (r: (CoreAppState, Vec<AppEffect>))
    requires
        restored.notes@.len() <= u32::MAX,
        restored.state.selected matches NoteFile::Note(i) ==> i < restored.notes@.len(),
    ensures
        r.0.notes@ == initial_notes(restored.notes@, restored.settings),
        note_pos(r.0.notes@, r.0.selected_note) is Some,
        r.0.selected_note == restored.state.selected,
        r.0.is_pinned == restored.state.is_pinned,
        !r.0.hidden,
        r.0.unsaved_changes@ == Seq::<UnsavedChange>::empty(),
        r.0.inline_prompt is None,
        r.1@ == seq![AppEffect::EvalNote(NoteFile::Settings)],
{
    let RestoredData { state, notes, settings } = restored;
    let ghost texts = notes@;
    let n = notes.len();
    let mut rest = notes;
    let mut out: Vec<CoreNote> = Vec::new();
    while rest.len() > 0
        invariant
            n == texts.len(),
            rest@.len() <= n,
            rest@ == texts.subrange(0, rest@.len() as int),
            n <= u32::MAX,
            out@.len() == n - rest@.len(),
            forall|j: int|
                0 <= j < out@.len() ==> #[trigger] out@[j] == (CoreNote {
                    file: NoteFile::Note((j + rest@.len()) as u32),
                    text: texts[j + rest@.len()],
                    cursor: None,
                }),
        decreases rest@.len(),
    {
        let ghost before = out@;
        let k = rest.len() - 1;
        let text = rest.pop().unwrap();
        out.insert(0, CoreNote { file: NoteFile::Note(k as u32), text, cursor: None });
        proof {
            assert forall|j: int| 0 <= j < out@.len() implies #[trigger] out@[j] == (CoreNote {
                file: NoteFile::Note((j + rest@.len()) as u32),
                text: texts[j + rest@.len()],
                cursor: None,
            }) by {
                if j > 0 {
                    assert(out@[j] == before[j - 1]);
                }
            }
            assert(rest@ =~= texts.subrange(0, rest@.len() as int));
        }
    }
    out.push(CoreNote { file: NoteFile::Settings, text: settings, cursor: None });
    proof {
        assert(out@ =~= initial_notes(texts, settings));
        match state.selected {
            NoteFile::Note(i) => {
                lemma_note_pos_from(out@, state.selected, 0);
                assert(out@[i as int].file == state.selected);
            },
            NoteFile::Settings => {
                lemma_note_pos_from(out@, state.selected, 0);
                assert(out@[n as int].file == state.selected);
            },
        }
    }
    let core = CoreAppState {
        notes: out,
        selected_note: state.selected,
        is_pinned: state.is_pinned,
        hidden: false,
        unsaved_changes: Vec::new(),
        inline_prompt: None,
    };
    (core, vec![AppEffect::EvalNote(NoteFile::Settings)])
}

/// Everything but the inline prompt is as it was.
pub open spec fn same_but_prompt(a: CoreAppState, b: CoreAppState) -> bool {
    &&& b.notes@ == a.notes@
    &&& b.selected_note == a.selected_note
    &&& b.is_pinned == a.is_pinned
    &&& b.hidden == a.hidden
    &&& b.unsaved_changes@ == a.unsaved_changes@
}

/// The text of the note of `f`.
pub open spec fn note_text(notes: Seq<CoreNote>, f: NoteFile) -> Seq<u8> {
    utf8_bytes(notes[note_pos(notes, f)->0].text@)
}

/// The inline prompt can be sent: its note exists and its span lies within
/// that note's text on character boundaries.
pub open spec fn prompt_sendable(st: CoreAppState) -> bool {
    st.inline_prompt matches Some(p) ==> {
        let t = note_text(st.notes@, p.note_file);
        &&& note_pos(st.notes@, p.note_file) is Some
        &&& p.span.start <= p.span.end <= t.len()
        &&& is_char_boundary(t, p.span.start as int)
        &&& is_char_boundary(t, p.span.end as int)
    }
}

/// What sending the inline prompt does: the answer so far is cleared, the
/// prompt is streaming, and the request carries the prompt, the selected text
/// and the text before and after it. Without a prompt nothing happens.
pub open spec fn execute_prompt_post(a: CoreAppState, b: CoreAppState, effects: Seq<AppEffect>) -> bool {
    &&& same_but_prompt(a, b)
    &&& match a.inline_prompt {
        None => b.inline_prompt is None && effects.len() == 0,
        Some(p) => {
            let t = note_text(a.notes@, p.note_file);
            &&& b.inline_prompt matches Some(q) && q.note_file == p.note_file && q.span == p.span && q.prompt
                == p.prompt && q.response_text@.len() == 0 && (q.status matches InlinePromptStatus::Streaming {
                prompt,
            } && prompt@ == p.prompt@)
            &&& effects.len() == 1
            &&& effects[0] matches AppEffect::AskPrompt(req) && req.note_file == p.note_file
                && req.span == p.span && req.prompt@ == p.prompt@ && utf8_bytes(req.selection@) == t.subrange(
                p.span.start as int,
                p.span.end as int,
            ) && utf8_bytes(req.before_selection@) == t.subrange(0, p.span.start as int) && utf8_bytes(
                req.after_selection@,
            ) == t.subrange(p.span.end as int, t.len() as int)
        },
    }
}

/// What a piece of the inline prompt's answer does: a chunk for the open
/// prompt's selection is appended to the answer; the end of the answer marks
/// the prompt done. For any other selection nothing changes.
pub open spec fn inline_response_post(
    a: CoreAppState,
    b: CoreAppState,
    effects: Seq<AppEffect>,
    note_file: NoteFile,
    span: ByteSpan,
    chunk: Option<String>,
) -> bool {
    &&& same_but_prompt(a, b)
    &&& effects.len() == 0
    &&& match a.inline_prompt {
        Some(p) => if p.note_file == note_file && p.span == span {
            b.inline_prompt matches Some(q) && q.note_file == p.note_file && q.span == p.span && q.prompt
                == p.prompt && match chunk {
                Some(c) => q.response_text@ == p.response_text@ + c@ && q.status == p.status,
                None => q.response_text == p.response_text && (q.status matches InlinePromptStatus::Done {
                    prompt,
                } && prompt@ == match p.status {
                    InlinePromptStatus::NotStarted => p.prompt@,
                    InlinePromptStatus::Streaming { prompt } => prompt@,
                    InlinePromptStatus::Done { prompt } => prompt@,
                }),
            }
        } else {
            b.inline_prompt == a.inline_prompt
        },
        None => b.inline_prompt is None,
    }
}

/// The characters `char::is_whitespace` accepts (the Unicode `White_Space`
/// property).
pub open spec fn is_white_space(c: char) -> bool {
    let v = c as u32;
    ||| 0x09 <= v <= 0x0d
    ||| v == 0x20 || v == 0x85 || v == 0xa0 || v == 0x1680
    ||| 0x2000 <= v <= 0x200a
    ||| v == 0x2028 || v == 0x2029 || v == 0x202f || v == 0x205f || v == 0x3000
}

/// A text that is empty once trimmed.
pub open spec fn is_blank(s: Seq<char>) -> bool {
    forall|i: int| 0 <= i < s.len() ==> is_white_space(#[trigger] s[i])
}

/// The tutorial insertions for the first `k` notes: each note that has a
/// tutorial text gets it at its start, after a caret, with a closing line
/// when the note already has content.
pub open spec fn tutorial_inserts(notes: Seq<CoreNote>, d: DefaultNotes, k: int) -> Seq<(NoteFile, Seq<char>)>
    decreases k,
{
    if k <= 0 || k > notes.len() {
        Seq::empty()
    } else {
        let before = tutorial_inserts(notes, d, k - 1);
        let n = notes[k - 1];
        let content = tutorial_spec(d, n.file);
        if content.len() == 0 {
            before
        } else {
            before.push(
                (
                    n.file,
                    "{||}"@ + content + if is_blank(n.text@) {
                        Seq::<char>::empty()
                    } else {
                        "\n\n-------end of tutorial-------\n\n"@
                    },
                ),
            )
        }
    }
}

/// The effect that inserts `text` at the start of note `f`.
pub open spec fn is_insert_at_start(e: AppEffect, f: NoteFile, text: Seq<char>) -> bool {
    e matches AppEffect::Then(CoreAction::ApplyTextChanges { target, changes, should_trigger_eval }) && target
        == f && !should_trigger_eval && changes@.len() == 1 && (changes@[0] matches TextChange::Insert(at, t)
        && at == ByteSpan { start: 0, end: 0 } && t@ == text)
}

/// What starting the tutorial does: one insertion per note with a tutorial
/// text, in the order the notes are held, then a switch to the first note.
pub open spec fn tutorial_post(a: CoreAppState, b: CoreAppState, effects: Seq<AppEffect>, d: DefaultNotes) -> bool {
    let ins = tutorial_inserts(a.notes@, d, a.notes@.len() as int);
    &&& same_but_prompt(a, b)
    &&& b.inline_prompt == a.inline_prompt
    &&& effects.len() == ins.len() + 1
    &&& forall|i: int| 0 <= i < ins.len() ==> is_insert_at_start(#[trigger] effects[i], ins[i].0, ins[i].1)
    &&& effects[ins.len() as int] matches AppEffect::Then(CoreAction::SwitchToNote { note_file, via_shortcut })
        && note_file == NoteFile::Note(0) && via_shortcut
}

pub(crate) fn is_blank_text(s: &str) -> (r: bool)
    ensures
        r == is_blank(s@),
{
    let n = s.unicode_len();
    let mut i: usize = 0;
    while i < n
        invariant
            n == s@.len(),
            i <= n,
            forall|j: int| 0 <= j < i ==> is_white_space(#[trigger] s@[j]),
        decreases n - i,
    {
        let c = s.get_char(i);
        let v = c as u32;
        let white = (0x09 <= v && v <= 0x0d) || v == 0x20 || v == 0x85 || v == 0xa0 || v == 0x1680 || (0x2000 <= v
            && v <= 0x200a) || v == 0x2028 || v == 0x2029 || v == 0x202f || v == 0x205f || v == 0x3000;
        if !white {
            return false;
        }
        i = i + 1;
    }
    true
}

impl CoreAppState {
    fn show_prompt(&mut self, note_file: NoteFile, span: ByteSpan) -> (effects: Vec<AppEffect>)
        ensures
            same_but_prompt(*old(self), *final(self)),
            final(self).inline_prompt matches Some(p) && p.note_file == note_file && p.span == span
                && p.prompt@.len() == 0 && p.response_text@.len() == 0 && p.status is NotStarted,
            effects@.len() == 1 && effects@[0] is FocusPromptAfterRender,
    {
        self.inline_prompt = Some(
            InlinePrompt {
                note_file,
                span,
                prompt: String::new(),
                response_text: String::new(),
                status: InlinePromptStatus::NotStarted,
            },
        );
        vec![AppEffect::FocusPromptAfterRender]
    }

    fn execute_prompt(&mut self) -> (effects: Vec<AppEffect>)
        requires
            prompt_sendable(*old(self)),
        ensures
            execute_prompt_post(*old(self), *final(self), effects@),
    {
        let prompt = self.inline_prompt.take();
        match prompt {
            None => Vec::new(),
            Some(p) => {
                let InlinePrompt { note_file, span, prompt, response_text: _, status: _ } = p;
                let i = find_note(&self.notes, note_file).unwrap();
                let text = self.notes[i].text.as_str();
                let bytes = text.as_bytes();
                let len = bytes.len();
                proof {
                    assert(bytes@ == utf8_bytes(text@));
                    encode_utf8_valid_utf8(text@);
                    vstd::utf8::is_char_boundary_start_end_of_seq(utf8_bytes(text@));
                }
                let selection = sub_string(text, span.start, span.end);
                let before_selection = sub_string(text, 0, span.start);
                let after_selection = sub_string(text, span.end, len);
                let status = InlinePromptStatus::Streaming { prompt: prompt.clone() };
                let request = PromptRequest {
                    note_file,
                    span,
                    prompt: prompt.clone(),
                    selection,
                    before_selection,
                    after_selection,
                };
                self.inline_prompt = Some(
                    InlinePrompt { note_file, span, prompt, response_text: String::new(), status },
                );
                vec![AppEffect::AskPrompt(request)]
            },
        }
    }

    fn inline_response(&mut self, note_file: NoteFile, span: ByteSpan, chunk: Option<String>) -> (effects: Vec<AppEffect>)
        ensures
            inline_response_post(*old(self), *final(self), effects@, note_file, span, chunk),
    {
        let prompt = self.inline_prompt.take();
        match prompt {
            None => {},
            Some(p) => {
                if p.note_file == note_file && p.span == span {
                    let InlinePrompt { note_file: f, span: sp, prompt, mut response_text, status } = p;
                    match chunk {
                        Some(c) => {
                            append_str(&mut response_text, c.as_str());
                            self.inline_prompt = Some(InlinePrompt { note_file: f, span: sp, prompt, response_text, status });
                        },
                        None => {
                            let done = match status {
                                InlinePromptStatus::NotStarted => InlinePromptStatus::Done { prompt: prompt.clone() },
                                InlinePromptStatus::Streaming { prompt } => InlinePromptStatus::Done { prompt },
                                InlinePromptStatus::Done { prompt } => InlinePromptStatus::Done { prompt },
                            };
                            self.inline_prompt = Some(InlinePrompt { note_file: f, span: sp, prompt, response_text, status: done });
                        },
                    }
                } else {
                    self.inline_prompt = Some(p);
                }
            },
        }
        Vec::new()
    }

    fn start_tutorial(&mut self, defaults: DefaultNotes) -> (effects: Vec<AppEffect>)
        ensures
            tutorial_post(*old(self), *final(self), effects@, defaults),
    {
        let mut effects: Vec<AppEffect> = Vec::new();
        let mut i: usize = 0;
        while i < self.notes.len()
            invariant
                i <= self.notes@.len(),
                self.notes@ == old(self).notes@,
                ({
                    let ins = tutorial_inserts(self.notes@, defaults, i as int);
                    &&& effects@.len() == ins.len()
                    &&& forall|j: int| 0 <= j < ins.len() ==> is_insert_at_start(#[trigger] effects@[j], ins[j].0, ins[j].1)
                }),
            decreases self.notes@.len() - i,
        {
            let ghost before = effects@;
            let file = self.notes[i].file;
            let content = get_tutorial_note_content(&defaults, file);
            if content.unicode_len() > 0 {
                let blank = is_blank_text(self.notes[i].text.as_str());
                let mut text = String::from_str("{||}");
                append_str(&mut text, content);
                if !blank {
                    append_str(&mut text, "\n\n-------end of tutorial-------\n\n");
                }
                proof {
                    assert(text@ =~= "{||}"@ + content@ + if blank {
                        Seq::<char>::empty()
                    } else {
                        "\n\n-------end of tutorial-------\n\n"@
                    });
                }
                let change = TextChange::Insert(ByteSpan { start: 0, end: 0 }, text);
                effects.push(
                    AppEffect::Then(
                        CoreAction::ApplyTextChanges { target: file, changes: vec![change], should_trigger_eval: false },
                    ),
                );
                proof {
                    let ins = tutorial_inserts(self.notes@, defaults, i + 1);
                    assert forall|j: int| 0 <= j < ins.len() implies is_insert_at_start(#[trigger] effects@[j], ins[j].0, ins[j].1) by {
                        if j < before.len() {
                            assert(effects@[j] == before[j]);
                        }
                    }
                }
            }
            i = i + 1;
        }
        effects.push(AppEffect::Then(CoreAction::SwitchToNote { note_file: NoteFile::Note(0), via_shortcut: true }));
        effects
    }
}

/// Setting a cursor leaves where each file's note stands.
proof fn lemma_with_cursor_pos(notes: Seq<CoreNote>, g: NoteFile, f: NoteFile, c: Option<UnOrderedByteSpan>)
    ensures
        note_pos(with_cursor(notes, g, c), f) == note_pos(notes, f),
{
    let w = with_cursor(notes, g, c);
    lemma_note_pos_from(notes, g, 0);
    assert(w.len() == notes.len());
    assert forall|i: int| 0 <= i < notes.len() implies #[trigger] w[i].file == notes[i].file by {}
    lemma_pos_same_files(notes, w, f, 0);
}

proof fn lemma_pos_same_files(a: Seq<CoreNote>, b: Seq<CoreNote>, f: NoteFile, i: int)
    requires
        a.len() == b.len(),
        forall|k: int| 0 <= k < a.len() ==> #[trigger] b[k].file == a[k].file,
    ensures
        note_pos_from(a, f, i) == note_pos_from(b, f, i),
    decreases a.len() - i,
{
    if 0 <= i < a.len() {
        assert(b[i].file == a[i].file);
        lemma_pos_same_files(a, b, f, i + 1);
    }
}

} // verus!
