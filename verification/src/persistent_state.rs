//! What is kept between runs: which file holds which note, the saved state,
//! and how a first run, a partial save or a save of the first format becomes
//! the current layout. Reading and writing the files is left to the caller;
//! here the decisions are made on the values read.
use vstd::prelude::*;
use vstd::utf8::*;
use crate::text_bytes::{
    utf8_bytes,
    bytes_start_with,
    bytes_end_with,
    starts_with_bytes,
    ends_with_bytes,
    sub_string,
    append_str,
    lemma_ascii_chars_bytes,
    lemma_ascii_boundaries,
};
use crate::num_text::{parse_u32, parse_uint_spec, format_u32, radix_digits, lemma_parse_format_roundtrip};

pub mod v1;

verus! {

broadcast use vstd::seq::group_seq_axioms;

/// The version of the save layout written by this code.
pub const CURRENT_VERSION: i32 = 2;

/// A file of the note folder: one of the numbered notes (counted from zero)
/// or the settings note.
#[derive(Debug, Clone, Copy, PartialEq, Eq, Structural, PartialOrd, Ord, Hash)]
pub enum NoteFile {
    Note(u32),
    Settings,
}

/// The state saved beside the notes.
#[derive(Debug)]
pub struct SaveState {
    pub version: i32,
    pub is_pinned: bool,
    pub last_saved: u128,
    pub selected: NoteFile,
}

/// A window is pinned unless the saved state says otherwise.
pub fn default_window_pinned_value() -> (b: bool)
    ensures
        b,
{
    true
}

/// `s` is a state in the current layout with the given fields.
pub open spec fn is_current_state(s: SaveState, is_pinned: bool, last_saved: u128, selected: NoteFile) -> bool {
    &&& s.version == CURRENT_VERSION
    &&& s.is_pinned == is_pinned
    &&& s.last_saved == last_saved
    &&& s.selected == selected
}

/// What a run starts from: the saved state, the notes in order, and the
/// settings note.
pub struct RestoredData {
    pub state: SaveState,
    pub notes: Vec<String>,
    pub settings: String,
}

/// Files to write, with the state to save beside them.
#[derive(Debug)]
pub struct DataToSave<'a> {
    pub files: Vec<(NoteFile, &'a str)>,
    pub selected: NoteFile,
    pub is_pinned: bool,
}

/// What reading the note folder found.
pub enum HydrationResult {
    FolderIsMissing,
    Success(RestoredData),
    Partial(RestoredData, DataToSave<'static>),
}

/// The texts a note starts with on a first run: the settings note and the
/// first four notes (later notes start empty).
#[derive(Debug)]
pub struct DefaultNotes {
    pub settings: &'static str,
    pub notes: [&'static str; 4],
}

/// The text a note starts with on a first run.
pub open spec fn tutorial_spec(d: DefaultNotes, note: NoteFile) -> Seq<char> {
    match note {
        NoteFile::Settings => d.settings@,
        NoteFile::Note(i) => if i < 4 {
            d.notes@[i as int]@
        } else {
            Seq::empty()
        },
    }
}

/// The text a note starts with on a first run.
pub fn get_tutorial_note_content(defaults: &DefaultNotes, note: NoteFile) -> (r: &'static str)
    ensures
        r@ == tutorial_spec(*defaults, note),
{
    match note {
        NoteFile::Settings => defaults.settings,
        NoteFile::Note(i) => {
            if i < 4 {
                defaults.notes[i as usize]
            } else {
                proof {
                    reveal_strlit("");
                }
                ""
            }
        },
    }
}

// ---- file names ----

/// The bytes of `settings.md`.
pub open spec fn settings_name() -> Seq<u8> {
    seq![0x73u8, 0x65u8, 0x74u8, 0x74u8, 0x69u8, 0x6eu8, 0x67u8, 0x73u8, 0x2eu8, 0x6du8, 0x64u8]
}

/// The bytes of `note-`.
pub open spec fn note_prefix() -> Seq<u8> {
    seq![0x6eu8, 0x6fu8, 0x74u8, 0x65u8, 0x2du8]
}

/// The bytes of `.md`.
pub open spec fn md_ext() -> Seq<u8> {
    seq![0x2eu8, 0x6du8, 0x64u8]
}

/// The number a file name `note-<n>.md` carries, counted from one.
pub open spec fn note_number(b: Seq<u8>) -> Option<nat> {
    if b != settings_name() && b.len() >= 8 && bytes_start_with(b, note_prefix()) && bytes_end_with(
        b,
        md_ext(),
    ) {
        parse_uint_spec(b.subrange(5, b.len() - 3), 10, u32::MAX as nat)
    } else {
        None
    }
}

/// Which note file a file name stands for.
pub open spec fn note_file_spec(b: Seq<u8>) -> Option<NoteFile> {
    if b == settings_name() {
        Some(NoteFile::Settings)
    } else {
        match note_number(b) {
            Some(n) => Some(NoteFile::Note((n - 1) as u32)),
            None => None,
        }
    }
}

/// The file name a note file is saved under.
pub open spec fn file_name_spec(note: NoteFile) -> Seq<u8> {
    match note {
        NoteFile::Note(i) => note_prefix() + radix_digits((i + 1) as nat, 10) + md_ext(),
        NoteFile::Settings => settings_name(),
    }
}

proof fn lemma_literal_bytes()
    ensures
        utf8_bytes("settings.md"@) == settings_name(),
        utf8_bytes("note-"@) == note_prefix(),
        utf8_bytes(".md"@) == md_ext(),
{
    reveal_strlit("settings.md");
    reveal_strlit("note-");
    reveal_strlit(".md");
    let a = seq!['s', 'e', 't', 't', 'i', 'n', 'g', 's', '.', 'm', 'd'];
    let b = seq!['n', 'o', 't', 'e', '-'];
    let c = seq!['.', 'm', 'd'];
    assert("settings.md"@ =~= a);
    assert("note-"@ =~= b);
    assert(".md"@ =~= c);
    assert forall|i: int| 0 <= i < a.len() implies (#[trigger] a[i] as u32) <= 0x7f by {}
    assert forall|i: int| 0 <= i < b.len() implies (#[trigger] b[i] as u32) <= 0x7f by {}
    assert forall|i: int| 0 <= i < c.len() implies (#[trigger] c[i] as u32) <= 0x7f by {}
    lemma_ascii_chars_bytes(a);
    lemma_ascii_chars_bytes(b);
    lemma_ascii_chars_bytes(c);
    assert(utf8_bytes(a) =~= settings_name());
    assert(utf8_bytes(b) =~= note_prefix());
    assert(utf8_bytes(c) =~= md_ext());
}

/// Which note file a file name of the note folder stands for: `settings.md`
/// is the settings note, `note-<n>.md` the note `n - 1`; anything else is
/// no note file. The name is handed back beside the note file.
pub fn extract_note_file(file_name: &str) -> (r: Option<(NoteFile, &str)>)
    requires
        note_number(utf8_bytes(file_name@)) != Some(0nat),
    ensures
        r matches Some(v) ==> v.1@ == file_name@ && note_file_spec(utf8_bytes(file_name@)) == Some(
            v.0,
        ),
        r is None ==> note_file_spec(utf8_bytes(file_name@)) is None,
{
    proof {
        lemma_literal_bytes();
        encode_utf8_valid_utf8(file_name@);
    }
    let b = file_name.as_bytes();
    let ghost bs = utf8_bytes(file_name@);
    assert(b@ == bs);
    let settings = "settings.md".as_bytes();
    let prefix = "note-".as_bytes();
    let ext = ".md".as_bytes();
    if b.len() == 11 && starts_with_bytes(b, settings) {
        assert(bs =~= settings_name());
        return Some((NoteFile::Settings, file_name));
    }
    assert(bs != settings_name()) by {
        if bs == settings_name() {
            assert(bs.subrange(0, 11) =~= settings_name());
            assert(bytes_start_with(bs, settings_name()));
        }
    }
    if starts_with_bytes(b, prefix) && ends_with_bytes(b, ext) {
        let n = b.len();
        assert(n >= 8) by {
            assert(bs[0] == 0x6eu8 && bs[4] == 0x2du8);
            assert(bs[n - 3] == 0x2eu8);
        }
        proof {
            assert(bs[4] == 0x2du8);
            assert(bs[n - 3] == 0x2eu8);
            lemma_ascii_boundaries(bs, 4);
            lemma_ascii_boundaries(bs, n - 3);
        }
        let middle = sub_string(file_name, 5, n - 3);
        match parse_u32(middle.as_str()) {
            Some(i) => {
                assert(note_number(bs) == Some(i as nat));
                Some((NoteFile::Note(i - 1), file_name))
            },
            None => None,
        }
    } else {
        None
    }
}

/// The file name a note file is saved under: `note-<n>.md` with `n` counted
/// from one, or `settings.md`.
pub fn note_file_name(note: NoteFile) -> (r: String)
    requires
        note matches NoteFile::Note(i) ==> i < u32::MAX,
    ensures
        utf8_bytes(r@) == file_name_spec(note),
{
    proof {
        lemma_literal_bytes();
    }
    match note {
        NoteFile::Note(zero_based_index) => {
            let mut name = String::new();
            append_str(&mut name, "note-");
            let digits = format_u32(zero_based_index + 1);
            append_str(&mut name, digits.as_str());
            append_str(&mut name, ".md");
            assert(utf8_bytes(Seq::<char>::empty()) =~= Seq::<u8>::empty());
            assert(utf8_bytes(name@) =~= file_name_spec(note));
            name
        },
        NoteFile::Settings => {
            let name = String::from_str("settings.md");
            name
        },
    }
}

/// A note file saved under its file name is read back as the same note file.
pub proof fn law_note_file_name_roundtrip(note: NoteFile)
    requires
        note matches NoteFile::Note(i) ==> i < u32::MAX,
    ensures
        note_file_spec(file_name_spec(note)) == Some(note),
{
    match note {
        NoteFile::Note(i) => {
            let b = file_name_spec(note);
            let ds = radix_digits((i + 1) as nat, 10);
            lemma_parse_format_roundtrip((i + 1) as nat, 10, u32::MAX as nat);
            crate::num_text::lemma_radix_digits_value((i + 1) as nat, 10);
            assert(b.len() >= 9);
            assert(b[5] == ds[0]);
            assert(b != settings_name()) by {
                if b == settings_name() {
                    assert(b[0] == settings_name()[0]);
                }
            }
            assert(bytes_start_with(b, note_prefix())) by {
                assert(b.subrange(0, 5) =~= note_prefix());
            }
            assert(bytes_end_with(b, md_ext())) by {
                assert(b.subrange(b.len() - 3, b.len() as int) =~= md_ext());
            }
            assert(b.subrange(5, b.len() - 3) =~= ds);
        },
        NoteFile::Settings => {},
    }
}

// ---- first run, migration, restoring ----

pub open spec fn files_view<'a>(files: Seq<(NoteFile, &'a str)>) -> Seq<(NoteFile, Seq<char>)> {
    Seq::new(files.len(), |i: int| (files[i].0, files[i].1@))
}

pub open spec fn owned_files_view(files: Seq<(NoteFile, String)>) -> Seq<(NoteFile, Seq<char>)> {
    Seq::new(files.len(), |i: int| (files[i].0, files[i].1@))
}

pub open spec fn strings_view(v: Seq<String>) -> Seq<Seq<char>> {
    Seq::new(v.len(), |i: int| v[i]@)
}

/// The files a first run writes: every note with its first-run text, then
/// the settings note.
pub open spec fn bootstrap_files(n: nat, d: DefaultNotes) -> Seq<(NoteFile, Seq<char>)> {
    Seq::new(
        n + 1,
        |i: int|
            if i < n {
                (NoteFile::Note(i as u32), tutorial_spec(d, NoteFile::Note(i as u32)))
            } else {
                (NoteFile::Settings, tutorial_spec(d, NoteFile::Settings))
            },
    )
}

/// What a first run starts from and writes.
pub open spec fn bootstrap_spec(
    n: u32,
    now: u128,
    d: DefaultNotes,
    to_save: DataToSave<'static>,
    restored: RestoredData,
) -> bool {
    &&& files_view(to_save.files@) == bootstrap_files(n as nat, d)
    &&& to_save.selected == NoteFile::Note(0)
    &&& to_save.is_pinned
    &&& is_current_state(restored.state, true, now, NoteFile::Note(0))
    &&& strings_view(restored.notes@) == Seq::new(
        n as nat,
        |i: int| tutorial_spec(d, NoteFile::Note(i as u32)),
    )
    &&& restored.settings@ == tutorial_spec(d, NoteFile::Settings)
}

/// A first run: every note starts with its first-run text, the first note is
/// selected and the window pinned; `now` is the time the state is saved at.
pub fn bootstrap(number_of_notes: u32, now: u128, defaults: &DefaultNotes) -> (r: (
    DataToSave<'static>,
    RestoredData,
))
    ensures
        bootstrap_spec(number_of_notes, now, *defaults, r.0, r.1),
{
    let selected = NoteFile::Note(0);
    let mut files: Vec<(NoteFile, &'static str)> = Vec::new();
    let mut notes: Vec<String> = Vec::new();
    let mut index: u32 = 0;
    while index < number_of_notes
        invariant
            index <= number_of_notes,
            files_view(files@) == bootstrap_files(number_of_notes as nat, *defaults).subrange(
                0,
                index as int,
            ),
            strings_view(notes@) == Seq::new(
                index as nat,
                |i: int| tutorial_spec(*defaults, NoteFile::Note(i as u32)),
            ),
        decreases number_of_notes - index,
    {
        let file = NoteFile::Note(index);
        let content = get_tutorial_note_content(defaults, file);
        let ghost prev_files = files@;
        let ghost prev_notes = notes@;
        files.push((file, content));
        let copy = content.to_owned();
        notes.push(copy);
        proof {
            assert(files_view(files@) =~= files_view(prev_files).push((file, content@)));
            assert(strings_view(notes@) =~= strings_view(prev_notes).push(copy@));
        }
        index = index + 1;
        assert(files_view(files@) =~= bootstrap_files(number_of_notes as nat, *defaults).subrange(
            0,
            index as int,
        ));
        assert(strings_view(notes@) =~= Seq::new(
            index as nat,
            |i: int| tutorial_spec(*defaults, NoteFile::Note(i as u32)),
        ));
    }
    let settings_content = get_tutorial_note_content(defaults, NoteFile::Settings);
    let ghost prev_files = files@;
    files.push((NoteFile::Settings, settings_content));
    assert(files_view(files@) =~= files_view(prev_files).push((NoteFile::Settings, settings_content@)));
    assert(bootstrap_files(number_of_notes as nat, *defaults).subrange(0, number_of_notes as int).push(
        (NoteFile::Settings, settings_content@),
    ) =~= bootstrap_files(number_of_notes as nat, *defaults));
    assert(files_view(files@) =~= bootstrap_files(number_of_notes as nat, *defaults));
    let to_save = DataToSave { files, selected, is_pinned: true };
    let restored_data = RestoredData {
        state: SaveState { is_pinned: true, version: CURRENT_VERSION, last_saved: now, selected },
        notes,
        settings: settings_content.to_owned(),
    };
    (to_save, restored_data)
}

/// The files a migration from the first format writes: every note of the old
/// save under its position, then the settings note with its first-run text.
pub open spec fn migrated_files(old: Seq<String>, d: DefaultNotes) -> Seq<(NoteFile, Seq<char>)> {
    Seq::new(
        old.len() + 1,
        |i: int|
            if i < old.len() {
                (NoteFile::Note(i as u32), old[i]@)
            } else {
                (NoteFile::Settings, tutorial_spec(d, NoteFile::Settings))
            },
    )
}

/// What a migration from the first format starts from and writes.
pub open spec fn migrate_spec<'s>(
    old: v1::PersistentState,
    now: u128,
    d: DefaultNotes,
    to_save: DataToSave<'s>,
    restored: RestoredData,
) -> bool {
    &&& files_view(to_save.files@) == migrated_files(old.notes@, d)
    &&& to_save.selected == NoteFile::Note(old.selected_note)
    &&& to_save.is_pinned
    &&& is_current_state(restored.state, true, now, NoteFile::Note(old.selected_note))
    &&& strings_view(restored.notes@) == strings_view(old.notes@)
    &&& restored.settings@ == tutorial_spec(d, NoteFile::Settings)
}

/// Moves a save of the first format to the current layout: the notes keep
/// their order, the settings note starts with its first-run text, and the
/// selected note stays selected; `now` is the time the state is saved at.
pub fn fn_migrate_from_v1<'s>(
    old_state: &'s v1::PersistentState,
    now: u128,
    defaults: &DefaultNotes,
) -> (r: (DataToSave<'s>, RestoredData))
    ensures
        migrate_spec(*old_state, now, *defaults, r.0, r.1),
{
    let selected = NoteFile::Note(old_state.selected_note);
    let mut files: Vec<(NoteFile, &'s str)> = Vec::new();
    let mut notes: Vec<String> = Vec::new();
    let n = old_state.notes.len();
    let mut index: usize = 0;
    while index < n
        invariant
            index <= n == old_state.notes@.len(),
            files_view(files@) == migrated_files(old_state.notes@, *defaults).subrange(
                0,
                index as int,
            ),
            strings_view(notes@) == strings_view(old_state.notes@).subrange(0, index as int),
        decreases n - index,
    {
        let note: &'s String = &old_state.notes[index];
        let ghost prev_files = files@;
        let ghost prev_notes = notes@;
        let entry = (NoteFile::Note(index as u32), note.as_str());
        files.push(entry);
        let copy = note.clone();
        notes.push(copy);
        proof {
            assert(files_view(files@) =~= files_view(prev_files).push((entry.0, entry.1@)));
            assert(strings_view(notes@) =~= strings_view(prev_notes).push(copy@));
            assert(copy@ == old_state.notes@[index as int]@);
        }
        index = index + 1;
        assert(files_view(files@) =~= migrated_files(old_state.notes@, *defaults).subrange(
            0,
            index as int,
        ));
        assert(strings_view(notes@) =~= strings_view(old_state.notes@).subrange(0, index as int));
    }
    let settings_content = get_tutorial_note_content(defaults, NoteFile::Settings);
    let ghost prev_files = files@;
    files.push((NoteFile::Settings, settings_content));
    assert(files_view(files@) =~= files_view(prev_files).push((NoteFile::Settings, settings_content@)));
    assert(migrated_files(old_state.notes@, *defaults).subrange(0, n as int).push(
        (NoteFile::Settings, settings_content@),
    ) =~= migrated_files(old_state.notes@, *defaults));
    assert(files_view(files@) =~= migrated_files(old_state.notes@, *defaults));
    assert(strings_view(notes@) =~= strings_view(old_state.notes@));
    let to_save = DataToSave { files, is_pinned: true, selected };
    let restored_data = RestoredData {
        state: SaveState { version: CURRENT_VERSION, last_saved: now, is_pinned: true, selected },
        notes,
        settings: settings_content.to_owned(),
    };
    (to_save, restored_data)
}


/// The content of the first file read for `f`, if any was read.
pub open spec fn find_content(files: Seq<(NoteFile, Seq<char>)>, f: NoteFile) -> Option<Seq<char>>
    decreases files.len(),
{
    if files.len() == 0 {
        None
    } else if files[0].0 == f {
        Some(files[0].1)
    } else {
        find_content(files.drop_first(), f)
    }
}

/// The notes a restore starts from: what was read for each, or its
/// first-run text.
pub open spec fn restored_notes(files: Seq<(NoteFile, Seq<char>)>, n: nat, d: DefaultNotes) -> Seq<
    Seq<char>,
> {
    Seq::new(
        n,
        |i: int|
            match find_content(files, NoteFile::Note(i as u32)) {
                Some(c) => c,
                None => tutorial_spec(d, NoteFile::Note(i as u32)),
            },
    )
}

/// The notes among the first `n` that were not read, with their first-run
/// text, in order.
pub open spec fn missing_notes(files: Seq<(NoteFile, Seq<char>)>, n: nat, d: DefaultNotes) -> Seq<
    (NoteFile, Seq<char>),
>
    decreases n,
{
    if n == 0 {
        Seq::empty()
    } else {
        let prev = missing_notes(files, (n - 1) as nat, d);
        let f = NoteFile::Note((n - 1) as u32);
        if find_content(files, f) is None {
            prev.push((f, tutorial_spec(d, f)))
        } else {
            prev
        }
    }
}

/// The data restored from the files read: the saved state when one was read
/// (else a fresh state saved at `now`), the notes, and the settings note
/// (empty when it was not read).
pub open spec fn restored_spec(
    data: RestoredData,
    files: Seq<(NoteFile, Seq<char>)>,
    n: u32,
    state: Option<SaveState>,
    now: u128,
    d: DefaultNotes,
) -> bool {
    &&& match state {
        Some(s) => data.state == s,
        None => is_current_state(data.state, true, now, NoteFile::Note(0)),
    }
    &&& strings_view(data.notes@) == restored_notes(files, n as nat, d)
    &&& data.settings@ == match find_content(files, NoteFile::Settings) {
        Some(c) => c,
        None => Seq::empty(),
    }
}

/// Finds the content of the first file read for `f`.
fn find_file<'a>(files: &'a Vec<(NoteFile, String)>, f: NoteFile) -> (r: Option<&'a String>)
    ensures
        r matches Some(c) ==> find_content(owned_files_view(files@), f) == Some(c@),
        r is None ==> find_content(owned_files_view(files@), f) is None,
{
    let ghost v = owned_files_view(files@);
    let mut i: usize = 0;
    assert(v.subrange(0, v.len() as int) =~= v);
    while i < files.len()
        invariant
            i <= files@.len() == v.len(),
            v == owned_files_view(files@),
            find_content(v, f) == find_content(v.subrange(i as int, v.len() as int), f),
        decreases files@.len() - i,
    {
        let entry = &files[i];
        assert(v.subrange(i as int, v.len() as int)[0] == v[i as int]);
        if entry.0 == f {
            return Some(&entry.1);
        }
        assert(v.subrange(i as int, v.len() as int).drop_first() =~= v.subrange(
            i + 1,
            v.len() as int,
        ));
        i = i + 1;
    }
    None
}

/// Decides what the files read from the note folder restore. Notes that
/// were not read start with their first-run text. The result is a full
/// restore only when the saved state was read and no note was missing;
/// otherwise it is partial, with the missing notes and the state to write.
/// `now` is the time a fresh state is saved at.
pub fn hydrate(
    number_of_notes: u32,
    retrieved_files: Vec<(NoteFile, String)>,
    state: Option<SaveState>,
    now: u128,
    defaults: &DefaultNotes,
) -> (r: HydrationResult)
    ensures
        ({
            let files = owned_files_view(retrieved_files@);
            let missing = missing_notes(files, number_of_notes as nat, *defaults);
            match r {
                HydrationResult::FolderIsMissing => false,
                HydrationResult::Success(data) => state is Some && missing.len() == 0
                    && restored_spec(data, files, number_of_notes, state, now, *defaults),
                HydrationResult::Partial(data, to_save) => !(state is Some && missing.len() == 0)
                    && restored_spec(data, files, number_of_notes, state, now, *defaults)
                    && files_view(to_save.files@) == missing && to_save.selected
                    == data.state.selected && to_save.is_pinned == data.state.is_pinned,
            }
        }),
{
    let ghost files = owned_files_view(retrieved_files@);
    let mut missing: Vec<(NoteFile, &'static str)> = Vec::new();
    let mut notes: Vec<String> = Vec::new();
    let mut index: u32 = 0;
    while index < number_of_notes
        invariant
            index <= number_of_notes,
            files == owned_files_view(retrieved_files@),
            strings_view(notes@) == restored_notes(files, number_of_notes as nat, *defaults).subrange(
                0,
                index as int,
            ),
            files_view(missing@) == missing_notes(files, index as nat, *defaults),
        decreases number_of_notes - index,
    {
        let searched_note_file = NoteFile::Note(index);
        let ghost prev_notes = notes@;
        match find_file(&retrieved_files, searched_note_file) {
            Some(note_content) => {
                let copy = note_content.clone();
                notes.push(copy);
                assert(strings_view(notes@) =~= strings_view(prev_notes).push(copy@));
            },
            None => {
                let content = get_tutorial_note_content(defaults, searched_note_file);
                let copy = content.to_owned();
                notes.push(copy);
                assert(strings_view(notes@) =~= strings_view(prev_notes).push(copy@));
                let ghost prev_missing = missing@;
                missing.push((searched_note_file, content));
                assert(files_view(missing@) =~= files_view(prev_missing).push(
                    (searched_note_file, content@),
                ));
            },
        }
        index = index + 1;
        assert(strings_view(notes@) =~= restored_notes(files, number_of_notes as nat, *defaults).subrange(
            0,
            index as int,
        ));
    }
    assert(restored_notes(files, number_of_notes as nat, *defaults).subrange(
        0,
        number_of_notes as int,
    ) =~= restored_notes(files, number_of_notes as nat, *defaults));
    let state_parsed = state.is_some();
    let state = match state {
        Some(s) => s,
        None => SaveState {
            version: CURRENT_VERSION,
            is_pinned: true,
            last_saved: now,
            selected: NoteFile::Note(0),
        },
    };
    let selected = state.selected;
    let is_pinned = state.is_pinned;
    let settings = match find_file(&retrieved_files, NoteFile::Settings) {
        Some(content) => content.clone(),
        None => {
            let empty = String::new();
            empty
        },
    };
    let restored = RestoredData { state, notes, settings };
    if state_parsed && missing.len() == 0 {
        HydrationResult::Success(restored)
    } else {
        HydrationResult::Partial(restored, DataToSave { files: missing, selected, is_pinned })
    }
}

/// Settles what a run starts from after reading the note folder (`loaded`
/// is `None` when reading failed). A full restore is used as it is. A partial
/// one is used, and what it misses is to be written. Otherwise a save of the
/// first format is migrated when there is one, or a first run is set up, and
/// everything is to be written.
pub fn load_and_migrate<'s>(
    number_of_notes: u32,
    v1_save: Option<&'s v1::PersistentState>,
    loaded: Option<HydrationResult>,
    now: u128,
    defaults: &DefaultNotes,
) -> (r: (Option<DataToSave<'s>>, RestoredData))
    ensures
        match loaded {
            Some(HydrationResult::Success(data)) => r.0 is None && r.1 == data,
            Some(HydrationResult::Partial(data, to_save)) => r.0 == Some(to_save) && r.1 == data,
            _ => r.0 matches Some(to_save) && match v1_save {
                Some(old) => migrate_spec(*old, now, *defaults, to_save, r.1),
                None => bootstrap_spec(number_of_notes, now, *defaults, to_save, r.1),
            },
        },
{
    match loaded {
        Some(HydrationResult::Success(data)) => (None, data),
        Some(HydrationResult::Partial(data, to_save)) => (Some(to_save), data),
        _ => {
            match v1_save {
                Some(old) => {
                    let (to_save, data) = fn_migrate_from_v1(old, now, defaults);
                    (Some(to_save), data)
                },
                None => {
                    let (to_save, data) = bootstrap(number_of_notes, now, defaults);
                    (Some(to_save), data)
                },
            }
        },
    }
}

/// What saving writes: the state in the current layout, saved at `now`, and
/// each file under its file name.
pub fn save_layout<'a>(data: DataToSave<'a>, now: u128) -> (r: (SaveState, Vec<(String, &'a str)>))
    requires
        forall|k: int|
            0 <= k < data.files@.len() ==> ((#[trigger] data.files@[k]).0 matches NoteFile::Note(i)
                ==> i < u32::MAX),
    ensures
        is_current_state(r.0, data.is_pinned, now, data.selected),
        r.1@.len() == data.files@.len(),
        forall|k: int|
            0 <= k < r.1@.len() ==> utf8_bytes((#[trigger] r.1@[k]).0@) == file_name_spec(
                data.files@[k].0,
            ) && r.1@[k].1@ == data.files@[k].1@,
{
    let DataToSave { files, is_pinned, selected } = data;
    let state = SaveState { version: CURRENT_VERSION, is_pinned, last_saved: now, selected };
    let mut named: Vec<(String, &'a str)> = Vec::new();
    let mut k: usize = 0;
    while k < files.len()
        invariant
            k <= files@.len(),
            files@ == data.files@,
            named@.len() == k,
            forall|m: int|
                0 <= m < files@.len() ==> ((#[trigger] files@[m]).0 matches NoteFile::Note(i) ==> i
                    < u32::MAX),
            forall|m: int|
                0 <= m < k ==> utf8_bytes((#[trigger] named@[m]).0@) == file_name_spec(files@[m].0)
                    && named@[m].1@ == files@[m].1@,
        decreases files@.len() - k,
    {
        let (note, content) = files[k];
        let file_name = note_file_name(note);
        named.push((file_name, content));
        k = k + 1;
    }
    (state, named)
}

// ---- laws ----

proof fn lemma_find_content_at(files: Seq<(NoteFile, Seq<char>)>, f: NoteFile, k: int)
    requires
        0 <= k < files.len(),
        files[k].0 == f,
        forall|t: int| 0 <= t < k ==> (#[trigger] files[t]).0 != f,
    ensures
        find_content(files, f) == Some(files[k].1),
    decreases k,
{
    if k > 0 {
        let rest = files.drop_first();
        assert forall|t: int| 0 <= t < k - 1 implies (#[trigger] rest[t]).0 != f by {
            assert(rest[t] == files[t + 1]);
        }
        lemma_find_content_at(rest, f, k - 1);
        assert(files[0].0 != f);
    }
}

proof fn lemma_no_missing(files: Seq<(NoteFile, Seq<char>)>, n: nat, d: DefaultNotes)
    requires
        forall|i: int| 0 <= i < n ==> #[trigger] find_content(files, NoteFile::Note(i as u32)) is Some,
    ensures
        missing_notes(files, n, d).len() == 0,
    decreases n,
{
    if n > 0 {
        lemma_no_missing(files, (n - 1) as nat, d);
        let i = n - 1;
        assert(find_content(files, NoteFile::Note(i as u32)) is Some);
    }
}

/// Reading back what a first run writes restores it in full: no note is
/// missing, every note has its first-run text, and so has the settings note.
pub proof fn law_first_run_restores(n: u32, d: DefaultNotes)
    ensures
        missing_notes(bootstrap_files(n as nat, d), n as nat, d).len() == 0,
        restored_notes(bootstrap_files(n as nat, d), n as nat, d) == Seq::new(
            n as nat,
            |i: int| tutorial_spec(d, NoteFile::Note(i as u32)),
        ),
        find_content(bootstrap_files(n as nat, d), NoteFile::Settings) == Some(
            tutorial_spec(d, NoteFile::Settings),
        ),
{
    let files = bootstrap_files(n as nat, d);
    assert forall|i: int| 0 <= i < n implies #[trigger] find_content(files, NoteFile::Note(i as u32))
        == Some(tutorial_spec(d, NoteFile::Note(i as u32))) by {
        assert forall|t: int| 0 <= t < i implies (#[trigger] files[t]).0 != NoteFile::Note(i as u32) by {
            assert(files[t].0 == NoteFile::Note(t as u32));
        }
        lemma_find_content_at(files, NoteFile::Note(i as u32), i);
    }
    assert forall|t: int| 0 <= t < n implies (#[trigger] files[t]).0 != NoteFile::Settings by {}
    lemma_find_content_at(files, NoteFile::Settings, n as int);
    lemma_no_missing(files, n as nat, d);
    assert(restored_notes(files, n as nat, d) =~= Seq::new(
        n as nat,
        |i: int| tutorial_spec(d, NoteFile::Note(i as u32)),
    ));
}

} // verus!
