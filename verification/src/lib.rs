//! Verified core of the Shelv note-taking app: byte spans over note text,
//! text edits with cursor tracking, word-jump labelling, markdown shortcut
//! instructions, command conditions and descriptions, the app's decisions on
//! its actions, note persistence and
//! migration, code-block bookkeeping, update-log versions, a small in-memory
//! file system and the rate limiter of the companion site.

pub mod byte_span;
pub mod text_bytes;
pub mod num_text;
pub mod text_change;
pub mod apply_changes;
pub mod apply_changes_law;
pub mod persistent_state;
pub mod note_eval;
pub mod shared;
pub mod app_ui;
pub mod commands;
pub mod markdown_to_html;
pub mod word_jump;
pub mod text_structure;
pub mod md_shortcut;
pub mod fs_path;
pub mod updates;
pub mod rate_limiting;
pub mod command;
pub mod app_core;
