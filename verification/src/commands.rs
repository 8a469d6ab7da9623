//! Markdown list markers chosen by the editing commands, and the expansion of
//! typed task markers.
use vstd::prelude::*;
use vstd::utf8::is_char_boundary;
use crate::byte_span::ByteSpan;
use crate::text_bytes::{utf8_bytes, bytes_end_with, append_str};
use crate::text_change::TextChange;
use crate::apply_changes::change_view;

verus! {

/// The marker a new unordered list item gets at a nesting depth: `-` at the
/// top level, `*` below it.
pub fn default_unordered_list_marker(depth: usize) -> (r: &'static str)
    ensures
        r@ == (if depth == 0 { seq!['-'] } else { seq!['*'] }),
{
    proof {
        reveal_strlit("-");
        reveal_strlit("*");
    }
    match depth {
        0 => "-",
        _ => "*",
    }
}

/// What the markdown structure of a note says about the line holding the
/// cursor: where the line starts, where the content of a list item on that
/// line starts (after its marker), and whether the cursor is inside a code
/// block.
#[derive(Debug, Clone, Copy, PartialEq, Eq, Structural)]
pub struct CursorLineFacts {
    pub line_start: usize,
    pub list_item_content_start: Option<usize>,
    pub in_code_block: bool,
}

/// The bytes of `[]`, a task marker typed without its space.
pub open spec fn unexpanded_task_marker() -> Seq<u8> {
    seq![0x5bu8, 0x5du8]
}

/// The change that typing a space after `[]` makes, if any: right after a
/// list item's marker `[]` becomes `[ ]`; at the start of a line outside a code
/// block it becomes a new list item `- [ ]`.
pub open spec fn task_marker_expansion(text: Seq<u8>, cursor: ByteSpan, line: Option<CursorLineFacts>) -> Option<
    (ByteSpan, Seq<u8>),
> {
    if !bytes_end_with(text.subrange(0, cursor.start as int), unexpanded_task_marker()) {
        None
    } else {
        match line {
            None => None,
            Some(f) => match f.list_item_content_start {
                Some(s) if s + 2 == cursor.start => Some(
                    (ByteSpan { start: s, end: cursor.start }, utf8_bytes("[ ]"@)),
                ),
                _ => if !f.in_code_block && f.line_start + 2 == cursor.start {
                    Some((ByteSpan { start: f.line_start, end: cursor.start }, utf8_bytes("- [ ]"@)))
                } else {
                    None
                },
            },
        }
    }
}

/// Expands a task marker typed as `[]` just before the cursor (see
/// `task_marker_expansion`); `line` is what the note's structure reports
/// about the cursor's line, `None` where it finds no line there.
pub fn on_space_after_task_markers(text: &str, cursor: ByteSpan, line: Option<CursorLineFacts>) -> (r: Option<
    Vec<TextChange>,
>)
    requires
        cursor.wf(),
        cursor.start <= utf8_bytes(text@).len(),
        is_char_boundary(utf8_bytes(text@), cursor.start as int),
    ensures
        match task_marker_expansion(utf8_bytes(text@), cursor, line) {
            None => r is None,
            Some(c) => r matches Some(v) && v@.len() == 1 && change_view(v@[0]) == c,
        },
{
    let bytes = text.as_bytes();
    proof {
        assert(bytes@ == utf8_bytes(text@));
    }
    let start = cursor.start;
    let ends_with_marker = start >= 2 && bytes[start - 2] == 0x5bu8 && bytes[start - 1] == 0x5du8;
    proof {
        let pre = bytes@.subrange(0, start as int);
        if start >= 2 {
            assert(pre.subrange(pre.len() - 2, pre.len() as int) =~= seq![bytes@[start - 2], bytes@[start - 1]]);
        }
        assert(ends_with_marker == bytes_end_with(pre, unexpanded_task_marker()));
    }
    if !ends_with_marker {
        return None;
    }
    let f = match line {
        None => {
            return None;
        },
        Some(f) => f,
    };
    match f.list_item_content_start {
        Some(s) => {
            if s <= start && start - s == 2 {
                let with = String::from_str("[ ]");
                return Some(vec![TextChange::Insert(ByteSpan::new(s, start), with)]);
            }
        },
        None => {},
    }
    if !f.in_code_block && f.line_start <= start && start - f.line_start == 2 {
        let mut with = String::new();
        append_str(&mut with, default_unordered_list_marker(0));
        append_str(&mut with, " [ ]");
        proof {
            reveal_strlit("- [ ]");
            reveal_strlit(" [ ]");
            assert(with@ =~= "- [ ]"@);
        }
        return Some(vec![TextChange::Insert(ByteSpan::new(f.line_start, start), with)]);
    }
    None
}

} // verus!
