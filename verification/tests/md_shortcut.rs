use shelv::md_shortcut::{
    execute_instruction, Edge, Instruction, InstructionCondition, ListedShortcutContext,
    ShortcutResult, Source,
};
use shelv::md_shortcut::Instruction::{Condition, CopyFrom, Insert, PlaceCursor, Sequence};
use shelv::text_structure::SpanKind;

#[test]
pub fn test_bold() {
    let bold = Condition {
        cond: InstructionCondition::IsNoneOrEmpty(Source::Selection),
        if_false: Box::new(Sequence(vec![
            PlaceCursor(Edge::Start),
            Insert("**"),
            CopyFrom(Source::Selection),
            Insert("**"),
            PlaceCursor(Edge::End),
        ])),
        if_true: Box::new(Sequence(vec![
            Insert("**"),
            PlaceCursor(Edge::Start),
            PlaceCursor(Edge::End),
            Insert("**"),
        ])),
    };

    assert_eq!(
        execute_instruction(
            &mut ListedShortcutContext::new(vec![(Source::Selection, "bold")]),
            &bold,
        ),
        Some(ShortcutResult {
            content: "{|}**bold**{|}".to_string(),
        }),
    );

    assert_eq!(
        execute_instruction(&mut ListedShortcutContext::new(vec![]), &bold,),
        Some(ShortcutResult {
            content: "**{|}{|}**".to_string(),
        }),
    );
}

#[test]
pub fn test_end_with_condition() {
    let newline_cond = Condition {
        cond: InstructionCondition::EndsWith(Source::BeforeSelection, "\n"),
        if_true: Box::new(Insert("newline")),
        if_false: Box::new(Insert("no newline")),
    };

    assert_eq!(
        execute_instruction(
            &mut ListedShortcutContext::new(vec![(Source::BeforeSelection, "\n")]),
            &newline_cond,
        ),
        Some(ShortcutResult {
            content: "newline".to_string(),
        }),
    );

    assert_eq!(
        execute_instruction(
            &mut ListedShortcutContext::new(vec![(Source::BeforeSelection, "just space ")]),
            &newline_cond,
        ),
        Some(ShortcutResult {
            content: "no newline".to_string(),
        }),
    );
}

// ---- further cases ----

#[test]
fn copying_a_missing_source_gives_nothing() {
    let copy = Instruction::CopyFrom(Source::AfterSelection);
    assert_eq!(
        execute_instruction(&mut ListedShortcutContext::new(vec![]), &copy),
        None
    );
}

#[test]
fn starts_with_and_inside_conditions() {
    let cond = Instruction::condition(
        InstructionCondition::StartsWith(Source::AfterSelection, "**"),
        Instruction::Insert("yes"),
        Instruction::Insert("no"),
    );
    let mut cx = ListedShortcutContext::new(vec![(Source::AfterSelection, "**rest")]);
    assert_eq!(
        execute_instruction(&mut cx, &cond).unwrap().content,
        "yes"
    );

    let inside = Instruction::condition(
        InstructionCondition::IsInside(SpanKind::Bold),
        Instruction::Insert("in"),
        Instruction::Insert("out"),
    );
    let mut cx = ListedShortcutContext::new(vec![]);
    cx.inside.push(SpanKind::Bold);
    assert_eq!(execute_instruction(&mut cx, &inside).unwrap().content, "in");
}

#[test]
fn replace_area_is_recorded() {
    let seq = Instruction::sequence(vec![
        Instruction::SetReplaceArea(SpanKind::Emphasis),
        Instruction::Insert("x"),
    ]);
    let mut cx = ListedShortcutContext::new(vec![]);
    assert_eq!(execute_instruction(&mut cx, &seq).unwrap().content, "x");
    assert_eq!(cx.replace_area, Some(SpanKind::Emphasis));
}

#[test]
fn match_first_takes_the_first_true_condition() {
    let m = Instruction::MatchFirst(vec![
        (
            InstructionCondition::IsNoneOrEmpty(Source::Selection),
            Instruction::Insert("empty"),
        ),
        (
            InstructionCondition::Any(vec![]),
            Instruction::Insert("never"),
        ),
        (
            InstructionCondition::IsInsideUnmarkedArea,
            Instruction::Insert("unmarked"),
        ),
    ]);
    let mut cx = ListedShortcutContext::new(vec![(Source::Selection, "sel")]);
    assert_eq!(execute_instruction(&mut cx, &m).unwrap().content, "");
    cx.unmarked = true;
    assert_eq!(execute_instruction(&mut cx, &m).unwrap().content, "unmarked");
}
