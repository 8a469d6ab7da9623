use shelv::command::{
    AppFocus, CommandCondition, CommandInstruction as C, CommandPhase, ForwardToChild, ScriptCall,
    ScriptCallArgument, ScriptCallArguments, TextSource, UiState, UiStateAttribute as A,
};

fn script(name: &str) -> TextSource {
    TextSource::Script(ScriptCall {
        func_name: name.to_string(),
        arguments: ScriptCallArguments::new(vec![ScriptCallArgument::Selection]),
    })
}

#[test]
fn descriptions_name_each_command() {
    assert_eq!(C::MarkdownBold.human_description(), "Toggle Bold");
    assert_eq!(C::MarkdownCodeBlock(None).human_description(), "Toggle Code Block");
    assert_eq!(
        C::MarkdownCodeBlock(Some("rust".to_string())).human_description(),
        "Toggle Code Block (rust)"
    );
    assert_eq!(C::SwitchToNote(0).human_description(), "Shelf 1");
    assert_eq!(C::SwitchToNote(3).human_description(), "Shelf 4");
    assert_eq!(C::SwitchToNote(9).human_description(), "Shelf 10");
    assert_eq!(C::SwitchToNote(255).human_description(), "Shelf 256");
    assert_eq!(C::BracketAutoclosingInsideKDL.human_description(), "Auto closing of '{' inside KDL");
    assert_eq!(
        C::InsertText(ForwardToChild(TextSource::Str("hi".to_string()))).human_description(),
        "Insert: hi"
    );
    assert_eq!(
        C::InsertText(ForwardToChild(script("today"))).human_description(),
        "Insert result from: today"
    );
}

#[test]
fn settings_text_of_commands() {
    assert_eq!(C::ExpandTaskMarker.serialize_to_kdl(), None);
    assert_eq!(C::EnterInsideKDL.serialize_to_kdl(), None);
    assert_eq!(C::PinWindow.serialize_to_kdl().as_deref(), Some("PinWindow;"));
    assert_eq!(C::SwitchToNote(2).serialize_to_kdl().as_deref(), Some("SwitchToNote 2;"));
    assert_eq!(
        C::MarkdownCodeBlock(Some("js".to_string())).serialize_to_kdl().as_deref(),
        Some("MarkdownCodeBlock lang=\"js\";")
    );
    assert_eq!(
        C::InsertText(ForwardToChild(TextSource::Str("x".to_string())))
            .serialize_to_kdl()
            .as_deref(),
        Some("InsertText {\n\tas_is \"x\"\n}")
    );
    assert_eq!(
        C::InsertText(ForwardToChild(script("f"))).serialize_to_kdl().as_deref(),
        Some("InsertText {\n\t callFunc \"f\"\n}")
    );
}

fn runs(instr: C, attrs: Vec<A>) -> bool {
    let (phase, cond) = instr.default_phase_and_conditions();
    assert_eq!(phase, CommandPhase::InsideRender);
    cond.eval(&UiState::new(attrs))
}

#[test]
fn default_conditions_follow_the_kind_of_command() {
    let editor = || vec![A::Idle, A::Focus(AppFocus::NoteEditor)];
    assert!(runs(C::MarkdownBold, editor()));
    assert!(!runs(C::MarkdownBold, vec![A::Idle]));
    assert!(!runs(C::MarkdownBold, vec![A::Idle, A::Focus(AppFocus::NoteEditor), A::JumpMode]));

    assert!(runs(C::PinWindow, vec![A::Idle, A::SlashMenu]));
    assert!(!runs(C::SwitchToSettings, vec![A::JumpMode]));

    assert!(runs(C::HideApp, vec![A::Idle]));
    assert!(runs(C::SwitchToNote(1), editor()));
    assert!(!runs(C::HideApp, vec![A::Idle, A::JumpMode]));

    let (_, cond) = C::HideApp.default_phase_and_conditions();
    assert!(matches!(cond, CommandCondition::Any(ref cs) if cs.len() == 2));
}
