use shelv::command::{AppFocus, CommandCondition as C, UiState, UiStateAttribute as A};

#[test]
fn test_exact_match() {
    let state = UiState::new(vec![A::Idle, A::Focus(AppFocus::NoteEditor)]);
    let condition = C::exact_match(vec![A::Idle, A::Focus(AppFocus::NoteEditor)]);
    assert!(condition.eval(&state));

    // different order should still match
    let different_order = C::exact_match(vec![A::Focus(AppFocus::NoteEditor), A::Idle]);
    assert!(different_order.eval(&state));

    let just_idle = C::exact_match(vec![A::Idle]);
    assert!(!just_idle.eval(&state));

    // Test exact match with missing attribute in state (should not match)
    let extra_requirements =
        C::exact_match(vec![A::Idle, A::Focus(AppFocus::NoteEditor), A::JumpMode]);
    assert!(!extra_requirements.eval(&state));

    let empty_state = UiState::new(vec![]);
    let empty_condition = C::exact_match(vec![]);
    assert!(empty_condition.eval(&empty_state));
}

#[test]
fn test_loose_match() {
    let state = UiState::new(vec![A::Idle, A::Focus(AppFocus::NoteEditor), A::JumpMode]);

    let smaller_condition =
        C::loose_match(vec![A::Idle, A::Focus(AppFocus::NoteEditor), A::JumpMode]);
    assert!(smaller_condition.eval(&state));

    let smaller_condition = C::loose_match(vec![A::Idle, A::Focus(AppFocus::NoteEditor)]);
    assert!(smaller_condition.eval(&state));

    let empty_condition = C::loose_match(vec![]);
    assert!(empty_condition.eval(&state));

    let empty_state = UiState::new(vec![]);
    let non_empty_condition = C::loose_match(vec![A::Idle]);
    assert!(!non_empty_condition.eval(&empty_state));
}

#[test]
fn test_all_condition() {
    let state = UiState::new(vec![A::Idle, A::Focus(AppFocus::NoteEditor)]);

    let all_true = C::All(vec![
        C::loose_match(vec![A::Idle]),
        C::loose_match(vec![A::Focus(AppFocus::NoteEditor)]),
    ]);
    assert!(all_true.eval(&state));

    let one_false = C::All(vec![C::loose_match(vec![A::Idle]), C::loose_match(vec![A::JumpMode])]);
    assert!(!one_false.eval(&state));

    let empty_all = C::All(vec![]);
    assert!(empty_all.eval(&state));
}

#[test]
fn test_any_condition() {
    let state = UiState::new(vec![A::Idle]);

    let any_true = C::Any(vec![C::loose_match(vec![A::JumpMode]), C::loose_match(vec![A::Idle])]);
    assert!(any_true.eval(&state));

    let all_false =
        C::Any(vec![C::loose_match(vec![A::JumpMode]), C::loose_match(vec![A::SlashMenu])]);
    assert!(!all_false.eval(&state));

    let empty_any = C::Any(vec![]);
    assert!(!empty_any.eval(&state));
}

#[test]
fn test_complex_nested_conditions() {
    let state = UiState::new(vec![A::JumpMode, A::Focus(AppFocus::NoteEditor)]);

    let complex_condition = C::Any(vec![
        C::Any(vec![
            C::loose_match(vec![A::Idle]),
            C::loose_match(vec![A::Focus(AppFocus::NoteEditor)]),
        ]),
        C::loose_match(vec![A::JumpMode]),
    ]);
    assert!(complex_condition.eval(&state));
}

#[test]
fn test_not_condition() {
    let state = UiState::new(vec![A::Idle]);

    let matching = C::exact_match(vec![A::Idle]);
    let not_matching = C::Not(Box::new(matching));
    assert!(!not_matching.eval(&state));

    let double_negative = C::Not(Box::new(not_matching));
    assert!(!double_negative.eval(&state));
}

#[test]
fn negation_flips_a_match() {
    let state = UiState::new(vec![A::Idle]);
    let not_matching = C::Not(Box::new(C::exact_match(vec![A::Idle])));
    assert!(!not_matching.eval(&state));
    let not_jump = C::Not(Box::new(C::loose_match(vec![A::JumpMode])));
    assert!(not_jump.eval(&state));
}

#[test]
fn or_takes_either_side() {
    let state = UiState::new(vec![A::SlashMenu]);
    let either = C::exact_match(vec![A::Idle]).or(C::loose_match(vec![A::SlashMenu]));
    assert!(either.eval(&state));
    let neither = C::exact_match(vec![A::Idle]).or(C::loose_match(vec![A::JumpMode]));
    assert!(!neither.eval(&state));
}

#[test]
fn exact_match_compares_length_and_membership() {
    let state = UiState::new(vec![A::Idle, A::JumpMode]);
    assert!(!C::exact_match(vec![A::Idle]).eval(&state));
    // a repeated requirement fills a place of its own in the count
    assert!(C::exact_match(vec![A::Idle, A::Idle]).eval(&state));
    let other = UiState::new(vec![A::Idle, A::Focus(AppFocus::Other(7))]);
    assert!(C::exact_match(vec![A::Focus(AppFocus::Other(7)), A::Idle]).eval(&other));
    assert!(!C::exact_match(vec![A::Focus(AppFocus::Other(8)), A::Idle]).eval(&other));
}

#[test]
fn an_exact_match_is_also_a_loose_match() {
    let state = UiState::new(vec![A::SlashMenu, A::Idle]);
    assert!(C::exact_match(vec![A::Idle, A::SlashMenu]).eval(&state));
    assert!(C::loose_match(vec![A::Idle, A::SlashMenu]).eval(&state));
    assert!(C::loose_match(vec![A::SlashMenu]).eval(&state));
    assert!(!C::exact_match(vec![A::SlashMenu]).eval(&state));
}
