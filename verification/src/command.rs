//! Commands: the conditions on the state of the user interface under which
//! a command may run, and how each command is described and written down.
use vstd::prelude::*;
use smallvec::SmallVec;
use crate::text_bytes::{utf8_bytes, append_str};
use crate::num_text::{format_u32, radix_digits};

verus! {

/// What holds the keyboard focus. `Other` carries the value of the focused
/// widget's id.
#[derive(Debug, PartialEq, Eq, Structural, Clone, Copy, Hash)]
pub enum AppFocus {
    NoteEditor,
    InlinePropmptEditor,
    Other(u64),
}

/// One fact about the state of the user interface.
#[derive(Debug, PartialEq, Eq, Structural, Clone, Copy, Hash)]
pub enum UiStateAttribute {
    Idle,
    FeedbackOpened,
    JumpMode,
    SlashMenu,
    Focus(AppFocus),
}

/// The facts that hold of the user interface at one moment, in the order
/// they were given.
#[verifier::external_body]
#[derive(Debug)]
pub struct UiState(SmallVec<[UiStateAttribute; 6]>);

/// The attributes a `UiState` holds.
pub uninterp spec fn ui_state_attributes(s: UiState) -> Seq<UiStateAttribute>;

/// A small vector holding the vector's items in order (smallvec `SmallVec::from_vec`).
#[verifier::external_body]
fn ui_state_from_vec(v: Vec<UiStateAttribute>) -> (r: UiState)
    ensures
        ui_state_attributes(r) == v@,
{
    UiState(SmallVec::from_vec(v))
}

/// The items as a slice, in order (smallvec `SmallVec::as_slice`).
#[verifier::external_body]
fn ui_state_as_slice(s: &UiState) -> (r: &[UiStateAttribute])
    ensures
        r@ == ui_state_attributes(*s),
{
    s.0.as_slice()
}

impl UiState {
    pub fn new(attributes: Vec<UiStateAttribute>) -> (r: Self)
        ensures
            ui_state_attributes(r) == attributes@,
    {
        ui_state_from_vec(attributes)
    }

    pub fn attributes(&self) -> (r: &[UiStateAttribute])
        ensures
            r@ == ui_state_attributes(*self),
    {
        ui_state_as_slice(self)
    }
}

/// When a command applies, judged on the current `UiState`.
#[derive(Debug)]
pub enum CommandCondition {
    /// Holds when the inner condition does not; a negation of a negation
    /// never holds.
    Not(Box<CommandCondition>),
    All(Vec<CommandCondition>),
    Any(Vec<CommandCondition>),
    /// Every listed attribute holds; others may hold too.
    LooseMatch(UiState),
    /// Every listed attribute holds, and the state holds as many attributes
    /// as are listed.
    ExactMatch(UiState),
}

/// Every attribute of `required` occurs in `state`.
pub open spec fn all_present(required: Seq<UiStateAttribute>, state: Seq<UiStateAttribute>) -> bool {
    forall|i: int| 0 <= i < required.len() ==> state.contains(#[trigger] required[i])
}

/// Whether `c` holds in the state whose attributes are `state`.
pub open spec fn holds(c: CommandCondition, state: Seq<UiStateAttribute>) -> bool
    decreases c, 0int,
{
    match c {
        CommandCondition::ExactMatch(r) => state.len() == ui_state_attributes(r).len() && all_present(
            ui_state_attributes(r),
            state,
        ),
        CommandCondition::LooseMatch(r) => all_present(ui_state_attributes(r), state),
        CommandCondition::Not(inner) => !(*inner is Not) && !holds(*inner, state),
        CommandCondition::All(cs) => holds_all(cs@, state, cs@.len() as int),
        CommandCondition::Any(cs) => holds_any(cs@, state, cs@.len() as int),
    }
}

/// The first `k` conditions of `cs` all hold.
pub open spec fn holds_all(cs: Seq<CommandCondition>, state: Seq<UiStateAttribute>, k: int) -> bool
    decreases cs, k,
{
    if k <= 0 || k > cs.len() {
        k <= 0
    } else {
        holds_all(cs, state, k - 1) && holds(cs[k - 1], state)
    }
}

/// One of the first `k` conditions of `cs` holds.
pub open spec fn holds_any(cs: Seq<CommandCondition>, state: Seq<UiStateAttribute>, k: int) -> bool
    decreases cs, k,
{
    if k <= 0 || k > cs.len() {
        false
    } else {
        holds_any(cs, state, k - 1) || holds(cs[k - 1], state)
    }
}

proof fn lemma_all_needs_each(cs: Seq<CommandCondition>, state: Seq<UiStateAttribute>, i: int, k: int)
    requires
        0 <= i < k <= cs.len(),
        holds_all(cs, state, k),
    ensures
        holds(cs[i], state),
    decreases k,
{
    if i < k - 1 {
        lemma_all_needs_each(cs, state, i, k - 1);
    }
}

proof fn lemma_any_from_each(cs: Seq<CommandCondition>, state: Seq<UiStateAttribute>, i: int, k: int)
    requires
        0 <= i < k <= cs.len(),
        holds(cs[i], state),
    ensures
        holds_any(cs, state, k),
    decreases k,
{
    if i < k - 1 {
        lemma_any_from_each(cs, state, i, k - 1);
    }
}

/// An exact match does not depend on the order in which the required
/// attributes are listed: two lists holding the same attributes the same
/// number of times match the same states.
pub proof fn law_exact_match_ignores_order(r1: UiState, r2: UiState, state: Seq<UiStateAttribute>)
    requires
        ui_state_attributes(r1).to_multiset() == ui_state_attributes(r2).to_multiset(),
    ensures
        holds(CommandCondition::ExactMatch(r1), state) == holds(CommandCondition::ExactMatch(r2), state),
{
    let a = ui_state_attributes(r1);
    let b = ui_state_attributes(r2);
    a.to_multiset_ensures();
    b.to_multiset_ensures();
    assert(all_present(a, state) == all_present(b, state)) by {
        if all_present(a, state) {
            assert forall|i: int| 0 <= i < b.len() implies state.contains(#[trigger] b[i]) by {
                assert(b.to_multiset().count(b[i]) > 0);
                assert(a.contains(b[i]));
                let j = choose|j: int| 0 <= j < a.len() && a[j] == b[i];
                assert(state.contains(a[j]));
            }
        }
        if all_present(b, state) {
            assert forall|i: int| 0 <= i < a.len() implies state.contains(#[trigger] a[i]) by {
                assert(a.to_multiset().count(a[i]) > 0);
                assert(b.contains(a[i]));
                let j = choose|j: int| 0 <= j < b.len() && b[j] == a[i];
                assert(state.contains(b[j]));
            }
        }
    }
}

/// A state that matches a list of attributes exactly also matches it loosely.
pub proof fn law_exact_match_is_loose_match(r: UiState, state: Seq<UiStateAttribute>)
    ensures
        holds(CommandCondition::ExactMatch(r), state) ==> holds(CommandCondition::LooseMatch(r), state),
{
}

/// Either of two conditions joined with `or` is enough, and nothing else is.
pub proof fn law_or_is_either(
    joined: CommandCondition,
    a: CommandCondition,
    b: CommandCondition,
    state: Seq<UiStateAttribute>,
)
    requires
        joined matches CommandCondition::Any(cs) && cs@ == seq![a, b],
    ensures
        holds(joined, state) == (holds(a, state) || holds(b, state)),
{
    if let CommandCondition::Any(cs) = joined {
        let q = cs@;
        assert(q[0] == a && q[1] == b && q.len() == 2);
        assert(holds_any(q, state, 0) == false);
        assert(holds_any(q, state, 1) == holds(a, state));
        assert(holds_any(q, state, 2) == (holds(a, state) || holds(b, state)));
        assert(holds(joined, state) == holds_any(q, state, 2));
    }
}

fn contains_attribute(attrs: &[UiStateAttribute], a: &UiStateAttribute) -> (r: bool)
    ensures
        r == attrs@.contains(*a),
{
    let mut i: usize = 0;
    while i < attrs.len()
        invariant
            i <= attrs@.len(),
            forall|j: int| 0 <= j < i ==> attrs@[j] != *a,
        decreases attrs@.len() - i,
    {
        if attrs[i] == *a {
            return true;
        }
        i = i + 1;
    }
    false
}

fn all_attributes_present(required: &[UiStateAttribute], state: &[UiStateAttribute]) -> (r: bool)
    ensures
        r == all_present(required@, state@),
{
    let mut i: usize = 0;
    while i < required.len()
        invariant
            i <= required@.len(),
            forall|j: int| 0 <= j < i ==> state@.contains(#[trigger] required@[j]),
        decreases required@.len() - i,
    {
        if !contains_attribute(state, &required[i]) {
            return false;
        }
        i = i + 1;
    }
    true
}

impl CommandCondition {
    pub fn eval(&self, state: &UiState) -> (r: bool)
        ensures
            r == holds(*self, ui_state_attributes(*state)),
        decreases self,
    {
        match self {
            CommandCondition::ExactMatch(required_state) => {
                let state_attrs = state.attributes();
                let required_attrs = required_state.attributes();
                state_attrs.len() == required_attrs.len() && all_attributes_present(
                    required_attrs,
                    state_attrs,
                )
            },
            CommandCondition::LooseMatch(required_state) => {
                let state_attrs = state.attributes();
                let required_attrs = required_state.attributes();
                all_attributes_present(required_attrs, state_attrs)
            },
            CommandCondition::Not(inner_condition) => {
                match &**inner_condition {
                    CommandCondition::Not(_) => false,
                    _ => !inner_condition.eval(state),
                }
            },
            CommandCondition::All(conditions) => {
                let ghost s = ui_state_attributes(*state);
                let mut i: usize = 0;
                while i < conditions.len()
                    invariant
                        i <= conditions@.len(),
                        s == ui_state_attributes(*state),
                        *self == CommandCondition::All(*conditions),
                        holds_all(conditions@, s, i as int),
                    decreases conditions@.len() - i,
                {
                    assert(decreases_to!(*self => (*self)->All_0));
                    assert(decreases_to!(*conditions => conditions@));
                    assert(decreases_to!(conditions@ => conditions@[i as int]));
                    if !conditions[i].eval(state) {
                        proof {
                            if holds_all(conditions@, s, conditions@.len() as int) {
                                lemma_all_needs_each(conditions@, s, i as int, conditions@.len() as int);
                            }
                        }
                        return false;
                    }
                    i = i + 1;
                }
                true
            },
            CommandCondition::Any(conditions) => {
                let ghost s = ui_state_attributes(*state);
                let mut i: usize = 0;
                while i < conditions.len()
                    invariant
                        i <= conditions@.len(),
                        s == ui_state_attributes(*state),
                        *self == CommandCondition::Any(*conditions),
                        !holds_any(conditions@, s, i as int),
                    decreases conditions@.len() - i,
                {
                    assert(decreases_to!(*self => (*self)->Any_0));
                    assert(decreases_to!(*conditions => conditions@));
                    assert(decreases_to!(conditions@ => conditions@[i as int]));
                    if conditions[i].eval(state) {
                        proof {
                            lemma_any_from_each(conditions@, s, i as int, conditions@.len() as int);
                        }
                        return true;
                    }
                    i = i + 1;
                }
                false
            },
        }
    }

    pub fn loose_match(attributes: Vec<UiStateAttribute>) -> (r: Self)
        ensures
            r matches CommandCondition::LooseMatch(s) && ui_state_attributes(s) == attributes@,
    {
        Self::LooseMatch(UiState::new(attributes))
    }

    pub fn exact_match(attributes: Vec<UiStateAttribute>) -> (r: Self)
        ensures
            r matches CommandCondition::ExactMatch(s) && ui_state_attributes(s) == attributes@,
    {
        Self::ExactMatch(UiState::new(attributes))
    }

    pub fn or(self, other: Self) -> (r: Self)
        ensures
            r matches CommandCondition::Any(cs) && cs@ == seq![self, other],
    {
        Self::Any(vec![self, other])
    }
}

// ---- the commands themselves ----

/// A named input of a script function.
#[derive(Debug, Clone, Copy, Hash, PartialEq, Eq, Structural)]
pub enum ScriptCallArgument {
    Selection,
}

/// The inputs handed to a script function, in order.
#[verifier::external_body]
#[derive(Debug)]
pub struct ScriptCallArguments(SmallVec<[ScriptCallArgument; 1]>);

/// The arguments a `ScriptCallArguments` holds.
pub uninterp spec fn script_arguments(a: ScriptCallArguments) -> Seq<ScriptCallArgument>;

/// A small vector holding the vector's items in order (smallvec `SmallVec::from_vec`).
#[verifier::external_body]
fn script_arguments_from_vec(v: Vec<ScriptCallArgument>) -> (r: ScriptCallArguments)
    ensures
        script_arguments(r) == v@,
{
    ScriptCallArguments(SmallVec::from_vec(v))
}

impl ScriptCallArguments {
    pub fn new(arguments: Vec<ScriptCallArgument>) -> (r: Self)
        ensures
            script_arguments(r) == arguments@,
    {
        script_arguments_from_vec(arguments)
    }
}

/// A call of a script function by name.
#[derive(Debug)]
pub struct ScriptCall {
    pub func_name: String,
    pub arguments: ScriptCallArguments,
}

/// Where inserted text comes from: given as is, or returned by a script.
#[derive(Debug)]
pub enum TextSource {
    Str(String),
    Script(ScriptCall),
}

/// A node whose meaning is carried by its single child.
#[derive(Debug, Clone, PartialEq, Hash)]
pub struct ForwardToChild<T>(pub T);

/// What a command does.
#[derive(Debug)]
pub enum CommandInstruction {
    ExpandTaskMarker,
    IndentListItem,
    UnindentListItem,
    SplitListItem,
    MarkdownBold,
    MarkdownItalic,
    MarkdownStrikethrough,
    MarkdownCodeBlock(Option<String>),
    MarkdownH1,
    MarkdownH2,
    MarkdownH3,
    SwitchToNote(u8),
    SwitchToSettings,
    PinWindow,
    HideApp,
    ShowSlashPallete,
    EnterInsideKDL,
    BracketAutoclosingInsideKDL,
    ShowPrompt,
    StartWordJump,
    InsertText(ForwardToChild<TextSource>),
}

/// When, in a frame, a command is run.
#[derive(Debug, PartialEq, Eq, Structural, Hash, Copy, Clone)]
pub enum CommandPhase {
    InsideRender,
    RawInputHook,
}

/// The UTF-8 bytes of a piece of text.
pub open spec fn text_bytes(s: &str) -> Seq<u8> {
    utf8_bytes(s@)
}

/// The text shown to the user for a command.
pub open spec fn description_bytes(c: CommandInstruction) -> Seq<u8> {
    match c {
        CommandInstruction::ExpandTaskMarker => text_bytes("Expand Task Marker"),
        CommandInstruction::IndentListItem => text_bytes("Increase List Item identation"),
        CommandInstruction::UnindentListItem => text_bytes("Decrease List Item identation"),
        CommandInstruction::SplitListItem => text_bytes("Split List item at cursor position"),
        CommandInstruction::MarkdownBold => text_bytes("Toggle Bold"),
        CommandInstruction::MarkdownItalic => text_bytes("Toggle Italic"),
        CommandInstruction::MarkdownStrikethrough => text_bytes("Toggle Strikethrough"),
        CommandInstruction::MarkdownCodeBlock(lang) => match lang {
            Some(l) => text_bytes("Toggle Code Block (") + utf8_bytes(l@) + text_bytes(")"),
            None => text_bytes("Toggle Code Block"),
        },
        CommandInstruction::MarkdownH1 => text_bytes("Heading 1"),
        CommandInstruction::MarkdownH2 => text_bytes("Heading 2"),
        CommandInstruction::MarkdownH3 => text_bytes("Heading 3"),
        CommandInstruction::SwitchToNote(n) => text_bytes("Shelf ") + radix_digits((n + 1) as nat, 10),
        CommandInstruction::SwitchToSettings => text_bytes("Open Settings"),
        CommandInstruction::PinWindow => text_bytes("Toggle Always on Top"),
        CommandInstruction::HideApp => text_bytes("Hide Window"),
        CommandInstruction::ShowPrompt => text_bytes("Show AI Prompt"),
        CommandInstruction::StartWordJump => text_bytes(
            "Activates word jump mode for quick navigation to any word using 2-character sequences",
        ),
        CommandInstruction::EnterInsideKDL => text_bytes("Auto indent KDL"),
        CommandInstruction::BracketAutoclosingInsideKDL => text_bytes("Auto closing of '{' inside KDL"),
        CommandInstruction::ShowSlashPallete => text_bytes("Show slash command palette"),
        CommandInstruction::InsertText(ForwardToChild(source)) => match source {
            TextSource::Str(t) => text_bytes("Insert: ") + utf8_bytes(t@),
            TextSource::Script(call) => text_bytes("Insert result from: ") + utf8_bytes(call.func_name@),
        },
    }
}

/// How a command is written in the settings note, for the commands that can
/// be written there.
pub open spec fn kdl_bytes(c: CommandInstruction) -> Option<Seq<u8>> {
    match c {
        CommandInstruction::ExpandTaskMarker | CommandInstruction::IndentListItem
        | CommandInstruction::UnindentListItem | CommandInstruction::SplitListItem
        | CommandInstruction::ShowSlashPallete | CommandInstruction::EnterInsideKDL
        | CommandInstruction::BracketAutoclosingInsideKDL => None,
        CommandInstruction::MarkdownBold => Some(text_bytes("MarkdownBold;")),
        CommandInstruction::MarkdownItalic => Some(text_bytes("MarkdownItalic;")),
        CommandInstruction::MarkdownStrikethrough => Some(text_bytes("MarkdownStrikethrough;")),
        CommandInstruction::MarkdownCodeBlock(lang) => match lang {
            Some(l) => Some(
                text_bytes("MarkdownCodeBlock lang=\"") + utf8_bytes(l@) + text_bytes("\";"),
            ),
            None => Some(text_bytes("MarkdownCodeBlock;")),
        },
        CommandInstruction::MarkdownH1 => Some(text_bytes("MarkdownH1;")),
        CommandInstruction::MarkdownH2 => Some(text_bytes("MarkdownH2;")),
        CommandInstruction::MarkdownH3 => Some(text_bytes("MarkdownH3;")),
        CommandInstruction::SwitchToNote(n) => Some(
            text_bytes("SwitchToNote ") + radix_digits(n as nat, 10) + text_bytes(";"),
        ),
        CommandInstruction::SwitchToSettings => Some(text_bytes("SwitchToSettings;")),
        CommandInstruction::PinWindow => Some(text_bytes("PinWindow;")),
        CommandInstruction::HideApp => Some(text_bytes("HideApp;")),
        CommandInstruction::ShowPrompt => Some(text_bytes("ShowPrompt;")),
        CommandInstruction::StartWordJump => Some(text_bytes("StartWordJump;")),
        CommandInstruction::InsertText(ForwardToChild(source)) => match source {
            TextSource::Str(t) => Some(
                text_bytes("InsertText {\n\tas_is \"") + utf8_bytes(t@) + text_bytes("\"\n}"),
            ),
            TextSource::Script(call) => Some(
                text_bytes("InsertText {\n\t callFunc \"") + utf8_bytes(call.func_name@) + text_bytes(
                    "\"\n}",
                ),
            ),
        },
    }
}

/// The commands that edit the note's text.
pub open spec fn edits_text(c: CommandInstruction) -> bool {
    match c {
        CommandInstruction::SwitchToSettings | CommandInstruction::PinWindow
        | CommandInstruction::HideApp | CommandInstruction::SwitchToNote(_) => false,
        _ => true,
    }
}

/// The attributes of an idle interface with the note editor focused.
pub open spec fn editor_focused() -> Seq<UiStateAttribute> {
    seq![UiStateAttribute::Idle, UiStateAttribute::Focus(AppFocus::NoteEditor)]
}

/// The condition a command gets by default: text-editing commands need an
/// idle interface with the note editor focused and nothing more; opening the
/// settings and pinning the window need an idle interface; hiding the window
/// and switching notes need either of the two exact states.
pub open spec fn default_condition(c: CommandInstruction, cond: CommandCondition) -> bool {
    if edits_text(c) {
        cond matches CommandCondition::ExactMatch(s) && ui_state_attributes(s) == editor_focused()
    } else if c is SwitchToSettings || c is PinWindow {
        cond matches CommandCondition::LooseMatch(s) && ui_state_attributes(s) == seq![UiStateAttribute::Idle]
    } else {
        cond matches CommandCondition::Any(cs) && cs@.len() == 2 && (cs@[0] matches CommandCondition::ExactMatch(a)
            && ui_state_attributes(a) == editor_focused()) && (cs@[1] matches CommandCondition::ExactMatch(b)
            && ui_state_attributes(b) == seq![UiStateAttribute::Idle])
    }
}

/// The states of the interface in which a command runs under its default
/// condition.
pub open spec fn runs_by_default_in(c: CommandInstruction, state: Seq<UiStateAttribute>) -> bool {
    let idle = state.contains(UiStateAttribute::Idle);
    let editor = state.len() == 2 && idle && state.contains(UiStateAttribute::Focus(AppFocus::NoteEditor));
    if edits_text(c) {
        editor
    } else if c is SwitchToSettings || c is PinWindow {
        idle
    } else {
        editor || (state.len() == 1 && idle)
    }
}

/// Under its default condition a command runs exactly in the states
/// `runs_by_default_in` names.
pub proof fn law_default_conditions(c: CommandInstruction, cond: CommandCondition, state: Seq<UiStateAttribute>)
    requires
        default_condition(c, cond),
    ensures
        holds(cond, state) == runs_by_default_in(c, state),
{
    let e = editor_focused();
    let i = seq![UiStateAttribute::Idle];
    assert(all_present(e, state) == (state.contains(UiStateAttribute::Idle) && state.contains(
        UiStateAttribute::Focus(AppFocus::NoteEditor),
    ))) by {
        if state.contains(UiStateAttribute::Idle) && state.contains(UiStateAttribute::Focus(AppFocus::NoteEditor)) {
            assert forall|k: int| 0 <= k < e.len() implies state.contains(#[trigger] e[k]) by {
                if k == 0 {
                } else {
                }
            }
        }
        if all_present(e, state) {
            assert(state.contains(e[0]));
            assert(state.contains(e[1]));
        }
    }
    assert(all_present(i, state) == state.contains(UiStateAttribute::Idle)) by {
        if all_present(i, state) {
            assert(state.contains(i[0]));
        }
    }
    if !edits_text(c) && !(c is SwitchToSettings || c is PinWindow) {
        if let CommandCondition::Any(cs) = cond {
            let q = cs@;
            assert(holds_any(q, state, 0) == false);
            assert(holds_any(q, state, 1) == holds(q[0], state));
            assert(holds_any(q, state, 2) == (holds(q[0], state) || holds(q[1], state)));
        }
    }
}

fn literal(s: &str) -> (r: String)
    ensures
        r@ == s@,
{
    String::from_str(s)
}

fn joined(a: &str, b: &str, c: &str) -> (r: String)
    ensures
        utf8_bytes(r@) == utf8_bytes(a@) + utf8_bytes(b@) + utf8_bytes(c@),
{
    let mut s = String::new();
    append_str(&mut s, a);
    append_str(&mut s, b);
    append_str(&mut s, c);
    assert(utf8_bytes(Seq::<char>::empty()) =~= Seq::<u8>::empty());
    assert(utf8_bytes(s@) =~= utf8_bytes(a@) + utf8_bytes(b@) + utf8_bytes(c@));
    s
}

impl CommandInstruction {
    /// The text shown to the user for this command.
    pub fn human_description(&self) -> (r: String)
        ensures
            utf8_bytes(r@) == description_bytes(*self),
    {
        match self {
            Self::ExpandTaskMarker => literal("Expand Task Marker"),
            Self::IndentListItem => literal("Increase List Item identation"),
            Self::UnindentListItem => literal("Decrease List Item identation"),
            Self::SplitListItem => literal("Split List item at cursor position"),
            Self::MarkdownBold => literal("Toggle Bold"),
            Self::MarkdownItalic => literal("Toggle Italic"),
            Self::MarkdownStrikethrough => literal("Toggle Strikethrough"),
            Self::MarkdownCodeBlock(lang) => match lang {
                Some(language) => joined("Toggle Code Block (", language.as_str(), ")"),
                None => literal("Toggle Code Block"),
            },
            Self::MarkdownH1 => literal("Heading 1"),
            Self::MarkdownH2 => literal("Heading 2"),
            Self::MarkdownH3 => literal("Heading 3"),
            Self::SwitchToNote(n) => {
                let number = format_u32(*n as u32 + 1);
                let r = joined("Shelf ", number.as_str(), "");
                proof {
                    assert(utf8_bytes(""@) =~= Seq::<u8>::empty()) by {
                        reveal_strlit("");
                        assert(""@ =~= Seq::<char>::empty());
                    }
                    assert(utf8_bytes(r@) =~= description_bytes(*self));
                }
                r
            },
            Self::SwitchToSettings => literal("Open Settings"),
            Self::PinWindow => literal("Toggle Always on Top"),
            Self::HideApp => literal("Hide Window"),
            Self::ShowPrompt => literal("Show AI Prompt"),
            Self::StartWordJump => literal(
                "Activates word jump mode for quick navigation to any word using 2-character sequences",
            ),
            Self::EnterInsideKDL => literal("Auto indent KDL"),
            Self::BracketAutoclosingInsideKDL => literal("Auto closing of '{' inside KDL"),
            Self::ShowSlashPallete => literal("Show slash command palette"),
            Self::InsertText(ForwardToChild(source)) => match source {
                TextSource::Str(text) => {
                    let r = joined("Insert: ", text.as_str(), "");
                    proof {
                        assert(utf8_bytes(""@) =~= Seq::<u8>::empty()) by {
                            reveal_strlit("");
                            assert(""@ =~= Seq::<char>::empty());
                        }
                        assert(utf8_bytes(r@) =~= description_bytes(*self));
                    }
                    r
                },
                TextSource::Script(script_call) => {
                    let r = joined("Insert result from: ", script_call.func_name.as_str(), "");
                    proof {
                        assert(utf8_bytes(""@) =~= Seq::<u8>::empty()) by {
                            reveal_strlit("");
                            assert(""@ =~= Seq::<char>::empty());
                        }
                        assert(utf8_bytes(r@) =~= description_bytes(*self));
                    }
                    r
                },
            },
        }
    }

    /// How this command is written in the settings note, or `None` for the
    /// commands that cannot be written there.
    pub fn serialize_to_kdl(&self) -> (r: Option<String>)
        ensures
            r is None <==> kdl_bytes(*self) is None,
            r matches Some(t) ==> Some(utf8_bytes(t@)) == kdl_bytes(*self),
    {
        match self {
            Self::ExpandTaskMarker | Self::IndentListItem | Self::UnindentListItem
            | Self::SplitListItem | Self::ShowSlashPallete | Self::EnterInsideKDL
            | Self::BracketAutoclosingInsideKDL => None,
            Self::MarkdownBold => Some(literal("MarkdownBold;")),
            Self::MarkdownItalic => Some(literal("MarkdownItalic;")),
            Self::MarkdownStrikethrough => Some(literal("MarkdownStrikethrough;")),
            Self::MarkdownCodeBlock(lang) => match lang {
                Some(lang_str) => Some(joined("MarkdownCodeBlock lang=\"", lang_str.as_str(), "\";")),
                None => Some(literal("MarkdownCodeBlock;")),
            },
            Self::MarkdownH1 => Some(literal("MarkdownH1;")),
            Self::MarkdownH2 => Some(literal("MarkdownH2;")),
            Self::MarkdownH3 => Some(literal("MarkdownH3;")),
            Self::SwitchToNote(n) => {
                let number = format_u32(*n as u32);
                Some(joined("SwitchToNote ", number.as_str(), ";"))
            },
            Self::SwitchToSettings => Some(literal("SwitchToSettings;")),
            Self::PinWindow => Some(literal("PinWindow;")),
            Self::HideApp => Some(literal("HideApp;")),
            Self::ShowPrompt => Some(literal("ShowPrompt;")),
            Self::StartWordJump => Some(literal("StartWordJump;")),
            Self::InsertText(ForwardToChild(source)) => match source {
                TextSource::Str(text) => Some(
                    joined("InsertText {\n\tas_is \"", text.as_str(), "\"\n}"),
                ),
                TextSource::Script(script) => Some(
                    joined("InsertText {\n\t callFunc \"", script.func_name.as_str(), "\"\n}"),
                ),
            },
        }
    }

    /// When the command runs by default and in which states of the user
    /// interface it may run.
    pub fn default_phase_and_conditions(&self) -> (r: (CommandPhase, CommandCondition))
        ensures
            r.0 == CommandPhase::InsideRender,
            default_condition(*self, r.1),
    {
        match self {
            Self::SwitchToSettings | Self::PinWindow => {
                let cond = CommandCondition::loose_match(vec![UiStateAttribute::Idle]);
                proof {
                    if let CommandCondition::LooseMatch(s) = &cond {
                        assert(ui_state_attributes(*s) =~= seq![UiStateAttribute::Idle]);
                    }
                }
                (CommandPhase::InsideRender, cond)
            },
            Self::HideApp | Self::SwitchToNote(_) => {
                let cond = CommandCondition::exact_match(
                    vec![UiStateAttribute::Idle, UiStateAttribute::Focus(AppFocus::NoteEditor)],
                ).or(CommandCondition::exact_match(vec![UiStateAttribute::Idle]));
                proof {
                    if let CommandCondition::Any(cs) = &cond {
                        if let CommandCondition::ExactMatch(a) = &cs@[0] {
                            assert(ui_state_attributes(*a) =~= editor_focused());
                        }
                        if let CommandCondition::ExactMatch(b) = &cs@[1] {
                            assert(ui_state_attributes(*b) =~= seq![UiStateAttribute::Idle]);
                        }
                    }
                }
                (CommandPhase::InsideRender, cond)
            },
            _ => {
                let cond = CommandCondition::exact_match(
                    vec![UiStateAttribute::Idle, UiStateAttribute::Focus(AppFocus::NoteEditor)],
                );
                proof {
                    if let CommandCondition::ExactMatch(a) = &cond {
                        assert(ui_state_attributes(*a) =~= editor_focused());
                    }
                }
                (CommandPhase::InsideRender, cond)
            },
        }
    }
}

} // verus!
