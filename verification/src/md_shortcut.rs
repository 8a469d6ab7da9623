//! A small instruction language for markdown shortcuts (bold, italic, ...):
//! instructions read the selection and its surroundings from a context and
//! build the replacement text, with selection-edge markers where the cursor goes.
use vstd::prelude::*;
use crate::text_bytes::{utf8_bytes, bytes_end_with, bytes_start_with, ends_with_bytes, starts_with_bytes};
use crate::text_structure::SpanKind;

verus! {

#[derive(Debug, Clone, Copy, PartialEq, Eq, Structural)]
pub enum Edge {
    Start,
    End,
}

/// Where a piece of text is read from, relative to the selection.
#[derive(Debug, PartialEq, Eq, Clone, Copy, Structural)]
pub enum Source {
    Selection,
    BeforeSelection,
    AfterSelection,
    SurroundingSpanContent(SpanKind),
}

pub enum InstructionCondition {
    IsInside(SpanKind),
    IsInsideUnmarkedArea,
    IsNoneOrEmpty(Source),
    EndsWith(Source, &'static str),
    StartsWith(Source, &'static str),
    Any(Vec<InstructionCondition>),
}

pub enum Instruction {
    Insert(&'static str),
    PlaceCursor(Edge),
    SetReplaceArea(SpanKind),
    CopyFrom(Source),
    Sequence(Vec<Instruction>),
    Condition { cond: InstructionCondition, if_true: Box<Instruction>, if_false: Box<Instruction> },
    MatchFirst(Vec<(InstructionCondition, Instruction)>),
}

impl Instruction {
    pub fn condition(cond: InstructionCondition, if_true: Instruction, if_false: Instruction) -> (r:
        Instruction)
        ensures
            r == (Instruction::Condition {
                cond,
                if_true: Box::new(if_true),
                if_false: Box::new(if_false),
            }),
    {
        Instruction::Condition { cond, if_true: Box::new(if_true), if_false: Box::new(if_false) }
    }

    pub fn sequence(seq: Vec<Instruction>) -> (r: Instruction)
        ensures
            r == Instruction::Sequence(seq),
    {
        Instruction::Sequence(seq)
    }
}

/// What an instruction can ask about the text around the selection.
pub trait ShortcutContext<'a>: Sized {
    /// The text a source denotes, if it exists.
    spec fn source_spec(&self, source: Source) -> Option<Seq<char>>;

    spec fn inside_spec(&self, kind: SpanKind) -> bool;

    spec fn unmarked_spec(&self) -> bool;

    /// The context after the replace area is set to the span of `kind`.
    spec fn with_replace_area(&self, kind: SpanKind) -> Self;

    fn get_source(&self, source: Source) -> (r: Option<&'a str>)
        ensures
            r is Some <==> self.source_spec(source) is Some,
            r matches Some(s) ==> self.source_spec(source) == Some(s@),
    ;

    fn is_inside_span(&self, kind: SpanKind) -> (b: bool)
        ensures
            b == self.inside_spec(kind),
    ;

    fn is_inside_unmarked(&self) -> (b: bool)
        ensures
            b == self.unmarked_spec(),
    ;

    fn set_replace_area(&mut self, kind: SpanKind)
        ensures
            *final(self) == old(self).with_replace_area(kind),
    ;
}

#[derive(Debug, PartialEq, Eq)]
pub struct ShortcutResult {
    pub content: String,
}

/// Characters of the selection-edge marker `{|}`.
pub open spec fn edge_chars() -> Seq<char> {
    seq!['{', '|', '}']
}

/// The value of a condition: `None` when it reads a source that does not exist
/// (an `Any` stops at the first such condition unless an earlier one held).
pub open spec fn cond_spec<'a, C: ShortcutContext<'a>>(cx: C, cond: InstructionCondition) -> Option<
    bool,
>
    decreases cond, 0int,
{
    match cond {
        InstructionCondition::IsInside(k) => Some(cx.inside_spec(k)),
        InstructionCondition::IsInsideUnmarkedArea => Some(cx.unmarked_spec()),
        InstructionCondition::IsNoneOrEmpty(src) => Some(
            match cx.source_spec(src) {
                None => true,
                Some(s) => s.len() == 0,
            },
        ),
        InstructionCondition::EndsWith(src, pat) => match cx.source_spec(src) {
            None => None,
            Some(s) => Some(bytes_end_with(utf8_bytes(s), utf8_bytes(pat@))),
        },
        InstructionCondition::StartsWith(src, pat) => match cx.source_spec(src) {
            None => None,
            Some(s) => Some(bytes_start_with(utf8_bytes(s), utf8_bytes(pat@))),
        },
        InstructionCondition::Any(conds) => any_cond_spec(cx, conds@, 0),
    }
}

pub open spec fn any_cond_spec<'a, C: ShortcutContext<'a>>(
    cx: C,
    conds: Seq<InstructionCondition>,
    i: int,
) -> Option<bool>
    decreases conds, conds.len() - i,
{
    if i < 0 || i >= conds.len() {
        Some(false)
    } else {
        match cond_spec(cx, conds[i]) {
            None => None,
            Some(true) => Some(true),
            Some(false) => any_cond_spec(cx, conds, i + 1),
        }
    }
}

proof fn lemma_any_from<'a, C: ShortcutContext<'a>>(cx: C, cs: Seq<InstructionCondition>, i: int)
    requires
        0 <= i <= cs.len(),
    ensures
        forall|j: int|
            i <= j < cs.len() && cond_spec(cx, cs[j]) == Some(true) && (forall|k: int|
                i <= k < j ==> cond_spec(cx, #[trigger] cs[k]) == Some(false)) ==> any_cond_spec(cx, cs, i)
                == Some(true),
        (forall|k: int| i <= k < cs.len() ==> cond_spec(cx, #[trigger] cs[k]) == Some(false)) ==> any_cond_spec(
            cx,
            cs,
            i,
        ) == Some(false),
        forall|j: int|
            i <= j < cs.len() && cond_spec(cx, cs[j]) is None && (forall|k: int|
                i <= k < j ==> cond_spec(cx, #[trigger] cs[k]) == Some(false)) ==> any_cond_spec(cx, cs, i)
                is None,
    decreases cs.len() - i,
{
    if i < cs.len() {
        lemma_any_from(cx, cs, i + 1);
        assert forall|j: int|
            i <= j < cs.len() && cond_spec(cx, cs[j]) == Some(true) && (forall|k: int|
                i <= k < j ==> cond_spec(cx, #[trigger] cs[k]) == Some(false)) implies any_cond_spec(cx, cs, i)
                == Some(true) by {
            if j > i {
                assert(cond_spec(cx, cs[i]) == Some(false));
            }
        }
        assert forall|j: int|
            i <= j < cs.len() && cond_spec(cx, cs[j]) is None && (forall|k: int|
                i <= k < j ==> cond_spec(cx, #[trigger] cs[k]) == Some(false)) implies any_cond_spec(cx, cs, i)
                is None by {
            if j > i {
                assert(cond_spec(cx, cs[i]) == Some(false));
            }
        }
        if forall|k: int| i <= k < cs.len() ==> cond_spec(cx, #[trigger] cs[k]) == Some(false) {
            assert(cond_spec(cx, cs[i]) == Some(false));
        }
    }
}

/// An `Any` condition holds as soon as one of its conditions holds, all the
/// conditions before it failing; it fails when every condition fails; and it
/// cannot be judged when the first condition that does not fail cannot be.
pub proof fn law_any_condition<'a, C: ShortcutContext<'a>>(cx: C, cs: Vec<InstructionCondition>)
    ensures
        forall|j: int|
            0 <= j < cs@.len() && cond_spec(cx, cs@[j]) == Some(true) && (forall|k: int|
                0 <= k < j ==> cond_spec(cx, #[trigger] cs@[k]) == Some(false)) ==> cond_spec(
                cx,
                InstructionCondition::Any(cs),
            ) == Some(true),
        (forall|k: int| 0 <= k < cs@.len() ==> cond_spec(cx, #[trigger] cs@[k]) == Some(false)) ==> cond_spec(
            cx,
            InstructionCondition::Any(cs),
        ) == Some(false),
        forall|j: int|
            0 <= j < cs@.len() && cond_spec(cx, cs@[j]) is None && (forall|k: int|
                0 <= k < j ==> cond_spec(cx, #[trigger] cs@[k]) == Some(false)) ==> cond_spec(
                cx,
                InstructionCondition::Any(cs),
            ) is None,
{
    lemma_any_from(cx, cs@, 0);
}

/// Running an instruction on a context with text `acc` built so far: whether
/// it succeeded, the text built (text appended before a failure stays), and
/// the context afterwards.
pub open spec fn instr_spec<'a, C: ShortcutContext<'a>>(
    cx: C,
    acc: Seq<char>,
    ins: Instruction,
) -> (bool, Seq<char>, C)
    decreases ins, 0int,
{
    match ins {
        Instruction::Insert(s) => (true, acc + s@, cx),
        Instruction::PlaceCursor(_) => (true, acc + edge_chars(), cx),
        Instruction::SetReplaceArea(k) => (true, acc, cx.with_replace_area(k)),
        Instruction::CopyFrom(src) => match cx.source_spec(src) {
            None => (false, acc, cx),
            Some(t) => (true, acc + t, cx),
        },
        Instruction::Sequence(v) => seq_instr_spec(cx, acc, v@, 0),
        Instruction::Condition { cond, if_true, if_false } => match cond_spec(cx, cond) {
            None => (false, acc, cx),
            Some(b) => if b {
                instr_spec(cx, acc, *if_true)
            } else {
                instr_spec(cx, acc, *if_false)
            },
        },
        Instruction::MatchFirst(pairs) => match_first_spec(cx, acc, pairs@, 0),
    }
}

/// Running instructions `v[i..]` in order, stopping at the first failure.
pub open spec fn seq_instr_spec<'a, C: ShortcutContext<'a>>(
    cx: C,
    acc: Seq<char>,
    v: Seq<Instruction>,
    i: int,
) -> (bool, Seq<char>, C)
    decreases v, v.len() - i,
{
    if i < 0 || i >= v.len() {
        (true, acc, cx)
    } else {
        let r = instr_spec(cx, acc, v[i]);
        if !r.0 {
            r
        } else {
            seq_instr_spec(r.2, r.1, v, i + 1)
        }
    }
}

/// Running the instruction of the first pair whose condition holds; a failure
/// inside it is not reported, and no holding condition means nothing is done.
pub open spec fn match_first_spec<'a, C: ShortcutContext<'a>>(
    cx: C,
    acc: Seq<char>,
    pairs: Seq<(InstructionCondition, Instruction)>,
    i: int,
) -> (bool, Seq<char>, C)
    decreases pairs, pairs.len() - i,
{
    if i < 0 || i >= pairs.len() {
        (true, acc, cx)
    } else if cond_spec(cx, pairs[i].0) == Some(true) {
        let r = instr_spec(cx, acc, pairs[i].1);
        (true, r.1, r.2)
    } else {
        match_first_spec(cx, acc, pairs, i + 1)
    }
}

fn eval_condition<'a, C: ShortcutContext<'a>>(cond: &InstructionCondition, cx: &C) -> (r: Option<
    bool,
>)
    ensures
        r == cond_spec(*cx, *cond),
    decreases cond,
{
    match cond {
        InstructionCondition::IsNoneOrEmpty(source) => {
            match cx.get_source(*source) {
                None => Some(true),
                Some(s) => Some(s.is_empty()),
            }
        },
        InstructionCondition::EndsWith(source, pattern) => {
            let s = cx.get_source(*source)?;
            Some(ends_with_bytes(s.as_bytes(), pattern.as_bytes()))
        },
        InstructionCondition::StartsWith(source, pattern) => {
            let s = cx.get_source(*source)?;
            Some(starts_with_bytes(s.as_bytes(), pattern.as_bytes()))
        },
        InstructionCondition::Any(conditions) => {
            let mut i: usize = 0;
            while i < conditions.len()
                invariant
                    i <= conditions@.len(),
                    *cond == InstructionCondition::Any(*conditions),
                    any_cond_spec(*cx, conditions@, 0) == any_cond_spec(*cx, conditions@, i as int),
                decreases conditions@.len() - i,
            {
                proof {
                    assert(decreases_to!(*cond => *conditions));
                    assert(decreases_to!(*conditions => conditions@));
                    assert(decreases_to!(conditions@ => conditions@[i as int]));
                    assert(decreases_to!(*cond => conditions@[i as int]));
                }
                let c = eval_condition(&conditions[i], cx);
                match c {
                    None => {
                        return None;
                    },
                    Some(true) => {
                        return Some(true);
                    },
                    Some(false) => {},
                }
                i = i + 1;
            }
            Some(false)
        },
        InstructionCondition::IsInside(kind) => Some(cx.is_inside_span(*kind)),
        InstructionCondition::IsInsideUnmarkedArea => Some(cx.is_inside_unmarked()),
    }
}

fn eval_instruction<'a, C: ShortcutContext<'a>>(
    result: &mut String,
    cx: &mut C,
    instruction: &Instruction,
) -> (r: Option<()>)
    ensures
        (r is Some, final(result)@, *final(cx)) == instr_spec(*old(cx), old(result)@, *instruction),
    decreases instruction,
{
    match instruction {
        Instruction::Insert(s) => {
            result.append(s);
        },
        Instruction::CopyFrom(source) => {
            let source_str = cx.get_source(*source)?;
            result.append(source_str);
        },
        Instruction::PlaceCursor(_) => {
            result.append("{|}");
            proof {
                reveal_strlit("{|}");
            }
            assert("{|}"@ =~= edge_chars());
        },
        Instruction::Sequence(seq) => {
            let mut i: usize = 0;
            while i < seq.len()
                invariant
                    i <= seq@.len(),
                    *instruction == Instruction::Sequence(*seq),
                    seq_instr_spec(*old(cx), old(result)@, seq@, 0) == seq_instr_spec(
                        *cx,
                        result@,
                        seq@,
                        i as int,
                    ),
                decreases seq@.len() - i,
            {
                proof {
                    assert(decreases_to!(*instruction => (*instruction)->Sequence_0));
                    assert(decreases_to!(*instruction => *seq));
                    assert(decreases_to!(*seq => seq@));
                    assert(decreases_to!(seq@ => seq@[i as int]));
                    assert(decreases_to!(*instruction => seq@[i as int]));
                }
                let step = eval_instruction(result, cx, &seq[i]);
                if step.is_none() {
                    return None;
                }
                i = i + 1;
            }
        },
        Instruction::Condition { cond, if_true, if_false } => {
            let cond_res = eval_condition(cond, cx)?;
            if cond_res {
                eval_instruction(result, cx, if_true)?;
            } else {
                eval_instruction(result, cx, if_false)?;
            }
        },
        Instruction::MatchFirst(pairs) => {
            let mut i: usize = 0;
            while i < pairs.len()
                invariant
                    i <= pairs@.len(),
                    *instruction == Instruction::MatchFirst(*pairs),
                    *cx == *old(cx),
                    result@ == old(result)@,
                    match_first_spec(*old(cx), old(result)@, pairs@, 0) == match_first_spec(
                        *cx,
                        result@,
                        pairs@,
                        i as int,
                    ),
                decreases pairs@.len() - i,
            {
                let holds = match eval_condition(&pairs[i].0, cx) {
                    Some(b) => b,
                    None => false,
                };
                if holds {
                    proof {
                        assert(decreases_to!(*instruction => (*instruction)->MatchFirst_0));
                        assert(decreases_to!(*instruction => *pairs));
                        assert(decreases_to!(*pairs => pairs@));
                        assert(decreases_to!(pairs@ => pairs@[i as int]));
                        assert(decreases_to!(pairs@[i as int] => pairs@[i as int].1));
                        assert(decreases_to!(*instruction => pairs@[i as int].1));
                    }
                    let _ = eval_instruction(result, cx, &pairs[i].1);
                    return Some(());
                }
                i = i + 1;
            }
        },
        Instruction::SetReplaceArea(kind) => cx.set_replace_area(*kind),
    }
    Some(())
}

/// Runs an instruction against a context: the text it builds, or `None` when
/// it reads a source that does not exist.
pub fn execute_instruction<'a, C: ShortcutContext<'a>>(cx: &mut C, instruction: &Instruction) -> (r:
    Option<ShortcutResult>)
    ensures
        instr_spec(*old(cx), Seq::empty(), *instruction).0 <==> r is Some,
        r matches Some(res) ==> res.content@ == instr_spec(
            *old(cx),
            Seq::empty(),
            *instruction,
        ).1,
        *final(cx) == instr_spec(*old(cx), Seq::empty(), *instruction).2,
{
    let mut result = String::new();
    eval_instruction(&mut result, cx, instruction)?;
    Some(ShortcutResult { content: result })
}

/// A context that answers from listed values: the text of each source, the
/// span kinds the selection is inside of, and whether it lies outside any
/// marked span; it remembers the last replace area asked for.
pub struct ListedShortcutContext<'a> {
    pub sources: Vec<(Source, &'a str)>,
    pub inside: Vec<SpanKind>,
    pub unmarked: bool,
    pub replace_area: Option<SpanKind>,
}

/// The text listed for the first entry of `source`.
pub open spec fn listed_source<'a>(sources: Seq<(Source, &'a str)>, source: Source, i: int) -> Option<
    Seq<char>,
>
    decreases sources.len() - i,
{
    if i < 0 || i >= sources.len() {
        None
    } else if sources[i].0 == source {
        Some(sources[i].1@)
    } else {
        listed_source(sources, source, i + 1)
    }
}

impl<'a> ListedShortcutContext<'a> {
    pub fn new(sources: Vec<(Source, &'a str)>) -> (r: Self)
        ensures
            r.sources == sources,
            r.inside@.len() == 0,
            !r.unmarked,
            r.replace_area is None,
    {
        ListedShortcutContext { sources, inside: Vec::new(), unmarked: false, replace_area: None }
    }
}

impl<'a> ShortcutContext<'a> for ListedShortcutContext<'a> {
    open spec fn source_spec(&self, source: Source) -> Option<Seq<char>> {
        listed_source(self.sources@, source, 0)
    }

    open spec fn inside_spec(&self, kind: SpanKind) -> bool {
        self.inside@.contains(kind)
    }

    open spec fn unmarked_spec(&self) -> bool {
        self.unmarked
    }

    open spec fn with_replace_area(&self, kind: SpanKind) -> Self {
        ListedShortcutContext {
            sources: self.sources,
            inside: self.inside,
            unmarked: self.unmarked,
            replace_area: Some(kind),
        }
    }

    fn get_source(&self, source: Source) -> (r: Option<&'a str>) {
        let mut i: usize = 0;
        while i < self.sources.len()
            invariant
                i <= self.sources@.len(),
                listed_source(self.sources@, source, 0) == listed_source(
                    self.sources@,
                    source,
                    i as int,
                ),
            decreases self.sources@.len() - i,
        {
            if self.sources[i].0 == source {
                return Some(self.sources[i].1);
            }
            i = i + 1;
        }
        None
    }

    fn is_inside_span(&self, kind: SpanKind) -> (b: bool) {
        let mut i: usize = 0;
        while i < self.inside.len()
            invariant
                i <= self.inside@.len(),
                forall|k: int| 0 <= k < i ==> self.inside@[k] != kind,
            decreases self.inside@.len() - i,
        {
            if self.inside[i] == kind {
                assert(self.inside@[i as int] == kind);
                return true;
            }
            i = i + 1;
        }
        false
    }

    fn is_inside_unmarked(&self) -> (b: bool) {
        self.unmarked
    }

    fn set_replace_area(&mut self, kind: SpanKind) {
        self.replace_area = Some(kind);
    }
}

} // verus!
