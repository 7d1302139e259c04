//! The entry grammar as a state machine over a character sequence.
//!
//! Positions are indices into the sequence. A state says where the text
//! still to be read begins and what the machine is in the middle of; a step
//! maps a state to the next one and to at most one part.

use vstd::prelude::*;
use crate::entry::annotation::{AnnotationKind, AnnotationView};
use crate::entry::gender::Gender;
use crate::entry::placeholder::{Case, Placeholder};
use crate::lexer::LiteralMarker;
use crate::text::{
    byte_offset, first_stop, lemma_first_stop, lemma_matching_close, matching_close, Stop,
};

verus! {

/// The mathematical content of a part.
pub enum PartView {
    Keyword(Seq<char>),
    Extra(Seq<PartView>),
    VariantSeparator,
    Placeholder(Placeholder),
    Annotation(AnnotationView),
    Gender(Gender),
}

/// Why a text is not an entry.
#[derive(Debug, PartialEq, Eq, Hash, Clone, Copy, Structural)]
pub enum GrammarError {
    /// A literal span was opened at byte `position` and never closed.
    UnclosedLiteral { bracket: LiteralMarker, position: usize },
    /// A parenthesis was opened and never closed.
    UnclosedParenthesis,
    /// The character `ch` at byte `position` has no rule where it stands.
    UnmatchedSpecialChar { ch: char, position: usize },
    /// The text ends right after the bracket that opens a placeholder's case.
    UnfinishedPlaceholderCase,
}

/// Which of the two placeholders with an optional case was read.
#[derive(Debug, PartialEq, Eq, Hash, Clone, Copy, Structural)]
pub enum Slot {
    Thing,
    Reflexive,
}

impl Slot {
    /// The placeholder of this kind with the given case.
    pub open spec fn with(self, case: Option<Case>) -> Placeholder {
        match self {
            Slot::Thing => Placeholder::Thing(case),
            Slot::Reflexive => Placeholder::Reflexive(case),
        }
    }

    /// The placeholder of this kind with the given case.
    pub fn fill(self, case: Option<Case>) -> (p: Placeholder)
        ensures
            p == self.with(case),
    {
        match self {
            Slot::Thing => Placeholder::Thing(case),
            Slot::Reflexive => Placeholder::Reflexive(case),
        }
    }
}

/// The default state: the text from `pos` on is still to be read.
pub struct BaseSpec {
    pub pos: int,
    /// The machine reads the inside of a parenthesised group.
    pub nested: bool,
    /// The closing parenthesis of that group has been read.
    pub done: bool,
}

/// What the machine is in the middle of.
pub enum StateSpec {
    Base(BaseSpec),
    /// A group was opened; its inside begins at `inner`.
    Extra { inner: int, nested: bool },
    /// `etw.` or `sich` was read; a bracketed case may follow.
    Placeholder { base: BaseSpec, slot: Slot },
    /// An annotation was opened just before `base.pos`.
    Annotation { kind: AnnotationKind, base: BaseSpec },
    /// A brace was opened just before `base.pos`.
    Curly { base: BaseSpec },
    /// A word that began at `start` holds a parenthesis; the scan for its
    /// end goes on at `search_at`.
    KeywordParens { start: int, nested: bool, search_at: int, closed: bool },
}

/// How a parse ends: the parts read and the position after them.
pub type Outcome = Result<(Seq<PartView>, int), GrammarError>;

/// What a step yields: the next state and at most one part, or the end
/// of the run with the position at which it stopped.
pub enum StepSpec {
    Keep(StateSpec, Option<PartView>),
    Done(Result<int, GrammarError>),
}

/// The characters that end a word: inside a group the closing parenthesis
/// is one of them.
pub open spec fn stop_for(nested: bool) -> Stop {
    if nested {
        Stop::SpecialOrClose
    } else {
        Stop::Special
    }
}

/// The person placeholder that a word stands for, if it is one.
pub open spec fn person_case(word: Seq<char>) -> Option<Case> {
    if word == seq!['j', 'd', '.'] {
        Some(Case::Nominative)
    } else if word == seq!['j', 'd', 'n', '.'] {
        Some(Case::Accusative)
    } else if word == seq!['j', 'd', 'm', '.'] {
        Some(Case::Dative)
    } else if word == seq!['j', 'd', 's', '.'] {
        Some(Case::Genitive)
    } else {
        None
    }
}

/// The placeholder with an optional case that a word stands for, if it is
/// one.
pub open spec fn slot_of(word: Seq<char>) -> Option<Slot> {
    if word == seq!['e', 't', 'w', '.'] {
        Some(Slot::Thing)
    } else if word == seq!['s', 'i', 'c', 'h'] {
        Some(Slot::Reflexive)
    } else {
        None
    }
}

/// What a finished word becomes; `base` is the state after it.
pub open spec fn word_step(word: Seq<char>, base: BaseSpec) -> StepSpec {
    match person_case(word) {
        Some(case) => StepSpec::Keep(
            StateSpec::Base(base),
            Some(PartView::Placeholder(Placeholder::Person(case))),
        ),
        None => match slot_of(word) {
            Some(slot) => StepSpec::Keep(StateSpec::Placeholder { base, slot }, None),
            None => StepSpec::Keep(StateSpec::Base(base), Some(PartView::Keyword(word))),
        },
    }
}

/// A parenthesis at `i` opens a group if it stands at the beginning of
/// the text or of a group, or right behind a space.
pub open spec fn opens_group(s: Seq<char>, i: int) -> bool {
    i == 0 || s[i - 1] == ' ' || s[i - 1] == '('
}

/// A step from the default state: up to the next character that ends a
/// word. A word in front of it becomes a part or leads to the placeholder
/// state; a space is passed over; a slash is the separator; a bracket or
/// a brace leads to the state that reads up to its closer; a parenthesis
/// opens a group or belongs to a word; the parenthesis that closes the
/// group around ends the run.
pub open spec fn base_step(s: Seq<char>, b: BaseSpec) -> StepSpec {
    let len = s.len() as int;
    if b.pos >= len || b.done {
        StepSpec::Done(
            if b.nested && !b.done {
                Err(GrammarError::UnclosedParenthesis)
            } else {
                Ok(b.pos)
            },
        )
    } else {
        let i = first_stop(s, b.pos, stop_for(b.nested));
        let word = s.subrange(b.pos, i);
        let after = BaseSpec { pos: i + 1, ..b };
        if i >= len {
            word_step(word, BaseSpec { pos: len, ..b })
        } else if s[i] == ' ' {
            if i == b.pos {
                StepSpec::Keep(StateSpec::Base(after), None)
            } else {
                word_step(word, after)
            }
        } else if s[i] == '/' {
            if i == b.pos {
                StepSpec::Keep(StateSpec::Base(after), Some(PartView::VariantSeparator))
            } else {
                word_step(word, BaseSpec { pos: i, ..b })
            }
        } else if s[i] == '[' || s[i] == '<' || s[i] == '{' {
            if i != b.pos {
                word_step(word, BaseSpec { pos: i, ..b })
            } else if s[i] == '[' {
                StepSpec::Keep(
                    StateSpec::Annotation { kind: AnnotationKind::Explanation, base: after },
                    None,
                )
            } else if s[i] == '<' {
                StepSpec::Keep(
                    StateSpec::Annotation { kind: AnnotationKind::Alternative, base: after },
                    None,
                )
            } else {
                StepSpec::Keep(StateSpec::Curly { base: after }, None)
            }
        } else if s[i] == '(' {
            if opens_group(s, i) {
                StepSpec::Keep(StateSpec::Extra { inner: i + 1, nested: b.nested }, None)
            } else {
                StepSpec::Keep(
                    StateSpec::KeywordParens {
                        start: b.pos,
                        nested: b.nested,
                        search_at: i + 1,
                        closed: false,
                    },
                    None,
                )
            }
        } else if i == b.pos {
            StepSpec::Done(Ok(i + 1))
        } else {
            word_step(word, BaseSpec { pos: i + 1, nested: b.nested, done: true })
        }
    }
}

/// Where the bracket of a placeholder's case stands: directly at `pos`, or
/// behind one character that takes a single byte.
pub open spec fn case_bracket(s: Seq<char>, pos: int) -> Option<int> {
    if pos < s.len() && s[pos] == '[' {
        Some(pos)
    } else if pos + 1 < s.len() && (s[pos] as u32) < 0x80 && s[pos + 1] == '[' {
        Some(pos + 1)
    } else {
        None
    }
}

/// The case that the four characters from `q` on name: a code of three
/// letters and a full stop.
pub open spec fn case_code(s: Seq<char>, q: int) -> Option<Case> {
    if q + 4 > s.len() || s[q + 3] != '.' {
        None
    } else {
        Case::of_code(s.subrange(q, q + 3))
    }
}

/// A step behind `etw.` or `sich`: a bracket, a case code with or without
/// a plus sign in front of it, and the closing bracket belong to the
/// placeholder and are passed over. Anything else leaves the placeholder
/// without a case and the text as it is; only a text that ends right
/// behind the bracket is an error.
pub open spec fn placeholder_step(s: Seq<char>, base: BaseSpec, slot: Slot) -> StepSpec {
    let len = s.len() as int;
    let bare = Some(PartView::Placeholder(slot.with(None)));
    let reset = StepSpec::Keep(StateSpec::Base(base), bare);
    match case_bracket(s, base.pos) {
        None => reset,
        Some(j) => if j + 1 >= len {
            StepSpec::Done(Err(GrammarError::UnfinishedPlaceholderCase))
        } else {
            let q = if s[j + 1] == '+' {
                j + 2
            } else {
                j + 1
            };
            match case_code(s, q) {
                Some(case) => if q + 4 < len && s[q + 4] == ']' {
                    StepSpec::Keep(
                        StateSpec::Base(BaseSpec { pos: q + 5, ..base }),
                        Some(PartView::Placeholder(slot.with(Some(case)))),
                    )
                } else {
                    reset
                },
                None => reset,
            }
        },
    }
}

/// The brackets that enclose an annotation of this kind.
pub open spec fn annotation_marker(kind: AnnotationKind) -> LiteralMarker {
    if kind == AnnotationKind::Alternative {
        LiteralMarker::Angle
    } else {
        LiteralMarker::Square
    }
}

/// The first character from `from` on that ends a word and is neither
/// `open` nor `close`, or the length of `s`.
pub open spec fn first_foreign(s: Seq<char>, from: int, stop: Stop, open: char, close: char) -> int
    decreases s.len() - from,
{
    if from >= s.len() {
        s.len() as int
    } else if s[from] != open && s[from] != close && stop.has(s[from]) {
        from
    } else {
        first_foreign(s, from + 1, stop, open, close)
    }
}

/// A step behind the bracket that opens an annotation: up to the closer
/// that matches it, where brackets of the same kind may stand one inside
/// the other. Without such a closer the bracket begins a plain word, which
/// ends at the first character that ends a word.
pub open spec fn annotation_step(s: Seq<char>, kind: AnnotationKind, base: BaseSpec) -> StepSpec {
    let len = s.len() as int;
    let m = annotation_marker(kind);
    let end = matching_close(s, base.pos, m.opener(), m.closer(), 1);
    if end < len {
        StepSpec::Keep(
            StateSpec::Base(BaseSpec { pos: end + 1, ..base }),
            Some(
                PartView::Annotation(AnnotationView { value: s.subrange(base.pos, end), kind }),
            ),
        )
    } else {
        let j = first_foreign(s, base.pos, stop_for(base.nested), m.opener(), m.closer());
        StepSpec::Keep(
            StateSpec::Base(BaseSpec { pos: j, ..base }),
            Some(PartView::Keyword(s.subrange(base.pos - 1, j))),
        )
    }
}

/// What the text between two braces stands for.
pub open spec fn curly_part(text: Seq<char>) -> Option<PartView> {
    if text == seq!['m'] {
        Some(PartView::Gender(Gender::Masculine))
    } else if text == seq!['f'] {
        Some(PartView::Gender(Gender::Feminine))
    } else if text == seq!['n'] {
        Some(PartView::Gender(Gender::Neutral))
    } else if text == seq!['p', 'l'] || text == seq!['p', 'l', '.'] {
        Some(
            PartView::Annotation(
                AnnotationView { value: "nur plural"@, kind: AnnotationKind::Number },
            ),
        )
    } else if text == seq!['s', 'g'] || text == seq!['s', 'g', '.'] {
        Some(
            PartView::Annotation(
                AnnotationView { value: "singular"@, kind: AnnotationKind::Number },
            ),
        )
    } else {
        None
    }
}

/// A step behind an opening brace: up to the next closing brace, which
/// has to be there.
pub open spec fn curly_step(s: Seq<char>, base: BaseSpec) -> StepSpec {
    let end = first_stop(s, base.pos, Stop::Only('}'));
    if end >= s.len() {
        StepSpec::Done(
            Err(
                GrammarError::UnclosedLiteral {
                    bracket: LiteralMarker::Curly,
                    position: byte_offset(s, base.pos - 1),
                },
            ),
        )
    } else {
        StepSpec::Keep(
            StateSpec::Base(BaseSpec { pos: end + 1, ..base }),
            curly_part(s.subrange(base.pos, end)),
        )
    }
}

/// A step in a word that holds a parenthesis: first up to the closing
/// parenthesis, then up to the end of the word. Outside a group the
/// parenthetical may hold anything; inside a group a character that ends a
/// word is an error there.
pub open spec fn keyword_parens_step(
    s: Seq<char>,
    start: int,
    nested: bool,
    search_at: int,
    closed: bool,
) -> StepSpec {
    let len = s.len() as int;
    let stop = if closed || nested {
        stop_for(nested)
    } else {
        Stop::Only(')')
    };
    let i = first_stop(s, search_at, stop);
    if closed {
        StepSpec::Keep(
            StateSpec::Base(BaseSpec { pos: i, nested, done: false }),
            Some(PartView::Keyword(s.subrange(start, i))),
        )
    } else if i >= len {
        StepSpec::Done(Err(GrammarError::UnclosedParenthesis))
    } else if s[i] == ')' {
        StepSpec::Keep(
            StateSpec::KeywordParens { start, nested, search_at: i + 1, closed: true },
            None,
        )
    } else {
        StepSpec::Done(
            Err(GrammarError::UnmatchedSpecialChar { ch: s[i], position: byte_offset(s, i) }),
        )
    }
}

impl StateSpec {
    /// The position up to which the state has read.
    pub open spec fn reached(self) -> int {
        match self {
            StateSpec::Base(b) => b.pos,
            StateSpec::Extra { inner, .. } => inner,
            StateSpec::Placeholder { base, .. } => base.pos,
            StateSpec::Annotation { base, .. } => base.pos,
            StateSpec::Curly { base } => base.pos,
            StateSpec::KeywordParens { search_at, .. } => search_at,
        }
    }

    /// A state of a machine that reads `s`.
    pub open spec fn fits(self, s: Seq<char>) -> bool {
        &&& 0 <= self.reached() <= s.len()
        &&& match self {
            StateSpec::Extra { inner, .. } => 1 <= inner,
            StateSpec::Annotation { base, .. } => 1 <= base.pos,
            StateSpec::Curly { base } => 1 <= base.pos,
            StateSpec::KeywordParens { start, search_at, .. } => 0 <= start < search_at,
            _ => true,
        }
    }

    /// What is left to do: it falls with every step.
    pub open spec fn measure(self, s: Seq<char>) -> int {
        2 * (s.len() - self.reached()) + if self is Base {
            if self->Base_0.done {
                0int
            } else {
                1int
            }
        } else {
            2int
        }
    }
}

/// The number of groups that may stand one inside the other.
pub const MAX_DEPTH: usize = 64;

/// One step of the machine on `s`, inside `depth` groups. A group is read
/// by a run of its own; one that would stand too deep is refused at its
/// parenthesis.
pub open spec fn step(s: Seq<char>, st: StateSpec, depth: nat) -> StepSpec
    decreases st.measure(s), 0int,
    when st.fits(s)
{
    match st {
        StateSpec::Base(b) => base_step(s, b),
        StateSpec::Extra { inner, nested } => if depth >= MAX_DEPTH {
            StepSpec::Done(
                Err(
                    GrammarError::UnmatchedSpecialChar {
                        ch: '(',
                        position: byte_offset(s, inner - 1),
                    },
                ),
            )
        } else {
            match run(
                s,
                StateSpec::Base(BaseSpec { pos: inner, nested: true, done: false }),
                depth + 1,
            ) {
                Ok((parts, rest)) => StepSpec::Keep(
                    StateSpec::Base(BaseSpec { pos: rest, nested, done: false }),
                    Some(PartView::Extra(parts)),
                ),
                Err(e) => StepSpec::Done(Err(e)),
            }
        },
        StateSpec::Placeholder { base, slot } => placeholder_step(s, base, slot),
        StateSpec::Annotation { kind, base } => annotation_step(s, kind, base),
        StateSpec::Curly { base } => curly_step(s, base),
        StateSpec::KeywordParens { start, nested, search_at, closed } => keyword_parens_step(
            s,
            start,
            nested,
            search_at,
            closed,
        ),
    }
}

/// `rest` behind `part`, where there is one.
pub open spec fn glue(part: Option<PartView>, rest: Seq<PartView>) -> Seq<PartView> {
    match part {
        Some(p) => seq![p] + rest,
        None => rest,
    }
}

/// The machine run from `st`, inside `depth` groups, until it is done: the
/// parts that the steps yield, in their order, and the position at which
/// the last step stops, or the error of the step that fails. Every step
/// leaves less to do (`lemma_step_progress`), so the run goes on after
/// each step that keeps going.
pub open spec fn run(s: Seq<char>, st: StateSpec, depth: nat) -> Outcome
    decreases st.measure(s), 1int,
    when st.fits(s)
{
    match step(s, st, depth) {
        StepSpec::Keep(next, part) => if next.fits(s) && next.measure(s) < st.measure(s) {
            match run(s, next, depth) {
                Ok((parts, rest)) => Ok((glue(part, parts), rest)),
                Err(e) => Err(e),
            }
        } else {
            Err(GrammarError::UnclosedParenthesis)
        },
        StepSpec::Done(Ok(rest)) => Ok((Seq::empty(), rest)),
        StepSpec::Done(Err(e)) => Err(e),
    }
}

/// The parts of the entry `s`, or why it is none.
pub open spec fn parse_spec(s: Seq<char>) -> Result<Seq<PartView>, GrammarError> {
    match run(s, StateSpec::Base(BaseSpec { pos: 0, nested: false, done: false }), 0) {
        Ok((parts, _)) => Ok(parts),
        Err(e) => Err(e),
    }
}

/// The first foreign character stands at or after the place where the
/// search began.
pub proof fn lemma_first_foreign(s: Seq<char>, from: int, stop: Stop, open: char, close: char)
    requires
        0 <= from <= s.len(),
    ensures
        from <= first_foreign(s, from, stop, open, close) <= s.len(),
    decreases s.len() - from,
{
    if from < s.len() && !(s[from] != open && s[from] != close && stop.has(s[from])) {
        lemma_first_foreign(s, from + 1, stop, open, close);
    }
}

/// Every step leaves less to do and never goes back in the text.
pub proof fn lemma_step_progress(s: Seq<char>, st: StateSpec, depth: nat)
    requires
        st.fits(s),
    ensures
        match step(s, st, depth) {
            StepSpec::Keep(next, _) => next.fits(s) && next.measure(s) < st.measure(s)
                && st.reached() <= next.reached(),
            StepSpec::Done(Ok(rest)) => st.reached() <= rest <= s.len(),
            StepSpec::Done(Err(_)) => true,
        },
    decreases st.measure(s), 0int,
{
    match st {
        StateSpec::Base(b) => {
            lemma_first_stop(s, b.pos, stop_for(b.nested));
        },
        StateSpec::Extra { inner, nested } => {
            lemma_run_bounds(
                s,
                StateSpec::Base(BaseSpec { pos: inner, nested: true, done: false }),
                depth + 1,
            );
        },
        StateSpec::Placeholder { base, slot } => {},
        StateSpec::Annotation { kind, base } => {
            let m = annotation_marker(kind);
            lemma_matching_close(s, base.pos, m.opener(), m.closer(), 1);
            lemma_first_foreign(s, base.pos, stop_for(base.nested), m.opener(), m.closer());
        },
        StateSpec::Curly { base } => {
            lemma_first_stop(s, base.pos, Stop::Only('}'));
        },
        StateSpec::KeywordParens { start, nested, search_at, closed } => {
            let stop = if closed || nested {
                stop_for(nested)
            } else {
                Stop::Only(')')
            };
            lemma_first_stop(s, search_at, stop);
        },
    }
}

/// A run ends at or after the place where it began, and is the first step
/// followed by the run from the state that the step leads to.
pub proof fn lemma_run_bounds(s: Seq<char>, st: StateSpec, depth: nat)
    requires
        st.fits(s),
    ensures
        run(s, st, depth) matches Ok((_, rest)) ==> st.reached() <= rest <= s.len(),
        step(s, st, depth) matches StepSpec::Keep(next, part) ==> run(s, st, depth) == (match run(
            s,
            next,
            depth,
        ) {
            Ok((parts, rest)) => Ok((glue(part, parts), rest)),
            Err(e) => Err(e),
        }),
        step(s, st, depth) matches StepSpec::Done(Ok(rest)) ==> run(s, st, depth) == Ok::<
            (Seq<PartView>, int),
            GrammarError,
        >((Seq::empty(), rest)),
        step(s, st, depth) matches StepSpec::Done(Err(e)) ==> run(s, st, depth) == Err::<
            (Seq<PartView>, int),
            GrammarError,
        >(e),
    decreases st.measure(s), 1int,
{
    lemma_step_progress(s, st, depth);
    match step(s, st, depth) {
        StepSpec::Keep(next, part) => {
            lemma_run_bounds(s, next, depth);
        },
        _ => {},
    }
}

} // verus!
