//! The executable states of the entry grammar and their transitions.

use vstd::prelude::*;
use crate::entry::annotation::{Annotation as Note, AnnotationKind};
use crate::entry::gender::Gender;
use crate::entry::grammar::{
    annotation_step, base_step, case_code, curly_part, curly_step, first_foreign, glue,
    keyword_parens_step, lemma_run_bounds, lemma_step_progress, person_case, placeholder_step,
    run, slot_of, step, word_step, BaseSpec, GrammarError, Outcome, PartView, Slot, StateSpec,
    StepSpec, MAX_DEPTH,
};
use crate::entry::part::{lemma_extra_view, opt_view, parts_view, Part};
use crate::entry::placeholder::{Case, Placeholder as Blank};
use crate::lexer::LiteralMarker;
use crate::text::{
    find_close, find_stop, lemma_first_stop, lemma_word1, lemma_word2, lemma_word3, lemma_word4,
    Source, Stop,
};

verus! {

/// The default state.
#[derive(Clone, Copy, Debug)]
pub struct Base {
    pub pos: usize,
    pub stop_at_parens: bool,
    pub done: bool,
}

impl View for Base {
    type V = BaseSpec;

    open spec fn view(&self) -> BaseSpec {
        BaseSpec { pos: self.pos as int, nested: self.stop_at_parens, done: self.done }
    }
}

/// A group whose inside begins at `inner`; the flag is that of the state
/// around it.
#[derive(Clone, Copy, Debug)]
pub struct Extra(pub usize, pub bool);

/// `etw.` or `sich` has been read.
#[derive(Clone, Copy, Debug)]
pub struct Placeholder(pub Base, pub Slot);

/// An annotation was opened just before `b.pos`.
#[derive(Clone, Copy, Debug)]
pub struct Annotation {
    pub kind: AnnotationKind,
    pub b: Base,
}

/// A brace was opened just before the position of the state.
#[derive(Clone, Copy, Debug)]
pub struct Curly(pub Base);

/// A word that began at `start` holds a parenthesis; the scan for its end
/// goes on at `search_at`.
#[derive(Clone, Copy, Debug)]
pub struct KeywordParens {
    pub start: usize,
    pub stop_at_parens: bool,
    pub search_at: usize,
    pub parens_closed: bool,
}

/// What the machine is in the middle of.
#[derive(Clone, Copy, Debug)]
pub enum State {
    Base(Base),
    Extra(Extra),
    Placeholder(Placeholder),
    Annotation(Annotation),
    Gender(Curly),
    KeywordParens(KeywordParens),
}

impl View for State {
    type V = StateSpec;

    open spec fn view(&self) -> StateSpec {
        match *self {
            State::Base(b) => StateSpec::Base(b@),
            State::Extra(e) => StateSpec::Extra { inner: e.0 as int, nested: e.1 },
            State::Placeholder(p) => StateSpec::Placeholder { base: p.0@, slot: p.1 },
            State::Annotation(a) => StateSpec::Annotation { kind: a.kind, base: a.b@ },
            State::Gender(c) => StateSpec::Curly { base: c.0@ },
            State::KeywordParens(k) => StateSpec::KeywordParens {
                start: k.start as int,
                nested: k.stop_at_parens,
                search_at: k.search_at as int,
                closed: k.parens_closed,
            },
        }
    }
}

/// What a transition yields.
pub enum Step {
    Keep(State, Option<Part>),
    Done(Result<usize, GrammarError>),
}

impl View for Step {
    type V = StepSpec;

    open spec fn view(&self) -> StepSpec {
        match *self {
            Step::Keep(st, p) => StepSpec::Keep(st@, opt_view(p)),
            Step::Done(Ok(rest)) => StepSpec::Done(Ok(rest as int)),
            Step::Done(Err(e)) => StepSpec::Done(Err(e)),
        }
    }
}

/// Reads a person placeholder.
fn person_of(v: &Vec<char>, from: usize, to: usize) -> (r: Option<Case>)
    requires
        from <= to <= v.len(),
    ensures
        r == person_case(v@.subrange(from as int, to as int)),
{
    let ghost w = v@.subrange(from as int, to as int);
    proof {
        lemma_word3(w, 'j', 'd', '.');
        lemma_word4(w, 'j', 'd', 'n', '.');
        lemma_word4(w, 'j', 'd', 'm', '.');
        lemma_word4(w, 'j', 'd', 's', '.');
    }
    let n = to - from;
    if n == 3 && v[from] == 'j' && v[from + 1] == 'd' && v[from + 2] == '.' {
        Some(Case::Nominative)
    } else if n == 4 && v[from] == 'j' && v[from + 1] == 'd' && v[from + 3] == '.' {
        let c = v[from + 2];
        if c == 'n' {
            Some(Case::Accusative)
        } else if c == 'm' {
            Some(Case::Dative)
        } else if c == 's' {
            Some(Case::Genitive)
        } else {
            None
        }
    } else {
        None
    }
}

/// Reads `etw.` or `sich`.
fn slot_at(v: &Vec<char>, from: usize, to: usize) -> (r: Option<Slot>)
    requires
        from <= to <= v.len(),
    ensures
        r == slot_of(v@.subrange(from as int, to as int)),
{
    let ghost w = v@.subrange(from as int, to as int);
    proof {
        lemma_word4(w, 'e', 't', 'w', '.');
        lemma_word4(w, 's', 'i', 'c', 'h');
    }
    if to - from == 4 {
        let (a, b, c, d) = (v[from], v[from + 1], v[from + 2], v[from + 3]);
        if a == 'e' && b == 't' && c == 'w' && d == '.' {
            Some(Slot::Thing)
        } else if a == 's' && b == 'i' && c == 'c' && d == 'h' {
            Some(Slot::Reflexive)
        } else {
            None
        }
    } else {
        None
    }
}

impl Base {
    /// The default state at `pos`, inside a group or not.
    pub fn new(pos: usize, nested: bool) -> (out: Self)
        ensures
            out@ == (BaseSpec { pos: pos as int, nested, done: false }),
    {
        Base { pos, stop_at_parens: nested, done: false }
    }

    /// Turns the word `src[from..to]` into a part or a placeholder state;
    /// `self` is the state after the word.
    pub fn handle_word(self, src: &Source, from: usize, to: usize) -> (r: Step)
        requires
            from <= to <= src@.len(),
        ensures
            r@ == word_step(src@.subrange(from as int, to as int), self@),
    {
        let v = src.chars();
        match person_of(v, from, to) {
            Some(case) => Step::Keep(State::Base(self), Some(Part::Placeholder(Blank::Person(case)))),
            None => match slot_at(v, from, to) {
                Some(slot) => Step::Keep(State::Placeholder(Placeholder(self, slot)), None),
                None => Step::Keep(State::Base(self), Some(Part::Keyword(src.word(from, to)))),
            },
        }
    }

    /// Reads up to the next character that ends a word.
    pub fn step(self, src: &Source) -> (r: Step)
        requires
            self.pos <= src@.len(),
        ensures
            r@ == base_step(src@, self@),
    {
        let v = src.chars();
        let len = v.len();
        if self.pos >= len || self.done {
            return Step::Done(
                if self.stop_at_parens && !self.done {
                    Err(GrammarError::UnclosedParenthesis)
                } else {
                    Ok(self.pos)
                },
            );
        }
        let stop = if self.stop_at_parens {
            Stop::SpecialOrClose
        } else {
            Stop::Special
        };
        let i = find_stop(v, self.pos, stop);
        proof {
            lemma_first_stop(v@, self.pos as int, stop);
        }
        if i >= len {
            return Base { pos: len, ..self }.handle_word(src, self.pos, len);
        }
        let ch = v[i];
        let after = Base { pos: i + 1, ..self };
        if ch == ' ' {
            if i == self.pos {
                Step::Keep(State::Base(after), None)
            } else {
                after.handle_word(src, self.pos, i)
            }
        } else if ch == '/' {
            if i == self.pos {
                Step::Keep(State::Base(after), Some(Part::VariantSeparator))
            } else {
                Base { pos: i, ..self }.handle_word(src, self.pos, i)
            }
        } else if ch == '[' || ch == '<' || ch == '{' {
            if i != self.pos {
                Base { pos: i, ..self }.handle_word(src, self.pos, i)
            } else if ch == '[' {
                Step::Keep(
                    State::Annotation(Annotation { kind: AnnotationKind::Explanation, b: after }),
                    None,
                )
            } else if ch == '<' {
                Step::Keep(
                    State::Annotation(Annotation { kind: AnnotationKind::Alternative, b: after }),
                    None,
                )
            } else {
                Step::Keep(State::Gender(Curly(after)), None)
            }
        } else if ch == '(' {
            if i == 0 || v[i - 1] == ' ' || v[i - 1] == '(' {
                Step::Keep(State::Extra(Extra(i + 1, self.stop_at_parens)), None)
            } else {
                Step::Keep(
                    State::KeywordParens(
                        KeywordParens {
                            start: self.pos,
                            stop_at_parens: self.stop_at_parens,
                            search_at: i + 1,
                            parens_closed: false,
                        },
                    ),
                    None,
                )
            }
        } else if i == self.pos {
            Step::Done(Ok(i + 1))
        } else {
            Base { pos: i + 1, stop_at_parens: self.stop_at_parens, done: true }.handle_word(
                src,
                self.pos,
                i,
            )
        }
    }
}

/// Reads the three-letter case code at `q` and the full stop behind it.
fn code_at(v: &Vec<char>, q: usize) -> (r: Option<Case>)
    requires
        q <= v.len(),
    ensures
        r == case_code(v@, q as int),
{
    if v.len() - q < 4 || v[q + 3] != '.' {
        return None;
    }
    let ghost w = v@.subrange(q as int, q + 3);
    proof {
        lemma_word3(w, 'N', 'o', 'm');
        lemma_word3(w, 'A', 'k', 'k');
        lemma_word3(w, 'G', 'e', 'n');
        lemma_word3(w, 'D', 'a', 't');
    }
    let (a, b, c) = (v[q], v[q + 1], v[q + 2]);
    if a == 'N' && b == 'o' && c == 'm' {
        Some(Case::Nominative)
    } else if a == 'A' && b == 'k' && c == 'k' {
        Some(Case::Accusative)
    } else if a == 'G' && b == 'e' && c == 'n' {
        Some(Case::Genitive)
    } else if a == 'D' && b == 'a' && c == 't' {
        Some(Case::Dative)
    } else {
        None
    }
}

impl Placeholder {
    /// Looks for a bracketed case behind the placeholder word.
    pub fn step(self, src: &Source) -> (r: Step)
        requires
            self.0.pos <= src@.len(),
        ensures
            r@ == placeholder_step(src@, self.0@, self.1),
    {
        let v = src.chars();
        let len = v.len();
        let base = self.0;
        let slot = self.1;
        let pos = base.pos;
        let j = if pos < len && v[pos] == '[' {
            pos
        } else if pos < len && len - pos > 1 && (v[pos] as u32) < 0x80 && v[pos + 1] == '[' {
            pos + 1
        } else {
            return Step::Keep(State::Base(base), Some(Part::Placeholder(slot.fill(None))));
        };
        if len - j <= 1 {
            return Step::Done(Err(GrammarError::UnfinishedPlaceholderCase));
        }
        let q = if v[j + 1] == '+' {
            j + 2
        } else {
            j + 1
        };
        match code_at(v, q) {
            Some(case) => {
                if len - q > 4 && v[q + 4] == ']' {
                    Step::Keep(
                        State::Base(Base { pos: q + 5, ..base }),
                        Some(Part::Placeholder(slot.fill(Some(case)))),
                    )
                } else {
                    Step::Keep(State::Base(base), Some(Part::Placeholder(slot.fill(None))))
                }
            },
            None => Step::Keep(State::Base(base), Some(Part::Placeholder(slot.fill(None)))),
        }
    }
}

/// Finds the first character of `stop` that is neither `open` nor `close`.
fn find_foreign(v: &Vec<char>, from: usize, stop: Stop, open: char, close: char) -> (r: usize)
    requires
        from <= v.len(),
    ensures
        r == first_foreign(v@, from as int, stop, open, close),
        from <= r <= v.len(),
{
    let mut i: usize = from;
    while i < v.len() && !(v[i] != open && v[i] != close && stop.contains(v[i]))
        invariant
            from <= i <= v.len(),
            first_foreign(v@, from as int, stop, open, close) == first_foreign(
                v@,
                i as int,
                stop,
                open,
                close,
            ),
        decreases v.len() - i,
    {
        i += 1;
    }
    i
}

impl Annotation {
    /// Reads up to the matching closer; without one the opener is part of
    /// a plain word.
    pub fn step(self, src: &Source) -> (r: Step)
        requires
            1 <= self.b.pos <= src@.len(),
        ensures
            r@ == annotation_step(src@, self.kind, self.b@),
    {
        let v = src.chars();
        let len = v.len();
        let (open, close) = match self.kind {
            AnnotationKind::Alternative => ('<', '>'),
            _ => ('[', ']'),
        };
        let pos = self.b.pos;
        let end = find_close(v, pos, open, close);
        if end < len {
            let part = Part::Annotation(Note { value: src.word(pos, end), kind: self.kind });
            return Step::Keep(State::Base(Base { pos: end + 1, ..self.b }), Some(part));
        }
        let stop = if self.b.stop_at_parens {
            Stop::SpecialOrClose
        } else {
            Stop::Special
        };
        let j = find_foreign(v, pos, stop, open, close);
        Step::Keep(
            State::Base(Base { pos: j, ..self.b }),
            Some(Part::Keyword(src.word(pos - 1, j))),
        )
    }
}

/// Reads what stands between two braces.
fn curly_of(v: &Vec<char>, from: usize, to: usize) -> (r: Option<Part>)
    requires
        from <= to <= v.len(),
    ensures
        opt_view(r) == curly_part(v@.subrange(from as int, to as int)),
{
    let ghost w = v@.subrange(from as int, to as int);
    proof {
        lemma_word1(w, 'm');
        lemma_word1(w, 'f');
        lemma_word1(w, 'n');
        lemma_word2(w, 'p', 'l');
        lemma_word3(w, 'p', 'l', '.');
        lemma_word2(w, 's', 'g');
        lemma_word3(w, 's', 'g', '.');
    }
    let n = to - from;
    if n == 1 {
        let c = v[from];
        if c == 'm' {
            Some(Part::Gender(Gender::Masculine))
        } else if c == 'f' {
            Some(Part::Gender(Gender::Feminine))
        } else if c == 'n' {
            Some(Part::Gender(Gender::Neutral))
        } else {
            None
        }
    } else if (n == 2 || (n == 3 && v[from + 2] == '.')) && v[from] == 'p' && v[from + 1] == 'l' {
        Some(
            Part::Annotation(
                Note { value: "nur plural".to_owned(), kind: AnnotationKind::Number },
            ),
        )
    } else if (n == 2 || (n == 3 && v[from + 2] == '.')) && v[from] == 's' && v[from + 1] == 'g' {
        Some(
            Part::Annotation(Note { value: "singular".to_owned(), kind: AnnotationKind::Number }),
        )
    } else {
        None
    }
}

impl Curly {
    /// Reads up to the closing brace, which has to be there.
    pub fn step(self, src: &Source) -> (r: Step)
        requires
            1 <= self.0.pos <= src@.len(),
        ensures
            r@ == curly_step(src@, self.0@),
    {
        let v = src.chars();
        let pos = self.0.pos;
        let end = find_stop(v, pos, Stop::Only('}'));
        if end >= v.len() {
            return Step::Done(
                Err(
                    GrammarError::UnclosedLiteral {
                        bracket: LiteralMarker::Curly,
                        position: src.offset(pos - 1),
                    },
                ),
            );
        }
        Step::Keep(State::Base(Base { pos: end + 1, ..self.0 }), curly_of(v, pos, end))
    }
}

impl KeywordParens {
    /// Reads on in a word that holds a parenthesis.
    pub fn step(self, src: &Source) -> (r: Step)
        requires
            self.start < self.search_at <= src@.len(),
        ensures
            r@ == keyword_parens_step(
                src@,
                self.start as int,
                self.stop_at_parens,
                self.search_at as int,
                self.parens_closed,
            ),
    {
        let v = src.chars();
        let len = v.len();
        let stop = if self.stop_at_parens {
            Stop::SpecialOrClose
        } else if self.parens_closed {
            Stop::Special
        } else {
            Stop::Only(')')
        };
        let i = find_stop(v, self.search_at, stop);
        proof {
            lemma_first_stop(v@, self.search_at as int, stop);
        }
        if self.parens_closed {
            Step::Keep(
                State::Base(Base { pos: i, stop_at_parens: self.stop_at_parens, done: false }),
                Some(Part::Keyword(src.word(self.start, i))),
            )
        } else if i >= len {
            Step::Done(Err(GrammarError::UnclosedParenthesis))
        } else if v[i] == ')' {
            Step::Keep(
                State::KeywordParens(KeywordParens { search_at: i + 1, parens_closed: true, ..self }),
                None,
            )
        } else {
            Step::Done(
                Err(GrammarError::UnmatchedSpecialChar { ch: v[i], position: src.offset(i) }),
            )
        }
    }
}

/// The content of what a run returns.
pub open spec fn outcome_view(r: Result<(Vec<Part>, usize), GrammarError>) -> Outcome {
    match r {
        Ok((parts, rest)) => Ok((parts_view(parts@), rest as int)),
        Err(e) => Err(e),
    }
}

/// An outcome behind parts that were read before it.
pub open spec fn behind(parts: Seq<PartView>, o: Outcome) -> Outcome {
    match o {
        Ok((more, rest)) => Ok((parts + more, rest)),
        Err(e) => Err(e),
    }
}

impl Extra {
    /// Reads the inside of the group as an entry that ends at the closing
    /// parenthesis.
    pub fn step(self, src: &Source, depth: usize) -> (r: Step)
        requires
            1 <= self.0 <= src@.len(),
        ensures
            r@ == step(src@, StateSpec::Extra { inner: self.0 as int, nested: self.1 }, depth as nat),
        decreases 2 * (src@.len() - self.0) + 2, 0int,
    {
        if depth >= MAX_DEPTH {
            return Step::Done(
                Err(
                    GrammarError::UnmatchedSpecialChar {
                        ch: '(',
                        position: src.offset(self.0 - 1),
                    },
                ),
            );
        }
        match drive(src, State::Base(Base::new(self.0, true)), depth + 1) {
            Ok((parts, rest)) => {
                proof {
                    lemma_extra_view(parts);
                }
                Step::Keep(State::Base(Base::new(rest, self.1)), Some(Part::Extra(parts)))
            },
            Err(e) => Step::Done(Err(e)),
        }
    }
}

impl State {
    /// One transition of the machine.
    pub fn step(self, src: &Source, depth: usize) -> (r: Step)
        requires
            self@.fits(src@),
        ensures
            r@ == step(src@, self@, depth as nat),
        decreases self@.measure(src@), 1int,
    {
        match self {
            State::Base(s) => s.step(src),
            State::Annotation(s) => s.step(src),
            State::Placeholder(s) => s.step(src),
            State::Gender(s) => s.step(src),
            State::Extra(s) => s.step(src, depth),
            State::KeywordParens(s) => s.step(src),
        }
    }
}

/// Runs the machine from `start`, inside `depth` groups, until it is done
/// and collects the parts.
pub fn drive(src: &Source, start: State, depth: usize) -> (r: Result<
    (Vec<Part>, usize),
    GrammarError,
>)
    requires
        start@.fits(src@),
    ensures
        outcome_view(r) == run(src@, start@, depth as nat),
    decreases start@.measure(src@), 2int,
{
    let ghost first = start@;
    let mut state = start;
    let mut parts: Vec<Part> = Vec::new();
    assert(parts_view(parts@) + Seq::<PartView>::empty() =~= Seq::<PartView>::empty());
    loop
        invariant
            state@.fits(src@),
            first.fits(src@),
            first == start@,
            state@.measure(src@) <= first.measure(src@),
            run(src@, first, depth as nat) == behind(
                parts_view(parts@),
                run(src@, state@, depth as nat),
            ),
        decreases state@.measure(src@),
    {
        proof {
            lemma_step_progress(src@, state@, depth as nat);
            lemma_run_bounds(src@, state@, depth as nat);
        }
        let ghost before = parts_view(parts@);
        match state.step(src, depth) {
            Step::Keep(next, part) => {
                let ghost p = opt_view(part);
                match part {
                    Some(part) => {
                        parts.push(part);
                    },
                    None => {},
                }
                proof {
                    assert(parts_view(parts@) =~= before + glue(p, Seq::empty()));
                    match run(src@, next@, depth as nat) {
                        Ok((more, rest)) => {
                            assert(before + glue(p, more) =~= parts_view(parts@) + more);
                        },
                        Err(e) => {},
                    }
                }
                state = next;
            },
            Step::Done(Ok(rest)) => {
                assert(before + Seq::<PartView>::empty() =~= before);
                return Ok((parts, rest));
            },
            Step::Done(Err(e)) => {
                return Err(e);
            },
        }
    }
}

} // verus!
