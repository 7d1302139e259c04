//! How the machine reads the forms in which parts are displayed: a word,
//! the separator, a word that holds a parenthesis, a group.

use vstd::prelude::*;
use crate::entry::grammar::{
    case_bracket, glue, lemma_run_bounds, opens_group, person_case, run, slot_of, step,
    BaseSpec, GrammarError, Outcome, PartView, Slot, StateSpec, StepSpec, MAX_DEPTH,
};
use crate::entry::placeholder::Placeholder;
use crate::text::{first_stop, is_special, lemma_first_stop, Stop};

verus! {

/// A character of which the words of a display are made: none that ends a
/// word, and no parenthesis.
pub open spec fn is_letter(c: char) -> bool {
    !is_special(c) && c != ')'
}

/// All of `s[from..to]` are letters.
pub open spec fn all_letters(s: Seq<char>, from: int, to: int) -> bool {
    forall|i: int| from <= i < to ==> is_letter(#[trigger] s[i])
}

/// `s` holds none of the brackets that open an annotation or a brace.
pub open spec fn no_brackets(s: Seq<char>) -> bool {
    forall|i: int| 0 <= i < s.len() ==> #[trigger] s[i] != '[' && s[i] != '{' && s[i] != '<'
}

/// Something that is displayed ends at `end`: behind it stands a space
/// with more, or the parenthesis that closes the group around it, or, in
/// no group, nothing.
pub open spec fn ends_at(s: Seq<char>, end: int, nested: bool) -> bool {
    &&& 0 <= end <= s.len()
    &&& end < s.len() ==> s[end] == ' ' || (nested && s[end] == ')')
    &&& end == s.len() ==> !nested
}

/// What the machine yields behind something that ends at `end`: what
/// follows the space, or nothing more.
pub open spec fn rest_after(s: Seq<char>, end: int, nested: bool, depth: nat) -> Outcome {
    if end < s.len() && s[end] == ' ' {
        run(s, StateSpec::Base(BaseSpec { pos: end + 1, nested, done: false }), depth)
    } else if nested {
        Ok((Seq::empty(), end + 1))
    } else {
        Ok((Seq::empty(), s.len() as int))
    }
}

/// An outcome behind one part.
pub open spec fn after_part(part: PartView, o: Outcome) -> Outcome {
    match o {
        Ok((more, rest)) => Ok((seq![part] + more, rest)),
        Err(e) => Err(e),
    }
}

/// Letters up to `end`, where something ends, are one word for the
/// machine.
proof fn lemma_letters_end(s: Seq<char>, pos: int, end: int, nested: bool)
    requires
        0 <= pos <= end,
        ends_at(s, end, nested),
        all_letters(s, pos, end),
    ensures
        first_stop(s, pos, Stop::Special) == end || (nested && end < s.len() && s[end] == ')'),
        first_stop(s, pos, Stop::SpecialOrClose) == end,
{
    lemma_first_stop(s, pos, Stop::Special);
    lemma_first_stop(s, pos, Stop::SpecialOrClose);
    let f = first_stop(s, pos, Stop::Special);
    let g = first_stop(s, pos, Stop::SpecialOrClose);
    if f < end {
        assert(is_letter(s[f]));
    }
    if g < end {
        assert(is_letter(s[g]));
    }
    if g > end {
        assert(!Stop::SpecialOrClose.has(s[end]));
    }
    if f > end && s[end] == ' ' {
        assert(!Stop::Special.has(s[end]));
    }
}

/// The machine at the place where something has ended yields what
/// follows.
pub proof fn lemma_behind_item(s: Seq<char>, end: int, nested: bool, depth: nat)
    requires
        ends_at(s, end, nested),
    ensures
        run(s, StateSpec::Base(BaseSpec { pos: end, nested, done: false }), depth) == rest_after(
            s,
            end,
            nested,
            depth,
        ),
{
    let st = StateSpec::Base(BaseSpec { pos: end, nested, done: false });
    lemma_run_bounds(s, st, depth);
    if end < s.len() {
        lemma_first_stop(s, end, Stop::Special);
        lemma_first_stop(s, end, Stop::SpecialOrClose);
        if s[end] == ' ' {
            assert(first_stop(s, end, Stop::Special) == end);
            assert(first_stop(s, end, Stop::SpecialOrClose) == end);
            let next = StateSpec::Base(BaseSpec { pos: end + 1, nested, done: false });
            assert(step(s, st, depth) == StepSpec::Keep(next, None));
            match run(s, next, depth) {
                Ok((parts, rest)) => {
                    assert(glue(None, parts) == parts);
                },
                Err(e) => {},
            }
        } else {
            assert(first_stop(s, end, Stop::SpecialOrClose) == end);
            assert(step(s, st, depth) == StepSpec::Done(Ok(end + 1)));
        }
    } else {
        assert(step(s, st, depth) == StepSpec::Done(Ok(end)));
    }
}

/// The machine behind a word that ended at `end` yields what follows.
proof fn lemma_behind_word(s: Seq<char>, pos: int, end: int, nested: bool, depth: nat)
    requires
        0 <= pos < end,
        ends_at(s, end, nested),
        all_letters(s, pos, end),
    ensures
        ({
            let b = BaseSpec { pos, nested, done: false };
            let after = word_end(s, end, b);
            &&& crate::entry::grammar::base_step(s, b) == crate::entry::grammar::word_step(
                s.subrange(pos, end),
                after,
            )
            &&& run(s, StateSpec::Base(after), depth) == rest_after(s, end, nested, depth)
            &&& StateSpec::Base(after).fits(s)
        }),
{
    let b = BaseSpec { pos, nested, done: false };
    let after = word_end(s, end, b);
    lemma_letters_end(s, pos, end, nested);
    lemma_run_bounds(s, StateSpec::Base(after), depth);
    if end < s.len() && s[end] == ' ' {
    } else if nested {
        assert(step(s, StateSpec::Base(after), depth) == StepSpec::Done(Ok(end + 1)));
    } else {
        assert(step(s, StateSpec::Base(after), depth) == StepSpec::Done(Ok(end)));
    }
}

/// The default state behind a word that ended at `end`.
pub open spec fn word_end(s: Seq<char>, end: int, b: BaseSpec) -> BaseSpec {
    if end < s.len() && s[end] == ' ' {
        BaseSpec { pos: end + 1, ..b }
    } else if b.nested {
        BaseSpec { pos: end + 1, nested: true, done: true }
    } else {
        BaseSpec { pos: end, ..b }
    }
}

/// A word of letters that is no placeholder word is read as a keyword.
pub proof fn lemma_reads_word(s: Seq<char>, pos: int, end: int, nested: bool, depth: nat)
    requires
        0 <= pos < end,
        ends_at(s, end, nested),
        all_letters(s, pos, end),
        person_case(s.subrange(pos, end)) is None,
        slot_of(s.subrange(pos, end)) is None,
    ensures
        run(s, StateSpec::Base(BaseSpec { pos, nested, done: false }), depth) == after_part(
            PartView::Keyword(s.subrange(pos, end)),
            rest_after(s, end, nested, depth),
        ),
{
    let b = BaseSpec { pos, nested, done: false };
    let st = StateSpec::Base(b);
    let w = s.subrange(pos, end);
    lemma_behind_word(s, pos, end, nested, depth);
    lemma_run_bounds(s, st, depth);
    let after = word_end(s, end, b);
    assert(step(s, st, depth) == StepSpec::Keep(StateSpec::Base(after), Some(PartView::Keyword(w))));
}

/// The word `sich`, in a text without brackets, is read as the reflexive
/// placeholder without a case.
pub proof fn lemma_reads_sich(s: Seq<char>, pos: int, nested: bool, depth: nat)
    requires
        0 <= pos,
        ends_at(s, pos + 4, nested),
        s.subrange(pos, pos + 4) == seq!['s', 'i', 'c', 'h'],
        no_brackets(s),
    ensures
        run(s, StateSpec::Base(BaseSpec { pos, nested, done: false }), depth) == after_part(
            PartView::Placeholder(Placeholder::Reflexive(None)),
            rest_after(s, pos + 4, nested, depth),
        ),
{
    let end = pos + 4;
    let b = BaseSpec { pos, nested, done: false };
    let st = StateSpec::Base(b);
    let w = s.subrange(pos, end);
    assert forall|i: int| pos <= i < end implies is_letter(#[trigger] s[i]) by {
        assert(s[i] == w[i - pos]);
    }
    crate::text::lemma_word3(w, 'j', 'd', '.');
    crate::text::lemma_word4(w, 'j', 'd', 'n', '.');
    crate::text::lemma_word4(w, 'j', 'd', 'm', '.');
    crate::text::lemma_word4(w, 'j', 'd', 's', '.');
    crate::text::lemma_word4(w, 'e', 't', 'w', '.');
    lemma_behind_word(s, pos, end, nested, depth);
    lemma_run_bounds(s, st, depth);
    let after = word_end(s, end, b);
    let look = StateSpec::Placeholder { base: after, slot: Slot::Reflexive };
    assert(step(s, st, depth) == StepSpec::Keep(look, None));
    lemma_run_bounds(s, look, depth);
    assert(case_bracket(s, after.pos) is None);
    let bare = Some(PartView::Placeholder(Placeholder::Reflexive(None)));
    assert(step(s, look, depth) == StepSpec::Keep(StateSpec::Base(after), bare));
    match run(s, StateSpec::Base(after), depth) {
        Ok((parts, rest)) => {
            assert(glue(None, glue(bare, parts)) =~= seq![
                PartView::Placeholder(Placeholder::Reflexive(None)),
            ] + parts);
        },
        Err(e) => {},
    }
}

/// The separator is read as the separator.
pub proof fn lemma_reads_separator(s: Seq<char>, pos: int, nested: bool, depth: nat)
    requires
        0 <= pos < s.len(),
        s[pos] == '/',
        ends_at(s, pos + 1, nested),
    ensures
        run(s, StateSpec::Base(BaseSpec { pos, nested, done: false }), depth) == after_part(
            PartView::VariantSeparator,
            rest_after(s, pos + 1, nested, depth),
        ),
{
    let st = StateSpec::Base(BaseSpec { pos, nested, done: false });
    let next = StateSpec::Base(BaseSpec { pos: pos + 1, nested, done: false });
    lemma_run_bounds(s, st, depth);
    assert(first_stop(s, pos, Stop::Special) == pos);
    assert(first_stop(s, pos, Stop::SpecialOrClose) == pos);
    assert(step(s, st, depth) == StepSpec::Keep(next, Some(PartView::VariantSeparator)));
    lemma_behind_item(s, pos + 1, nested, depth);
}

/// Letters up to a closing parenthesis: the search for the parenthesis
/// finds it, whatever else it stops at.
proof fn lemma_letters_close(s: Seq<char>, pos: int, close: int, stop: Stop)
    requires
        0 <= pos <= close < s.len(),
        all_letters(s, pos, close),
        s[close] == ')',
        stop == Stop::SpecialOrClose || stop == Stop::Only(')'),
    ensures
        first_stop(s, pos, stop) == close,
{
    lemma_first_stop(s, pos, stop);
    let f = first_stop(s, pos, stop);
    if f < close {
        assert(is_letter(s[f]));
    }
    if f > close {
        assert(!stop.has(s[close]));
    }
}

/// A word of letters that holds one parenthetical of letters is read as a
/// keyword.
pub proof fn lemma_reads_paren_word(
    s: Seq<char>,
    pos: int,
    open: int,
    close: int,
    end: int,
    nested: bool,
    depth: nat,
)
    requires
        0 <= pos < open < close < end,
        ends_at(s, end, nested),
        all_letters(s, pos, open),
        s[open] == '(',
        all_letters(s, open + 1, close),
        s[close] == ')',
        all_letters(s, close + 1, end),
    ensures
        run(s, StateSpec::Base(BaseSpec { pos, nested, done: false }), depth) == after_part(
            PartView::Keyword(s.subrange(pos, end)),
            rest_after(s, end, nested, depth),
        ),
{
    let st = StateSpec::Base(BaseSpec { pos, nested, done: false });
    let opened = StateSpec::KeywordParens { start: pos, nested, search_at: open + 1, closed: false };
    let closed = StateSpec::KeywordParens { start: pos, nested, search_at: close + 1, closed: true };
    let behind = StateSpec::Base(BaseSpec { pos: end, nested, done: false });
    let word = PartView::Keyword(s.subrange(pos, end));
    // Up to the parenthesis.
    lemma_first_stop(s, pos, Stop::Special);
    lemma_first_stop(s, pos, Stop::SpecialOrClose);
    let f = first_stop(s, pos, Stop::Special);
    let g = first_stop(s, pos, Stop::SpecialOrClose);
    if f < open {
        assert(is_letter(s[f]));
    }
    if g < open {
        assert(is_letter(s[g]));
    }
    if f > open {
        assert(!Stop::Special.has(s[open]));
    }
    if g > open {
        assert(!Stop::SpecialOrClose.has(s[open]));
    }
    assert(is_letter(s[open - 1]));
    lemma_run_bounds(s, st, depth);
    assert(step(s, st, depth) == StepSpec::Keep(opened, None));
    // Up to the closing parenthesis.
    lemma_letters_close(s, open + 1, close, Stop::SpecialOrClose);
    lemma_letters_close(s, open + 1, close, Stop::Only(')'));
    lemma_run_bounds(s, opened, depth);
    assert(step(s, opened, depth) == StepSpec::Keep(closed, None));
    // Up to the end of the word.
    lemma_letters_end(s, close + 1, end, nested);
    lemma_run_bounds(s, closed, depth);
    assert(step(s, closed, depth) == StepSpec::Keep(behind, Some(word)));
    lemma_behind_item(s, end, nested, depth);
    match run(s, behind, depth) {
        Ok((parts, rest)) => {
            assert(glue(None, glue(None, glue(Some(word), parts))) =~= seq![word] + parts);
        },
        Err(e) => {},
    }
}

/// A group whose inside the machine reads up to `end` is read as a group.
pub proof fn lemma_reads_group(
    s: Seq<char>,
    pos: int,
    end: int,
    inner: Seq<PartView>,
    nested: bool,
    depth: nat,
)
    requires
        0 <= pos < s.len(),
        s[pos] == '(',
        opens_group(s, pos),
        depth < MAX_DEPTH,
        run(
            s,
            StateSpec::Base(BaseSpec { pos: pos + 1, nested: true, done: false }),
            depth + 1,
        ) == Ok::<(Seq<PartView>, int), GrammarError>((inner, end)),
        ends_at(s, end, nested),
    ensures
        run(s, StateSpec::Base(BaseSpec { pos, nested, done: false }), depth) == after_part(
            PartView::Extra(inner),
            rest_after(s, end, nested, depth),
        ),
{
    let st = StateSpec::Base(BaseSpec { pos, nested, done: false });
    let group = StateSpec::Extra { inner: pos + 1, nested };
    let behind = StateSpec::Base(BaseSpec { pos: end, nested, done: false });
    let part = PartView::Extra(inner);
    assert(first_stop(s, pos, Stop::Special) == pos);
    assert(first_stop(s, pos, Stop::SpecialOrClose) == pos);
    lemma_run_bounds(s, st, depth);
    assert(step(s, st, depth) == StepSpec::Keep(group, None));
    lemma_run_bounds(s, group, depth);
    assert(step(s, group, depth) == StepSpec::Keep(behind, Some(part)));
    lemma_behind_item(s, end, nested, depth);
    match run(s, behind, depth) {
        Ok((parts, rest)) => {
            assert(glue(None, glue(Some(part), parts)) =~= seq![part] + parts);
        },
        Err(e) => {},
    }
}

} // verus!
