//! Laws of the grammar, proved from its definition.

use vstd::prelude::*;
use crate::entry::grammar::{
    glue, lemma_run_bounds, lemma_step_progress, parse_spec, person_case, run, slot_of, step,
    BaseSpec, GrammarError, PartView, StateSpec, StepSpec,
};
use crate::entry::nesting::{is_nested, is_open};
use crate::entry::term::matches_exactly;
use crate::text::{first_stop, is_special, lemma_first_stop, Stop};

verus! {

/// A word: a text that is not empty, holds none of the characters that
/// end a word, and is none of the placeholder words.
pub open spec fn is_plain_word(s: Seq<char>) -> bool {
    &&& s.len() > 0
    &&& forall|i: int| 0 <= i < s.len() ==> !is_special(#[trigger] s[i])
    &&& person_case(s) is None
    &&& slot_of(s) is None
}

/// At the end of the text a machine that is in no group is done and
/// yields nothing more.
pub proof fn lemma_run_at_end(s: Seq<char>, depth: nat)
    ensures
        run(
            s,
            StateSpec::Base(BaseSpec { pos: s.len() as int, nested: false, done: false }),
            depth,
        ) == Ok::<(Seq<PartView>, int), GrammarError>((Seq::empty(), s.len() as int)),
{
    let st = StateSpec::Base(BaseSpec { pos: s.len() as int, nested: false, done: false });
    lemma_run_bounds(s, st, depth);
    assert(step(s, st, depth) == StepSpec::Done(Ok(s.len() as int)));
}

/// A single word parses to one keyword that is the word itself, and the
/// term that it makes matches the word exactly.
pub proof fn law_single_word(s: Seq<char>)
    requires
        is_plain_word(s),
    ensures
        parse_spec(s) == Ok::<Seq<PartView>, GrammarError>(seq![PartView::Keyword(s)]),
        matches_exactly(seq![PartView::Keyword(s)], s),
{
    let len = s.len() as int;
    let b = BaseSpec { pos: 0, nested: false, done: false };
    let st = StateSpec::Base(b);
    lemma_first_stop(s, 0, Stop::Special);
    assert(first_stop(s, 0, Stop::Special) == len);
    assert(s.subrange(0, len) =~= s);
    let end = StateSpec::Base(BaseSpec { pos: len, nested: false, done: false });
    assert(step(s, st, 0) == StepSpec::Keep(end, Some(PartView::Keyword(s))));
    lemma_run_bounds(s, st, 0);
    lemma_run_at_end(s, 0);
    assert(glue(Some(PartView::Keyword(s)), Seq::empty()) =~= seq![PartView::Keyword(s)]);
}

/// A run outside of all groups that succeeds ends at the end of the text.
pub proof fn lemma_run_reads_all(s: Seq<char>, st: StateSpec, depth: nat)
    requires
        st.fits(s),
        !is_nested(st),
        is_open(st),
    ensures
        run(s, st, depth) matches Ok((_, rest)) ==> rest == s.len(),
    decreases st.measure(s),
{
    lemma_run_bounds(s, st, depth);
    lemma_step_progress(s, st, depth);
    match st {
        StateSpec::Base(b) => {
            lemma_first_stop(s, b.pos, Stop::Special);
        },
        _ => {},
    }
    match step(s, st, depth) {
        StepSpec::Keep(next, _) => {
            lemma_run_reads_all(s, next, depth);
        },
        _ => {},
    }
}

/// A text that parses is read to its end.
pub proof fn law_parse_reads_all(s: Seq<char>)
    ensures
        parse_spec(s) is Ok ==> (run(
            s,
            StateSpec::Base(BaseSpec { pos: 0, nested: false, done: false }),
            0,
        ) matches Ok((_, rest)) && rest == s.len()),
{
    lemma_run_reads_all(s, StateSpec::Base(BaseSpec { pos: 0, nested: false, done: false }), 0);
}

} // verus!
