//! A text in parentheses: the machine reads it as one group, which holds
//! what the machine reads of the text on its own.

use vstd::prelude::*;
use crate::entry::grammar::{
    annotation_marker, annotation_step, base_step, case_bracket, case_code, curly_step,
    first_foreign, glue, keyword_parens_step, lemma_run_bounds, lemma_step_progress,
    parse_spec, placeholder_step, run, step, stop_for, word_step, BaseSpec, GrammarError, PartView, Slot,
    StateSpec, StepSpec,
};
use crate::entry::laws::lemma_run_at_end;
use crate::text::{
    first_stop, is_special, lemma_first_stop, lemma_matching_close, matching_close, Stop,
};

verus! {

/// `x` in parentheses.
pub open spec fn in_parens(x: Seq<char>) -> Seq<char> {
    seq!['('] + x + seq![')']
}

/// `x` holds no parenthesis.
pub open spec fn no_parens(x: Seq<char>) -> bool {
    forall|i: int| 0 <= i < x.len() ==> #[trigger] x[i] != '(' && x[i] != ')'
}

/// The characters of `x` stand in `in_parens(x)` one place further on.
pub proof fn lemma_chars_in_parens(x: Seq<char>)
    ensures
        in_parens(x).len() == x.len() + 2,
        in_parens(x)[0] == '(',
        in_parens(x)[x.len() as int + 1] == ')',
        forall|k: int| 0 <= k < x.len() ==> #[trigger] in_parens(x)[k + 1] == x[k],
        forall|a: int, b: int|
            0 <= a <= b <= x.len() ==> #[trigger] in_parens(x).subrange(a + 1, b + 1)
                == x.subrange(a, b),
{
    let t = in_parens(x);
    assert forall|a: int, b: int| 0 <= a <= b <= x.len() implies #[trigger] t.subrange(
        a + 1,
        b + 1,
    ) == x.subrange(a, b) by {
        assert(t.subrange(a + 1, b + 1) =~= x.subrange(a, b));
    }
}

/// A search stops at `i` if no character before `i` is one to stop at and
/// the character at `i` is one, or the text ends there.
pub proof fn lemma_stop_found(s: Seq<char>, from: int, stop: Stop, i: int)
    requires
        0 <= from <= i <= s.len(),
        forall|k: int| from <= k < i ==> !stop.has(#[trigger] s[k]),
        i < s.len() ==> stop.has(s[i]),
    ensures
        first_stop(s, from, stop) == i,
    decreases i - from,
{
    if from < i {
        assert(!stop.has(s[from]));
        lemma_stop_found(s, from + 1, stop, i);
    }
}

/// A character of `stop` that is neither `open` nor `close`.
pub open spec fn is_foreign(c: char, stop: Stop, open: char, close: char) -> bool {
    c != open && c != close && stop.has(c)
}

/// The first foreign character is the first one.
pub proof fn lemma_foreign_first(s: Seq<char>, from: int, stop: Stop, open: char, close: char)
    requires
        0 <= from <= s.len(),
    ensures
        from <= first_foreign(s, from, stop, open, close) <= s.len(),
        first_foreign(s, from, stop, open, close) < s.len() ==> is_foreign(
            s[first_foreign(s, from, stop, open, close)],
            stop,
            open,
            close,
        ),
        forall|k: int|
            from <= k < first_foreign(s, from, stop, open, close) ==> !is_foreign(
                #[trigger] s[k],
                stop,
                open,
                close,
            ),
    decreases s.len() - from,
{
    if from < s.len() && !is_foreign(s[from], stop, open, close) {
        lemma_foreign_first(s, from + 1, stop, open, close);
    }
}

/// The search for a foreign character stops at `j` if no character before
/// `j` is foreign and the character at `j` is, or the text ends there.
pub proof fn lemma_foreign_found(
    s: Seq<char>,
    from: int,
    stop: Stop,
    open: char,
    close: char,
    j: int,
)
    requires
        0 <= from <= j <= s.len(),
        forall|k: int| from <= k < j ==> !is_foreign(#[trigger] s[k], stop, open, close),
        j < s.len() ==> is_foreign(s[j], stop, open, close),
    ensures
        first_foreign(s, from, stop, open, close) == j,
    decreases j - from,
{
    if from < j {
        assert(!is_foreign(s[from], stop, open, close));
        lemma_foreign_found(s, from + 1, stop, open, close, j);
    }
}

/// In parentheses the closer of an annotation stands where it stands in
/// the bare text.
pub proof fn lemma_close_in_parens(x: Seq<char>, k: int, open: char, close: char, depth: nat)
    requires
        open != ')',
        close != ')',
        0 <= k <= x.len(),
    ensures
        matching_close(in_parens(x), k + 1, open, close, depth) == (if matching_close(
            x,
            k,
            open,
            close,
            depth,
        ) < x.len() {
            matching_close(x, k, open, close, depth) + 1
        } else {
            x.len() as int + 2
        }),
    decreases x.len() - k,
{
    let t = in_parens(x);
    assert(t[x.len() as int + 1] == ')');
    if k < x.len() {
        assert(t[k + 1] == x[k]);
        if x[k] == close {
            if depth > 1 {
                lemma_close_in_parens(x, k + 1, open, close, (depth - 1) as nat);
            }
        } else if x[k] == open {
            lemma_close_in_parens(x, k + 1, open, close, depth + 1);
        } else {
            lemma_close_in_parens(x, k + 1, open, close, depth);
        }
    } else {
        reveal_with_fuel(matching_close, 2);
    }
}

/// The default state of the machine that reads `x` in parentheses where
/// `b` is that of the machine that reads the bare `x`.
pub open spec fn base_in_parens(b: BaseSpec) -> BaseSpec {
    BaseSpec { pos: b.pos + 1, nested: true, done: b.done }
}

/// The same for every state.
pub open spec fn state_in_parens(st: StateSpec) -> StateSpec {
    match st {
        StateSpec::Base(b) => StateSpec::Base(base_in_parens(b)),
        StateSpec::Extra { inner, nested } => StateSpec::Extra { inner: inner + 1, nested: true },
        StateSpec::Placeholder { base, slot } => StateSpec::Placeholder {
            base: base_in_parens(base),
            slot,
        },
        StateSpec::Annotation { kind, base } => StateSpec::Annotation {
            kind,
            base: base_in_parens(base),
        },
        StateSpec::Curly { base } => StateSpec::Curly { base: base_in_parens(base) },
        StateSpec::KeywordParens { start, nested, search_at, closed } => StateSpec::KeywordParens {
            start: start + 1,
            nested: true,
            search_at: search_at + 1,
            closed,
        },
    }
}

/// The step in parentheses that leads where a step in the bare text
/// leads.
pub open spec fn step_in_parens(o: StepSpec) -> StepSpec {
    match o {
        StepSpec::Keep(next, part) => StepSpec::Keep(state_in_parens(next), part),
        StepSpec::Done(Ok(rest)) => StepSpec::Done(Ok(rest + 1)),
        StepSpec::Done(Err(e)) => o,
    }
}

/// Whether the machine in this state reads the inside of a group.
pub open spec fn is_nested(st: StateSpec) -> bool {
    match st {
        StateSpec::Base(b) => b.nested,
        StateSpec::Extra { nested, .. } => nested,
        StateSpec::Placeholder { base, .. } => base.nested,
        StateSpec::Annotation { base, .. } => base.nested,
        StateSpec::Curly { base } => base.nested,
        StateSpec::KeywordParens { nested, .. } => nested,
    }
}

/// Whether the machine in this state has not read the parenthesis that
/// closes the group around it.
pub open spec fn is_open(st: StateSpec) -> bool {
    match st {
        StateSpec::Base(b) => !b.done,
        StateSpec::Placeholder { base, .. } => !base.done,
        StateSpec::Annotation { base, .. } => !base.done,
        StateSpec::Curly { base } => !base.done,
        _ => true,
    }
}

/// A step from the default state to a character that ends a word is the
/// same in parentheses, if the search for that character is.
proof fn lemma_base_in_parens(x: Seq<char>, b: BaseSpec)
    requires
        0 <= b.pos < x.len(),
        !b.done,
        first_stop(x, b.pos, stop_for(b.nested)) < x.len(),
        first_stop(in_parens(x), b.pos + 1, Stop::SpecialOrClose) == first_stop(
            x,
            b.pos,
            stop_for(b.nested),
        ) + 1,
    ensures
        base_step(in_parens(x), base_in_parens(b)) == step_in_parens(base_step(x, b)),
{
    let t = in_parens(x);
    lemma_chars_in_parens(x);
    lemma_first_stop(x, b.pos, stop_for(b.nested));
    let i = first_stop(x, b.pos, stop_for(b.nested));
    assert(t[i + 1] == x[i]);
    if i > 0 {
        assert(t[i - 1 + 1] == x[i - 1]);
    }
    assert(t.subrange(b.pos + 1, i + 1) == x.subrange(b.pos, i));
}

/// A step behind a placeholder word is the same in parentheses.
proof fn lemma_placeholder_in_parens(x: Seq<char>, base: BaseSpec, slot: Slot)
    requires
        0 <= base.pos <= x.len(),
        placeholder_step(x, base, slot) is Keep,
    ensures
        placeholder_step(in_parens(x), base_in_parens(base), slot) == step_in_parens(
            placeholder_step(x, base, slot),
        ),
{
    let t = in_parens(x);
    let n = x.len() as int;
    let pos = base.pos;
    lemma_chars_in_parens(x);
    if pos < n {
        assert(t[pos + 1] == x[pos]);
    }
    if pos + 1 < n {
        assert(t[pos + 2] == x[pos + 1]);
    }
    assert(case_bracket(t, pos + 1) == (match case_bracket(x, pos) {
        Some(j) => Some(j + 1),
        None => None,
    }));
    match case_bracket(x, pos) {
        None => {},
        Some(j) => {
            assert(j + 1 < n);
            assert(t[j + 2] == x[j + 1]);
            let q = if x[j + 1] == '+' {
                j + 2
            } else {
                j + 1
            };
            if q + 4 <= n {
                assert(t[q + 4] == x[q + 3]);
                assert(t.subrange(q + 1, q + 4) == x.subrange(q, q + 3));
                if q + 4 < n {
                    assert(t[q + 5] == x[q + 4]);
                }
            }
            assert(case_code(t, q + 1) == case_code(x, q));
        },
    }
}

/// A step in an annotation is the same in parentheses, if the search for
/// a foreign character is where the annotation is not closed.
proof fn lemma_annotation_in_parens(
    x: Seq<char>,
    kind: crate::entry::annotation::AnnotationKind,
    base: BaseSpec,
)
    requires
        1 <= base.pos <= x.len(),
        ({
            let m = annotation_marker(kind);
            matching_close(x, base.pos, m.opener(), m.closer(), 1) >= x.len() ==> first_foreign(
                in_parens(x),
                base.pos + 1,
                Stop::SpecialOrClose,
                m.opener(),
                m.closer(),
            ) == first_foreign(x, base.pos, stop_for(base.nested), m.opener(), m.closer()) + 1
        }),
    ensures
        annotation_step(in_parens(x), kind, base_in_parens(base)) == step_in_parens(
            annotation_step(x, kind, base),
        ),
{
    let t = in_parens(x);
    let m = annotation_marker(kind);
    lemma_chars_in_parens(x);
    lemma_matching_close(x, base.pos, m.opener(), m.closer(), 1);
    lemma_foreign_first(x, base.pos, stop_for(base.nested), m.opener(), m.closer());
    lemma_close_in_parens(x, base.pos, m.opener(), m.closer(), 1);
    let e = matching_close(x, base.pos, m.opener(), m.closer(), 1);
    let j = first_foreign(x, base.pos, stop_for(base.nested), m.opener(), m.closer());
    assert(t.subrange(base.pos + 1, e + 1) == x.subrange(base.pos, e));
    assert(t.subrange(base.pos - 1 + 1, j + 1) == x.subrange(base.pos - 1, j));
}

/// A step in a brace that is closed is the same in parentheses.
proof fn lemma_curly_in_parens(x: Seq<char>, base: BaseSpec)
    requires
        1 <= base.pos <= x.len(),
        curly_step(x, base) is Keep,
    ensures
        curly_step(in_parens(x), base_in_parens(base)) == step_in_parens(curly_step(x, base)),
{
    let t = in_parens(x);
    lemma_chars_in_parens(x);
    lemma_first_stop(x, base.pos, Stop::Only('}'));
    let e = first_stop(x, base.pos, Stop::Only('}'));
    assert forall|k: int| base.pos + 1 <= k < e + 1 implies !Stop::Only('}').has(
        #[trigger] t[k],
    ) by {
        assert(t[k - 1 + 1] == x[k - 1]);
    }
    assert(t[e + 1] == x[e]);
    lemma_stop_found(t, base.pos + 1, Stop::Only('}'), e + 1);
    assert(t.subrange(base.pos + 1, e + 1) == x.subrange(base.pos, e));
}

/// A step in a word with a parenthesis is the same in parentheses, if the
/// search for its end is.
proof fn lemma_keyword_in_parens(
    x: Seq<char>,
    start: int,
    nested: bool,
    search_at: int,
    closed: bool,
)
    requires
        0 <= start < search_at <= x.len(),
        ({
            let stop = if closed || nested {
                stop_for(nested)
            } else {
                Stop::Only(')')
            };
            let i = first_stop(x, search_at, stop);
            &&& first_stop(in_parens(x), search_at + 1, Stop::SpecialOrClose) == i + 1
            &&& closed || i < x.len()
            &&& !closed ==> x[i] == ')'
        }),
    ensures
        keyword_parens_step(in_parens(x), start + 1, true, search_at + 1, closed)
            == step_in_parens(keyword_parens_step(x, start, nested, search_at, closed)),
{
    let t = in_parens(x);
    lemma_chars_in_parens(x);
    let stop = if closed || nested {
        stop_for(nested)
    } else {
        Stop::Only(')')
    };
    lemma_first_stop(x, search_at, stop);
    let i = first_stop(x, search_at, stop);
    assert(t.subrange(start + 1, i + 1) == x.subrange(start, i));
    if i < x.len() {
        assert(t[i + 1] == x[i]);
    }
}

/// What parses inside some groups parses inside fewer, to the same.
pub proof fn lemma_shallower(s: Seq<char>, st: StateSpec, depth: nat)
    requires
        st.fits(s),
    ensures
        run(s, st, depth + 1) is Ok ==> run(s, st, depth) == run(s, st, depth + 1),
    decreases st.measure(s), 1nat,
{
    lemma_run_bounds(s, st, depth);
    lemma_run_bounds(s, st, depth + 1);
    lemma_step_progress(s, st, depth + 1);
    if run(s, st, depth + 1) is Ok {
        match st {
            StateSpec::Extra { inner, nested } => {
                lemma_shallower(
                    s,
                    StateSpec::Base(BaseSpec { pos: inner, nested: true, done: false }),
                    depth + 1,
                );
            },
            _ => {},
        }
        assert(step(s, st, depth) == step(s, st, depth + 1));
        match step(s, st, depth + 1) {
            StepSpec::Keep(next, _) => {
                lemma_shallower(s, next, depth);
            },
            _ => {},
        }
    }
}

/// At the end of the text a machine that reads the inside of a group
/// fails, behind a placeholder word too.
proof fn lemma_dead_end(x: Seq<char>, depth: nat)
    ensures
        run(
            x,
            StateSpec::Base(BaseSpec { pos: x.len() as int, nested: true, done: false }),
            depth,
        ) is Err,
        forall|slot: Slot|
            #[trigger] run(
                x,
                StateSpec::Placeholder {
                    base: BaseSpec { pos: x.len() as int, nested: true, done: false },
                    slot,
                },
                depth,
            ) is Err,
{
    let end = BaseSpec { pos: x.len() as int, nested: true, done: false };
    lemma_run_bounds(x, StateSpec::Base(end), depth);
    assert forall|slot: Slot| #[trigger]
        run(x, StateSpec::Placeholder { base: end, slot }, depth) is Err by {
        let p = StateSpec::Placeholder { base: end, slot };
        lemma_run_bounds(x, p, depth);
        assert(step(x, p, depth) is Keep);
        assert(step(x, p, depth)->Keep_0 == StateSpec::Base(end));
    }
}

/// What the machine yields inside a group of the bare text it yields in
/// the text in parentheses, one place further on.
pub proof fn lemma_inside_in_parens(x: Seq<char>, st: StateSpec, depth: nat)
    requires
        st.fits(x),
        is_nested(st),
    ensures
        run(x, st, depth) matches Ok((parts, rest)) ==> run(
            in_parens(x),
            state_in_parens(st),
            depth,
        ) == Ok::<(Seq<PartView>, int), GrammarError>((parts, rest + 1)),
    decreases st.measure(x), 0nat,
{
    let t = in_parens(x);
    let n = x.len() as int;
    let lifted = state_in_parens(st);
    lemma_chars_in_parens(x);
    lemma_run_bounds(x, st, depth);
    lemma_run_bounds(t, lifted, depth);
    lemma_step_progress(x, st, depth);
    lemma_dead_end(x, depth);
    if run(x, st, depth) is Ok {
        match st {
            StateSpec::Base(b) => {
                if !b.done && b.pos < n {
                    lemma_first_stop(x, b.pos, Stop::SpecialOrClose);
                    let i = first_stop(x, b.pos, Stop::SpecialOrClose);
                    if i < n {
                        assert forall|k: int| b.pos + 1 <= k < i + 1 implies !Stop::SpecialOrClose.has(
                        #[trigger] t[k]) by {
                            assert(t[k - 1 + 1] == x[k - 1]);
                        }
                        assert(t[i + 1] == x[i]);
                        lemma_stop_found(t, b.pos + 1, Stop::SpecialOrClose, i + 1);
                        lemma_base_in_parens(x, b);
                    } else {
                        let end = BaseSpec { pos: n, nested: true, done: false };
                        assert(step(x, st, depth) == word_step(x.subrange(b.pos, n), end));
                        match step(x, st, depth) {
                            StepSpec::Keep(next, _) => {
                                assert(run(x, next, depth) is Err);
                            },
                            _ => {},
                        }
                        assert(false);
                    }
                }
                assert(step(t, lifted, depth) == step_in_parens(step(x, st, depth)));
            },
            StateSpec::Extra { inner, nested } => {
                lemma_inside_in_parens(
                    x,
                    StateSpec::Base(BaseSpec { pos: inner, nested: true, done: false }),
                    depth + 1,
                );
                assert(inner - 1 + 1 == inner);
                assert(step(t, lifted, depth) == step_in_parens(step(x, st, depth)));
            },
            StateSpec::Placeholder { base, slot } => {
                lemma_placeholder_in_parens(x, base, slot);
                assert(step(t, lifted, depth) == step_in_parens(step(x, st, depth)));
            },
            StateSpec::Annotation { kind, base } => {
                let m = annotation_marker(kind);
                lemma_matching_close(x, base.pos, m.opener(), m.closer(), 1);
                lemma_foreign_first(x, base.pos, Stop::SpecialOrClose, m.opener(), m.closer());
                let j = first_foreign(x, base.pos, Stop::SpecialOrClose, m.opener(), m.closer());
                if matching_close(x, base.pos, m.opener(), m.closer(), 1) >= n {
                    if j < n {
                        assert forall|k: int| base.pos + 1 <= k < j + 1 implies !is_foreign(
                            #[trigger] t[k],
                            Stop::SpecialOrClose,
                            m.opener(),
                            m.closer(),
                        ) by {
                            assert(t[k - 1 + 1] == x[k - 1]);
                        }
                        assert(t[j + 1] == x[j]);
                        lemma_foreign_found(
                            t,
                            base.pos + 1,
                            Stop::SpecialOrClose,
                            m.opener(),
                            m.closer(),
                            j + 1,
                        );
                        lemma_annotation_in_parens(x, kind, base);
                    } else if base.done {
                        assert forall|k: int| base.pos + 1 <= k < n + 1 implies !is_foreign(
                            #[trigger] t[k],
                            Stop::SpecialOrClose,
                            m.opener(),
                            m.closer(),
                        ) by {
                            assert(t[k - 1 + 1] == x[k - 1]);
                        }
                        lemma_foreign_found(
                            t,
                            base.pos + 1,
                            Stop::SpecialOrClose,
                            m.opener(),
                            m.closer(),
                            n + 1,
                        );
                        lemma_annotation_in_parens(x, kind, base);
                    } else {
                        let end = BaseSpec { pos: n, nested: true, done: false };
                        assert(step(x, st, depth)->Keep_0 == StateSpec::Base(end));
                        assert(run(x, StateSpec::Base(end), depth) is Err);
                        assert(false);
                    }
                } else {
                    lemma_annotation_in_parens(x, kind, base);
                }
                assert(step(t, lifted, depth) == step_in_parens(step(x, st, depth)));
            },
            StateSpec::Curly { base } => {
                lemma_curly_in_parens(x, base);
                assert(step(t, lifted, depth) == step_in_parens(step(x, st, depth)));
            },
            StateSpec::KeywordParens { start, nested, search_at, closed } => {
                lemma_first_stop(x, search_at, Stop::SpecialOrClose);
                let i = first_stop(x, search_at, Stop::SpecialOrClose);
                if i < n {
                    assert forall|k: int| search_at + 1 <= k < i + 1 implies !Stop::SpecialOrClose.has(
                    #[trigger] t[k]) by {
                        assert(t[k - 1 + 1] == x[k - 1]);
                    }
                    assert(t[i + 1] == x[i]);
                    lemma_stop_found(t, search_at + 1, Stop::SpecialOrClose, i + 1);
                    if closed || x[i] == ')' {
                        lemma_keyword_in_parens(x, start, nested, search_at, closed);
                    }
                } else if closed {
                    let end = BaseSpec { pos: n, nested: true, done: false };
                    assert(step(x, st, depth)->Keep_0 == StateSpec::Base(end));
                    assert(run(x, StateSpec::Base(end), depth) is Err);
                    assert(false);
                }
                assert(step(t, lifted, depth) == step_in_parens(step(x, st, depth)));
            },
        }
        match step(x, st, depth) {
            StepSpec::Keep(next, _) => {
                lemma_inside_in_parens(x, next, depth);
            },
            _ => {},
        }
    }
}

/// No closing parenthesis stands in `x[from..to]`.
pub open spec fn no_close(x: Seq<char>, from: int, to: int) -> bool {
    forall|k: int| from <= k < to ==> #[trigger] x[k] != ')'
}

/// What the machine in the state `st`, outside of all groups, is about to
/// read holds no closing parenthesis that closes nothing, and the
/// parenthetical of a word holds no character that ends a word.
pub open spec fn reads_cleanly(x: Seq<char>, st: StateSpec) -> bool {
    match st {
        StateSpec::Base(b) => no_close(x, b.pos, first_stop(x, b.pos, Stop::Special)),
        StateSpec::Annotation { kind, base } => {
            let m = annotation_marker(kind);
            matching_close(x, base.pos, m.opener(), m.closer(), 1) < x.len() || no_close(
                x,
                base.pos,
                first_foreign(x, base.pos, Stop::Special, m.opener(), m.closer()),
            )
        },
        StateSpec::KeywordParens { search_at, closed, .. } => if closed {
            no_close(x, search_at, first_stop(x, search_at, Stop::Special))
        } else {
            forall|k: int|
                search_at <= k < first_stop(x, search_at, Stop::Only(')')) ==> !is_special(
                    #[trigger] x[k],
                )
        },
        _ => true,
    }
}

/// The run from `st`, outside of all groups, reads cleanly in every state
/// that it comes to.
pub open spec fn runs_cleanly(x: Seq<char>, st: StateSpec, depth: nat) -> bool
    decreases st.measure(x),
    when st.fits(x)
{
    reads_cleanly(x, st) && match step(x, st, depth) {
        StepSpec::Keep(next, _) => next.fits(x) && next.measure(x) < st.measure(x)
            ==> runs_cleanly(x, next, depth),
        _ => true,
    }
}

/// Behind the parenthesis that closes the group the machine in the group
/// is done, behind a placeholder word too.
proof fn lemma_group_closed(x: Seq<char>, depth: nat)
    ensures
        run(
            in_parens(x),
            StateSpec::Base(BaseSpec { pos: x.len() as int + 2, nested: true, done: true }),
            depth,
        ) == Ok::<(Seq<PartView>, int), GrammarError>((Seq::empty(), x.len() as int + 2)),
        forall|slot: Slot|
            #[trigger] run(
                in_parens(x),
                StateSpec::Placeholder {
                    base: BaseSpec { pos: x.len() as int + 2, nested: true, done: true },
                    slot,
                },
                depth,
            ) == Ok::<(Seq<PartView>, int), GrammarError>(
                (seq![PartView::Placeholder(slot.with(None))], x.len() as int + 2),
            ),
{
    let t = in_parens(x);
    let n = x.len() as int;
    let closed = BaseSpec { pos: n + 2, nested: true, done: true };
    let b = StateSpec::Base(closed);
    lemma_run_bounds(t, b, depth);
    assert(step(t, b, depth) == StepSpec::Done(Ok(n + 2)));
    assert forall|slot: Slot| #[trigger]
        run(t, StateSpec::Placeholder { base: closed, slot }, depth) == Ok::<
            (Seq<PartView>, int),
            GrammarError,
        >((seq![PartView::Placeholder(slot.with(None))], n + 2)) by {
        let p = StateSpec::Placeholder { base: closed, slot };
        lemma_run_bounds(t, p, depth);
        let bare = Some(PartView::Placeholder(slot.with(None)));
        assert(step(t, p, depth) == StepSpec::Keep(b, bare));
        assert(glue(bare, Seq::empty()) =~= seq![PartView::Placeholder(slot.with(None))]);
    }
}

/// At the end of the bare text the machine outside of all groups is done,
/// behind a placeholder word too.
proof fn lemma_bare_end(x: Seq<char>, depth: nat)
    ensures
        run(
            x,
            StateSpec::Base(BaseSpec { pos: x.len() as int, nested: false, done: false }),
            depth,
        ) == Ok::<(Seq<PartView>, int), GrammarError>((Seq::empty(), x.len() as int)),
        forall|slot: Slot|
            #[trigger] run(
                x,
                StateSpec::Placeholder {
                    base: BaseSpec { pos: x.len() as int, nested: false, done: false },
                    slot,
                },
                depth,
            ) == Ok::<(Seq<PartView>, int), GrammarError>(
                (seq![PartView::Placeholder(slot.with(None))], x.len() as int),
            ),
{
    let n = x.len() as int;
    let end = BaseSpec { pos: n, nested: false, done: false };
    let b = StateSpec::Base(end);
    lemma_run_bounds(x, b, depth);
    assert(step(x, b, depth) == StepSpec::Done(Ok(n)));
    assert forall|slot: Slot| #[trigger]
        run(x, StateSpec::Placeholder { base: end, slot }, depth) == Ok::<
            (Seq<PartView>, int),
            GrammarError,
        >((seq![PartView::Placeholder(slot.with(None))], n)) by {
        let p = StateSpec::Placeholder { base: end, slot };
        lemma_run_bounds(x, p, depth);
        let bare = Some(PartView::Placeholder(slot.with(None)));
        assert(step(x, p, depth) == StepSpec::Keep(b, bare));
        assert(glue(bare, Seq::empty()) =~= seq![PartView::Placeholder(slot.with(None))]);
    }
}

/// The characters of `x[from..to]` are none at which a search for the end
/// of a word inside a group stops, if they are none at which the search
/// outside stops and no closing parenthesis.
proof fn lemma_no_stop_in_parens(x: Seq<char>, from: int, to: int)
    requires
        0 <= from <= to <= x.len(),
        forall|k: int| from <= k < to ==> !is_special(#[trigger] x[k]),
        no_close(x, from, to),
    ensures
        forall|k: int|
            from + 1 <= k < to + 1 ==> !Stop::SpecialOrClose.has(#[trigger] in_parens(x)[k]),
{
    let t = in_parens(x);
    lemma_chars_in_parens(x);
    assert forall|k: int| from + 1 <= k < to + 1 implies !Stop::SpecialOrClose.has(
        #[trigger] t[k],
    ) by {
        assert(t[k - 1 + 1] == x[k - 1]);
    }
}

/// What the machine yields outside of all groups of the bare text, where
/// it runs cleanly, it yields in the text in parentheses, and it ends
/// behind the closing parenthesis.
pub proof fn lemma_outside_in_parens(x: Seq<char>, st: StateSpec, depth: nat)
    requires
        st.fits(x),
        !is_nested(st),
        is_open(st),
        runs_cleanly(x, st, depth),
    ensures
        run(x, st, depth) matches Ok((parts, _)) ==> run(
            in_parens(x),
            state_in_parens(st),
            depth,
        ) == Ok::<(Seq<PartView>, int), GrammarError>((parts, x.len() as int + 2)),
    decreases st.measure(x), 1nat,
{
    let t = in_parens(x);
    let n = x.len() as int;
    let lifted = state_in_parens(st);
    lemma_chars_in_parens(x);
    lemma_run_bounds(x, st, depth);
    lemma_run_bounds(t, lifted, depth);
    lemma_step_progress(x, st, depth);
    if run(x, st, depth) is Ok {
        match st {
            StateSpec::Base(b) => {
                lemma_first_stop(x, b.pos, Stop::Special);
                let i = first_stop(x, b.pos, Stop::Special);
                lemma_no_stop_in_parens(x, b.pos, i);
                if i < n {
                    assert(t[i + 1] == x[i]);
                }
                lemma_stop_found(t, b.pos + 1, Stop::SpecialOrClose, i + 1);
                if b.pos >= n {
                    assert(step(t, lifted, depth) == StepSpec::Done(Ok(n + 2)));
                } else if i >= n {
                    lemma_bare_end(x, depth);
                    lemma_group_closed(x, depth);
                    let word = x.subrange(b.pos, n);
                    let last = BaseSpec { pos: n, nested: false, done: false };
                    let closed = BaseSpec { pos: n + 2, nested: true, done: true };
                    assert(t.subrange(b.pos + 1, n + 1) == word);
                    assert(step(x, st, depth) == word_step(word, last));
                    assert(step(t, lifted, depth) == word_step(word, closed));
                } else {
                    lemma_base_in_parens(x, b);
                    assert(step(t, lifted, depth) == step_in_parens(step(x, st, depth)));
                    match step(x, st, depth) {
                        StepSpec::Keep(next, _) => {
                            lemma_outside_in_parens(x, next, depth);
                        },
                        _ => {},
                    }
                }
            },
            StateSpec::Extra { inner, nested } => {
                lemma_inside_in_parens(
                    x,
                    StateSpec::Base(BaseSpec { pos: inner, nested: true, done: false }),
                    depth + 1,
                );
                assert(inner - 1 + 1 == inner);
                assert(step(t, lifted, depth) == step_in_parens(step(x, st, depth)));
                match step(x, st, depth) {
                    StepSpec::Keep(next, _) => {
                        lemma_outside_in_parens(x, next, depth);
                    },
                    _ => {},
                }
            },
            StateSpec::Placeholder { base, slot } => {
                lemma_placeholder_in_parens(x, base, slot);
                match step(x, st, depth) {
                    StepSpec::Keep(next, _) => {
                        lemma_outside_in_parens(x, next, depth);
                    },
                    _ => {},
                }
            },
            StateSpec::Annotation { kind, base } => {
                let m = annotation_marker(kind);
                lemma_matching_close(x, base.pos, m.opener(), m.closer(), 1);
                lemma_foreign_first(x, base.pos, Stop::Special, m.opener(), m.closer());
                let j = first_foreign(x, base.pos, Stop::Special, m.opener(), m.closer());
                if matching_close(x, base.pos, m.opener(), m.closer(), 1) >= n {
                    assert forall|k: int| base.pos + 1 <= k < j + 1 implies !is_foreign(
                        #[trigger] t[k],
                        Stop::SpecialOrClose,
                        m.opener(),
                        m.closer(),
                    ) by {
                        assert(t[k - 1 + 1] == x[k - 1]);
                    }
                    if j < n {
                        assert(t[j + 1] == x[j]);
                    }
                    lemma_foreign_found(
                        t,
                        base.pos + 1,
                        Stop::SpecialOrClose,
                        m.opener(),
                        m.closer(),
                        j + 1,
                    );
                }
                lemma_annotation_in_parens(x, kind, base);
                assert(step(t, lifted, depth) == step_in_parens(step(x, st, depth)));
                match step(x, st, depth) {
                    StepSpec::Keep(next, _) => {
                        lemma_outside_in_parens(x, next, depth);
                    },
                    _ => {},
                }
            },
            StateSpec::Curly { base } => {
                lemma_curly_in_parens(x, base);
                match step(x, st, depth) {
                    StepSpec::Keep(next, _) => {
                        lemma_outside_in_parens(x, next, depth);
                    },
                    _ => {},
                }
            },
            StateSpec::KeywordParens { start, nested, search_at, closed } => {
                let stop = if closed {
                    Stop::Special
                } else {
                    Stop::Only(')')
                };
                lemma_first_stop(x, search_at, stop);
                let i = first_stop(x, search_at, stop);
                if closed || i < n {
                    assert forall|k: int| search_at + 1 <= k < i + 1 implies !Stop::SpecialOrClose.has(
                    #[trigger] t[k]) by {
                        assert(t[k - 1 + 1] == x[k - 1]);
                    }
                    if i < n {
                        assert(t[i + 1] == x[i]);
                    }
                    lemma_stop_found(t, search_at + 1, Stop::SpecialOrClose, i + 1);
                    lemma_keyword_in_parens(x, start, nested, search_at, closed);
                    assert(step(t, lifted, depth) == step_in_parens(step(x, st, depth)));
                    match step(x, st, depth) {
                        StepSpec::Keep(next, _) => {
                            lemma_outside_in_parens(x, next, depth);
                        },
                        _ => {},
                    }
                }
            },
        }
    }
}

/// A text that parses inside a group, and outside of its own groups runs
/// cleanly, parses in parentheses to one group, which holds what the text
/// parses to on its own.
pub proof fn law_group(x: Seq<char>)
    requires
        run(x, StateSpec::Base(BaseSpec { pos: 0, nested: false, done: false }), 1) is Ok,
        runs_cleanly(x, StateSpec::Base(BaseSpec { pos: 0, nested: false, done: false }), 1),
    ensures
        parse_spec(x) matches Ok(parts)
            && parse_spec(in_parens(x)) == Ok::<
            Seq<PartView>,
            GrammarError,
        >(seq![PartView::Extra(parts)]),
{
    let t = in_parens(x);
    let n = x.len() as int;
    let first = StateSpec::Base(BaseSpec { pos: 0, nested: false, done: false });
    let group = StateSpec::Extra { inner: 1, nested: false };
    let last = StateSpec::Base(BaseSpec { pos: n + 2, nested: false, done: false });
    lemma_shallower(x, first, 0);
    lemma_outside_in_parens(x, first, 1);
    let parts = run(x, first, 1)->Ok_0.0;
    lemma_chars_in_parens(x);
    assert(first_stop(t, 0, Stop::Special) == 0);
    lemma_run_bounds(t, first, 0);
    lemma_run_bounds(t, group, 0);
    assert(step(t, first, 0) == StepSpec::Keep(group, None));
    assert(step(t, group, 0) == StepSpec::Keep(last, Some(PartView::Extra(parts))));
    lemma_run_at_end(t, 0);
    assert(glue(None, glue(Some(PartView::Extra(parts)), Seq::empty())) =~= seq![
        PartView::Extra(parts),
    ]);
}

/// A state that a text without parentheses leads to.
pub open spec fn is_plain_state(st: StateSpec) -> bool {
    !is_nested(st) && is_open(st) && !(st is Extra) && !(st is KeywordParens)
}

/// On a text without parentheses the machine runs cleanly, and what it
/// yields does not depend on the number of groups around it.
proof fn lemma_plain_text(x: Seq<char>, st: StateSpec, depth: nat, other: nat)
    requires
        no_parens(x),
        st.fits(x),
        is_plain_state(st),
    ensures
        runs_cleanly(x, st, depth),
        run(x, st, depth) == run(x, st, other),
    decreases st.measure(x),
{
    lemma_run_bounds(x, st, depth);
    lemma_run_bounds(x, st, other);
    lemma_step_progress(x, st, depth);
    match st {
        StateSpec::Base(b) => {
            lemma_first_stop(x, b.pos, Stop::Special);
        },
        StateSpec::Annotation { kind, base } => {
            let m = annotation_marker(kind);
            lemma_matching_close(x, base.pos, m.opener(), m.closer(), 1);
            lemma_foreign_first(x, base.pos, Stop::Special, m.opener(), m.closer());
        },
        _ => {},
    }
    assert(step(x, st, depth) == step(x, st, other));
    match step(x, st, depth) {
        StepSpec::Keep(next, _) => {
            lemma_plain_text(x, next, depth, other);
        },
        _ => {},
    }
}

/// A text without parentheses that parses on its own parses in
/// parentheses to one group, which holds the parts of the text.
pub proof fn law_group_of_plain_text(x: Seq<char>)
    requires
        no_parens(x),
        parse_spec(x) is Ok,
    ensures
        parse_spec(in_parens(x)) == Ok::<Seq<PartView>, GrammarError>(
            seq![PartView::Extra(parse_spec(x)->Ok_0)],
        ),
{
    let first = StateSpec::Base(BaseSpec { pos: 0, nested: false, done: false });
    lemma_plain_text(x, first, 1, 0);
    law_group(x);
}

} // verus!
