//! The display of parts read again.
//!
//! Parts that are displayed as words, separators and groups of these are
//! read back from their display as they are. A term whose parts are
//! displayed in these forms has a display that parses, and the term that it
//! parses to is displayed in the same way.

use vstd::prelude::*;
use crate::entry::annotation::AnnotationKind;
use crate::entry::grammar::{
    opens_group, parse_spec, person_case, run, slot_of, BaseSpec, GrammarError, PartView,
    StateSpec, MAX_DEPTH,
};
use crate::entry::nesting::in_parens;
use crate::entry::placeholder::Placeholder;
use crate::entry::reading::{
    after_part, all_letters, ends_at, is_letter, lemma_behind_item, lemma_reads_group,
    lemma_reads_paren_word, lemma_reads_separator, lemma_reads_sich, lemma_reads_word,
    no_brackets, rest_after,
};
use crate::entry::render::{canonical, display_order, joined, joined_upto, picked, shown, spaced};
use crate::text::{lemma_word3, lemma_word4};

verus! {

/// A word of letters that is no placeholder word.
pub open spec fn is_bare_word(w: Seq<char>) -> bool {
    &&& w.len() > 0
    &&& all_letters(w, 0, w.len() as int)
    &&& person_case(w) is None
    &&& slot_of(w) is None
}

/// A word of letters that holds, behind its first letters, one
/// parenthetical of letters, at `open` and `close`.
pub open spec fn is_paren_word_at(w: Seq<char>, open: int, close: int) -> bool {
    &&& 0 < open < close < w.len()
    &&& all_letters(w, 0, open)
    &&& w[open] == '('
    &&& all_letters(w, open + 1, close)
    &&& w[close] == ')'
    &&& all_letters(w, close + 1, w.len() as int)
}

/// A word of letters that holds one such parenthetical.
pub open spec fn is_paren_word(w: Seq<char>) -> bool {
    exists|open: int, close: int| is_paren_word_at(w, open, close)
}

/// A part that is read back from its display as it is, inside `depth`
/// groups: a keyword that is a word, the separator, the reflexive
/// placeholder without a case, a group of such parts that does not stand
/// too deep.
pub open spec fn reads_back(p: PartView, depth: nat) -> bool
    decreases p, 0nat,
{
    match p {
        PartView::Keyword(w) => is_bare_word(w) || is_paren_word(w),
        PartView::VariantSeparator => true,
        PartView::Placeholder(ph) => ph == Placeholder::Reflexive(None),
        PartView::Extra(ps) => depth < MAX_DEPTH && read_back_upto(ps, ps.len(), depth + 1),
        _ => false,
    }
}

/// The first `n` parts of `ps` are read back as they are.
pub open spec fn read_back_upto(ps: Seq<PartView>, n: nat, depth: nat) -> bool
    decreases ps, n,
{
    if n == 0 || n > ps.len() {
        true
    } else {
        proof {
            vstd::seq::axiom_seq_index_decreases(ps, n - 1);
        }
        read_back_upto(ps, (n - 1) as nat, depth) && reads_back(ps[n - 1], depth)
    }
}

/// The first `k` of the texts `ws`, joined with single spaces.
pub open spec fn join_upto(ws: Seq<Seq<char>>, k: nat) -> Seq<char>
    decreases k,
{
    if k == 0 || k > ws.len() {
        Seq::empty()
    } else {
        spaced(join_upto(ws, (k - 1) as nat), ws[k - 1])
    }
}

/// Where text `k` begins in the joined text.
pub open spec fn start_of(ws: Seq<Seq<char>>, k: nat) -> int {
    if k == 0 {
        0
    } else {
        join_upto(ws, k).len() as int + 1
    }
}

/// None of `ws` is empty.
pub open spec fn none_empty(ws: Seq<Seq<char>>) -> bool {
    forall|i: int| 0 <= i < ws.len() ==> (#[trigger] ws[i]).len() > 0
}

/// The joined text of the first `k` texts begins the joined text of the
/// first `m`; text `k` follows it, behind a space unless it is the first.
proof fn lemma_join_prefix(ws: Seq<Seq<char>>, k: nat, m: nat)
    requires
        none_empty(ws),
        k < m <= ws.len(),
    ensures
        start_of(ws, k) + ws[k as int].len() == join_upto(ws, k + 1).len(),
        join_upto(ws, k + 1).len() <= join_upto(ws, m).len(),
        join_upto(ws, m).subrange(start_of(ws, k), start_of(ws, k) + ws[k as int].len())
            == ws[k as int],
        k > 0 ==> join_upto(ws, m)[start_of(ws, k) - 1] == ' ',
        k > 0 ==> join_upto(ws, k).len() > 0,
        k + 1 < m ==> join_upto(ws, k + 1).len() < join_upto(ws, m).len(),
    decreases m,
{
    let w = ws[k as int];
    assert(w.len() > 0);
    if k > 0 {
        lemma_join_prefix(ws, (k - 1) as nat, k);
    }
    let head = join_upto(ws, k);
    let next = join_upto(ws, k + 1);
    assert(next == spaced(head, w));
    if m == k + 1 {
        assert(next.subrange(start_of(ws, k), start_of(ws, k) + w.len()) =~= w);
    } else {
        lemma_join_prefix(ws, k, (m - 1) as nat);
        let before = join_upto(ws, (m - 1) as nat);
        let last = ws[m - 1];
        assert(last.len() > 0);
        assert(join_upto(ws, m) == before + seq![' '] + last);
        assert(join_upto(ws, m).subrange(start_of(ws, k), start_of(ws, k) + w.len())
            =~= before.subrange(start_of(ws, k), start_of(ws, k) + w.len()));
    }
}

/// The joined text of the first `k` texts does not depend on the texts
/// behind them.
proof fn lemma_join_ignores_rest(a: Seq<Seq<char>>, b: Seq<Seq<char>>, k: nat)
    requires
        k <= a.len(),
        k <= b.len(),
        forall|i: int| 0 <= i < k ==> a[i] == b[i],
    ensures
        join_upto(a, k) == join_upto(b, k),
    decreases k,
{
    if k > 0 {
        lemma_join_ignores_rest(a, b, (k - 1) as nat);
    }
}

/// The texts as which parts that are read back are displayed.
pub open spec fn texts(ps: Seq<PartView>) -> Seq<Seq<char>> {
    Seq::new(
        ps.len(),
        |i: int|
            match shown(ps[i]) {
                Some(t) => t,
                None => Seq::empty(),
            },
    )
}

/// A part that is read back is displayed, and not as the empty text.
proof fn lemma_reads_back_shown(p: PartView, depth: nat)
    requires
        reads_back(p, depth),
    ensures
        shown(p) matches Some(t) && t.len() > 0,
{
    match p {
        PartView::Keyword(w) => {
            if !is_bare_word(w) {
                let (o, c) = choose|o: int, c: int| is_paren_word_at(w, o, c);
            }
        },
        _ => {},
    }
}

/// Parts that are read back are displayed one by one.
proof fn lemma_read_back_each(ps: Seq<PartView>, n: nat, depth: nat)
    requires
        n <= ps.len(),
        read_back_upto(ps, n, depth),
    ensures
        forall|i: int| 0 <= i < n ==> reads_back(#[trigger] ps[i], depth),
    decreases n,
{
    if n > 0 {
        lemma_read_back_each(ps, (n - 1) as nat, depth);
    }
}

/// The display of parts that are read back is the joined text of their
/// texts.
proof fn lemma_joined_texts(ps: Seq<PartView>, n: nat, depth: nat)
    requires
        n <= ps.len(),
        read_back_upto(ps, ps.len(), depth),
    ensures
        joined_upto(ps, n) == join_upto(texts(ps), n),
        none_empty(texts(ps)),
    decreases n,
{
    lemma_read_back_each(ps, ps.len(), depth);
    assert forall|i: int| 0 <= i < ps.len() implies (#[trigger] texts(ps)[i]).len() > 0 by {
        lemma_reads_back_shown(ps[i], depth);
    }
    if n > 0 {
        lemma_joined_texts(ps, (n - 1) as nat, depth);
        lemma_reads_back_shown(ps[n - 1], depth);
    }
}

/// `t` holds none of the brackets that open an annotation or a brace.
proof fn lemma_letters_no_brackets(w: Seq<char>)
    requires
        is_bare_word(w) || is_paren_word(w),
    ensures
        no_brackets(w),
{
    if is_bare_word(w) {
        assert forall|i: int| 0 <= i < w.len() implies #[trigger] w[i] != '[' && w[i] != '{'
            && w[i] != '<' by {
            assert(is_letter(w[i]));
        }
    } else {
        let (o, c) = choose|o: int, c: int| is_paren_word_at(w, o, c);
        assert forall|i: int| 0 <= i < w.len() implies #[trigger] w[i] != '[' && w[i] != '{'
            && w[i] != '<' by {
            if i != o && i != c {
                assert(is_letter(w[i]));
            }
        }
    }
}

/// The display of a part that is read back holds no bracket.
proof fn lemma_shown_no_brackets(p: PartView, depth: nat)
    requires
        reads_back(p, depth),
    ensures
        shown(p) matches Some(t) && no_brackets(t),
    decreases p, 0nat,
{
    match p {
        PartView::Keyword(w) => {
            lemma_letters_no_brackets(w);
        },
        PartView::Extra(ps) => {
            lemma_joined_no_brackets(ps, ps.len(), depth + 1);
        },
        _ => {},
    }
}

/// The display of parts that are read back holds no bracket.
proof fn lemma_joined_no_brackets(ps: Seq<PartView>, n: nat, depth: nat)
    requires
        n <= ps.len(),
        read_back_upto(ps, n, depth),
    ensures
        no_brackets(joined_upto(ps, n)),
    decreases ps, n,
{
    if n > 0 {
        lemma_joined_no_brackets(ps, (n - 1) as nat, depth);
        lemma_shown_no_brackets(ps[n - 1], depth);
    }
}

/// The display of the `k`th of parts whose display stands in `s` from
/// `from` on: where it stands, and what stands behind it.
proof fn lemma_part_place(
    s: Seq<char>,
    from: int,
    qs: Seq<PartView>,
    k: nat,
    nested: bool,
    depth: nat,
)
    requires
        read_back_upto(qs, qs.len(), depth),
        k < qs.len(),
        0 <= from,
        from + joined(qs).len() <= s.len(),
        s.subrange(from, from + joined(qs).len()) == joined(qs),
        nested ==> from + joined(qs).len() < s.len() && s[from + joined(qs).len()] == ')',
        !nested ==> from + joined(qs).len() == s.len(),
    ensures
        ({
            let pos = from + start_of(texts(qs), k);
            let w = texts(qs)[k as int];
            let end = pos + w.len();
            &&& 0 <= pos < end
            &&& k == 0 ==> pos == from
            &&& k > 0 ==> s[pos - 1] == ' '
            &&& shown(qs[k as int]) == Some(w)
            &&& s.subrange(pos, end) == w
            &&& ends_at(s, end, nested)
            &&& k + 1 < qs.len() ==> end < s.len() && s[end] == ' ' && end + 1 == from
                + start_of(texts(qs), k + 1)
            &&& k + 1 == qs.len() ==> end == from + joined(qs).len()
        }),
{
    let n = qs.len();
    let ws = texts(qs);
    let text = joined(qs);
    let last = from + text.len();
    lemma_joined_texts(qs, n, depth);
    lemma_read_back_each(qs, n, depth);
    let w = ws[k as int];
    let pos = from + start_of(ws, k);
    let end = pos + w.len();
    lemma_reads_back_shown(qs[k as int], depth);
    lemma_join_prefix(ws, k, n);
    assert(s.subrange(pos, end) =~= w) by {
        assert forall|i: int| 0 <= i < w.len() implies s[pos + i] == w[i] by {
            assert(text[start_of(ws, k) + i] == s.subrange(from, last)[start_of(ws, k) + i]);
            assert(text.subrange(start_of(ws, k), start_of(ws, k) + w.len())[i] == w[i]);
        }
    }
    if k + 1 < n {
        lemma_join_prefix(ws, k + 1, n);
        assert(text[start_of(ws, k + 1) - 1] == ' ');
        assert(s.subrange(from, last)[end - from] == s[end]);
    }
    if k > 0 {
        assert(text[start_of(ws, k) - 1] == ' ');
        assert(s.subrange(from, last)[pos - 1 - from] == s[pos - 1]);
    }
}

/// The machine reads the display of one part that is read back, which
/// stands in `s` from `pos` up to `end`, as that part.
proof fn lemma_reads_one(
    s: Seq<char>,
    pos: int,
    end: int,
    q: PartView,
    nested: bool,
    depth: nat,
)
    requires
        reads_back(q, depth),
        no_brackets(s),
        0 <= pos < end,
        opens_group(s, pos),
        ends_at(s, end, nested),
        shown(q) == Some(s.subrange(pos, end)),
    ensures
        run(s, StateSpec::Base(BaseSpec { pos, nested, done: false }), depth) == after_part(
            q,
            rest_after(s, end, nested, depth),
        ),
    decreases q, 1nat,
{
    let w = s.subrange(pos, end);
    assert forall|i: int| 0 <= i < w.len() implies s[pos + i] == #[trigger] w[i] by {}
    match q {
        PartView::Keyword(_) => {
            if is_bare_word(w) {
                assert forall|i: int| pos <= i < end implies is_letter(#[trigger] s[i]) by {
                    assert(s[i] == w[i - pos]);
                }
                lemma_reads_word(s, pos, end, nested, depth);
            } else {
                let (o, c) = choose|o: int, c: int| is_paren_word_at(w, o, c);
                assert forall|i: int|
                    pos <= i < end && i != pos + o && i != pos + c implies is_letter(
                    #[trigger] s[i],
                ) by {
                    assert(s[i] == w[i - pos]);
                }
                assert(s[pos + o] == w[o]);
                assert(s[pos + c] == w[c]);
                lemma_reads_paren_word(s, pos, pos + o, pos + c, end, nested, depth);
            }
        },
        PartView::VariantSeparator => {
            assert(w.len() == 1);
            assert(s[pos] == w[0]);
            lemma_reads_separator(s, pos, nested, depth);
        },
        PartView::Placeholder(_) => {
            assert(w.len() == 4);
            lemma_reads_sich(s, pos, nested, depth);
        },
        PartView::Extra(inner) => {
            let inside = joined(inner);
            assert(w == seq!['('] + inside + seq![')']);
            assert(s[pos] == w[0]);
            assert(s[end - 1] == w[w.len() - 1]);
            assert(s.subrange(pos + 1, pos + 1 + inside.len()) =~= inside) by {
                assert forall|i: int| 0 <= i < inside.len() implies s[pos + 1 + i]
                    == inside[i] by {
                    assert(s[pos + 1 + i] == w[1 + i]);
                }
            }
            lemma_reads_parts(s, pos + 1, inner, 0, true, depth + 1);
            assert(inner.skip(0) =~= inner);
            lemma_reads_group(s, pos, end, inner, nested, depth);
        },
        _ => {},
    }
}

/// The machine reads the display of parts that are read back, which
/// stands in `s` from `from` on, part by part: from the `k`th part on it
/// yields the parts from the `k`th on.
proof fn lemma_reads_parts(
    s: Seq<char>,
    from: int,
    qs: Seq<PartView>,
    k: nat,
    nested: bool,
    depth: nat,
)
    requires
        read_back_upto(qs, qs.len(), depth),
        no_brackets(s),
        k <= qs.len(),
        0 <= from,
        opens_group(s, from),
        from + joined(qs).len() <= s.len(),
        s.subrange(from, from + joined(qs).len()) == joined(qs),
        nested ==> from + joined(qs).len() < s.len() && s[from + joined(qs).len()] == ')',
        !nested ==> from + joined(qs).len() == s.len(),
    ensures
        run(
            s,
            StateSpec::Base(
                BaseSpec {
                    pos: if k == qs.len() {
                        from + joined(qs).len()
                    } else {
                        from + start_of(texts(qs), k)
                    },
                    nested,
                    done: false,
                },
            ),
            depth,
        ) == Ok::<(Seq<PartView>, int), GrammarError>(
            (
                qs.skip(k as int),
                if nested {
                    from + joined(qs).len() + 1
                } else {
                    s.len() as int
                },
            ),
        ),
    decreases qs, 0nat, qs.len() - k,
{
    let n = qs.len();
    let last = from + joined(qs).len();
    if k == n {
        lemma_behind_item(s, last, nested, depth);
        assert(qs.skip(k as int) =~= Seq::<PartView>::empty());
    } else {
        let q = qs[k as int];
        let pos = from + start_of(texts(qs), k);
        let end = pos + texts(qs)[k as int].len();
        lemma_part_place(s, from, qs, k, nested, depth);
        lemma_read_back_each(qs, n, depth);
        vstd::seq::axiom_seq_index_decreases(qs, k as int);
        lemma_reads_one(s, pos, end, q, nested, depth);
        let here = StateSpec::Base(BaseSpec { pos, nested, done: false });
        assert(run(s, here, depth) == after_part(q, rest_after(s, end, nested, depth)));
        assert(seq![q] + qs.skip(k as int + 1) =~= qs.skip(k as int));
        if k + 1 < n {
            lemma_reads_parts(s, from, qs, k + 1, nested, depth);
            let next = StateSpec::Base(BaseSpec { pos: end + 1, nested, done: false });
            assert(rest_after(s, end, nested, depth) == run(s, next, depth));
        } else {
            assert(qs.skip(k as int + 1) =~= Seq::<PartView>::empty());
            assert(end == last);
            assert(seq![q] + Seq::<PartView>::empty() =~= seq![q]);
        }
    }
}

/// Parts that are read back parse from their display to themselves.
pub proof fn law_reads_back(qs: Seq<PartView>)
    requires
        read_back_upto(qs, qs.len(), 0),
    ensures
        parse_spec(joined(qs)) == Ok::<Seq<PartView>, GrammarError>(qs),
{
    let s = joined(qs);
    lemma_joined_no_brackets(qs, qs.len(), 0);
    assert(s.subrange(0, s.len() as int) =~= s);
    lemma_reads_parts(s, 0, qs, 0, false, 0);
    assert(qs.skip(0) =~= qs);
    lemma_joined_texts(qs, qs.len(), 0);
}

/// A part whose display is read back as a part with the same display,
/// inside `depth` groups: a keyword that is a word, the separator, a
/// placeholder, a gender, an annotation that is no number, a group of
/// such parts that does not stand too deep.
pub open spec fn redisplays(p: PartView, depth: nat) -> bool
    decreases p, 0nat,
{
    match p {
        PartView::Keyword(w) => is_bare_word(w) || is_paren_word(w),
        PartView::VariantSeparator => true,
        PartView::Placeholder(_) => true,
        PartView::Gender(_) => true,
        PartView::Annotation(a) => a.kind != AnnotationKind::Number,
        PartView::Extra(ps) => depth < MAX_DEPTH && redisplay_upto(ps, ps.len(), depth + 1),
    }
}

/// The first `n` parts of `ps` are such parts.
pub open spec fn redisplay_upto(ps: Seq<PartView>, n: nat, depth: nat) -> bool
    decreases ps, n,
{
    if n == 0 || n > ps.len() {
        true
    } else {
        proof {
            vstd::seq::axiom_seq_index_decreases(ps, n - 1);
        }
        redisplay_upto(ps, (n - 1) as nat, depth) && redisplays(ps[n - 1], depth)
    }
}

/// The part as which the display of `p` is read: a gender and a
/// placeholder with a case as the keyword that displays them, a group as
/// the group of what its parts are read as, everything else as it is.
pub open spec fn reread(p: PartView) -> PartView
    decreases p, 0nat,
{
    match p {
        PartView::Gender(g) => PartView::Keyword(g.article()),
        PartView::Placeholder(ph) => if ph == Placeholder::Reflexive(None) {
            p
        } else {
            PartView::Keyword(ph.compact())
        },
        PartView::Extra(ps) => PartView::Extra(reread_upto(ps, ps.len())),
        _ => p,
    }
}

/// The parts as which the display of the first `n` parts of `ps` is read:
/// nothing for a part that is not displayed.
pub open spec fn reread_upto(ps: Seq<PartView>, n: nat) -> Seq<PartView>
    decreases ps, n,
{
    if n == 0 || n > ps.len() {
        Seq::empty()
    } else {
        proof {
            vstd::seq::axiom_seq_index_decreases(ps, n - 1);
        }
        let head = reread_upto(ps, (n - 1) as nat);
        if shown(ps[n - 1]) is Some {
            head.push(reread(ps[n - 1]))
        } else {
            head
        }
    }
}

/// The display of the first `n` parts does not depend on the parts behind
/// them, nor does whether they are read back.
proof fn lemma_upto_ignores_rest(a: Seq<PartView>, b: Seq<PartView>, n: nat, depth: nat)
    requires
        n <= a.len(),
        n <= b.len(),
        forall|i: int| 0 <= i < n ==> a[i] == b[i],
    ensures
        joined_upto(a, n) == joined_upto(b, n),
        read_back_upto(a, n, depth) == read_back_upto(b, n, depth),
        picked(a, n, true) == picked(b, n, true),
        picked(a, n, false) == picked(b, n, false),
    decreases n,
{
    if n > 0 {
        lemma_upto_ignores_rest(a, b, (n - 1) as nat, depth);
    }
}

/// The compact form of a placeholder is a word.
proof fn lemma_compact_is_word(ph: Placeholder)
    requires
        ph != Placeholder::Reflexive(None),
    ensures
        is_bare_word(ph.compact()) || is_paren_word(ph.compact()),
{
    let w = ph.compact();
    lemma_word3(w, 'j', 'd', '.');
    lemma_word4(w, 'j', 'd', 'n', '.');
    lemma_word4(w, 'j', 'd', 'm', '.');
    lemma_word4(w, 'j', 'd', 's', '.');
    lemma_word4(w, 'e', 't', 'w', '.');
    lemma_word4(w, 's', 'i', 'c', 'h');
    match ph {
        Placeholder::Thing(Some(c)) => {
            assert(is_letter(c.letter()));
            assert(is_paren_word_at(w, 3, 5));
        },
        Placeholder::Reflexive(Some(c)) => {
            assert(is_letter(c.letter()));
            assert(is_paren_word_at(w, 4, 6));
        },
        _ => {
            assert(is_bare_word(w));
        },
    }
}

/// The article of a gender is a word.
proof fn lemma_article_is_word(g: crate::entry::gender::Gender)
    ensures
        is_bare_word(g.article()),
{
    let w = g.article();
    reveal_strlit("der");
    reveal_strlit("die");
    reveal_strlit("das");
    lemma_word3(w, 'j', 'd', '.');
    lemma_word4(w, 'j', 'd', 'n', '.');
    lemma_word4(w, 'j', 'd', 'm', '.');
    lemma_word4(w, 'j', 'd', 's', '.');
    lemma_word4(w, 'e', 't', 'w', '.');
    lemma_word4(w, 's', 'i', 'c', 'h');
}

/// What a displayed part is read as is read back as it is, has the
/// display of the part, and is no gender.
proof fn lemma_reread(p: PartView, depth: nat)
    requires
        redisplays(p, depth),
        shown(p) is Some,
    ensures
        reads_back(reread(p), depth),
        shown(reread(p)) == shown(p),
        !(reread(p) is Gender),
    decreases p, 0nat,
{
    match p {
        PartView::Gender(g) => {
            lemma_article_is_word(g);
        },
        PartView::Placeholder(ph) => {
            if ph != Placeholder::Reflexive(None) {
                lemma_compact_is_word(ph);
            }
        },
        PartView::Extra(ps) => {
            lemma_reread_upto(ps, ps.len(), depth + 1);
        },
        _ => {},
    }
}

/// What displayed parts are read as are read back as they are, have the
/// display of the parts, and hold no gender.
proof fn lemma_reread_upto(ps: Seq<PartView>, n: nat, depth: nat)
    requires
        n <= ps.len(),
        redisplay_upto(ps, n, depth),
    ensures
        read_back_upto(reread_upto(ps, n), reread_upto(ps, n).len(), depth),
        joined(reread_upto(ps, n)) == joined_upto(ps, n),
        forall|i: int| 0 <= i < reread_upto(ps, n).len() ==> !(#[trigger] reread_upto(ps, n)[i] is Gender),
    decreases ps, n,
{
    if n > 0 {
        lemma_reread_upto(ps, (n - 1) as nat, depth);
        let head = reread_upto(ps, (n - 1) as nat);
        let p = ps[n - 1];
        if shown(p) is Some {
            lemma_reread(p, depth);
            let now = head.push(reread(p));
            lemma_upto_ignores_rest(now, head, head.len(), depth);
        }
    }
}

/// Parts without a gender are displayed in their order.
proof fn lemma_order_without_genders(qs: Seq<PartView>, n: nat)
    requires
        n <= qs.len(),
        forall|i: int| 0 <= i < qs.len() ==> !(#[trigger] qs[i] is Gender),
    ensures
        picked(qs, n, true) == Seq::<PartView>::empty(),
        picked(qs, n, false) == qs.take(n as int),
    decreases n,
{
    if n > 0 {
        lemma_order_without_genders(qs, (n - 1) as nat);
        assert(qs.take(n as int) =~= qs.take(n - 1).push(qs[n - 1]));
    } else {
        assert(qs.take(0) =~= Seq::<PartView>::empty());
    }
}

/// What is picked of such parts are such parts.
proof fn lemma_picked_redisplay(ps: Seq<PartView>, n: nat, genders: bool, depth: nat)
    requires
        n <= ps.len(),
        redisplay_upto(ps, n, depth),
    ensures
        redisplay_upto(picked(ps, n, genders), picked(ps, n, genders).len(), depth),
    decreases n,
{
    if n > 0 {
        lemma_picked_redisplay(ps, (n - 1) as nat, genders, depth);
        let head = picked(ps, (n - 1) as nat, genders);
        let now = picked(ps, n, genders);
        if now.len() > head.len() {
            lemma_redisplay_ignores_rest(now, head, head.len(), depth);
        }
    }
}

/// Whether the first `n` parts are such parts does not depend on the
/// parts behind them.
proof fn lemma_redisplay_ignores_rest(a: Seq<PartView>, b: Seq<PartView>, n: nat, depth: nat)
    requires
        n <= a.len(),
        n <= b.len(),
        forall|i: int| 0 <= i < n ==> a[i] == b[i],
    ensures
        redisplay_upto(a, n, depth) == redisplay_upto(b, n, depth),
    decreases n,
{
    if n > 0 {
        lemma_redisplay_ignores_rest(a, b, (n - 1) as nat, depth);
    }
}

/// Such parts one behind the other are such parts.
proof fn lemma_redisplay_append(a: Seq<PartView>, b: Seq<PartView>, n: nat, depth: nat)
    requires
        redisplay_upto(a, a.len(), depth),
        redisplay_upto(b, b.len(), depth),
        n <= b.len(),
    ensures
        redisplay_upto(a + b, a.len() + n, depth),
    decreases n,
{
    if n > 0 {
        lemma_redisplay_append(a, b, (n - 1) as nat, depth);
        lemma_redisplay_each(b, b.len(), depth);
        assert((a + b)[a.len() + n - 1] == b[n - 1]);
    } else {
        lemma_redisplay_ignores_rest(a + b, a, a.len(), depth);
    }
}

/// Each of such parts is such a part.
proof fn lemma_redisplay_each(ps: Seq<PartView>, n: nat, depth: nat)
    requires
        n <= ps.len(),
        redisplay_upto(ps, n, depth),
    ensures
        forall|i: int| 0 <= i < n ==> redisplays(#[trigger] ps[i], depth),
    decreases n,
{
    if n > 0 {
        lemma_redisplay_each(ps, (n - 1) as nat, depth);
    }
}

/// The display of a term whose parts are displayed as words, separators
/// and groups of these parses, and the term that it parses to is
/// displayed in the same way.
pub proof fn law_display_is_fixed_point(ps: Seq<PartView>)
    requires
        redisplay_upto(ps, ps.len(), 0),
    ensures
        parse_spec(canonical(ps)) matches Ok(qs) && canonical(qs) == canonical(ps),
{
    let n = ps.len();
    let genders = picked(ps, n, true);
    let others = picked(ps, n, false);
    let ord = display_order(ps);
    lemma_picked_redisplay(ps, n, true, 0);
    lemma_picked_redisplay(ps, n, false, 0);
    lemma_redisplay_append(genders, others, others.len(), 0);
    lemma_reread_upto(ord, ord.len(), 0);
    let qs = reread_upto(ord, ord.len());
    law_reads_back(qs);
    lemma_order_without_genders(qs, qs.len());
    assert(qs.take(qs.len() as int) =~= qs);
    assert(display_order(qs) =~= qs);
}

/// A part that is read back inside some groups is read back inside fewer.
proof fn lemma_reads_back_shallower(p: PartView, depth: nat)
    requires
        reads_back(p, depth + 1),
    ensures
        reads_back(p, depth),
    decreases p, 0nat,
{
    match p {
        PartView::Extra(ps) => {
            lemma_read_back_shallower(ps, ps.len(), depth + 1);
        },
        _ => {},
    }
}

/// Parts that are read back inside some groups are read back inside
/// fewer.
proof fn lemma_read_back_shallower(ps: Seq<PartView>, n: nat, depth: nat)
    requires
        n <= ps.len(),
        read_back_upto(ps, n, depth + 1),
    ensures
        read_back_upto(ps, n, depth),
    decreases ps, n,
{
    if n > 0 {
        lemma_read_back_shallower(ps, (n - 1) as nat, depth);
        lemma_reads_back_shallower(ps[n - 1], depth);
    }
}

/// The display of parts that are read back inside a group parses in
/// parentheses to one group, which holds what the display parses to on
/// its own: the parts.
pub proof fn law_group_of_display(qs: Seq<PartView>)
    requires
        read_back_upto(qs, qs.len(), 1),
    ensures
        parse_spec(joined(qs)) == Ok::<Seq<PartView>, GrammarError>(qs),
        parse_spec(in_parens(joined(qs))) == Ok::<Seq<PartView>, GrammarError>(
            seq![PartView::Extra(qs)],
        ),
{
    lemma_read_back_shallower(qs, qs.len(), 0);
    law_reads_back(qs);
    let group = seq![PartView::Extra(qs)];
    assert(read_back_upto(group, 1, 0)) by {
        assert(read_back_upto(group, 0, 0));
        assert(reads_back(group[0], 0));
    }
    law_reads_back(group);
    assert(joined(group) == seq!['('] + joined(qs) + seq![')']) by {
        reveal_with_fuel(joined_upto, 2);
        assert(joined_upto(group, 0) =~= Seq::<char>::empty());
        assert(shown(group[0]) == Some(seq!['('] + joined(qs) + seq![')']));
        assert(joined_upto(group, 1) == spaced(
            joined_upto(group, 0),
            seq!['('] + joined(qs) + seq![')'],
        ));
    }
}

} // verus!
