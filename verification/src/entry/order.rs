//! The order in which terms are displayed.

use vstd::prelude::*;
use crate::entry::annotation::AnnotationKind;
use crate::entry::gender::Gender;
use crate::entry::grammar::PartView;
use crate::entry::part::{lemma_extra_view, parts_view, Part};
use crate::entry::placeholder::{Case, Placeholder};
use crate::text::{compare_text, text_sign};

verus! {

/// The place of a kind of part among the kinds.
pub open spec fn kind_rank(p: PartView) -> int {
    match p {
        PartView::Keyword(_) => 0,
        PartView::Extra(_) => 1,
        PartView::VariantSeparator => 2,
        PartView::Placeholder(_) => 3,
        PartView::Annotation(_) => 4,
        PartView::Gender(_) => 5,
    }
}

/// The place of a case among the cases.
pub open spec fn case_rank(c: Case) -> int {
    match c {
        Case::Nominative => 0,
        Case::Accusative => 1,
        Case::Dative => 2,
        Case::Genitive => 3,
    }
}

/// The place of a placeholder: reflexive, thing, person; within each,
/// without a case first, then by case.
pub open spec fn placeholder_rank(p: Placeholder) -> int {
    match p {
        Placeholder::Reflexive(None) => 0,
        Placeholder::Reflexive(Some(c)) => 1 + case_rank(c),
        Placeholder::Thing(None) => 5,
        Placeholder::Thing(Some(c)) => 6 + case_rank(c),
        Placeholder::Person(c) => 10 + case_rank(c),
    }
}

/// The place of a kind of annotation among the kinds.
pub open spec fn annotation_rank(k: AnnotationKind) -> int {
    match k {
        AnnotationKind::Explanation => 0,
        AnnotationKind::Alternative => 1,
        AnnotationKind::Number => 2,
    }
}

/// The place of a gender among the genders.
pub open spec fn gender_rank(g: Gender) -> int {
    match g {
        Gender::Masculine => 0,
        Gender::Feminine => 1,
        Gender::Neutral => 2,
    }
}

/// The sign of the comparison of two integers.
pub open spec fn sign_of(a: int, b: int) -> int {
    if a < b {
        -1
    } else if a > b {
        1
    } else {
        0
    }
}

/// The sign of the comparison of two parts: by kind, then by content.
/// Keywords are compared in dictionary order, groups part by part, an
/// annotation by its text and then by its kind.
pub open spec fn part_sign(p: PartView, q: PartView) -> int
    decreases p, 0nat,
{
    match (p, q) {
        (PartView::Keyword(a), PartView::Keyword(b)) => text_sign(a, b, 0),
        (PartView::Extra(a), PartView::Extra(b)) => parts_sign(a, b, 0),
        (PartView::Placeholder(a), PartView::Placeholder(b)) => sign_of(
            placeholder_rank(a),
            placeholder_rank(b),
        ),
        (PartView::Annotation(a), PartView::Annotation(b)) => if text_sign(a.value, b.value, 0)
            != 0 {
            text_sign(a.value, b.value, 0)
        } else {
            sign_of(annotation_rank(a.kind), annotation_rank(b.kind))
        },
        (PartView::Gender(a), PartView::Gender(b)) => sign_of(gender_rank(a), gender_rank(b)),
        _ => sign_of(kind_rank(p), kind_rank(q)),
    }
}

/// The sign of the comparison of `ps[i..]` with `qs[i..]` part by part. A
/// sequence comes before every sequence that it begins.
pub open spec fn parts_sign(ps: Seq<PartView>, qs: Seq<PartView>, i: nat) -> int
    decreases ps, ps.len() - i,
{
    if i >= ps.len() {
        if i >= qs.len() {
            0
        } else {
            -1
        }
    } else if i >= qs.len() {
        1
    } else {
        proof {
            vstd::seq::axiom_seq_index_decreases(ps, i as int);
        }
        if part_sign(ps[i as int], qs[i as int]) != 0 {
            part_sign(ps[i as int], qs[i as int])
        } else {
            parts_sign(ps, qs, i + 1)
        }
    }
}

/// Those of the first `n` parts of `ps` that are keywords, or those that
/// are groups, in their order.
pub open spec fn chosen(ps: Seq<PartView>, n: nat, keywords: bool) -> Seq<PartView>
    decreases n,
{
    if n == 0 || n > ps.len() {
        Seq::empty()
    } else {
        let head = chosen(ps, (n - 1) as nat, keywords);
        let p = ps[n - 1];
        if (keywords && p is Keyword) || (!keywords && p is Extra) {
            head.push(p)
        } else {
            head
        }
    }
}

/// The sign by which two terms are ordered, if they are: that of their
/// keywords, or where these are the same that of their groups; terms that
/// agree in both are not ordered.
pub open spec fn term_sign(a: Seq<PartView>, b: Seq<PartView>) -> Option<int> {
    let k = parts_sign(chosen(a, a.len(), true), chosen(b, b.len(), true), 0);
    let e = parts_sign(chosen(a, a.len(), false), chosen(b, b.len(), false), 0);
    if k != 0 {
        Some(k)
    } else if e != 0 {
        Some(e)
    } else {
        None
    }
}

fn rank_of_case(c: Case) -> (r: i8)
    ensures
        r == case_rank(c),
{
    match c {
        Case::Nominative => 0,
        Case::Accusative => 1,
        Case::Dative => 2,
        Case::Genitive => 3,
    }
}

fn rank_of_placeholder(p: Placeholder) -> (r: i8)
    ensures
        r == placeholder_rank(p),
{
    match p {
        Placeholder::Reflexive(None) => 0,
        Placeholder::Reflexive(Some(c)) => 1 + rank_of_case(c),
        Placeholder::Thing(None) => 5,
        Placeholder::Thing(Some(c)) => 6 + rank_of_case(c),
        Placeholder::Person(c) => 10 + rank_of_case(c),
    }
}

fn rank_of_kind(p: &Part) -> (r: i8)
    ensures
        r == kind_rank(p@),
{
    match p {
        Part::Keyword(_) => 0,
        Part::Extra(_) => 1,
        Part::VariantSeparator => 2,
        Part::Placeholder(_) => 3,
        Part::Annotation(_) => 4,
        Part::Gender(_) => 5,
    }
}

fn sign(a: i8, b: i8) -> (r: i8)
    ensures
        r == sign_of(a as int, b as int),
{
    if a < b {
        -1
    } else if a > b {
        1
    } else {
        0
    }
}

/// Compares two parts.
pub fn compare_part(p: &Part, q: &Part) -> (r: i8)
    ensures
        r == part_sign(p@, q@),
    decreases p, 0nat,
{
    match (p, q) {
        (Part::Keyword(a), Part::Keyword(b)) => compare_text(a.as_str(), b.as_str()),
        (Part::Extra(a), Part::Extra(b)) => {
            proof {
                lemma_extra_view(*a);
                lemma_extra_view(*b);
            }
            compare_parts(a, b)
        },
        (Part::Placeholder(a), Part::Placeholder(b)) => sign(
            rank_of_placeholder(*a),
            rank_of_placeholder(*b),
        ),
        (Part::Annotation(a), Part::Annotation(b)) => {
            let t = compare_text(a.value.as_str(), b.value.as_str());
            if t != 0 {
                t
            } else {
                let x: i8 = match a.kind {
                    AnnotationKind::Explanation => 0,
                    AnnotationKind::Alternative => 1,
                    AnnotationKind::Number => 2,
                };
                let y: i8 = match b.kind {
                    AnnotationKind::Explanation => 0,
                    AnnotationKind::Alternative => 1,
                    AnnotationKind::Number => 2,
                };
                sign(x, y)
            }
        },
        (Part::Gender(a), Part::Gender(b)) => {
            let x: i8 = match a {
                Gender::Masculine => 0,
                Gender::Feminine => 1,
                Gender::Neutral => 2,
            };
            let y: i8 = match b {
                Gender::Masculine => 0,
                Gender::Feminine => 1,
                Gender::Neutral => 2,
            };
            sign(x, y)
        },
        _ => sign(rank_of_kind(p), rank_of_kind(q)),
    }
}

/// Compares two sequences of parts, part by part.
pub fn compare_parts(a: &Vec<Part>, b: &Vec<Part>) -> (r: i8)
    ensures
        r == parts_sign(parts_view(a@), parts_view(b@), 0),
    decreases a, 1nat,
{
    let ghost ps = parts_view(a@);
    let ghost qs = parts_view(b@);
    let mut i: usize = 0;
    while i < a.len() && i < b.len()
        invariant
            i <= a.len(),
            i <= b.len(),
            ps == parts_view(a@),
            qs == parts_view(b@),
            parts_sign(ps, qs, 0) == parts_sign(ps, qs, i as nat),
        decreases a.len() - i,
    {
        proof {
            vstd::std_specs::vec::axiom_vec_index_decreases(*a, i as int);
        }
        let c = compare_part(&a[i], &b[i]);
        if c != 0 {
            return c;
        }
        i += 1;
    }
    if i < b.len() {
        -1
    } else if i < a.len() {
        1
    } else {
        0
    }
}

/// The keywords of `parts`, or its groups.
pub fn choose_parts(parts: &Vec<Part>, keywords: bool) -> (out: Vec<Part>)
    ensures
        parts_view(out@) == chosen(parts_view(parts@), parts@.len(), keywords),
{
    let ghost ps = parts_view(parts@);
    let mut out: Vec<Part> = Vec::new();
    let mut i: usize = 0;
    assert(parts_view(out@) =~= Seq::<PartView>::empty());
    while i < parts.len()
        invariant
            i <= parts.len(),
            ps == parts_view(parts@),
            parts_view(out@) == chosen(ps, i as nat, keywords),
        decreases parts.len() - i,
    {
        let p = &parts[i];
        let wanted = match p {
            Part::Keyword(_) => keywords,
            Part::Extra(_) => !keywords,
            _ => false,
        };
        let ghost before = parts_view(out@);
        if wanted {
            out.push(p.clone());
            assert(parts_view(out@) =~= before.push(p@));
        }
        i += 1;
    }
    out
}

/// The sign by which two sequences of parts are ordered as terms.
pub fn compare_terms(a: &Vec<Part>, b: &Vec<Part>) -> (r: Option<i8>)
    ensures
        match (r, term_sign(parts_view(a@), parts_view(b@))) {
            (Some(x), Some(y)) => x == y,
            (None, None) => true,
            _ => false,
        },
{
    let k = compare_parts(&choose_parts(a, true), &choose_parts(b, true));
    if k != 0 {
        return Some(k);
    }
    let e = compare_parts(&choose_parts(a, false), &choose_parts(b, false));
    if e != 0 {
        Some(e)
    } else {
        None
    }
}

} // verus!
