//! The canonical display of parts.

use vstd::prelude::*;
use vstd::string::StringExecFns;
use crate::entry::annotation::AnnotationKind;
use crate::entry::grammar::PartView;
use crate::entry::part::{lemma_extra_view, parts_view, Part};

verus! {

/// How a part is displayed, or `None` for a part that is not displayed:
/// a keyword as it is, a placeholder in its compact form, the separator as
/// `/`, a gender as its article, a number annotation in square brackets,
/// a group in parentheses. Other annotations are not displayed.
pub open spec fn shown(p: PartView) -> Option<Seq<char>>
    decreases p, 0nat,
{
    match p {
        PartView::Keyword(w) => Some(w),
        PartView::Placeholder(ph) => Some(ph.compact()),
        PartView::VariantSeparator => Some(seq!['/']),
        PartView::Gender(g) => Some(g.article()),
        PartView::Annotation(a) => if a.kind == AnnotationKind::Number {
            Some(seq!['['] + a.value + seq![']'])
        } else {
            None
        },
        PartView::Extra(ps) => Some(seq!['('] + joined_upto(ps, ps.len()) + seq![')']),
    }
}

/// `text` behind `head`, with one space between them unless `head` is
/// empty.
pub open spec fn spaced(head: Seq<char>, text: Seq<char>) -> Seq<char> {
    if head.len() == 0 {
        text
    } else {
        head + seq![' '] + text
    }
}

/// The display of the first `n` parts of `ps`, joined with single spaces.
pub open spec fn joined_upto(ps: Seq<PartView>, n: nat) -> Seq<char>
    decreases ps, n,
{
    if n == 0 || n > ps.len() {
        Seq::empty()
    } else {
        let head = joined_upto(ps, (n - 1) as nat);
        proof {
            vstd::seq::axiom_seq_index_decreases(ps, n - 1);
        }
        match shown(ps[n - 1]) {
            Some(text) => spaced(head, text),
            None => head,
        }
    }
}

/// The display of `ps`, joined with single spaces.
pub open spec fn joined(ps: Seq<PartView>) -> Seq<char> {
    joined_upto(ps, ps.len())
}

/// Those of the first `n` parts of `ps` that are genders, or those that
/// are not, in their order.
pub open spec fn picked(ps: Seq<PartView>, n: nat, genders: bool) -> Seq<PartView>
    decreases n,
{
    if n == 0 || n > ps.len() {
        Seq::empty()
    } else {
        let head = picked(ps, (n - 1) as nat, genders);
        if (ps[n - 1] is Gender) == genders {
            head.push(ps[n - 1])
        } else {
            head
        }
    }
}

/// The parts in the order of display: the genders first, then the rest.
pub open spec fn display_order(ps: Seq<PartView>) -> Seq<PartView> {
    picked(ps, ps.len(), true) + picked(ps, ps.len(), false)
}

/// The canonical display of a term.
pub open spec fn canonical(ps: Seq<PartView>) -> Seq<char> {
    joined(display_order(ps))
}

/// Displays one part.
pub fn format_part(p: &Part) -> (r: Option<String>)
    ensures
        match r {
            Some(text) => shown(p@) == Some(text@),
            None => shown(p@) is None,
        },
    decreases p, 0nat,
{
    match p {
        Part::Keyword(k) => Some(k.clone()),
        Part::Placeholder(ph) => Some(String::from_str(ph.render())),
        Part::VariantSeparator => {
            proof {
                reveal_strlit("/");
                assert("/"@ =~= seq!['/']);
            }
            Some(String::from_str("/"))
        },
        Part::Gender(g) => Some(String::from_str(g.render())),
        Part::Annotation(a) => {
            if a.kind == AnnotationKind::Number {
                proof {
                    reveal_strlit("[");
                    reveal_strlit("]");
                    assert("["@ =~= seq!['[']);
                    assert("]"@ =~= seq![']']);
                }
                let mut out = String::from_str("[");
                out.append(a.value.as_str());
                out.append("]");
                Some(out)
            } else {
                None
            }
        },
        Part::Extra(ps) => {
            proof {
                reveal_strlit("(");
                reveal_strlit(")");
                assert("("@ =~= seq!['(']);
                assert(")"@ =~= seq![')']);
                lemma_extra_view(*ps);
            }
            let inner = format_parts(ps);
            let mut out = String::from_str("(");
            out.append(inner.as_str());
            out.append(")");
            Some(out)
        },
    }
}

/// Displays parts in the order given, joined with single spaces.
pub fn format_parts(parts: &Vec<Part>) -> (out: String)
    ensures
        out@ == joined(parts_view(parts@)),
    decreases parts, 1nat,
{
    let ghost ps = parts_view(parts@);
    let mut out = String::new();
    let mut i: usize = 0;
    while i < parts.len()
        invariant
            i <= parts.len(),
            ps == parts_view(parts@),
            out@ == joined_upto(ps, i as nat),
        decreases parts.len() - i,
    {
        proof {
            vstd::std_specs::vec::axiom_vec_index_decreases(*parts, i as int);
            reveal_strlit(" ");
            assert(" "@ =~= seq![' ']);
        }
        match format_part(&parts[i]) {
            Some(text) => {
                if out.as_str().unicode_len() != 0 {
                    out.append(" ");
                }
                out.append(text.as_str());
            },
            None => {},
        }
        i += 1;
    }
    out
}

} // verus!
