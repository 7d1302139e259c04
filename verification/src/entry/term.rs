use std::cmp::Ordering;
use vstd::prelude::*;
use vstd::std_specs::cmp::{PartialEqSpecImpl, PartialOrdSpecImpl};
use crate::entry::grammar::{parse_spec, GrammarError, PartView};
use crate::entry::order::{compare_terms, term_sign};
use crate::entry::part::{parts_view, same_parts, Parser, Part};
use crate::entry::render::{canonical, format_parts, picked};
use crate::text::chars_of;
use crate::util::{fold_eq, fold_eq_chars};

verus! {

/// One side of a dictionary entry: the parts of one parse, in order.
#[derive(Debug, Eq, Hash)]
pub struct Term {
    parts: Vec<Part>,
}

impl View for Term {
    type V = Seq<PartView>;

    closed spec fn view(&self) -> Seq<PartView> {
        parts_view(self.parts@)
    }
}

/// The content of what `Term::parse` returns.
pub open spec fn term_view(r: Result<Term, GrammarError>) -> Result<Seq<PartView>, GrammarError> {
    match r {
        Ok(t) => Ok(t@),
        Err(e) => Err(e),
    }
}

/// The number of bytes that `s` takes in UTF-8.
pub open spec fn byte_len(s: Seq<char>) -> usize {
    vstd::utf8::encode_utf8(s).len() as usize
}

/// A term matches a candidate exactly if it is one keyword and nothing
/// else, and that keyword has the candidate's length, in bytes and in
/// characters, and its letters without regard to case.
pub open spec fn matches_exactly(parts: Seq<PartView>, candidate: Seq<char>) -> bool {
    &&& parts.len() == 1
    &&& parts[0] matches PartView::Keyword(word)
    &&& byte_len(word) == byte_len(candidate)
    &&& word.len() == candidate.len()
    &&& fold_eq(candidate, word)
}

impl Term {
    /// Parses one field of an entry.
    pub fn parse(input: &str) -> (r: Result<Term, GrammarError>)
        ensures
            term_view(r) == parse_spec(input@),
    {
        match Parser::new(input).parse_parts() {
            Ok(parts) => Ok(Term { parts }),
            Err(e) => Err(e),
        }
    }

    /// The parts of the term.
    pub fn parts(&self) -> (r: &Vec<Part>)
        ensures
            parts_view(r@) == self@,
    {
        &self.parts
    }

    /// Whether the term is the single word `input`, without regard to case.
    pub fn match_exact(&self, input: &str) -> (r: bool)
        ensures
            r == matches_exactly(self@, input@),
    {
        if self.parts.len() != 1 {
            return false;
        }
        match &self.parts[0] {
            Part::Keyword(word) => {
                if input.len() != word.as_str().len() {
                    return false;
                }
                let x = chars_of(input);
                let y = chars_of(word.as_str());
                if x.len() != y.len() {
                    return false;
                }
                let r = fold_eq_chars(&x, 0, &y, y.len());
                proof {
                    assert(x@.subrange(0, x.len() as int) =~= x@);
                    assert(y@.take(y.len() as int) =~= y@);
                }
                r
            },
            _ => false,
        }
    }
}

impl Term {
    /// Appends to `out` those parts that are genders, or those that are
    /// not.
    fn pick(&self, out: &mut Vec<Part>, genders: bool)
        ensures
            parts_view(final(out)@) == parts_view(old(out)@) + picked(
                self@,
                self@.len(),
                genders,
            ),
    {
        let ghost before = parts_view(out@);
        let ghost ps = parts_view(self.parts@);
        let mut i: usize = 0;
        assert(before + picked(ps, 0, genders) =~= before);
        while i < self.parts.len()
            invariant
                i <= self.parts.len(),
                ps == parts_view(self.parts@),
                parts_view(out@) == before + picked(ps, i as nat, genders),
            decreases self.parts.len() - i,
        {
            let p = &self.parts[i];
            let is_gender = match p {
                Part::Gender(_) => true,
                _ => false,
            };
            let ghost shown_before = parts_view(out@);
            if is_gender == genders {
                out.push(p.clone());
                assert(parts_view(out@) =~= shown_before.push(p@));
                assert(before + picked(ps, i as nat, genders).push(p@) =~= (before + picked(
                    ps,
                    i as nat,
                    genders,
                )).push(p@));
            }
            i += 1;
        }
    }

    /// The canonical display of the term: the genders first, then the
    /// other parts in their order, joined with single spaces.
    pub fn render(&self) -> (out: String)
        ensures
            out@ == canonical(self@),
    {
        let mut ordered: Vec<Part> = Vec::new();
        assert(parts_view(ordered@) =~= Seq::<PartView>::empty());
        self.pick(&mut ordered, true);
        self.pick(&mut ordered, false);
        assert(parts_view(ordered@) =~= picked(self@, self@.len(), true) + picked(
            self@,
            self@.len(),
            false,
        ));
        format_parts(&ordered)
    }
}

/// Terms are equal where their parts are, one by one.
impl PartialEq for Term {
    fn eq(&self, other: &Self) -> (r: bool) {
        same_parts(&self.parts, &other.parts)
    }
}

impl PartialEqSpecImpl for Term {
    open spec fn obeys_eq_spec() -> bool {
        true
    }

    open spec fn eq_spec(&self, other: &Self) -> bool {
        self@ == other@
    }
}

/// Terms are ordered for display by their keywords and then by their
/// groups; terms that agree in both are not ordered, equal ones neither.
impl PartialOrd for Term {
    fn partial_cmp(&self, other: &Self) -> (r: Option<Ordering>) {
        match compare_terms(&self.parts, &other.parts) {
            Some(sign) => if sign < 0 {
                Some(Ordering::Less)
            } else {
                Some(Ordering::Greater)
            },
            None => None,
        }
    }
}

impl PartialOrdSpecImpl for Term {
    open spec fn obeys_partial_cmp_spec() -> bool {
        true
    }

    open spec fn partial_cmp_spec(&self, other: &Self) -> Option<Ordering> {
        match term_sign(self@, other@) {
            Some(sign) => if sign < 0 {
                Some(Ordering::Less)
            } else {
                Some(Ordering::Greater)
            },
            None => None,
        }
    }
}

impl Clone for Term {
    fn clone(&self) -> (out: Self)
        ensures
            out@ == self@,
    {
        let mut parts: Vec<Part> = Vec::new();
        let mut i: usize = 0;
        while i < self.parts.len()
            invariant
                i <= self.parts.len(),
                parts@.len() == i,
                forall|j: int| 0 <= j < i ==> parts@[j]@ == self.parts@[j]@,
            decreases self.parts.len() - i,
        {
            parts.push(self.parts[i].clone());
            i += 1;
        }
        assert(parts_view(parts@) =~= parts_view(self.parts@));
        Term { parts }
    }
}

} // verus!
