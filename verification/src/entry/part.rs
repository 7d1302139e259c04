use vstd::prelude::*;
use vstd::std_specs::cmp::PartialEqSpecImpl;
use crate::entry::annotation::Annotation;
use crate::entry::gender::Gender;
use crate::entry::grammar::{run, BaseSpec, GrammarError, Outcome, PartView, StateSpec};
use crate::entry::placeholder::Placeholder;
use crate::entry::state::{drive, outcome_view, Base, State};
use crate::text::Source;

verus! {

/// One semantic unit of an entry.
#[derive(Debug, Eq, Hash)]
pub enum Part {
    /// A plain word.
    Keyword(String),
    /// An optional sub-phrase in parentheses.
    Extra(Vec<Part>),
    /// The character `/` between alternatives.
    VariantSeparator,
    /// `etw.`, `sich`, `jd.`, `jdn.`, `jdm.` or `jds.`.
    Placeholder(Placeholder),
    /// Text in `[]` or `<>`, or a number marker in `{}`.
    Annotation(Annotation),
    /// `{m}`, `{f}` or `{n}`.
    Gender(Gender),
}

/// The content of a part.
pub open spec fn part_view(p: Part) -> PartView
    decreases p,
{
    match p {
        Part::Keyword(w) => PartView::Keyword(w@),
        Part::Extra(v) => PartView::Extra(
            Seq::new(
                v.len() as nat,
                |i: int|
                    if 0 <= i < v.len() {
                        proof {
                            vstd::std_specs::vec::axiom_vec_index_decreases(v, i);
                        }
                        part_view(v[i])
                    } else {
                        PartView::VariantSeparator
                    },
            ),
        ),
        Part::VariantSeparator => PartView::VariantSeparator,
        Part::Placeholder(p) => PartView::Placeholder(p),
        Part::Annotation(a) => PartView::Annotation(a@),
        Part::Gender(g) => PartView::Gender(g),
    }
}

impl View for Part {
    type V = PartView;

    open spec fn view(&self) -> PartView {
        part_view(*self)
    }
}

/// The contents of a sequence of parts, in order.
pub open spec fn parts_view(v: Seq<Part>) -> Seq<PartView> {
    Seq::new(v.len(), |i: int| v[i]@)
}

/// The content of a part that may be absent.
pub open spec fn opt_view(p: Option<Part>) -> Option<PartView> {
    match p {
        Some(p) => Some(p@),
        None => None,
    }
}

/// A group holds the contents of its parts.
pub proof fn lemma_extra_view(v: Vec<Part>)
    ensures
        Part::Extra(v)@ == PartView::Extra(parts_view(v@)),
{
    assert(Part::Extra(v)@->Extra_0 =~= parts_view(v@));
}

/// Whether two sequences of parts have the same contents.
pub fn same_parts(a: &Vec<Part>, b: &Vec<Part>) -> (r: bool)
    ensures
        r == (parts_view(a@) == parts_view(b@)),
    decreases a, 1nat,
{
    if a.len() != b.len() {
        assert(parts_view(a@).len() != parts_view(b@).len());
        return false;
    }
    let mut i: usize = 0;
    while i < a.len()
        invariant
            i <= a.len(),
            a.len() == b.len(),
            forall|j: int| 0 <= j < i ==> a@[j]@ == b@[j]@,
        decreases a.len() - i,
    {
        proof {
            vstd::std_specs::vec::axiom_vec_index_decreases(*a, i as int);
        }
        if !same_part(&a[i], &b[i]) {
            assert(parts_view(a@)[i as int] != parts_view(b@)[i as int]);
            return false;
        }
        i += 1;
    }
    assert(parts_view(a@) =~= parts_view(b@));
    true
}

/// Whether two parts have the same content.
pub fn same_part(p: &Part, q: &Part) -> (r: bool)
    ensures
        r == (p@ == q@),
    decreases p, 0nat,
{
    match (p, q) {
        (Part::Keyword(a), Part::Keyword(b)) => *a == *b,
        (Part::Extra(a), Part::Extra(b)) => {
            proof {
                lemma_extra_view(*a);
                lemma_extra_view(*b);
            }
            same_parts(a, b)
        },
        (Part::VariantSeparator, Part::VariantSeparator) => true,
        (Part::Placeholder(a), Part::Placeholder(b)) => *a == *b,
        (Part::Annotation(a), Part::Annotation(b)) => *a == *b,
        (Part::Gender(a), Part::Gender(b)) => *a == *b,
        _ => false,
    }
}

/// Parts are equal where their contents are: keywords by their text,
/// groups part by part.
impl PartialEq for Part {
    fn eq(&self, other: &Self) -> (r: bool) {
        same_part(self, other)
    }
}

impl PartialEqSpecImpl for Part {
    open spec fn obeys_eq_spec() -> bool {
        true
    }

    open spec fn eq_spec(&self, other: &Self) -> bool {
        self@ == other@
    }
}

impl Clone for Part {
    fn clone(&self) -> (out: Self)
        ensures
            out@ == self@,
        decreases self,
    {
        match self {
            Part::Keyword(w) => Part::Keyword(w.clone()),
            Part::Extra(v) => {
                let mut w: Vec<Part> = Vec::new();
                let mut i: usize = 0;
                while i < v.len()
                    invariant
                        i <= v.len(),
                        w@.len() == i,
                        forall|j: int| 0 <= j < i ==> w@[j]@ == v@[j]@,
                        decreases_to!(*self => *v),
                    decreases v.len() - i,
                {
                    proof {
                        vstd::std_specs::vec::axiom_vec_index_decreases(*v, i as int);
                    }
                    w.push(v[i].clone());
                    i += 1;
                }
                proof {
                    lemma_extra_view(w);
                    lemma_extra_view(*v);
                    assert(parts_view(w@) =~= parts_view(v@));
                }
                Part::Extra(w)
            },
            Part::VariantSeparator => Part::VariantSeparator,
            Part::Placeholder(p) => Part::Placeholder(*p),
            Part::Annotation(a) => Part::Annotation(a.clone()),
            Part::Gender(g) => Part::Gender(*g),
        }
    }
}

/// The content of what a parse returns.
pub open spec fn parsed_view(r: Result<Vec<Part>, GrammarError>) -> Result<
    Seq<PartView>,
    GrammarError,
> {
    match r {
        Ok(parts) => Ok(parts_view(parts@)),
        Err(e) => Err(e),
    }
}

/// The parts of an outcome, without the position at which it ended.
pub open spec fn parts_of(o: Outcome) -> Result<Seq<PartView>, GrammarError> {
    match o {
        Ok((parts, _)) => Ok(parts),
        Err(e) => Err(e),
    }
}

/// A parser at work on one text.
pub struct Parser<'a> {
    src: Source<'a>,
    state: State,
}

impl<'a> Parser<'a> {
    #[verifier::type_invariant]
    spec fn inv(self) -> bool {
        self.state@.fits(self.src@)
    }

    /// The text that is parsed.
    pub closed spec fn text(&self) -> Seq<char> {
        self.src@
    }

    /// The state that the parser is in.
    pub closed spec fn state(&self) -> StateSpec {
        self.state@
    }

    /// A parser at the beginning of `input`.
    pub fn new(input: &'a str) -> (p: Self)
        ensures
            p.text() == input@,
            p.state() == StateSpec::Base(BaseSpec { pos: 0, nested: false, done: false }),
    {
        Self::make(input, false)
    }

    /// A parser at the beginning of `s`, which with `stop_at_parens` reads
    /// the inside of a group.
    pub fn make(s: &'a str, stop_at_parens: bool) -> (p: Self)
        ensures
            p.text() == s@,
            p.state() == StateSpec::Base(BaseSpec { pos: 0, nested: stop_at_parens, done: false }),
    {
        Parser { src: Source::new(s), state: State::Base(Base::new(0, stop_at_parens)) }
    }

    /// Runs the parser to its end; beside the parts it returns the
    /// position in characters at which it stopped.
    pub fn parse(self) -> (r: Result<(Vec<Part>, usize), GrammarError>)
        ensures
            outcome_view(r) == run(self.text(), self.state(), 0),
    {
        proof {
            use_type_invariant(&self);
        }
        drive(&self.src, self.state, 0)
    }

    /// Runs the parser to its end and returns the parts.
    pub fn parse_parts(self) -> (r: Result<Vec<Part>, GrammarError>)
        ensures
            parsed_view(r) == parts_of(run(self.text(), self.state(), 0)),
    {
        match self.parse() {
            Ok((parts, _)) => Ok(parts),
            Err(e) => Err(e),
        }
    }
}

} // verus!
