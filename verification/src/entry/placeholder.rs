use vstd::prelude::*;
use vstd::std_specs::convert::TryFromSpecImpl;

verus! {

/// German grammatical case.
#[derive(Debug, PartialEq, Eq, Hash, Clone, Copy, Structural)]
pub enum Case {
    Nominative,
    Accusative,
    Dative,
    Genitive,
}

impl Case {
    /// The German name of the case, with or without a capital first letter.
    pub open spec fn name(self, capitalized: bool) -> Seq<char> {
        match self {
            Case::Nominative => if capitalized { "Nominativ"@ } else { "nominativ"@ },
            Case::Accusative => if capitalized { "Akkusativ"@ } else { "akkusativ"@ },
            Case::Dative => if capitalized { "Dativ"@ } else { "dativ"@ },
            Case::Genitive => if capitalized { "Genitiv"@ } else { "genitiv"@ },
        }
    }

    /// The capital letter that abbreviates the case.
    pub open spec fn letter(self) -> char {
        match self {
            Case::Nominative => 'N',
            Case::Accusative => 'A',
            Case::Dative => 'D',
            Case::Genitive => 'G',
        }
    }

    /// The case that a three-letter code stands for, if any.
    pub open spec fn of_code(code: Seq<char>) -> Option<Case> {
        if code == seq!['N', 'o', 'm'] {
            Some(Case::Nominative)
        } else if code == seq!['A', 'k', 'k'] {
            Some(Case::Accusative)
        } else if code == seq!['G', 'e', 'n'] {
            Some(Case::Genitive)
        } else if code == seq!['D', 'a', 't'] {
            Some(Case::Dative)
        } else {
            None
        }
    }

    /// The German name of the case.
    pub fn repr_str(&self, capitalized: bool) -> (out: &'static str)
        ensures
            out@ == self.name(capitalized),
    {
        match self {
            Case::Nominative => if capitalized { "Nominativ" } else { "nominativ" },
            Case::Accusative => if capitalized { "Akkusativ" } else { "akkusativ" },
            Case::Dative => if capitalized { "Dativ" } else { "dativ" },
            Case::Genitive => if capitalized { "Genitiv" } else { "genitiv" },
        }
    }

    /// The capital letter that abbreviates the case.
    pub fn repr_letter(&self) -> (c: char)
        ensures
            c == self.letter(),
    {
        match self {
            Case::Nominative => 'N',
            Case::Accusative => 'A',
            Case::Dative => 'D',
            Case::Genitive => 'G',
        }
    }
}

/// A text that is no case code.
#[derive(Debug, PartialEq, Eq, Hash, Clone, Copy, Structural)]
pub struct UnknownCase;

/// Reads a three-letter case code (`Nom`, `Akk`, `Gen`, `Dat`).
impl TryFrom<&str> for Case {
    type Error = UnknownCase;

    fn try_from(value: &str) -> (r: Result<Case, UnknownCase>) {
        let v = crate::text::chars_of(value);
        proof {
            crate::text::lemma_word3(v@, 'N', 'o', 'm');
            crate::text::lemma_word3(v@, 'A', 'k', 'k');
            crate::text::lemma_word3(v@, 'G', 'e', 'n');
            crate::text::lemma_word3(v@, 'D', 'a', 't');
        }
        if v.len() != 3 {
            return Err(UnknownCase);
        }
        let (a, b, c) = (v[0], v[1], v[2]);
        if a == 'N' && b == 'o' && c == 'm' {
            Ok(Case::Nominative)
        } else if a == 'A' && b == 'k' && c == 'k' {
            Ok(Case::Accusative)
        } else if a == 'G' && b == 'e' && c == 'n' {
            Ok(Case::Genitive)
        } else if a == 'D' && b == 'a' && c == 't' {
            Ok(Case::Dative)
        } else {
            Err(UnknownCase)
        }
    }
}

impl TryFromSpecImpl<&str> for Case {
    open spec fn obeys_try_from_spec() -> bool {
        true
    }

    open spec fn try_from_spec(value: &str) -> Result<Case, UnknownCase> {
        match Case::of_code(value@) {
            Some(c) => Ok(c),
            None => Err(UnknownCase),
        }
    }
}

/// A grammatical slot that stands for a person, a thing or a reflexive
/// pronoun.
#[derive(Debug, PartialEq, Eq, Hash, Clone, Copy, Structural)]
pub enum Placeholder {
    Reflexive(Option<Case>),
    Thing(Option<Case>),
    Person(Case),
}

impl Placeholder {
    /// The compact form in which a placeholder is displayed: `etw`, `sich`,
    /// each followed by the case letter in parentheses where a case is
    /// known, or the person pronoun of the case.
    pub open spec fn compact(self) -> Seq<char> {
        match self {
            Placeholder::Thing(None) => seq!['e', 't', 'w'],
            Placeholder::Thing(Some(c)) => seq!['e', 't', 'w', '(', c.letter(), ')'],
            Placeholder::Reflexive(None) => seq!['s', 'i', 'c', 'h'],
            Placeholder::Reflexive(Some(c)) => seq!['s', 'i', 'c', 'h', '(', c.letter(), ')'],
            Placeholder::Person(Case::Nominative) => seq!['j', 'd'],
            Placeholder::Person(Case::Accusative) => seq!['j', 'd', 'n'],
            Placeholder::Person(Case::Dative) => seq!['j', 'd', 'm'],
            Placeholder::Person(Case::Genitive) => seq!['j', 'd', 's'],
        }
    }

    /// The compact form.
    pub fn render(&self) -> (out: &'static str)
        ensures
            out@ == self.compact(),
    {
        proof {
            reveal_strlit("etw");
            reveal_strlit("sich");
            reveal_strlit("etw(N)");
            reveal_strlit("etw(A)");
            reveal_strlit("etw(D)");
            reveal_strlit("etw(G)");
            reveal_strlit("sich(N)");
            reveal_strlit("sich(A)");
            reveal_strlit("sich(D)");
            reveal_strlit("sich(G)");
            reveal_strlit("jd");
            reveal_strlit("jdn");
            reveal_strlit("jdm");
            reveal_strlit("jds");
        }
        let out = match self {
            Placeholder::Thing(None) => "etw",
            Placeholder::Thing(Some(Case::Nominative)) => "etw(N)",
            Placeholder::Thing(Some(Case::Accusative)) => "etw(A)",
            Placeholder::Thing(Some(Case::Dative)) => "etw(D)",
            Placeholder::Thing(Some(Case::Genitive)) => "etw(G)",
            Placeholder::Reflexive(None) => "sich",
            Placeholder::Reflexive(Some(Case::Nominative)) => "sich(N)",
            Placeholder::Reflexive(Some(Case::Accusative)) => "sich(A)",
            Placeholder::Reflexive(Some(Case::Dative)) => "sich(D)",
            Placeholder::Reflexive(Some(Case::Genitive)) => "sich(G)",
            Placeholder::Person(Case::Nominative) => "jd",
            Placeholder::Person(Case::Accusative) => "jdn",
            Placeholder::Person(Case::Dative) => "jdm",
            Placeholder::Person(Case::Genitive) => "jds",
        };
        assert(out@ =~= self.compact());
        out
    }
}

} // verus!
