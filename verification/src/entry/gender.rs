use vstd::prelude::*;

verus! {

/// Grammatical gender of a German noun.
#[derive(Debug, PartialEq, Eq, Hash, Clone, Copy, Structural)]
pub enum Gender {
    Masculine,
    Feminine,
    Neutral,
}

impl Gender {
    /// The definite article that stands for this gender.
    pub open spec fn article(self) -> Seq<char> {
        match self {
            Gender::Masculine => "der"@,
            Gender::Feminine => "die"@,
            Gender::Neutral => "das"@,
        }
    }

    /// Renders the gender as its definite article.
    pub fn render(&self) -> (out: &'static str)
        ensures
            out@ == self.article(),
    {
        match self {
            Gender::Masculine => "der",
            Gender::Feminine => "die",
            Gender::Neutral => "das",
        }
    }
}

} // verus!
