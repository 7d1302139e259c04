use vstd::prelude::*;
use vstd::std_specs::cmp::PartialEqSpecImpl;

verus! {

/// Where an annotation came from.
#[derive(Debug, PartialEq, Eq, Hash, Clone, Copy, Structural)]
pub enum AnnotationKind {
    /// Text between `[` and `]`.
    Explanation,
    /// Text between `<` and `>`.
    Alternative,
    /// A number marker between `{` and `}`.
    Number,
}

/// A remark attached to an entry.
#[derive(Debug, Eq, Hash)]
pub struct Annotation {
    pub value: String,
    pub kind: AnnotationKind,
}

/// The mathematical content of an [`Annotation`].
pub struct AnnotationView {
    pub value: Seq<char>,
    pub kind: AnnotationKind,
}

impl View for Annotation {
    type V = AnnotationView;

    open spec fn view(&self) -> AnnotationView {
        AnnotationView { value: self.value@, kind: self.kind }
    }
}

/// Annotations are equal where their texts and their kinds are.
impl PartialEq for Annotation {
    fn eq(&self, other: &Self) -> (r: bool) {
        self.value == other.value && self.kind == other.kind
    }
}

impl PartialEqSpecImpl for Annotation {
    open spec fn obeys_eq_spec() -> bool {
        true
    }

    open spec fn eq_spec(&self, other: &Self) -> bool {
        self@ == other@
    }
}

impl Clone for Annotation {
    fn clone(&self) -> (out: Self)
        ensures
            out@ == self@,
    {
        Annotation { value: self.value.clone(), kind: self.kind }
    }
}

} // verus!
