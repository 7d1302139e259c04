use std::cmp::Ordering;

use dict_cc_lookup::entry::placeholder::UnknownCase;
use dict_cc_lookup::entry::{
    Annotation, AnnotationKind, Case, Gender, GrammarError, Part, Placeholder, Term,
};
use dict_cc_lookup::lexer::LiteralMarker;

fn keyword(s: &str) -> Part {
    Part::Keyword(s.to_string())
}

fn parts_of(input: &str) -> Vec<Part> {
    Term::parse(input).unwrap().parts().clone()
}

#[test]
fn single_word_is_one_keyword_and_matches_itself() {
    for word in ["Haus", "aufstützen", "50", ">", "a)b", "Scheiße!"] {
        let term = Term::parse(word).unwrap();
        assert_eq!(term.parts(), &vec![keyword(word)]);
        assert!(term.match_exact(word));
    }
}

#[test]
fn match_exact_folds_case() {
    let term = Term::parse("ABC").unwrap();
    assert!(term.match_exact("Abc"));
    assert!(term.match_exact("abc"));
    assert!(term.match_exact("ABC"));
    assert!(!term.match_exact("abd"));
    assert!(!term.match_exact("ab"));
    assert!(!term.match_exact("abcd"));
    let term = Term::parse("Ärger").unwrap();
    assert!(term.match_exact("ärger"));
    assert!(!term.match_exact("arger"));
}

#[test]
fn match_exact_wants_one_keyword_and_nothing_else() {
    assert!(!Term::parse("").unwrap().match_exact(""));
    assert!(!Term::parse("Haus {n}").unwrap().match_exact("Haus"));
    assert!(!Term::parse("ein Haus").unwrap().match_exact("ein"));
    assert!(!Term::parse("{n}").unwrap().match_exact("das"));
}

#[test]
fn match_exact_checks_the_length_in_bytes_and_in_characters() {
    // The Kelvin sign takes three bytes and is `k` in lower case.
    let term = Term::parse("\u{212a}").unwrap();
    assert!(term.match_exact("\u{212a}"));
    assert!(!term.match_exact("k"));
    assert!(!term.match_exact("kab"));
}

#[test]
fn text_in_parentheses_is_one_group() {
    for inner in ["an etw. [Dat.]", "auf jdn./etw.", "<SFL-Haubitze", "bis", "", "Leute {pl}"] {
        let wrapped = format!("({})", inner);
        assert_eq!(parts_of(&wrapped), vec![Part::Extra(parts_of(inner))]);
    }
}

#[test]
fn person_placeholders_carry_their_case() {
    let cases = [
        ("jd.", Case::Nominative),
        ("jdn.", Case::Accusative),
        ("jdm.", Case::Dative),
        ("jds.", Case::Genitive),
    ];
    for (word, case) in cases {
        assert_eq!(parts_of(word), vec![Part::Placeholder(Placeholder::Person(case))]);
    }
}

#[test]
fn placeholder_case_is_read_or_left_alone() {
    let thing = |c| Part::Placeholder(Placeholder::Thing(c));
    assert_eq!(parts_of("etw. [Gen.]"), vec![thing(Some(Case::Genitive))]);
    assert_eq!(parts_of("etw. [+Nom.]"), vec![thing(Some(Case::Nominative))]);
    assert_eq!(parts_of("etw.  [Akk.] x"), vec![thing(Some(Case::Accusative)), keyword("x")]);
    assert_eq!(
        parts_of("etw. [ugs.]"),
        vec![
            thing(None),
            Part::Annotation(Annotation {
                value: "ugs.".to_string(),
                kind: AnnotationKind::Explanation
            })
        ]
    );
    assert_eq!(parts_of("etw. [Dat.ä"), vec![thing(None), keyword("[Dat.ä")]);
    assert_eq!(
        parts_of("sich"),
        vec![Part::Placeholder(Placeholder::Reflexive(None))]
    );
}

#[test]
fn unmatched_annotation_bracket_becomes_a_keyword() {
    assert_eq!(parts_of("[a b"), vec![keyword("[a"), keyword("b")]);
    assert_eq!(parts_of("<a [b] c"), vec![
        keyword("<a"),
        Part::Annotation(Annotation { value: "b".to_string(), kind: AnnotationKind::Explanation }),
        keyword("c"),
    ]);
    assert_eq!(
        parts_of("<a <b> c>"),
        vec![Part::Annotation(Annotation {
            value: "a <b> c".to_string(),
            kind: AnnotationKind::Alternative
        })]
    );
}

#[test]
fn words_with_parentheses() {
    assert_eq!(parts_of("a(b)c"), vec![keyword("a(b)c")]);
    assert_eq!(parts_of("(A(B))"), vec![Part::Extra(vec![keyword("A(B)")])]);
    assert_eq!(parts_of("a(b)(c)"), vec![keyword("a(b)"), keyword("(c)")]);
    assert_eq!(parts_of("a(b) (c)"), vec![keyword("a(b)"), Part::Extra(vec![keyword("c")])]);
    assert_eq!(parts_of("(a)(b)"), vec![Part::Extra(vec![keyword("a")]), keyword("(b)")]);
    assert_eq!(parts_of("x/(b)"), vec![keyword("x"), Part::VariantSeparator, keyword("(b)")]);
    assert_eq!(parts_of("a / b"), vec![keyword("a"), Part::VariantSeparator, keyword("b")]);
}

#[test]
fn word_in_front_of_a_bracket_is_kept() {
    let note = |kind, s: &str| Part::Annotation(Annotation { value: s.to_string(), kind });
    assert_eq!(
        parts_of("abc[def]"),
        vec![keyword("abc"), note(AnnotationKind::Explanation, "def")]
    );
    assert_eq!(
        parts_of("Leute{pl}<x>"),
        vec![
            keyword("Leute"),
            note(AnnotationKind::Number, "nur plural"),
            note(AnnotationKind::Alternative, "x")
        ]
    );
    assert_eq!(
        parts_of("etw.[Dat.]"),
        vec![Part::Placeholder(Placeholder::Thing(Some(Case::Dative)))]
    );
    assert_eq!(parts_of("a{x}b"), vec![keyword("a"), keyword("b")]);
}

#[test]
fn grammar_errors() {
    assert_eq!(Term::parse("(a").unwrap_err(), GrammarError::UnclosedParenthesis);
    assert_eq!(Term::parse("a(b").unwrap_err(), GrammarError::UnclosedParenthesis);
    assert_eq!(Term::parse("a) (b").unwrap_err(), GrammarError::UnclosedParenthesis);
    assert_eq!(
        Term::parse("ä {m").unwrap_err(),
        GrammarError::UnclosedLiteral { bracket: LiteralMarker::Curly, position: 3 }
    );
    assert_eq!(
        Term::parse("ö (a(b c))").unwrap_err(),
        GrammarError::UnmatchedSpecialChar { ch: ' ', position: 7 }
    );
    assert_eq!(Term::parse("(etw.").unwrap_err(), GrammarError::UnclosedParenthesis);
    assert_eq!(Term::parse("(<SFL").unwrap_err(), GrammarError::UnclosedParenthesis);
    assert_eq!(Term::parse("(a(b)c").unwrap_err(), GrammarError::UnclosedParenthesis);
    assert_eq!(Term::parse("etw. [").unwrap_err(), GrammarError::UnfinishedPlaceholderCase);
    assert_eq!(Term::parse("sich /[").unwrap_err(), GrammarError::UnfinishedPlaceholderCase);
}

#[test]
fn render_puts_genders_first_and_joins_with_spaces() {
    let shown = |s: &str| Term::parse(s).unwrap().render();
    assert_eq!(shown("Magnesioferrit {m} [ein Spinell]"), "der Magnesioferrit");
    assert_eq!(shown("Beschädigung {f}"), "die Beschädigung");
    assert_eq!(shown("Filovirus {n} {ugs.: m}"), "das Filovirus");
    assert_eq!(shown("Blattgemüse {pl.}"), "Blattgemüse [nur plural]");
    assert_eq!(shown("{sg}"), "[singular]");
    assert_eq!(shown("(an etw. [Dat.]) herumbasteln [ugs.]"), "(an etw(D)) herumbasteln");
    assert_eq!(
        shown("sich [Akk.] (auf jdn./etw.) aufstützen"),
        "sich(A) (auf jdn / etw) aufstützen"
    );
    assert_eq!(shown("jd. jdm. jds. sich etw. [Gen.]"), "jd jdm jds sich etw(G)");
    assert_eq!(shown("a <b> c"), "a c");
    assert_eq!(shown(""), "");
    assert_eq!(shown("()"), "()");
    assert_eq!(shown("(a {m}) b"), "(a der) b");
}

#[test]
fn render_is_a_fixed_point_of_parse_and_render() {
    for input in [
        "Haus",
        "ein kleines Haus",
        "Beschädigung {f}",
        "mutwillige / böswillige Beschädigung {f}",
        "sich [Akk.] (auf jdn./etw.) aufstützen",
        "(an etw. [Dat.]) herumbasteln [ugs.]",
        "Uluguru-(Zwerg-)Galago {m}",
        "jd. sich etw.",
        "((für) etw. [Akk.]) pauken [ugs.] [intensiv lernen]",
    ] {
        let once = Term::parse(input).unwrap().render();
        let twice = Term::parse(&once).unwrap().render();
        assert_eq!(twice, once, "for {:?}", input);
    }
}

#[test]
fn terms_are_equal_part_by_part() {
    assert_eq!(Term::parse("(a b) c").unwrap(), Term::parse("(a  b)  c").unwrap());
    assert_ne!(Term::parse("(a b) c").unwrap(), Term::parse("(a c) c").unwrap());
    assert_ne!(Term::parse("a {m}").unwrap(), Term::parse("a {f}").unwrap());
    let term = Term::parse("(a b) c {m}").unwrap();
    assert_eq!(term.clone(), term);
}

#[test]
fn terms_are_ordered_by_keywords_then_groups() {
    let term = |s: &str| Term::parse(s).unwrap();
    assert_eq!(term("a b").partial_cmp(&term("a c")), Some(Ordering::Less));
    assert_eq!(term("b").partial_cmp(&term("a c")), Some(Ordering::Greater));
    assert_eq!(term("a").partial_cmp(&term("a b")), Some(Ordering::Less));
    assert_eq!(term("Zug").partial_cmp(&term("apfel")), Some(Ordering::Less));
    assert_eq!(term("a {m}").partial_cmp(&term("{f} a")), None);
    assert_eq!(term("a").partial_cmp(&term("a")), None);
    assert_eq!(term("(x) a").partial_cmp(&term("a (y)")), Some(Ordering::Less));
    assert_eq!(term("a (y) (z)").partial_cmp(&term("a (y)")), Some(Ordering::Greater));
    assert_eq!(term("a (etw.)").partial_cmp(&term("a (x)")), Some(Ordering::Greater));
    assert!(term("a b") < term("a c"));
    assert!(!(term("a") < term("a")));
}

#[test]
fn gender_and_case_names() {
    assert_eq!(Gender::Masculine.render(), "der");
    assert_eq!(Gender::Feminine.render(), "die");
    assert_eq!(Gender::Neutral.render(), "das");
    assert_eq!(Case::Dative.repr_str(true), "Dativ");
    assert_eq!(Case::Accusative.repr_str(false), "akkusativ");
    assert_eq!(Case::Genitive.repr_letter(), 'G');
    assert_eq!(Case::try_from("Akk"), Ok(Case::Accusative));
    assert_eq!(Case::try_from("Nom"), Ok(Case::Nominative));
    assert_eq!(Case::try_from("Gen"), Ok(Case::Genitive));
    assert_eq!(Case::try_from("Dat"), Ok(Case::Dative));
    assert_eq!(Case::try_from("Dat."), Err(UnknownCase));
    assert_eq!(Case::try_from("dat"), Err(UnknownCase));
    assert_eq!(Placeholder::Person(Case::Genitive).render(), "jds");
    assert_eq!(Placeholder::Reflexive(Some(Case::Accusative)).render(), "sich(A)");
}

#[test]
fn groups_nest_up_to_a_bound() {
    let nested = |n: usize| format!("{}a{}", "(".repeat(n), ")".repeat(n));
    let mut expected = vec![keyword("a")];
    for _ in 0..64 {
        expected = vec![Part::Extra(expected)];
    }
    assert_eq!(parts_of(&nested(64)), expected);
    assert_eq!(
        Term::parse(&nested(65)).unwrap_err(),
        GrammarError::UnmatchedSpecialChar { ch: '(', position: 64 }
    );
    assert_eq!(
        Term::parse(&format!("ä {}", "(".repeat(100_000))).unwrap_err(),
        GrammarError::UnmatchedSpecialChar { ch: '(', position: 67 }
    );
}
