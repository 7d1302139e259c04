use dict_cc_lookup::entry::{Annotation, AnnotationKind, Case, Gender, Parser, Part, Placeholder};

fn keyword(s: &str) -> Part {
    Part::Keyword(s.to_string())
}

fn note(kind: AnnotationKind, s: &str) -> Part {
    Part::Annotation(Annotation { value: s.to_string(), kind })
}

#[test]
fn parse_parts() {
    let data = [
        (
            "(an etw. [Dat.]) herumbasteln [ugs.]",
            vec![
                Part::Extra(vec![
                    keyword("an"),
                    Part::Placeholder(Placeholder::Thing(Some(Case::Dative))),
                ]),
                keyword("herumbasteln"),
                note(AnnotationKind::Explanation, "ugs."),
            ],
        ),
        (
            "sich [Akk.] ((bis) zu etw. [Dat.]) steigern",
            vec![
                Part::Placeholder(Placeholder::Reflexive(Some(Case::Accusative))),
                Part::Extra(vec![
                    Part::Extra(vec![keyword("bis")]),
                    keyword("zu"),
                    Part::Placeholder(Placeholder::Thing(Some(Case::Dative))),
                ]),
                keyword("steigern"),
            ],
        ),
        (
            "sich [Akk.] (auf jdn./etw.) aufstützen",
            vec![
                Part::Placeholder(Placeholder::Reflexive(Some(Case::Accusative))),
                Part::Extra(vec![
                    keyword("auf"),
                    Part::Placeholder(Placeholder::Person(Case::Accusative)),
                    Part::VariantSeparator,
                    Part::Placeholder(Placeholder::Thing(None)),
                ]),
                keyword("aufstützen"),
            ],
        ),
        (
            "Vanadoandrosit-(Ce) {m}",
            vec![keyword("Vanadoandrosit-(Ce)"), Part::Gender(Gender::Masculine)],
        ),
        (
            "Uluguru-(Zwerg-)Galago {m}",
            vec![keyword("Uluguru-(Zwerg-)Galago"), Part::Gender(Gender::Masculine)],
        ),
        (
            "vicanite-(Ce) [Na0.5(Ce,Ca,Th)15Fe [F9|(AsO3)0.5|(AsO4|BO3|Si3B3O18|SiO4)3]]",
            vec![
                keyword("vicanite-(Ce)"),
                note(
                    AnnotationKind::Explanation,
                    "Na0.5(Ce,Ca,Th)15Fe [F9|(AsO3)0.5|(AsO4|BO3|Si3B3O18|SiO4)3]",
                ),
            ],
        ),
        (
            "((für) etw. [Akk.]) pauken [ugs.] [intensiv lernen]",
            vec![
                Part::Extra(vec![
                    Part::Extra(vec![keyword("für")]),
                    Part::Placeholder(Placeholder::Thing(Some(Case::Accusative))),
                ]),
                keyword("pauken"),
                note(AnnotationKind::Explanation, "ugs."),
                note(AnnotationKind::Explanation, "intensiv lernen"),
            ],
        ),
        (
            "unter Spannung von > 50 V",
            vec![
                keyword("unter"),
                keyword("Spannung"),
                keyword("von"),
                keyword(">"),
                keyword("50"),
                keyword("V"),
            ],
        ),
        (
            "Blattgemüse {pl.}",
            vec![keyword("Blattgemüse"), note(AnnotationKind::Number, "nur plural")],
        ),
        ("{sg.}", vec![note(AnnotationKind::Number, "singular")]),
        (
            "Requiem(, nach Worten der heiligen Schrift)",
            vec![keyword("Requiem(, nach Worten der heiligen Schrift)")],
        ),
        ("Filovirus {n} {ugs.: m}", vec![keyword("Filovirus"), Part::Gender(Gender::Neutral)]),
        ("<SFL-Haubitze", vec![keyword("<SFL-Haubitze")]),
        ("(<SFL-Haubitze)", vec![Part::Extra(vec![keyword("<SFL-Haubitze")])]),
    ];

    for (input, expected) in data {
        println!("{}", input);
        let output = Parser::new(input).parse_parts().unwrap();
        assert_eq!(output, expected);
    }
}
