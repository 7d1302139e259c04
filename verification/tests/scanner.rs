use dict_cc_lookup::text::Source;
use dict_cc_lookup::lexer::{
    consume_quoted, lex, try_consume_literal, try_consume_text, Error, LiteralMarker as Marker,
    SpaceBehavior, Token,
};

fn lit(value: &'static str, marker: Marker) -> Token<'static> {
    Token::Literal { value, marker }
}

const OPEN: Token<'static> = Token::Parens { is_start: true };
const CLOSE: Token<'static> = Token::Parens { is_start: false };

#[test]
fn lex_success() {
    let data: Vec<(&str, Vec<Token>)> = vec![
        (
            "Magnesioferrit {m} [ein Spinell]",
            vec![
                Token::Text("Magnesioferrit"),
                lit("m", Marker::Curly),
                lit("ein Spinell", Marker::Square),
            ],
        ),
        (
            "Uluguru-(Zwerg-)Galago {m}",
            vec![Token::Text("Uluguru-(Zwerg-)Galago"), lit("m", Marker::Curly)],
        ),
        (
            "(an etw. [Dat.]) herumbasteln [ugs.]",
            vec![
                OPEN,
                Token::Text("an"),
                Token::Text("etw."),
                lit("Dat.", Marker::Square),
                CLOSE,
                Token::Text("herumbasteln"),
                lit("ugs.", Marker::Square),
            ],
        ),
        ("Vanadoandrosit-(Ce) {m}", vec![Token::Text("Vanadoandrosit-(Ce)"), lit("m", Marker::Curly)]),
        (
            "Requiem(, nach Worten der heiligen Schrift)",
            vec![
                Token::Text("Requiem"),
                OPEN,
                Token::Text(","),
                Token::Text("nach"),
                Token::Text("Worten"),
                Token::Text("der"),
                Token::Text("heiligen"),
                Token::Text("Schrift"),
                CLOSE,
            ],
        ),
        ("(A(B))", vec![OPEN, Token::Text("A(B)"), CLOSE]),
        ("<SFL-Haubitze", vec![Token::Text("<SFL-Haubitze")]),
        ("(<SFL-Haubitze)", vec![OPEN, Token::Text("<SFL-Haubitze"), CLOSE]),
        (
            "unter Spannung von > 50 V",
            vec![
                Token::Text("unter"),
                Token::Text("Spannung"),
                Token::Text("von"),
                Token::Text(">"),
                Token::Text("50"),
                Token::Text("V"),
            ],
        ),
        (
            "vicanite-(Ce) [Na0.5(Ce,Ca,Th)15Fe [F9|(AsO3)0.5|(AsO4|BO3|Si3B3O18|SiO4)3]]",
            vec![
                Token::Text("vicanite-(Ce)"),
                lit(
                    "Na0.5(Ce,Ca,Th)15Fe [F9|(AsO3)0.5|(AsO4|BO3|Si3B3O18|SiO4)3]",
                    Marker::Square,
                ),
            ],
        ),
        (
            "sich [Akk.] (auf jdn./etw.) aufstützen",
            vec![
                Token::Text("sich"),
                lit("Akk.", Marker::Square),
                OPEN,
                Token::Text("auf"),
                Token::Text("jdn."),
                Token::Slash,
                Token::Text("etw."),
                CLOSE,
                Token::Text("aufstützen"),
            ],
        ),
        (
            "mutwillige / böswillige Beschädigung {f}",
            vec![
                Token::Text("mutwillige"),
                Token::Slash,
                Token::Text("böswillige"),
                Token::Text("Beschädigung"),
                lit("f", Marker::Curly),
            ],
        ),
        (
            "(Afrikanische) Bodenagame {f}",
            vec![
                OPEN,
                Token::Text("Afrikanische"),
                CLOSE,
                Token::Text("Bodenagame"),
                lit("f", Marker::Curly),
            ],
        ),
        (
            "(Ach, du) heilige Scheiße! [vulg.]",
            vec![
                OPEN,
                Token::Text("Ach,"),
                Token::Text("du"),
                CLOSE,
                Token::Text("heilige"),
                Token::Text("Scheiße!"),
                lit("vulg.", Marker::Square),
            ],
        ),
        (
            "(am / zu) Anfang des Winters",
            vec![
                OPEN,
                Token::Text("am"),
                Token::Slash,
                Token::Text("zu"),
                CLOSE,
                Token::Text("Anfang"),
                Token::Text("des"),
                Token::Text("Winters"),
            ],
        ),
        (
            "(ganz) unten(,) am Grund",
            vec![
                OPEN,
                Token::Text("ganz"),
                CLOSE,
                Token::Text("unten"),
                OPEN,
                Token::Text(","),
                CLOSE,
                Token::Text("am"),
                Token::Text("Grund"),
            ],
        ),
        (
            "(Ach was), echt?",
            vec![
                OPEN,
                Token::Text("Ach"),
                Token::Text("was"),
                CLOSE,
                Token::Text(","),
                Token::Text("echt?"),
            ],
        ),
        ("401(k) Plan", vec![Token::Text("401(k)"), Token::Text("Plan")]),
        (
            "Leute {pl}, die",
            vec![Token::Text("Leute"), lit("pl", Marker::Curly), Token::Text(","), Token::Text("die")],
        ),
        ("Blei(II,IV)-oxid {n}", vec![Token::Text("Blei(II,IV)-oxid"), lit("n", Marker::Curly)]),
        (
            "Jiminy (cricket)!  [Am.]  [coll.]",
            vec![
                Token::Text("Jiminy"),
                OPEN,
                Token::Text("cricket"),
                CLOSE,
                Token::Text("!"),
                lit("Am.", Marker::Square),
                lit("coll.", Marker::Square),
            ],
        ),
    ];

    for (input, expected) in data {
        println!("Testing \"{input}\"...");
        let output = lex(input).collect().unwrap();
        assert_eq!(output, expected);
    }
}

#[test]
fn lex_by_single_calls() {
    let mut tokens = lex("a / b");
    assert_eq!(tokens.as_str(), "a / b");
    assert_eq!(tokens.next(), Some(Ok(Token::Text("a"))));
    assert_eq!(tokens.as_str(), "/ b");
    assert_eq!(tokens.next(), Some(Ok(Token::Slash)));
    assert_eq!(tokens.next(), Some(Ok(Token::Text("b"))));
    assert_eq!(tokens.next(), None);
    assert_eq!(tokens.as_str(), "");
}

#[test]
fn lex_quoted_spans() {
    assert_eq!(
        lex("„Guten Tag“ sagen").collect().unwrap(),
        vec![Token::Quoted("Guten Tag"), Token::Text("sagen")]
    );
    assert_eq!(
        lex("'n Abend").collect().unwrap(),
        vec![Token::Text("'n"), Token::Text("Abend")]
    );
    assert_eq!(lex("“a b” c").collect().unwrap(), vec![Token::Quoted("a b"), Token::Text("c")]);
}

#[test]
fn lex_errors_carry_byte_positions() {
    // A space at the very beginning, where none may stand.
    assert!(matches!(lex(" a").collect(), Err(Error::Unexpected(0))));
    // A parenthesis at the beginning that holds no word and hangs on one:
    // the error points behind the parenthesis (`ä` takes two bytes).
    assert!(matches!(lex("ä (,)b").collect(), Err(Error::Unexpected(4))));
    // After an error the scan stays where it is.
    let mut tokens = lex("a (,)b");
    assert_eq!(tokens.next(), Some(Ok(Token::Text("a"))));
    assert_eq!(tokens.next(), Some(Err(Error::Unexpected(3))));
    assert_eq!(tokens.as_str(), "(,)b");
    assert_eq!(tokens.next(), Some(Err(Error::Unexpected(3))));
}

#[test]
fn unclosed_literal_is_reported_or_read_as_text() {
    let src = Source::new("ä {m");
    // The inside of the brace begins at character 3, which is byte 4.
    match try_consume_literal(&src, 3, Marker::Curly) {
        Err(Error::IncompleteLiteral { marker, at }) => {
            assert_eq!(marker, Marker::Curly);
            assert_eq!(at, 4);
        }
        other => panic!("unexpected result {:?}", other),
    }
    assert_eq!(
        try_consume_literal(&Source::new("{a{b}c} d"), 1, Marker::Curly),
        Ok(("a{b}c", 7, SpaceBehavior::Maybe))
    );
    // The scanner reads an opener that is never closed as part of a word.
    assert_eq!(lex("ä {m").collect().unwrap(), vec![Token::Text("ä"), Token::Text("{m")]);
}

#[test]
fn free_text_and_its_parentheses() {
    let src = Source::new("a(b)c)d");
    assert_eq!(try_consume_text(&src, 0), Ok(Some(("a(b)c", 5, SpaceBehavior::Required))));
    let src = Source::new("(a)b c");
    assert_eq!(try_consume_text(&src, 0), Ok(Some(("(a)b", 5, SpaceBehavior::Forbidden))));
    let src = Source::new("(a) b");
    assert_eq!(try_consume_text(&src, 0), Ok(None));
    let src = Source::new("x(a(b");
    assert_eq!(try_consume_text(&src, 0), Ok(Some(("x", 1, SpaceBehavior::Forbidden))));
    let src = Source::new("ab/cd");
    assert_eq!(try_consume_text(&src, 0), Ok(Some(("ab", 2, SpaceBehavior::Maybe))));
    assert_eq!(consume_quoted(&src, 0, '\''), None);
    let src = Source::new("„a“ „b”");
    assert_eq!(consume_quoted(&src, 1, '„'), Some(("a“ „b", 7, SpaceBehavior::Maybe)));
}
