use dict_cc_lookup::query::{to_upper, Language, Query, QueryError};
use dict_cc_lookup::util::{case_fold_contains, case_fold_eq, reuse_vec};

#[test]
fn case_fold_eq_compares_as_far_as_the_shorter_goes() {
    assert!(case_fold_eq("Haus", "hAUS"));
    assert!(case_fold_eq("ÄRGER", "ärger"));
    assert!(!case_fold_eq("Haus", "Maus"));
    assert!(case_fold_eq("Haus", "hau"));
    assert!(case_fold_eq("", "x"));
    assert!(!case_fold_eq("a", "ä"));
}

#[test]
fn case_fold_contains_looks_at_pieces_of_the_same_length() {
    assert!(case_fold_contains("ein Haus am See", "haus"));
    assert!(case_fold_contains("Haus", "hAUS"));
    assert!(!case_fold_contains("Hau", "Haus"));
    assert!(!case_fold_contains("ein Haus am See", "Maus"));
    assert!(case_fold_contains("größer als", "ÖßE"));
    assert!(!case_fold_contains("größer als", "SSER"));
    assert!(case_fold_contains("größer als", "Ö"));
    assert!(!case_fold_contains("größer als", "oe"));
    // A piece that reaches the end of the text is not looked at.
    assert!(!case_fold_contains("ein Haus", "haus"));
    assert!(case_fold_contains("ein Haus ", "haus"));
    assert!(case_fold_contains("x", ""));
    assert!(case_fold_contains("", ""));
}

#[test]
fn reuse_vec_is_empty() {
    let v: Vec<u32> = vec![1, 2, 3];
    let w: Vec<i32> = reuse_vec(v);
    assert!(w.is_empty());
    let v: Vec<&str> = vec!["a"];
    let w: Vec<&[u8]> = reuse_vec(v);
    assert_eq!(w.len(), 0);
}

fn args(v: &[&str]) -> Vec<String> {
    v.iter().map(|s| s.to_string()).collect()
}

#[test]
fn single_argument_asks_for_a_german_meaning() {
    match Query::try_from(args(&["  grüne \t Wiese "])) {
        Ok(Query::Meaning { language, components, verbose }) => {
            assert_eq!(language, Language::German);
            assert_eq!(components, vec!["grüne", "Wiese"]);
            assert!(!verbose);
        }
        other => panic!("unexpected {:?}", other),
    }
    assert!(matches!(
        Query::try_from(args(&["g"])),
        Ok(Query::Meaning { language: Language::German, verbose: false, .. })
    ));
}

#[test]
fn specifier_selects_the_query() {
    match Query::try_from(args(&["G", "haus"])) {
        Ok(Query::Gender(word)) => assert_eq!(word, "Haus"),
        other => panic!("unexpected {:?}", other),
    }
    match Query::try_from(args(&["g", "ärger", "x"])) {
        Ok(Query::Gender(word)) => assert_eq!(word, "Ärger"),
        other => panic!("unexpected {:?}", other),
    }
    match Query::try_from(args(&["EV", "green  meadow", "", " x"])) {
        Ok(Query::Meaning { language, components, verbose }) => {
            assert_eq!(language, Language::English);
            assert_eq!(components, vec!["green", "meadow", "x"]);
            assert!(verbose);
        }
        other => panic!("unexpected {:?}", other),
    }
    assert!(matches!(
        Query::try_from(args(&["d", "a"])),
        Ok(Query::Meaning { language: Language::German, verbose: false, .. })
    ));
    assert!(matches!(
        Query::try_from(args(&["dv", "a"])),
        Ok(Query::Meaning { language: Language::German, verbose: true, .. })
    ));
    assert!(matches!(
        Query::try_from(args(&["e", "a"])),
        Ok(Query::Meaning { language: Language::English, verbose: false, .. })
    ));
    assert!(matches!(
        Query::try_from(args(&["I"])),
        Ok(Query::Interactive { language: Language::German })
    ));
    assert!(matches!(
        Query::try_from(args(&["i", "x"])),
        Ok(Query::Interactive { language: Language::German })
    ));
}

#[test]
fn query_errors() {
    assert!(matches!(Query::try_from(vec![]), Err(QueryError::Empty)));
    assert!(matches!(Query::try_from(args(&["g", ""])), Err(QueryError::EmptyWord)));
    match Query::try_from(args(&["Xy", "a"])) {
        Err(QueryError::InvalidSpecifier(s)) => assert_eq!(s, "Xy"),
        other => panic!("unexpected {:?}", other),
    }
    assert!(matches!(
        Query::try_from(args(&["dv ", "a"])),
        Err(QueryError::InvalidSpecifier(_))
    ));
}

#[test]
fn to_upper_capitalizes_the_first_character() {
    assert_eq!(to_upper("haus"), Some("Haus".to_string()));
    assert_eq!(to_upper("ßen"), Some("SSen".to_string()));
    assert_eq!(to_upper(""), None);
}
