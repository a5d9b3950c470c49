use h3_hrx::json::{finite, lexemes, spell, spells_all, Lexeme, Mark};

fn marks(json: &str) -> Option<Vec<Mark>> {
    lexemes(json.as_bytes()).map(|all| all.iter().map(|l| l.mark).collect())
}

fn spelled(json: &str) -> Vec<u8> {
    let all = lexemes(json.as_bytes()).unwrap();
    assert_eq!((all.len(), all[0].mark), (1, Mark::Text));
    spell(json.as_bytes(), all[0])
}

#[test]
fn a_document_is_its_lexemes() {
    assert_eq!(
        marks(" {\"a\" : [1, -2.5e-3,true ,\nfalse,null]}\t\r"),
        Some(vec![
            Mark::OpenObject,
            Mark::Text,
            Mark::Colon,
            Mark::OpenList,
            Mark::Number,
            Mark::Comma,
            Mark::Number,
            Mark::Comma,
            Mark::True,
            Mark::Comma,
            Mark::False,
            Mark::Comma,
            Mark::Null,
            Mark::CloseList,
            Mark::CloseObject,
        ])
    );
    assert_eq!(
        lexemes(b" \"ab\"").unwrap(),
        vec![Lexeme { mark: Mark::Text, start: 2, end: 4 }]
    );
    assert_eq!(marks(""), Some(vec![]));
}

#[test]
fn what_is_no_lexeme_is_told() {
    for json in ["-", "1.", ".5", "1e", "1e+", "\"", "\"\\u12\"", "\"\n\"", "nul", "+1", "x"] {
        assert_eq!(marks(json), None, "{json}");
    }
    // a zero stands alone
    assert_eq!(marks("01"), Some(vec![Mark::Number, Mark::Number]));
}

#[test]
fn a_number_is_finite_beyond_doubt() {
    let is_finite = |json: &str| {
        let all = lexemes(json.as_bytes()).unwrap();
        assert_eq!((all.len(), all[0].mark), (1, Mark::Number));
        finite(json.as_bytes(), all[0])
    };
    assert!(is_finite("0") && is_finite("-1.5e-99") && is_finite(&"9".repeat(100)));
    assert!(is_finite("1e199") && is_finite("-1E+007") && is_finite("1e-999999"));
    assert!(!is_finite("1e999") && !is_finite("1E+200") && !is_finite(&"9".repeat(101)));
}

#[test]
fn a_surrogate_without_its_pair_spells_nothing() {
    for (json, whole) in [
        ("\"\\ud83d\\udd25\"", true),
        ("\"a\\u0062\"", true),
        ("\"\\ud83d\"", false),
        ("\"\\udd25\"", false),
        ("\"\\ud83d\\u0041\"", false),
    ] {
        let all = lexemes(json.as_bytes()).unwrap();
        assert_eq!((all.len(), all[0].mark), (1, Mark::Text));
        assert_eq!(spells_all(json.as_bytes(), all[0]), whole, "{json}");
    }
}

#[test]
fn an_escape_is_what_it_stands_for() {
    assert_eq!(spelled("\"a\\n\\t\\\"\\\\\\/\\b\\f\\r\""), b"a\n\t\"\\/\x08\x0c\r");
    assert_eq!(spelled("\"\\u0041\\u00e9\\u65e5\\ud83d\\uDD25\""), "A\u{e9}\u{65e5}\u{1f525}".as_bytes());
    assert_eq!(spelled("\"\u{65e5}\""), "\u{65e5}".as_bytes());
}
