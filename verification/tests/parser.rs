use huon::parser::indentation::Indentation;
use huon::parser::value::{str_eq, HuonValue, ValueMap};
use huon::parser::{parse, Parser, ParserError};
use huon::tokenizer::token::Token;
use huon::tokenizer::{Tokenizer, TokenizerError};
use huon::DecoderOptions;

const PERSON: &str = "name: \"John\"
job1:
    category:
        name: \"IT\"
    info:
        pay: -4200.5
        payrate:
            iteration: \"monthly\"
            date: \"Last Friday of every month\"
            monthly_increase: \"5%\"
    name: \"Software Engineer\"
age: 32
job2:
    category:
        name: \"Security\"
    info:
        pay: 3700
        payrate:
            iteration: \"weekly\"
            date: \"Every Friday\"
    name: \"Bodyguard\"
last_name: \"Doe\"";

fn object<'a>(entries: Vec<(&'a str, HuonValue<'a>)>) -> ValueMap<'a> {
    let mut map = ValueMap::new();
    for (key, value) in entries {
        map.insert(key, value);
    }
    map
}

fn floats<'a>(value: &HuonValue<'a>) -> Vec<f64> {
    match value {
        HuonValue::List(items) => items
            .iter()
            .map(|item| match item {
                HuonValue::Float(text) => text.parse::<f64>().unwrap(),
                other => panic!("not a float: {:?}", other),
            })
            .collect(),
        other => panic!("not a list: {:?}", other),
    }
}

#[test]
fn test_parser_list_newline() -> Result<(), Box<dyn std::error::Error>> {
    let map = parse(
        "numbers: [
    -3.5
    2.5
    1.1
]",
        DecoderOptions::default(),
    )
    .map_err(|e| format!("{:?}", e))?;

    let expected = object(vec![(
        "numbers",
        HuonValue::List(vec![
            HuonValue::Float("-3.5"),
            HuonValue::Float("2.5"),
            HuonValue::Float("1.1"),
        ]),
    )]);

    assert_eq!(map, expected);
    assert_eq!(floats(map.get("numbers").unwrap()), vec![-3.5, 2.5, 1.1]);

    Ok(())
}

#[test]
fn test_parser_list_spaced() -> Result<(), Box<dyn std::error::Error>> {
    let map = parse("numbers: [-3.5 2.5 1.1]", DecoderOptions::default())
        .map_err(|e| format!("{:?}", e))?;

    let expected = object(vec![(
        "numbers",
        HuonValue::List(vec![
            HuonValue::Float("-3.5"),
            HuonValue::Float("2.5"),
            HuonValue::Float("1.1"),
        ]),
    )]);

    assert_eq!(map, expected);
    assert_eq!(floats(map.get("numbers").unwrap()), vec![-3.5, 2.5, 1.1]);

    Ok(())
}

#[test]
fn test_parser() -> Result<(), Box<dyn std::error::Error>> {
    let map = parse(PERSON, DecoderOptions::default()).map_err(|e| format!("{:?}", e))?;

    let expected = object(vec![
        ("name", HuonValue::String("John")),
        (
            "job1",
            HuonValue::Object(object(vec![
                (
                    "category",
                    HuonValue::Object(object(vec![("name", HuonValue::String("IT"))])),
                ),
                (
                    "info",
                    HuonValue::Object(object(vec![
                        ("pay", HuonValue::Float("-4200.5")),
                        (
                            "payrate",
                            HuonValue::Object(object(vec![
                                ("iteration", HuonValue::String("monthly")),
                                ("date", HuonValue::String("Last Friday of every month")),
                                ("monthly_increase", HuonValue::String("5%")),
                            ])),
                        ),
                    ])),
                ),
                ("name", HuonValue::String("Software Engineer")),
            ])),
        ),
        ("age", HuonValue::Int(32)),
        (
            "job2",
            HuonValue::Object(object(vec![
                (
                    "category",
                    HuonValue::Object(object(vec![("name", HuonValue::String("Security"))])),
                ),
                (
                    "info",
                    HuonValue::Object(object(vec![
                        ("pay", HuonValue::Int(3700)),
                        (
                            "payrate",
                            HuonValue::Object(object(vec![
                                ("iteration", HuonValue::String("weekly")),
                                ("date", HuonValue::String("Every Friday")),
                            ])),
                        ),
                    ])),
                ),
                ("name", HuonValue::String("Bodyguard")),
            ])),
        ),
        ("last_name", HuonValue::String("Doe")),
    ]);

    assert_eq!(map, expected);
    match map.get("job1").unwrap().index("info").index("pay") {
        HuonValue::Float(text) => assert_eq!(text.parse::<f64>().unwrap(), -4200.5),
        other => panic!("not a float: {:?}", other),
    }

    Ok(())
}

#[test]
fn fail_int_before_ident() {
    let err = parse("1job1: \"swe\"", DecoderOptions::default()).unwrap_err();

    assert_eq!(err, ParserError::InvalidToken(Token::Int(1)));
}

#[test]
fn int_before_short_key_is_invalid_token() {
    let err = parse("1job: \"x\"", DecoderOptions::default()).unwrap_err();
    assert_eq!(err, ParserError::InvalidToken(Token::Int(1)));
}

#[test]
fn literal_document() {
    let map = parse(
        "name: \"John\"\nage: 32\njob:\n    title: \"Engineer\"",
        DecoderOptions::default(),
    )
    .unwrap();
    let expected = object(vec![
        ("name", HuonValue::String("John")),
        ("age", HuonValue::Int(32)),
        (
            "job",
            HuonValue::Object(object(vec![("title", HuonValue::String("Engineer"))])),
        ),
    ]);
    assert_eq!(map, expected);
}

#[test]
fn empty_input_is_an_empty_object() {
    let map = parse("", DecoderOptions::default()).unwrap();
    assert!(map.is_empty());
    assert_eq!(map.len(), 0);
}

#[test]
fn scalars_of_every_kind() {
    let map = parse(
        "a: \"text\"\nb: -7\nc: 2.5\nd: true\ne: false\nf: null",
        DecoderOptions::default(),
    )
    .unwrap();
    assert_eq!(map.get("a"), Some(&HuonValue::String("text")));
    assert_eq!(map.get("b"), Some(&HuonValue::Int(-7)));
    assert_eq!(map.get("c"), Some(&HuonValue::Float("2.5")));
    assert_eq!(map.get("d"), Some(&HuonValue::Boolean(true)));
    assert_eq!(map.get("e"), Some(&HuonValue::Boolean(false)));
    assert_eq!(map.get("f"), Some(&HuonValue::Null));
    assert_eq!(map.get("g"), None);
    assert!(map.contains_key("a"));
    assert!(!map.contains_key("g"));
    assert_eq!(map.len(), 6);
}

#[test]
fn duplicate_key_keeps_the_last_value() {
    let map = parse("a: 1\nb: 2\na: 3", DecoderOptions::default()).unwrap();
    assert_eq!(map.len(), 2);
    assert_eq!(map.get("a"), Some(&HuonValue::Int(3)));
    assert_eq!(map.get("b"), Some(&HuonValue::Int(2)));
    assert_eq!(map.entry(0), ("a", &HuonValue::Int(3)));
    assert_eq!(map.entry(1), ("b", &HuonValue::Int(2)));
}

#[test]
fn insert_replaces_and_hands_back() {
    let mut map = ValueMap::new();
    assert_eq!(map.insert("k", HuonValue::Int(1)), None);
    assert_eq!(map.insert("k", HuonValue::Int(2)), Some(HuonValue::Int(1)));
    assert_eq!(map.len(), 1);
    assert_eq!(map.get("k"), Some(&HuonValue::Int(2)));
    assert_eq!(
        map.into_entries(),
        vec![("k", HuonValue::Int(2))]
    );
}

#[test]
fn dedent_by_two_levels_resumes_in_the_right_object() {
    let map = parse(
        "a:\n    b:\n        c:\n            d: 1\n    e: 2\nf: 3",
        DecoderOptions::default(),
    )
    .unwrap();
    let expected = object(vec![
        (
            "a",
            HuonValue::Object(object(vec![
                (
                    "b",
                    HuonValue::Object(object(vec![(
                        "c",
                        HuonValue::Object(object(vec![("d", HuonValue::Int(1))])),
                    )])),
                ),
                ("e", HuonValue::Int(2)),
            ])),
        ),
        ("f", HuonValue::Int(3)),
    ]);
    assert_eq!(map, expected);
}

#[test]
fn dedent_by_one_level() {
    let map = parse(
        "a:\n    b:\n        c: 1\n    d: 2",
        DecoderOptions::default(),
    )
    .unwrap();
    let expected = object(vec![(
        "a",
        HuonValue::Object(object(vec![
            (
                "b",
                HuonValue::Object(object(vec![("c", HuonValue::Int(1))])),
            ),
            ("d", HuonValue::Int(2)),
        ])),
    )]);
    assert_eq!(map, expected);
}

#[test]
fn line_without_indentation_behind_a_deep_line_joins_the_deep_object() {
    let map = parse("a:\n    b:\n        c: 1\nd: 2", DecoderOptions::default()).unwrap();
    let expected = object(vec![(
        "a",
        HuonValue::Object(object(vec![(
            "b",
            HuonValue::Object(object(vec![
                ("c", HuonValue::Int(1)),
                ("d", HuonValue::Int(2)),
            ])),
        )])),
    )]);
    assert_eq!(map, expected);
}

#[test]
fn indent_unit_of_two() {
    let map = parse(
        "test_codes:\n  codes: [111.1 333.3 555.5]\n  info: \"Passwords\"\nname: \"General Access\"",
        DecoderOptions { indent: 2 },
    )
    .unwrap();
    let codes = map.get("test_codes").unwrap();
    assert_eq!(floats(codes.index("codes")), vec![111.1, 333.3, 555.5]);
    assert_eq!(codes.index("info"), &HuonValue::String("Passwords"));
    assert_eq!(map.get("name"), Some(&HuonValue::String("General Access")));
}

#[test]
fn nested_block_that_is_not_deeper_is_an_invalid_token() {
    assert_eq!(
        parse("a:\nb: 1", DecoderOptions::default()).unwrap_err(),
        ParserError::InvalidToken(Token::Identifier("b"))
    );
    assert_eq!(
        parse("a:\n  b: 1", DecoderOptions::default()).unwrap_err(),
        ParserError::InvalidToken(Token::WhiteSpace(2))
    );
    assert_eq!(
        parse("a:\n    b:\n    c: 1", DecoderOptions::default()).unwrap_err(),
        ParserError::InvalidToken(Token::WhiteSpace(4))
    );
}

#[test]
fn over_indented_line_is_an_invalid_token() {
    assert_eq!(
        parse("a: 1\n    b: 2", DecoderOptions::default()).unwrap_err(),
        ParserError::InvalidToken(Token::WhiteSpace(4))
    );
}

#[test]
fn value_must_follow_one_space() {
    assert_eq!(
        parse("a:  1", DecoderOptions::default()).unwrap_err(),
        ParserError::InvalidToken(Token::WhiteSpace(2))
    );
    assert_eq!(
        parse("a:1", DecoderOptions::default()).unwrap_err(),
        ParserError::InvalidToken(Token::Int(1))
    );
}

#[test]
fn end_of_input_where_a_token_is_required() {
    assert_eq!(
        parse("a:", DecoderOptions::default()).unwrap_err(),
        ParserError::Eof
    );
    assert_eq!(
        parse("a: ", DecoderOptions::default()).unwrap_err(),
        ParserError::Eof
    );
    assert_eq!(
        parse("a:\n", DecoderOptions::default()).unwrap_err(),
        ParserError::Eof
    );
    assert_eq!(
        parse("a: [1 2", DecoderOptions::default()).unwrap_err(),
        ParserError::Eof
    );
    assert_eq!(
        parse("    ", DecoderOptions { indent: 8 }).unwrap_err(),
        ParserError::Eof
    );
}

#[test]
fn value_that_is_no_scalar() {
    assert_eq!(
        parse("a: ]", DecoderOptions::default()).unwrap_err(),
        ParserError::InvalidHuonValue(Token::ListEnd)
    );
    assert_eq!(
        parse("a: [1 [", DecoderOptions::default()).unwrap_err(),
        ParserError::InvalidHuonValue(Token::ListStart)
    );
    assert_eq!(
        parse("a: [b: 1]", DecoderOptions::default()).unwrap_err(),
        ParserError::InvalidHuonValue(Token::Identifier("b"))
    );
}

#[test]
fn scan_failure_is_passed_on() {
    assert_eq!(
        parse("@", DecoderOptions::default()).unwrap_err(),
        ParserError::TokenizerError(TokenizerError::UnexpectedCharacter('@'))
    );
    assert_eq!(
        parse("a: 1\n@", DecoderOptions::default()).unwrap_err(),
        ParserError::TokenizerError(TokenizerError::UnexpectedCharacter('@'))
    );
    assert_eq!(
        parse("a: [1 @]", DecoderOptions::default()).unwrap_err(),
        ParserError::TokenizerError(TokenizerError::UnexpectedCharacter('@'))
    );
    assert_eq!(
        parse("a: \"open", DecoderOptions::default()).unwrap_err(),
        ParserError::TokenizerError(TokenizerError::EOF)
    );
}

#[test]
fn list_separators_do_not_count() {
    let map = parse(
        "a: [1, 2,3 ,\n  4\n\n5,]\nb: []",
        DecoderOptions::default(),
    )
    .unwrap();
    assert_eq!(
        map.get("a"),
        Some(&HuonValue::List(vec![
            HuonValue::Int(1),
            HuonValue::Int(2),
            HuonValue::Int(3),
            HuonValue::Int(4),
            HuonValue::Int(5),
        ]))
    );
    assert_eq!(map.get("b"), Some(&HuonValue::List(vec![])));
}

#[test]
fn blank_lines_and_trailing_line_end() {
    let map = parse("a: 1\n\n\nb:\n    c: 2\n\n    d: 3\n", DecoderOptions::default()).unwrap();
    let expected = object(vec![
        ("a", HuonValue::Int(1)),
        (
            "b",
            HuonValue::Object(object(vec![
                ("c", HuonValue::Int(2)),
                ("d", HuonValue::Int(3)),
            ])),
        ),
    ]);
    assert_eq!(map, expected);
}

#[test]
fn carriage_return_line_ends() {
    let map = parse("a: 1\r\nb:\r\n    c: 2", DecoderOptions::default()).unwrap();
    assert_eq!(map.get("a"), Some(&HuonValue::Int(1)));
    assert_eq!(map.get("b").unwrap().index("c"), &HuonValue::Int(2));
}

#[test]
fn parser_over_a_tokenizer() {
    let tokenizer = Tokenizer::new("k: true");
    let map = Parser::parse(tokenizer, DecoderOptions::default()).unwrap();
    assert_eq!(map.get("k"), Some(&HuonValue::Boolean(true)));
    let mut tokenizer = Tokenizer::new("skipped: 0\nk: 1");
    for _ in 0..4 {
        tokenizer.next();
    }
    let map = Parser::parse(tokenizer, DecoderOptions::default()).unwrap();
    assert_eq!(map.len(), 1);
    assert_eq!(map.get("k"), Some(&HuonValue::Int(1)));
}

#[test]
fn default_options() {
    assert_eq!(DecoderOptions::default().indent, 4);
    assert_eq!(huon::EncoderOptions::default().indent, 4);
    assert_eq!(
        huon::EncoderOptions::default().list_comma_style,
        huon::ListCommaStyle::NoCommas
    );
}

#[test]
fn indentation_check() {
    assert_eq!(Indentation::check(0, 3), None);
    assert_eq!(Indentation::check(4, 5), None);
    assert_eq!(Indentation::check(0, 4), Some(Indentation::Smaller));
    assert_eq!(Indentation::check(4, 4), Some(Indentation::Same));
    assert_eq!(Indentation::check(8, 4), Some(Indentation::Larger));
    assert_eq!(Indentation::check(3, 0), Some(Indentation::Larger));
    assert_eq!(Indentation::check(0, 0), Some(Indentation::Same));
}

#[test]
fn texts_are_compared_by_their_characters() {
    assert!(str_eq("", ""));
    assert!(str_eq("key", "key"));
    assert!(str_eq("h\u{e9}", "h\u{e9}"));
    assert!(!str_eq("key", "kez"));
    assert!(!str_eq("key", "ke"));
    assert!(!str_eq("e", "\u{e9}"));
}

#[test]
fn objects_are_equal_in_whatever_order() {
    let one = object(vec![
        ("a", HuonValue::Int(1)),
        (
            "b",
            HuonValue::Object(object(vec![
                ("x", HuonValue::Null),
                ("y", HuonValue::List(vec![HuonValue::Int(1), HuonValue::Int(2)])),
            ])),
        ),
    ]);
    let other = object(vec![
        (
            "b",
            HuonValue::Object(object(vec![
                ("y", HuonValue::List(vec![HuonValue::Int(1), HuonValue::Int(2)])),
                ("x", HuonValue::Null),
            ])),
        ),
        ("a", HuonValue::Int(1)),
    ]);
    assert_eq!(one, other);
    assert!(one.same_content(&other));
    assert_eq!(one, one.clone());

    let reordered_list = object(vec![
        ("a", HuonValue::Int(1)),
        (
            "b",
            HuonValue::Object(object(vec![
                ("x", HuonValue::Null),
                ("y", HuonValue::List(vec![HuonValue::Int(2), HuonValue::Int(1)])),
            ])),
        ),
    ]);
    assert_ne!(one, reordered_list);
    let fewer = object(vec![("a", HuonValue::Int(1))]);
    assert_ne!(one, fewer);
    assert_ne!(fewer, one);
    let other_key = object(vec![("c", HuonValue::Int(1))]);
    assert_ne!(fewer, other_key);
    let other_value = object(vec![("a", HuonValue::Int(2))]);
    assert_ne!(fewer, other_value);
}

#[test]
fn values_of_different_kinds_differ() {
    assert_ne!(HuonValue::Int(1), HuonValue::Float("1"));
    assert_ne!(HuonValue::String("true"), HuonValue::Boolean(true));
    assert_ne!(HuonValue::Null, HuonValue::Boolean(false));
    assert_ne!(HuonValue::Float("1.0"), HuonValue::Float("1.00"));
    assert_eq!(HuonValue::Float("1.0"), HuonValue::Float("1.0").clone());
    assert_eq!(HuonValue::String("s").clone(), HuonValue::String("s"));
    assert_ne!(
        HuonValue::List(vec![HuonValue::Int(1)]),
        HuonValue::List(vec![])
    );
}

#[test]
fn block_of_several_levels_at_the_end_of_the_document() {
    let map = parse(
        "a: 1\nb:\n            c: 2\n            d:\n                    e: 3\n\n",
        DecoderOptions::default(),
    )
    .unwrap();
    let expected = object(vec![
        ("a", HuonValue::Int(1)),
        (
            "b",
            HuonValue::Object(object(vec![
                ("c", HuonValue::Int(2)),
                (
                    "d",
                    HuonValue::Object(object(vec![("e", HuonValue::Int(3))])),
                ),
            ])),
        ),
    ]);
    assert_eq!(map, expected);
}

#[test]
fn block_of_several_levels_before_another_line_is_not_read_as_it_looks() {
    assert_eq!(
        parse(
            "x:\n    a:\n            b: 1\n    c: 2",
            DecoderOptions::default()
        )
        .unwrap_err(),
        ParserError::InvalidToken(Token::WhiteSpace(4))
    );
}

#[test]
fn indentation_that_is_no_multiple_of_the_unit_counts_by_whole_units() {
    let map = parse("a:\n      b: 1\n     c: 2", DecoderOptions::default()).unwrap();
    let expected = object(vec![(
        "a",
        HuonValue::Object(object(vec![
            ("b", HuonValue::Int(1)),
            ("c", HuonValue::Int(2)),
        ])),
    )]);
    assert_eq!(map, expected);
}

#[test]
fn indentation_below_one_unit_is_level_zero() {
    let map = parse("a: 1\n  b: 2", DecoderOptions::default()).unwrap();
    assert_eq!(
        map,
        object(vec![("a", HuonValue::Int(1)), ("b", HuonValue::Int(2))])
    );
    let map = parse("a:\n    b: 1\n  c: 2", DecoderOptions::default()).unwrap();
    assert_eq!(
        map,
        object(vec![
            (
                "a",
                HuonValue::Object(object(vec![("b", HuonValue::Int(1))]))
            ),
            ("c", HuonValue::Int(2)),
        ])
    );
}

#[test]
fn nested_block_may_end_with_its_indentation() {
    let map = parse("a:\n    ", DecoderOptions::default()).unwrap();
    assert_eq!(
        map,
        object(vec![("a", HuonValue::Object(ValueMap::new()))])
    );
}

#[test]
fn line_of_spaces_only_is_over_indented() {
    assert_eq!(
        parse("a: 1\n    \nb: 2", DecoderOptions::default()).unwrap_err(),
        ParserError::InvalidToken(Token::WhiteSpace(4))
    );
}

#[test]
fn space_behind_a_value_requires_a_key() {
    assert_eq!(
        parse("a: 1 ", DecoderOptions::default()).unwrap_err(),
        ParserError::Eof
    );
    assert_eq!(
        parse("a: 1 2", DecoderOptions::default()).unwrap_err(),
        ParserError::InvalidToken(Token::Int(2))
    );
}

#[test]
fn tab_is_no_indentation() {
    assert_eq!(
        parse("a:\n\tb: 1", DecoderOptions::default()).unwrap_err(),
        ParserError::TokenizerError(TokenizerError::UnexpectedCharacter('\t'))
    );
}

#[test]
fn leading_blank_lines_are_passed_over() {
    let map = parse("\n\na: 1", DecoderOptions::default()).unwrap();
    assert_eq!(map, object(vec![("a", HuonValue::Int(1))]));
}

#[test]
fn indent_unit_does_not_matter() {
    let with_four = "a:\n    b:\n        c: 1\n    d: [1 2]\ne: \"x\"\n";
    let expected = parse(with_four, DecoderOptions::default()).unwrap();
    for unit in [1u8, 2, 3, 7] {
        let pad = |level: usize| " ".repeat(level * unit as usize);
        let text = format!(
            "a:\n{}b:\n{}c: 1\n{}d: [1 2]\ne: \"x\"\n",
            pad(1),
            pad(2),
            pad(1)
        );
        let map = parse(&text, DecoderOptions { indent: unit }).unwrap();
        assert_eq!(map, expected);
    }
    let flattened = parse("a:\n  b:\n    c: 1\nd: 2", DecoderOptions { indent: 2 }).unwrap();
    assert_eq!(
        flattened,
        parse("a:\n    b:\n        c: 1\nd: 2", DecoderOptions::default()).unwrap()
    );
}

#[test]
fn list_layouts_with_the_same_scalars_are_the_same_list() {
    let layouts = [
        "k: [1 2 3]",
        "k: [1, 2, 3]",
        "k: [1,2,3,]",
        "k: [\n    1\n    2\n    3\n]",
        "k: [ ,\n1 ,, 2\n\n3 ]",
    ];
    let expected = parse(layouts[0], DecoderOptions::default()).unwrap();
    for layout in layouts {
        for indent in [1u8, 4, 9] {
            assert_eq!(parse(layout, DecoderOptions { indent }).unwrap(), expected);
        }
    }
}

#[test]
fn several_lines_with_one_key() {
    let map = parse(
        "k: 1\nother: true\nk:\n    x: 1\nk: \"last\"",
        DecoderOptions::default(),
    )
    .unwrap();
    assert_eq!(map.len(), 2);
    assert_eq!(map.get("k"), Some(&HuonValue::String("last")));
    assert_eq!(map.get("other"), Some(&HuonValue::Boolean(true)));
}
