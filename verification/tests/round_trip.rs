use huon::parser::parse;
use huon::parser::value::{HuonValue, ValueMap};
use huon::ser::{to_string, HuonSerializeError, HuonSerializer};
use huon::DecoderOptions;

const PERSON: &str = "name: \"John\"
job1:
    category:
        name: \"IT\"
    info:
        pay: -4200.5
        payrate:
            iteration: \"monthly\"
            date: \"Last Friday of every month\"
            monthly_increase: \"5%\"
    name: \"Software Engineer\"
age: 32
job2:
    category:
        name: \"Security\"
    info:
        pay: 3700
        payrate:
            iteration: \"weekly\"
            date: \"Every Friday\"
    name: \"Bodyguard\"
last_name: \"Doe\"";

fn object<'a>(entries: Vec<(&'a str, HuonValue<'a>)>) -> ValueMap<'a> {
    let mut map = ValueMap::new();
    for (key, value) in entries {
        map.insert(key, value);
    }
    map
}

#[test]
fn decoded_document_is_written_as_it_was() {
    let map = parse(PERSON, DecoderOptions::default()).unwrap();
    assert_eq!(to_string(&map).unwrap(), PERSON);
}

#[test]
fn written_object_is_read_back() {
    let map = object(vec![
        ("text", HuonValue::String("a: b [c]")),
        ("int", HuonValue::Int(i64::MIN)),
        ("float", HuonValue::Float("-0.5")),
        ("yes", HuonValue::Boolean(true)),
        ("no", HuonValue::Boolean(false)),
        ("nothing", HuonValue::Null),
        (
            "nested",
            HuonValue::Object(object(vec![
                (
                    "deeper",
                    HuonValue::Object(object(vec![("_k1", HuonValue::Int(1))])),
                ),
                ("back", HuonValue::Int(2)),
            ])),
        ),
        ("last", HuonValue::Int(3)),
    ]);
    let text = to_string(&map).unwrap();
    assert_eq!(
        text,
        "text: \"a: b [c]\"\nint: -9223372036854775808\nfloat: -0.5\nyes: true\nno: false\nnothing: null\nnested:\n    deeper:\n        _k1: 1\n    back: 2\nlast: 3"
    );
    let read = parse(&text, DecoderOptions::default()).unwrap();
    assert_eq!(read, map);
}

#[test]
fn reading_back_what_was_read_and_written() {
    let first = parse(
        "b:\n    c: 1\n\n    d:\n        e: \"x\"\n    f: 2.0\na: null\n",
        DecoderOptions::default(),
    )
    .unwrap();
    let text = to_string(&first).unwrap();
    let second = parse(&text, DecoderOptions::default()).unwrap();
    assert_eq!(first, second);
}

#[test]
fn empty_object_is_an_empty_text() {
    assert_eq!(to_string(&ValueMap::new()).unwrap(), "");
}

#[test]
fn list_cannot_be_written() {
    let map = object(vec![
        ("a", HuonValue::Int(1)),
        (
            "b",
            HuonValue::Object(object(vec![("c", HuonValue::List(vec![HuonValue::Int(1)]))])),
        ),
    ]);
    match to_string(&map) {
        Err(HuonSerializeError::Custom(text)) => {
            assert_eq!(text, "Sequences are not supported in huon")
        }
        other => panic!("a list was written: {:?}", other),
    }
}

#[test]
fn value_is_written_behind_a_key() {
    let mut ser = HuonSerializer::new();
    let mut map = ser.serialize_map(None).unwrap();
    map.serialize_key(&mut ser, "k").unwrap();
    ser.write_value(&HuonValue::Object(object(vec![("x", HuonValue::String("y"))])))
        .unwrap();
    map.serialize_key(&mut ser, "l").unwrap();
    ser.write_value(&HuonValue::Boolean(false)).unwrap();
    map.end(&mut ser).unwrap();
    assert_eq!(ser.as_str(), "k:\n    x: \"y\"\nl: false");
}

#[test]
fn deep_line_before_a_line_without_indentation_is_not_read_back() {
    let map = object(vec![
        (
            "a",
            HuonValue::Object(object(vec![(
                "b",
                HuonValue::Object(object(vec![("c", HuonValue::Int(1))])),
            )])),
        ),
        ("d", HuonValue::Int(2)),
    ]);
    let text = to_string(&map).unwrap();
    assert_eq!(text, "a:\n    b:\n        c: 1\nd: 2");
    let read = parse(&text, DecoderOptions::default()).unwrap();
    assert_ne!(read, map);
}
