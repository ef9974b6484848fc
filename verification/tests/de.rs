use huon::de::{
    from_str, HuonDeserializeError, HuonDeserializer, MapDeserializer, SequenceDeserializer, Visit,
};
use huon::parser::value::{HuonValue, ValueMap};
use huon::parser::ParserError;
use huon::tokenizer::token::Token;
use huon::tokenizer::TokenizerError;
use huon::DecoderOptions;

const PERSON: &str = "name: \"John\"
job1:
    category:
        name: \"IT\"
    info:
        pay: -4200.5
        payrate:
            iteration: \"monthly\"
            date: \"Last Friday of every month\"
            monthly_increase: \"5%\"
    name: \"Software Engineer\"
age: 32
job2:
    category:
        name: \"Security\"
    info:
        pay: 3700
        payrate:
            iteration: \"weekly\"
            date: \"Every Friday\"
    name: \"Bodyguard\"
last_name: \"Doe\"";

const CODES: &str = "test_codes:
    codes: [
        111.1
        333.3
        555.5
    ]
    info: \"Passwords\"
name: \"General Access\"";

type Shape = serde::de::value::Error;

fn missing(field: &str) -> Shape {
    serde::de::Error::custom(format!("missing field `{}`", field))
}

fn decode_f64(value: HuonDeserializer<'_>) -> Result<f64, Shape> {
    match value.deserialize_any() {
        Visit::F64(text) => Ok(text.parse::<f64>().unwrap()),
        Visit::I64(i) => Ok(i as f64),
        _ => Err(serde::de::Error::custom("Expected f64")),
    }
}

#[derive(Debug, PartialEq, Eq)]
struct NewType<'a>(&'a str);

#[derive(Debug, PartialEq, Eq)]
struct JobCategory<'a> {
    name: NewType<'a>,
}

#[derive(Debug, PartialEq, Eq)]
struct PayRate<'a> {
    iteration: &'a str,
    date: &'a str,
    monthly_increase: Option<&'a str>,
}

#[derive(Debug, PartialEq)]
struct JobInfo<'a> {
    pay: f64,
    payrate: PayRate<'a>,
}

#[derive(Debug, PartialEq)]
struct Job<'a> {
    category: JobCategory<'a>,
    info: JobInfo<'a>,
    name: &'a str,
}

#[derive(Debug, PartialEq)]
struct Person<'a> {
    name: &'a str,
    job1: Job<'a>,
    age: i64,
    job2: Job<'a>,
    last_name: &'a str,
}

#[derive(Debug, PartialEq)]
struct TestCodes {
    codes: Vec<f64>,
    info: String,
}

#[derive(Debug, PartialEq)]
struct CodeInfo {
    test_codes: TestCodes,
    name: String,
}

fn decode_category<'de>(value: HuonDeserializer<'de>) -> Result<JobCategory<'de>, Shape> {
    let mut access = value.deserialize_struct("JobCategory", &["name"])?;
    let mut name = None;
    while let Some(key) = access.next_key() {
        let value = access.next_value()?;
        if key == "name" {
            name = Some(NewType(
                value.deserialize_newtype_struct("NewType").deserialize_str()?,
            ));
        }
    }
    Ok(JobCategory {
        name: name.ok_or_else(|| missing("name"))?,
    })
}

fn decode_payrate<'de>(value: HuonDeserializer<'de>) -> Result<PayRate<'de>, Shape> {
    let mut access =
        value.deserialize_struct("PayRate", &["iteration", "date", "monthly_increase"])?;
    let mut iteration = None;
    let mut date = None;
    let mut monthly_increase = None;
    while let Some(key) = access.next_key() {
        let value = access.next_value()?;
        match key {
            "iteration" => iteration = Some(value.deserialize_str()?),
            "date" => date = Some(value.deserialize_str()?),
            "monthly_increase" => {
                monthly_increase = match value.deserialize_option() {
                    Some(present) => Some(present.deserialize_str()?),
                    None => None,
                }
            }
            _ => {}
        }
    }
    Ok(PayRate {
        iteration: iteration.ok_or_else(|| missing("iteration"))?,
        date: date.ok_or_else(|| missing("date"))?,
        monthly_increase,
    })
}

fn decode_info<'de>(value: HuonDeserializer<'de>) -> Result<JobInfo<'de>, Shape> {
    let mut access = value.deserialize_struct("JobInfo", &["pay", "payrate"])?;
    let mut pay = None;
    let mut payrate = None;
    while let Some(key) = access.next_key() {
        let value = access.next_value()?;
        match key {
            "pay" => pay = Some(decode_f64(value)?),
            "payrate" => payrate = Some(decode_payrate(value)?),
            _ => {}
        }
    }
    Ok(JobInfo {
        pay: pay.ok_or_else(|| missing("pay"))?,
        payrate: payrate.ok_or_else(|| missing("payrate"))?,
    })
}

fn decode_job<'de>(value: HuonDeserializer<'de>) -> Result<Job<'de>, Shape> {
    let mut access = value.deserialize_struct("Job", &["category", "info", "name"])?;
    let mut category = None;
    let mut info = None;
    let mut name = None;
    while let Some(key) = access.next_key() {
        let value = access.next_value()?;
        match key {
            "category" => category = Some(decode_category(value)?),
            "info" => info = Some(decode_info(value)?),
            "name" => name = Some(value.deserialize_str()?),
            _ => {}
        }
    }
    Ok(Job {
        category: category.ok_or_else(|| missing("category"))?,
        info: info.ok_or_else(|| missing("info"))?,
        name: name.ok_or_else(|| missing("name"))?,
    })
}

fn decode_person<'de>(value: HuonDeserializer<'de>) -> Result<Person<'de>, Shape> {
    let mut access = value.deserialize_struct(
        "Person",
        &["name", "job1", "age", "job2", "last_name"],
    )?;
    let mut name = None;
    let mut job1 = None;
    let mut age = None;
    let mut job2 = None;
    let mut last_name = None;
    while let Some(key) = access.next_key() {
        let value = access.next_value()?;
        match key {
            "name" => name = Some(value.deserialize_str()?),
            "job1" => job1 = Some(decode_job(value)?),
            "age" => age = Some(value.deserialize_i64()?),
            "job2" => job2 = Some(decode_job(value)?),
            "last_name" => last_name = Some(value.deserialize_str()?),
            _ => {}
        }
    }
    Ok(Person {
        name: name.ok_or_else(|| missing("name"))?,
        job1: job1.ok_or_else(|| missing("job1"))?,
        age: age.ok_or_else(|| missing("age"))?,
        job2: job2.ok_or_else(|| missing("job2"))?,
        last_name: last_name.ok_or_else(|| missing("last_name"))?,
    })
}

fn decode_codes(value: HuonDeserializer<'_>) -> Result<TestCodes, Shape> {
    let mut access = value.deserialize_struct("TestCodes", &["codes", "info"])?;
    let mut codes = None;
    let mut info = None;
    while let Some(key) = access.next_key() {
        let value = access.next_value()?;
        match key {
            "codes" => {
                let mut items = match value.deserialize_any() {
                    Visit::List(items) => items,
                    _ => return Err(serde::de::Error::custom("Expected a sequence")),
                };
                let mut numbers = Vec::new();
                while let Some(item) = items.next_element() {
                    numbers.push(decode_f64(item)?);
                }
                codes = Some(numbers);
            }
            "info" => info = Some(value.deserialize_string()?),
            _ => {}
        }
    }
    Ok(TestCodes {
        codes: codes.ok_or_else(|| missing("codes"))?,
        info: info.ok_or_else(|| missing("info"))?,
    })
}

fn decode_code_info(value: HuonDeserializer<'_>) -> Result<CodeInfo, Shape> {
    let mut access = value.deserialize_struct("CodeInfo", &["test_codes", "name"])?;
    let mut test_codes = None;
    let mut name = None;
    while let Some(key) = access.next_key() {
        let value = access.next_value()?;
        match key {
            "test_codes" => test_codes = Some(decode_codes(value)?),
            "name" => name = Some(value.deserialize_string()?),
            _ => {}
        }
    }
    Ok(CodeInfo {
        test_codes: test_codes.ok_or_else(|| missing("test_codes"))?,
        name: name.ok_or_else(|| missing("name"))?,
    })
}

fn person_from_str<'de>(
    input: &'de str,
    options: DecoderOptions,
) -> Result<Person<'de>, HuonDeserializeError<'de>> {
    decode_person(from_str(input, options)?).map_err(HuonDeserializeError::SerdeError)
}

fn code_info_from_str<'de>(
    input: &'de str,
    options: DecoderOptions,
) -> Result<CodeInfo, HuonDeserializeError<'de>> {
    decode_code_info(from_str(input, options)?).map_err(HuonDeserializeError::SerdeError)
}

fn object<'a>(entries: Vec<(&'a str, HuonValue<'a>)>) -> ValueMap<'a> {
    let mut map = ValueMap::new();
    for (key, value) in entries {
        map.insert(key, value);
    }
    map
}

#[test]
fn test_deserialization() {
    let input = PERSON.to_owned();

    let person: Person =
        person_from_str(&input, DecoderOptions::default()).expect("Deserialization failed");

    let expected_person = Person {
        name: "John",
        last_name: "Doe",
        age: 32,
        job1: Job {
            category: JobCategory {
                name: NewType("IT"),
            },
            info: JobInfo {
                pay: -4200.50,
                payrate: PayRate {
                    iteration: "monthly",
                    date: "Last Friday of every month",
                    monthly_increase: Some("5%"),
                },
            },
            name: "Software Engineer",
        },
        job2: Job {
            category: JobCategory {
                name: NewType("Security"),
            },
            info: JobInfo {
                pay: 3700_f64,
                payrate: PayRate {
                    iteration: "weekly",
                    date: "Every Friday",
                    monthly_increase: None,
                },
            },
            name: "Bodyguard",
        },
    };

    assert_eq!(person, expected_person);
}

#[test]
fn test_deserialization_new_list() {
    let input = CODES.to_owned();

    let code_info: CodeInfo =
        code_info_from_str(&input, DecoderOptions::default()).expect("Deserialization failed");

    let expected_code_info = CodeInfo {
        test_codes: TestCodes {
            codes: vec![111.1, 333.3, 555.5],
            info: "Passwords".to_string(),
        },
        name: "General Access".to_string(),
    };

    assert_eq!(code_info, expected_code_info);
}

#[test]
fn test_deserialization_list_indent_2() {
    let input = "test_codes:
  codes: [111.1 333.3 555.5]
  info: \"Passwords\"
name: \"General Access\""
        .to_owned();

    let code_info: CodeInfo =
        code_info_from_str(&input, DecoderOptions { indent: 2 }).expect("Deserialization failed");

    let expected_code_info = CodeInfo {
        test_codes: TestCodes {
            codes: vec![111.1, 333.3, 555.5],
            info: "Passwords".to_string(),
        },
        name: "General Access".to_string(),
    };

    assert_eq!(code_info, expected_code_info);
}

#[test]
fn scan_failure_comes_before_parse_failure() {
    match from_str("1a: 2\nb: @", DecoderOptions::default()) {
        Err(HuonDeserializeError::TokenizerError(e)) => {
            assert_eq!(e, TokenizerError::UnexpectedCharacter('@'))
        }
        other => panic!("no scan failure: {:?}", other.err()),
    }
    match from_str("1a: 2\nb: 3", DecoderOptions::default()) {
        Err(HuonDeserializeError::ParserError(e)) => {
            assert_eq!(e, ParserError::InvalidToken(Token::Int(1)))
        }
        other => panic!("no parse failure: {:?}", other.err()),
    }
}

#[test]
fn shape_mismatch_is_the_third_kind_of_failure() {
    match person_from_str("name: 1", DecoderOptions::default()) {
        Err(HuonDeserializeError::SerdeError(e)) => assert_eq!(e.to_string(), "Expected str"),
        other => panic!("no shape failure: {:?}", other),
    }
}

#[test]
fn root_is_the_object_of_the_document() {
    let root = from_str("a: 1", DecoderOptions::default()).unwrap();
    assert_eq!(
        root.into_value(),
        HuonValue::Object(object(vec![("a", HuonValue::Int(1))]))
    );
}

#[test]
fn typed_reads_accept_their_own_shape_only() {
    assert_eq!(
        HuonDeserializer::new(HuonValue::Boolean(true)).deserialize_bool(),
        Ok(true)
    );
    assert_eq!(
        HuonDeserializer::new(HuonValue::Int(1))
            .deserialize_bool()
            .unwrap_err()
            .to_string(),
        "Expected bool"
    );
    assert_eq!(
        HuonDeserializer::new(HuonValue::Int(-5)).deserialize_i64(),
        Ok(-5)
    );
    assert_eq!(
        HuonDeserializer::new(HuonValue::Float("1.0"))
            .deserialize_i64()
            .unwrap_err()
            .to_string(),
        "Expected i64"
    );
    assert_eq!(
        HuonDeserializer::new(HuonValue::String("s")).deserialize_string(),
        Ok("s".to_string())
    );
    assert_eq!(
        HuonDeserializer::new(HuonValue::Null)
            .deserialize_string()
            .unwrap_err()
            .to_string(),
        "Expected string"
    );
    assert_eq!(
        HuonDeserializer::new(HuonValue::String("s")).deserialize_str(),
        Ok("s")
    );
    assert_eq!(
        HuonDeserializer::new(HuonValue::Boolean(false))
            .deserialize_str()
            .unwrap_err()
            .to_string(),
        "Expected str"
    );
    assert_eq!(
        HuonDeserializer::new(HuonValue::List(vec![]))
            .deserialize_map()
            .err()
            .unwrap()
            .to_string(),
        "Expected map"
    );
    assert_eq!(
        HuonDeserializer::new(HuonValue::Int(0))
            .deserialize_struct("Record", &["a"])
            .err()
            .unwrap()
            .to_string(),
        "Expected map"
    );
}

#[test]
fn null_is_an_absent_option() {
    assert!(HuonDeserializer::new(HuonValue::Null)
        .deserialize_option()
        .is_none());
    let present = HuonDeserializer::new(HuonValue::Int(3))
        .deserialize_option()
        .unwrap();
    assert_eq!(present.deserialize_i64(), Ok(3));
}

#[test]
fn untyped_read_shows_the_value() {
    assert!(matches!(
        HuonDeserializer::new(HuonValue::Boolean(true)).deserialize_any(),
        Visit::Bool(true)
    ));
    assert!(matches!(
        HuonDeserializer::new(HuonValue::Int(9)).deserialize_any(),
        Visit::I64(9)
    ));
    assert!(matches!(
        HuonDeserializer::new(HuonValue::String("s")).deserialize_any(),
        Visit::BorrowedStr("s")
    ));
    assert!(matches!(
        HuonDeserializer::new(HuonValue::Float("2.5")).deserialize_any(),
        Visit::F64("2.5")
    ));
    assert!(matches!(
        HuonDeserializer::new(HuonValue::Null).deserialize_any(),
        Visit::Absent
    ));
    assert!(matches!(
        HuonDeserializer::new(HuonValue::List(vec![])).deserialize_any(),
        Visit::List(_)
    ));
    assert!(matches!(
        HuonDeserializer::new(HuonValue::Object(ValueMap::new())).deserialize_any(),
        Visit::Object(_)
    ));
}

#[test]
fn entries_come_key_first_in_their_order() {
    let map = object(vec![
        ("a", HuonValue::Int(1)),
        ("b", HuonValue::Boolean(true)),
        ("c", HuonValue::Null),
    ]);
    let mut access = MapDeserializer::new(map);
    assert_eq!(access.next_key(), Some("a"));
    assert_eq!(access.next_value().unwrap().deserialize_i64(), Ok(1));
    assert_eq!(access.next_key(), Some("b"));
    assert_eq!(access.next_key(), Some("c"));
    assert!(access.next_value().unwrap().deserialize_option().is_none());
    assert_eq!(access.next_key(), None);
    assert_eq!(access.next_key(), None);
}

#[test]
fn value_before_key_is_an_error() {
    let mut access = MapDeserializer::new(object(vec![("a", HuonValue::Int(1))]));
    assert_eq!(
        access.next_value().err().unwrap().to_string(),
        "Called next_value_seed before next_key_seed"
    );
    assert_eq!(access.next_key(), Some("a"));
    assert!(access.next_value().is_ok());
    assert_eq!(
        access.next_value().err().unwrap().to_string(),
        "Called next_value_seed before next_key_seed"
    );
}

#[test]
fn items_come_in_the_order_of_the_document() {
    let mut access = SequenceDeserializer::new(vec![
        HuonValue::Int(1),
        HuonValue::Int(2),
        HuonValue::Int(3),
    ]);
    assert_eq!(access.next_element().unwrap().deserialize_i64(), Ok(1));
    assert_eq!(access.next_element().unwrap().deserialize_i64(), Ok(2));
    assert_eq!(access.next_element().unwrap().deserialize_i64(), Ok(3));
    assert!(access.next_element().is_none());
    assert!(access.next_element().is_none());
}
