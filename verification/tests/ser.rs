use huon::parser::value::{HuonValue, ValueMap};
use huon::ser::{HuonMapSerializer, HuonSerializeError, HuonSerializer};

const PERSON: &str = "name: \"John\"
job1:
    category:
        name: \"IT\"
    info:
        pay: -4200.5
        payrate:
            iteration: \"monthly\"
            date: \"Last Friday of every month\"
            monthly_increase: \"5%\"
    name: \"Software Engineer\"
age: 32
job2:
    category:
        name: \"Security\"
    info:
        pay: 3700
        payrate:
            iteration: \"weekly\"
            date: \"Every Friday\"
    name: \"Bodyguard\"
last_name: \"Doe\"";

struct NewType<'a>(&'a str);

struct JobCategory<'a> {
    name: NewType<'a>,
}

struct PayRate<'a> {
    iteration: &'a str,
    date: &'a str,
    monthly_increase: Option<&'a str>,
}

struct JobInfo<'a> {
    pay: f64,
    payrate: PayRate<'a>,
}

struct Job<'a> {
    category: JobCategory<'a>,
    info: JobInfo<'a>,
    name: &'a str,
}

struct Person<'a> {
    name: &'a str,
    job1: Job<'a>,
    age: i64,
    job2: Job<'a>,
    last_name: &'a str,
}

type Written = Result<(), HuonSerializeError>;

fn write_category(ser: &mut HuonSerializer, category: &JobCategory<'_>) -> Written {
    let mut map = ser.serialize_struct("JobCategory", 1)?;
    map.serialize_key(ser, "name")?;
    ser.serialize_str(category.name.0)?;
    map.end(ser)
}

fn write_payrate(ser: &mut HuonSerializer, payrate: &PayRate<'_>) -> Written {
    let mut map = ser.serialize_struct("PayRate", 3)?;
    map.serialize_key(ser, "iteration")?;
    ser.serialize_str(payrate.iteration)?;
    map.serialize_key(ser, "date")?;
    ser.serialize_str(payrate.date)?;
    if let Some(increase) = payrate.monthly_increase {
        map.serialize_key(ser, "monthly_increase")?;
        ser.serialize_str(increase)?;
    }
    map.end(ser)
}

fn write_info(ser: &mut HuonSerializer, info: &JobInfo<'_>) -> Written {
    let mut map = ser.serialize_struct("JobInfo", 2)?;
    map.serialize_key(ser, "pay")?;
    ser.serialize_f64(&format!("{}", info.pay))?;
    map.serialize_key(ser, "payrate")?;
    write_payrate(ser, &info.payrate)?;
    map.end(ser)
}

fn write_job(ser: &mut HuonSerializer, job: &Job<'_>) -> Written {
    let mut map = ser.serialize_struct("Job", 3)?;
    map.serialize_key(ser, "category")?;
    write_category(ser, &job.category)?;
    map.serialize_key(ser, "info")?;
    write_info(ser, &job.info)?;
    map.serialize_key(ser, "name")?;
    ser.serialize_str(job.name)?;
    map.end(ser)
}

fn write_person(ser: &mut HuonSerializer, person: &Person<'_>) -> Written {
    let mut map = ser.serialize_struct("Person", 5)?;
    map.serialize_key(ser, "name")?;
    ser.serialize_str(person.name)?;
    map.serialize_key(ser, "job1")?;
    write_job(ser, &person.job1)?;
    map.serialize_key(ser, "age")?;
    ser.serialize_i64(person.age)?;
    map.serialize_key(ser, "job2")?;
    write_job(ser, &person.job2)?;
    map.serialize_key(ser, "last_name")?;
    ser.serialize_str(person.last_name)?;
    map.end(ser)
}

fn to_string(person: &Person<'_>) -> Result<String, HuonSerializeError> {
    let mut serializer = HuonSerializer::new();
    write_person(&mut serializer, person)?;
    Ok(serializer.into_string())
}

fn message(result: Result<(), HuonSerializeError>) -> String {
    match result {
        Err(HuonSerializeError::Custom(text)) => text,
        other => panic!("no custom error: {:?}", other),
    }
}

#[test]
fn test_serialize_struct() {
    let expected_person = Person {
        name: "John",
        last_name: "Doe",
        age: 32,
        job1: Job {
            category: JobCategory {
                name: NewType("IT"),
            },
            info: JobInfo {
                pay: -4200.50,
                payrate: PayRate {
                    iteration: "monthly",
                    date: "Last Friday of every month",
                    monthly_increase: Some("5%"),
                },
            },
            name: "Software Engineer",
        },
        job2: Job {
            category: JobCategory {
                name: NewType("Security"),
            },
            info: JobInfo {
                pay: 3700_f64,
                payrate: PayRate {
                    iteration: "weekly",
                    date: "Every Friday",
                    monthly_increase: None,
                },
            },
            name: "Bodyguard",
        },
    };

    let s = to_string(&expected_person).unwrap();

    let expected = PERSON;

    assert_eq!(s, expected);
}

#[test]
fn new_serializer_has_written_nothing() {
    let serializer = HuonSerializer::new();
    assert_eq!(serializer.as_str(), "");
    assert_eq!(serializer.indent_level(), 0);
    assert_eq!(serializer.into_string(), "");
}

#[test]
fn scalars_without_a_key() {
    let mut ser = HuonSerializer::new();
    ser.serialize_bool(true).unwrap();
    ser.serialize_bool(false).unwrap();
    ser.serialize_none().unwrap();
    ser.serialize_str("a b").unwrap();
    ser.serialize_char('x').unwrap();
    ser.serialize_i8(-8).unwrap();
    ser.serialize_i16(-16).unwrap();
    ser.serialize_i32(32).unwrap();
    ser.serialize_f32("1.5").unwrap();
    ser.serialize_f64("-2.25").unwrap();
    ser.serialize_unit_variant("Kind", 7, "Seventh").unwrap();
    assert_eq!(ser.as_str(), "truefalsenull\"a b\"x-8-16321.5-2.257");
}

#[test]
fn integers_are_written_in_decimal() {
    for (value, text) in [
        (0_i64, "0"),
        (7, "7"),
        (10, "10"),
        (-1, "-1"),
        (1234567890, "1234567890"),
        (i64::MAX, "9223372036854775807"),
        (i64::MIN, "-9223372036854775808"),
    ] {
        let mut ser = HuonSerializer::new();
        ser.serialize_i64(value).unwrap();
        assert_eq!(ser.as_str(), text);
    }
}

#[test]
fn key_and_scalar_are_separated_by_colon_and_space() {
    let mut ser = HuonSerializer::new();
    let mut map = ser.serialize_map(None).unwrap();
    map.serialize_key(&mut ser, "k").unwrap();
    assert_eq!(ser.as_str(), "k");
    ser.serialize_i64(5).unwrap();
    assert_eq!(ser.as_str(), "k: 5");
    map.serialize_key(&mut ser, "c").unwrap();
    ser.serialize_char('\u{e9}').unwrap();
    map.end(&mut ser).unwrap();
    assert_eq!(ser.as_str(), "k: 5\nc: \u{e9}");
}

#[test]
fn key_written_in_steps() {
    let mut ser = HuonSerializer::new();
    let mut map = HuonMapSerializer::new();
    map.begin_key(&mut ser);
    ser.serialize_i64(12).unwrap();
    map.end_key(&mut ser);
    ser.serialize_str("twelve").unwrap();
    map.begin_key(&mut ser);
    ser.serialize_str("plain").unwrap();
    map.end_key(&mut ser);
    ser.serialize_none().unwrap();
    assert_eq!(ser.as_str(), "12: \"twelve\"\nplain: null");
}

#[test]
fn nested_object_ends_the_line_of_its_key() {
    let mut ser = HuonSerializer::new();
    let mut outer = ser.serialize_map(Some(2)).unwrap();
    assert_eq!(ser.indent_level(), 0);
    outer.serialize_key(&mut ser, "a").unwrap();
    let mut inner = ser.serialize_map(Some(1)).unwrap();
    assert_eq!(ser.indent_level(), 1);
    inner.serialize_key(&mut ser, "b").unwrap();
    let mut innermost = ser.serialize_map(None).unwrap();
    assert_eq!(ser.indent_level(), 2);
    innermost.serialize_key(&mut ser, "c").unwrap();
    ser.serialize_bool(true).unwrap();
    innermost.end(&mut ser).unwrap();
    assert_eq!(ser.indent_level(), 1);
    inner.end(&mut ser).unwrap();
    assert_eq!(ser.indent_level(), 0);
    outer.serialize_key(&mut ser, "d").unwrap();
    ser.serialize_none().unwrap();
    outer.end(&mut ser).unwrap();
    assert_eq!(ser.indent_level(), 0);
    assert_eq!(ser.as_str(), "a:\n    b:\n        c: true\nd: null");
}

#[test]
fn empty_objects() {
    let mut ser = HuonSerializer::new();
    let outer = ser.serialize_map(Some(0)).unwrap();
    outer.end(&mut ser).unwrap();
    assert_eq!(ser.as_str(), "");

    let mut ser = HuonSerializer::new();
    let mut outer = ser.serialize_map(Some(1)).unwrap();
    outer.serialize_key(&mut ser, "a").unwrap();
    let inner = ser.serialize_map(Some(0)).unwrap();
    inner.end(&mut ser).unwrap();
    outer.end(&mut ser).unwrap();
    assert_eq!(ser.as_str(), "a:\n");
}

#[test]
fn unsupported_shapes_are_refused() {
    let mut ser = HuonSerializer::new();
    assert_eq!(
        message(ser.serialize_u8(1)),
        "Unsigned integers are not supported in Huon"
    );
    assert_eq!(
        message(ser.serialize_u16(1)),
        "Unsigned integers are not supported in Huon"
    );
    assert_eq!(
        message(ser.serialize_u32(1)),
        "Unsigned integers are not supported in Huon"
    );
    assert_eq!(
        message(ser.serialize_u64(1)),
        "Unsigned integers are not supported in Huon"
    );
    assert_eq!(
        message(ser.serialize_bytes(&[1, 2])),
        "Byte arrays are not supported in Huon"
    );
    assert_eq!(message(ser.serialize_unit()), "Unit is not supported in huon");
    assert_eq!(
        message(ser.serialize_unit_struct("Unit")),
        "Unit structs are not supported in huon"
    );
    assert_eq!(
        message(ser.serialize_seq(Some(2))),
        "Sequences are not supported in huon"
    );
    assert_eq!(
        message(ser.serialize_tuple(2)),
        "Tuples are not supported in huon"
    );
    assert_eq!(
        message(ser.serialize_tuple_struct("Pair", 2)),
        "Tuple structs are not supported in huon"
    );
    assert_eq!(
        message(ser.serialize_tuple_variant("Kind", 0, "Pair", 2)),
        "Tuple variants are not supported in huon"
    );
    assert_eq!(
        message(ser.serialize_struct_variant("Kind", 0, "Record", 2)),
        "Serializing struct variants is not supported"
    );
    assert_eq!(ser.as_str(), "");
}

#[test]
fn writing_stops_in_front_of_a_list() {
    let mut inner = ValueMap::new();
    inner.insert("x", HuonValue::Int(1));
    inner.insert("l", HuonValue::List(vec![HuonValue::Int(2)]));
    inner.insert("y", HuonValue::Int(3));
    let mut map = ValueMap::new();
    map.insert("a", HuonValue::Boolean(true));
    map.insert("b", HuonValue::Object(inner));
    map.insert("c", HuonValue::Null);
    let mut ser = HuonSerializer::new();
    assert_eq!(
        message(ser.write_object(&map)),
        "Sequences are not supported in huon"
    );
    assert_eq!(ser.as_str(), "a: true\nb:\n    x: 1\n    l");
    assert_eq!(ser.indent_level(), 1);

    let mut ser = HuonSerializer::new();
    assert_eq!(
        message(ser.write_value(&HuonValue::List(vec![]))),
        "Sequences are not supported in huon"
    );
    assert_eq!(ser.as_str(), "");
}
