use std::collections::HashMap;

use comfund_paths::path_serializer::Error;
use comfund_paths::{PathSerializer, PathTemplate, Value};

fn serialize(template: &str, val: &Value) -> Result<String, Error> {
    let template = PathTemplate::new(template).unwrap();
    let mut serializer = PathSerializer::new(&template);

    serializer.serialize_value(val).and_then(|_| serializer.finalize())
}

fn text(val: &str) -> Value {
    Value::Str(val.to_owned())
}

fn struct_of_one(val: Value) -> Value {
    Value::Struct(vec![("val".to_owned(), val)])
}

fn newtype_of(val: Value) -> Value {
    Value::NewtypeStruct(Box::new(val))
}

fn unit_variant_of(name: &str) -> Value {
    Value::UnitVariant(name.to_owned())
}

fn multi_fields(a: Value, b: Value, c: Value) -> Value {
    Value::Struct(vec![("a".to_owned(), a), ("b".to_owned(), b), ("c".to_owned(), c)])
}

fn map_of(entries: HashMap<&str, &str>) -> Value {
    Value::Mapping(entries.iter().map(|(key, val)| (text(key), text(val))).collect())
}

#[test]
fn single_bool() {
    let result = serialize("/{a}", &Value::Bool(true)).unwrap();
    assert_eq!(result, "/true");
}

#[test]
fn single_char() {
    let result = serialize("/{a}", &Value::Char('a')).unwrap();
    assert_eq!(result, "/a")
}

#[test]
fn single_uint() {
    assert_eq!(serialize("/{a}", &Value::U8(0u8)), Ok("/0".to_owned()));
    assert_eq!(serialize("/{a}", &Value::U16(0u16)), Ok("/0".to_owned()));
    assert_eq!(serialize("/{a}", &Value::U32(0u32)), Ok("/0".to_owned()));
    assert_eq!(serialize("/{a}", &Value::U64(0u64)), Ok("/0".to_owned()));
    assert_eq!(serialize("/{a}", &Value::U128(0u128)), Ok("/0".to_owned()));
}

#[test]
fn single_int() {
    assert_eq!(serialize("/{a}", &Value::I8(0i8)), Ok("/0".to_owned()));
    assert_eq!(serialize("/{a}", &Value::I16(0i16)), Ok("/0".to_owned()));
    assert_eq!(serialize("/{a}", &Value::I32(0i32)), Ok("/0".to_owned()));
    assert_eq!(serialize("/{a}", &Value::I64(0i64)), Ok("/0".to_owned()));
    assert_eq!(serialize("/{a}", &Value::I128(0i128)), Ok("/0".to_owned()));
}

#[test]
fn single_float() {
    assert_eq!(serialize("/{a}", &Value::Str(0f32.to_string())), Ok("/0".to_owned()));
    assert_eq!(serialize("/{a}", &Value::Str(0f64.to_string())), Ok("/0".to_owned()));

    assert_eq!(serialize("/{a}", &Value::Str(1.5f32.to_string())), Ok("/1%2E5".to_owned()));
    assert_eq!(serialize("/{a}", &Value::Str(1.5f64.to_string())), Ok("/1%2E5".to_owned()));
}

#[test]
fn single_vec() {
    assert_eq!(
        serialize("/{*a}", &Value::Sequence(vec![Value::I32(1)])),
        Ok("/1".to_owned())
    );
    assert_eq!(
        serialize("/{*a}", &Value::Sequence(vec![text("a"), text("b"), text("c")])),
        Ok("/a/b/c".to_owned())
    );
    assert_eq!(
        serialize("/{*a}", &Value::Sequence(vec![Value::Bool(true), Value::Bool(false)])),
        Ok("/true/false".to_owned())
    );
}

#[test]
fn option() {}

#[test]
fn map() {
    assert_eq!(
        serialize("/{val}", &map_of(HashMap::from([("val", "true")]))),
        Ok("/true".to_owned())
    );
    assert_eq!(
        serialize(
            "/{a}/{b}/{c}",
            &map_of(HashMap::from([("a", "a"), ("b", "b"), ("c", "c")]))
        ),
        Ok("/a/b/c".to_owned())
    );
}

#[test]
fn single_field() {
    assert_eq!(
        serialize("/{val}", &struct_of_one(Value::Bool(true))),
        Ok("/true".to_owned())
    );
    assert_eq!(
        serialize("/{val}", &struct_of_one(Value::I32(1))),
        Ok("/1".to_owned())
    );
    assert_eq!(
        serialize("/{val}", &struct_of_one(Value::Char('a'))),
        Ok("/a".to_owned())
    );
    assert_eq!(
        serialize("/{val}", &struct_of_one(Value::Str(1.1f64.to_string()))),
        Ok("/1%2E1".to_owned())
    );
}

#[test]
fn single_elem() {
    assert_eq!(
        serialize("/{val}", &newtype_of(Value::Bool(true))),
        Ok("/true".to_owned())
    );
    assert_eq!(serialize("/{val}", &newtype_of(Value::I32(1))), Ok("/1".to_owned()));
    assert_eq!(serialize("/{val}", &newtype_of(Value::Char('a'))), Ok("/a".to_owned()));
    assert_eq!(
        serialize("/{val}", &newtype_of(Value::Str(1.1f64.to_string()))),
        Ok("/1%2E1".to_owned())
    );
}

#[test]
fn unit_variant() {
    assert_eq!(serialize("/{val}", &unit_variant_of("A")), Ok("/a".to_owned()));
    assert_eq!(serialize("/{val}", &unit_variant_of("B")), Ok("/b".to_owned()));
    assert_eq!(serialize("/{val}", &unit_variant_of("C")), Ok("/c".to_owned()));
}

#[test]
fn multiple_fieds() {
    assert_eq!(
        serialize(
            "/{a}/{b}/{c}",
            &multi_fields(Value::Bool(true), Value::Bool(false), Value::Bool(true))
        ),
        Ok("/true/false/true".to_owned())
    );
    assert_eq!(
        serialize(
            "/{a}/{b}/{c}",
            &multi_fields(Value::Bool(true), text("aaaa"), Value::I32(1))
        ),
        Ok("/true/aaaa/1".to_owned())
    );
    assert_eq!(
        serialize(
            "/{a}/{b}/{*c}",
            &multi_fields(Value::Char('c'), unit_variant_of("A"), Value::Sequence(vec![]))
        ),
        Ok("/c/a".to_owned())
    );
    assert_eq!(
        serialize(
            "/{a}/{b}/{*c}",
            &multi_fields(
                text("wild"),
                text("card"),
                Value::Sequence(vec![text("test"), text("successfull")])
            )
        ),
        Ok("/wild/card/test/successfull".to_owned())
    );
}

#[test]
fn tuple_single() {
    let result = serialize("/{a}", &Value::Tuple(vec![text("aaa")])).unwrap();
    assert_eq!(result, "/aaa");
}
