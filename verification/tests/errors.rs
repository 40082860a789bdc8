use comfund_paths::path_serializer::Error;
use comfund_paths::path_template;
use comfund_paths::{serialize, PathSerializer, PathTemplate, Value};

fn text(val: &str) -> Value {
    Value::Str(val.to_owned())
}

fn path(pattern: &str, val: &Value) -> Result<String, Error> {
    let template = PathTemplate::new(pattern).unwrap();
    serialize(&template, val)
}

#[test]
fn kinds_that_no_template_takes() {
    assert_eq!(path("/{a}", &Value::Bytes(vec![1, 2])), Err(Error::TypeNotSupported("&[u8])")));
    assert_eq!(path("/{a}", &Value::Unit), Err(Error::TypeNotSupported("()")));
    assert_eq!(path("/{a}", &Value::UnitStruct), Err(Error::TypeNotSupported("unit structs")));
    assert_eq!(
        path("/{a}", &Value::NewtypeVariant),
        Err(Error::TypeNotSupported("Newtype variant"))
    );
    assert_eq!(path("/{a}", &Value::TupleVariant), Err(Error::TypeNotSupported("Tuple variant")));
    assert_eq!(
        path("/{a}", &Value::StructVariant),
        Err(Error::TypeNotSupported("Struct variant"))
    );
}

#[test]
fn sequence_where_a_capture_is_next() {
    assert_eq!(path("/{a}", &Value::Sequence(vec![text("x")])), Err(Error::NonWildcardCapture));
    assert_eq!(
        path("/{a}/{*w}", &Value::Sequence(vec![text("x")])),
        Err(Error::NonWildcardCapture)
    );
    let val = Value::Tuple(vec![Value::Sequence(vec![]), Value::U8(1)]);
    assert_eq!(path("/{a}/{*w}", &val), Err(Error::NonWildcardCapture));
}

#[test]
fn composite_inside_composite() {
    let inner = Value::Tuple(vec![Value::U8(1)]);
    assert_eq!(path("/{a}", &Value::Tuple(vec![inner])), Err(Error::DeepNesting));
    let field = Value::Struct(vec![("a".to_owned(), Value::Struct(vec![]))]);
    assert_eq!(path("/{a}", &field), Err(Error::DeepNesting));
    let entry = Value::Mapping(vec![(text("a"), Value::Mapping(vec![]))]);
    assert_eq!(path("/{a}", &entry), Err(Error::DeepNesting));
    let element = Value::Sequence(vec![Value::Tuple(vec![])]);
    assert_eq!(path("/{*w}", &element), Err(Error::DeepNesting));
}

#[test]
fn name_that_the_template_does_not_have() {
    let val = Value::Struct(vec![("b".to_owned(), Value::U8(1))]);
    assert_eq!(path("/{a}", &val), Err(Error::UnknownCapture("b".to_owned())));
    let spaced = Value::Mapping(vec![(text("a b"), Value::U8(1))]);
    assert_eq!(path("/{a}", &spaced), Err(Error::UnknownCapture("a%20b".to_owned())));
}

#[test]
fn capture_without_a_value_is_named() {
    let template = PathTemplate::new("/{a}/{b}/{c}").unwrap();
    let mut serializer = PathSerializer::new(&template);
    assert_eq!(serializer.serialize_map(None), Ok(()));
    serializer.serialize_key();
    assert_eq!(serializer.serialize_str("c"), Ok(()));
    assert_eq!(serializer.serialize_u8(3), Ok(()));
    serializer.serialize_key();
    assert_eq!(serializer.serialize_str("a"), Ok(()));
    assert_eq!(serializer.serialize_u8(1), Ok(()));
    assert_eq!(serializer.finalize(), Err(Error::MissingCapture("b".to_owned())));
}

#[test]
fn first_capture_without_a_value_is_named() {
    let template = PathTemplate::new("/{a}/{b}/{c}").unwrap();
    let mut serializer = PathSerializer::new(&template);
    assert_eq!(serializer.finalize(), Err(Error::MissingCapture("a".to_owned())));
}

#[test]
fn element_past_the_end_of_the_template() {
    let template = PathTemplate::new("/{a}").unwrap();
    let mut serializer = PathSerializer::new(&template);
    assert_eq!(serializer.serialize_tuple(1), Ok(()));
    assert_eq!(serializer.serialize_u8(1), Ok(()));
    assert_eq!(serializer.set_next_tuple_capture(), Ok(()));
    assert_eq!(serializer.serialize_u8(2), Ok(()));
    assert_eq!(serializer.set_next_tuple_capture(), Ok(()));
    assert_eq!(serializer.serialize_u8(3), Err(Error::InvalidLen));
    assert_eq!(serializer.set_next_tuple_capture(), Err(Error::InvalidLen));
}

#[test]
fn serializer_is_ready_again_after_a_path() {
    let template = PathTemplate::new("/{*w}").unwrap();
    let mut serializer = PathSerializer::new(&template);
    let first = Value::Sequence(vec![text("a"), text("b")]);
    assert_eq!(serializer.serialize_value(&first), Ok(()));
    assert_eq!(serializer.finalize(), Ok("/a/b".to_owned()));
    let second = Value::Sequence(vec![text("c")]);
    assert_eq!(serializer.serialize_value(&second), Ok(()));
    assert_eq!(serializer.finalize(), Ok("/c".to_owned()));
    assert_eq!(serializer.finalize(), Ok("/".to_owned()));
}

#[test]
fn serializer_is_ready_again_after_an_error() {
    let template = PathTemplate::new("/{a}/{b}").unwrap();
    let mut serializer = PathSerializer::new(&template);
    let short = Value::Mapping(vec![(text("a"), Value::U8(1)), (text("x"), Value::U8(2))]);
    assert_eq!(serializer.serialize_value(&short), Err(Error::UnknownCapture("x".to_owned())));
    assert_eq!(serializer.finalize(), Err(Error::MissingCapture("b".to_owned())));
    let full = Value::Tuple(vec![Value::U8(3), Value::U8(4)]);
    assert_eq!(serializer.serialize_value(&full), Ok(()));
    assert_eq!(serializer.finalize(), Ok("/3/4".to_owned()));
}

#[test]
fn blank_serializer_is_ready_again() {
    let template = PathTemplate::new("/").unwrap();
    let mut serializer = PathSerializer::new(&template);
    assert_eq!(serializer.serialize_value(&Value::Tuple(vec![])), Ok(()));
    assert_eq!(serializer.finalize(), Ok("/".to_owned()));
    assert_eq!(serializer.serialize_value(&Value::OptionNone), Ok(()));
    assert_eq!(serializer.finalize(), Ok("/".to_owned()));
}

#[test]
fn messages_of_serializer_errors() {
    assert_eq!(Error::TypeNotSupported("()").message(), "type `()` is not supported");
    assert_eq!(Error::Custom("broken value".to_owned()).message(), "broken value");
    assert_eq!(
        Error::InvalidLen.message(),
        "number of serialized elements doesn't match path template"
    );
    assert_eq!(
        Error::NonWildcardCapture.message(),
        "trying to write invalid type into wildcard capture"
    );
    assert_eq!(
        Error::DeepNesting.message(),
        "only plain values or serde flattened structs can be serialized to url path"
    );
    assert_eq!(
        Error::MissingCapture("id".to_owned()).message(),
        "missing required capture member: id"
    );
    assert_eq!(Error::UnknownCapture("id".to_owned()).message(), "unknown capture ident: id");
}

#[test]
fn messages_of_template_errors() {
    assert_eq!(path_template::Error::UnclosedCapture.message(), "unclosed capture");
    assert_eq!(
        path_template::Error::InvalidWildcard.message(),
        "wildcard can only be the last capture in path template"
    );
    assert_eq!(
        path_template::Error::InvalidIdent.message(),
        "capture ident should be a valid Rust ident"
    );
    assert_eq!(
        path_template::Error::InvalidPathChar.message(),
        "static segments of template should be valid url path substrings"
    );
}

#[test]
fn fresh_serializer_of_a_static_template_expects_nothing() {
    let template = PathTemplate::new("/a").unwrap();
    let mut serializer = PathSerializer::new(&template);
    assert_eq!(serializer.serialize_seq(None), Err(Error::NonWildcardCapture));
    assert_eq!(serializer.finalize(), Ok("/a".to_owned()));
    assert_eq!(serializer.serialize_seq(Some(0)), Err(Error::NonWildcardCapture));
    assert_eq!(serializer.serialize_tuple(0), Ok(()));
    assert_eq!(serializer.set_next_tuple_capture(), Err(Error::InvalidLen));
    assert_eq!(serializer.serialize_bool(true), Err(Error::InvalidLen));
    assert_eq!(serializer.finalize(), Ok("/a".to_owned()));
}

#[test]
fn length_is_checked_wherever_the_cursor_is() {
    let blank = PathTemplate::new("/").unwrap();
    let mut serializer = PathSerializer::new(&blank);
    assert_eq!(serializer.serialize_struct(1), Err(Error::InvalidLen));
    assert_eq!(serializer.finalize(), Ok("/".to_owned()));
    assert_eq!(serializer.serialize_map(Some(2)), Err(Error::InvalidLen));
    assert_eq!(serializer.finalize(), Ok("/".to_owned()));
    assert_eq!(serializer.serialize_tuple_struct(3), Err(Error::InvalidLen));
    assert_eq!(serializer.finalize(), Ok("/".to_owned()));
    assert_eq!(serializer.serialize_map(None), Ok(()));
    assert_eq!(serializer.finalize(), Ok("/".to_owned()));
    assert_eq!(serializer.serialize_tuple(0), Ok(()));
    assert_eq!(serializer.finalize(), Ok("/".to_owned()));
}

#[test]
fn second_level_is_refused_wherever_the_cursor_is() {
    let blank = PathTemplate::new("/").unwrap();
    let mut serializer = PathSerializer::new(&blank);
    assert_eq!(serializer.serialize_map(None), Ok(()));
    assert_eq!(serializer.serialize_tuple(0), Err(Error::DeepNesting));
    assert_eq!(serializer.serialize_struct(0), Err(Error::DeepNesting));
    assert_eq!(serializer.serialize_map(None), Err(Error::DeepNesting));
    assert_eq!(serializer.finalize(), Ok("/".to_owned()));

    let template = PathTemplate::new("/{a}/{*w}").unwrap();
    let mut serializer = PathSerializer::new(&template);
    assert_eq!(serializer.serialize_tuple(2), Ok(()));
    assert_eq!(serializer.serialize_u8(1), Ok(()));
    assert_eq!(serializer.set_next_tuple_capture(), Ok(()));
    assert_eq!(serializer.serialize_u8(2), Ok(()));
    assert_eq!(serializer.set_next_tuple_capture(), Ok(()));
    assert_eq!(serializer.serialize_tuple(0), Err(Error::DeepNesting));
    assert_eq!(serializer.finalize(), Ok("/1/2".to_owned()));
}

#[test]
fn sequence_needs_a_wildcard_under_the_cursor() {
    let template = PathTemplate::new("/{a}").unwrap();
    let mut serializer = PathSerializer::new(&template);
    assert_eq!(serializer.serialize_tuple(1), Ok(()));
    assert_eq!(serializer.serialize_u8(1), Ok(()));
    assert_eq!(serializer.set_next_tuple_capture(), Ok(()));
    assert_eq!(serializer.serialize_seq(None), Err(Error::NonWildcardCapture));
    assert_eq!(serializer.finalize(), Ok("/1".to_owned()));
}
