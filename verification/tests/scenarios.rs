use comfund_paths::path_serializer::Error;
use comfund_paths::path_template;
use comfund_paths::{serialize, PathTemplate, Value};

fn text(val: &str) -> Value {
    Value::Str(val.to_owned())
}

fn path(pattern: &str, val: &Value) -> Result<String, Error> {
    let template = PathTemplate::new(pattern).unwrap();
    serialize(&template, val)
}

#[test]
fn tuple_of_bools_fills_three_captures() {
    let val = Value::Tuple(vec![Value::Bool(true), Value::Bool(false), Value::Bool(true)]);
    assert_eq!(path("/{a}/{b}/{c}", &val), Ok("/true/false/true".to_owned()));
}

#[test]
fn struct_with_wildcard_field() {
    let val = Value::Struct(vec![
        ("a".to_owned(), text("wild")),
        ("b".to_owned(), text("card")),
        ("c".to_owned(), Value::Sequence(vec![text("test"), text("successful")])),
    ]);
    assert_eq!(path("/{a}/{b}/{*c}", &val), Ok("/wild/card/test/successful".to_owned()));
}

#[test]
fn decimal_point_is_escaped() {
    assert_eq!(path("/{val}", &Value::Str(1.5f64.to_string())), Ok("/1%2E5".to_owned()));
}

#[test]
fn empty_sequence_for_wildcard_gives_root() {
    assert_eq!(path("/{*a}", &Value::Sequence(vec![])), Ok("/".to_owned()));
}

#[test]
fn hyphen_in_capture_name_is_refused() {
    assert_eq!(PathTemplate::new("/a/{b-s}/c"), Err(path_template::Error::InvalidIdent));
}

#[test]
fn two_elements_for_one_capture_are_refused() {
    let val = Value::Tuple(vec![Value::U8(1), Value::U8(2)]);
    assert_eq!(path("/{a}", &val), Err(Error::InvalidLen));
}

#[test]
fn path_begins_with_slash_and_holds_encoded_values_in_order() {
    let val = Value::Tuple(vec![text("1 2"), text("\u{e9}"), Value::I32(-7)]);
    let out = path("/a/{x}/b/{y}/{z}", &val).unwrap();
    assert!(out.starts_with('/'));
    assert_eq!(out, "/a/1%202/b/%C3%A9/-7");
}

#[test]
fn tuple_gives_one_slash_for_each_segment() {
    let val = Value::Tuple(vec![text("a/b"), Value::U64(10), Value::Char('/')]);
    let out = path("/s/{a}/{b}/t/{c}", &val).unwrap();
    assert_eq!(out, "/s/a%2Fb/10/t/%2F");
    assert_eq!(out.matches('/').count(), 5);
}

#[test]
fn blank_template_with_nothing_to_hold_gives_root() {
    for pattern in ["/", ""] {
        assert_eq!(path(pattern, &Value::Tuple(vec![])), Ok("/".to_owned()));
        assert_eq!(path(pattern, &Value::TupleStruct(vec![])), Ok("/".to_owned()));
        assert_eq!(path(pattern, &Value::Struct(vec![])), Ok("/".to_owned()));
        assert_eq!(path(pattern, &Value::Mapping(vec![])), Ok("/".to_owned()));
        assert_eq!(path(pattern, &Value::OptionNone), Ok("/".to_owned()));
    }
}

#[test]
fn blank_template_refuses_the_unit_value() {
    assert_eq!(path("/", &Value::Unit), Err(Error::TypeNotSupported("()")));
    assert_eq!(path("/", &Value::UnitStruct), Err(Error::TypeNotSupported("unit structs")));
}

#[test]
fn blank_template_refuses_values() {
    assert_eq!(path("/", &Value::Bool(true)), Err(Error::InvalidLen));
    assert_eq!(path("/", &Value::Tuple(vec![Value::Bool(true)])), Err(Error::InvalidLen));
    assert_eq!(path("/", &Value::Tuple(vec![Value::Unit])), Err(Error::InvalidLen));
    assert_eq!(path("/", &Value::Sequence(vec![])), Err(Error::NonWildcardCapture));
    assert_eq!(
        path("/", &Value::Struct(vec![("a".to_owned(), Value::U8(1))])),
        Err(Error::InvalidLen)
    );
    assert_eq!(
        path("/", &Value::Mapping(vec![(text("a"), Value::U8(1))])),
        Err(Error::InvalidLen)
    );
}

#[test]
fn wildcard_alone_takes_each_element_in_order() {
    let val = Value::Sequence(vec![text("x"), Value::U8(2), Value::Bool(false), text("y z")]);
    let out = path("/{*rest}", &val).unwrap();
    assert_eq!(out, "/x/2/false/y%20z");
    assert_eq!(out.matches('/').count(), 4);
}

#[test]
fn wildcard_after_static_segments() {
    let val = Value::Sequence(vec![text("x"), text("y")]);
    assert_eq!(path("/files/{*rest}", &val), Ok("/files/x/y".to_owned()));
    assert_eq!(path("/files/{*rest}", &Value::Sequence(vec![])), Ok("/files".to_owned()));
}

#[test]
fn wrong_number_of_parts_is_refused() {
    let one = Value::Tuple(vec![Value::U8(1)]);
    let three = Value::TupleStruct(vec![Value::U8(1), Value::U8(2), Value::U8(3)]);
    let fields = Value::Struct(vec![("a".to_owned(), Value::U8(1))]);
    let entries = Value::Mapping(vec![(text("a"), Value::U8(1))]);
    assert_eq!(path("/{a}/{b}", &one), Err(Error::InvalidLen));
    assert_eq!(path("/{a}/{b}", &three), Err(Error::InvalidLen));
    assert_eq!(path("/{a}/{b}", &fields), Err(Error::InvalidLen));
    assert_eq!(path("/{a}/{b}", &entries), Err(Error::InvalidLen));
    assert_eq!(path("/a/b", &one), Err(Error::InvalidLen));
    assert_eq!(path("/{a}/{*b}", &one), Err(Error::InvalidLen));
    assert_eq!(path("/{a}", &Value::Tuple(vec![])), Err(Error::InvalidLen));
}

#[test]
fn scalar_alone_needs_exactly_one_capture() {
    assert_eq!(path("/{a}", &Value::U8(7)), Ok("/7".to_owned()));
    assert_eq!(path("/x/{a}/y", &Value::U8(7)), Ok("/x/7/y".to_owned()));
    assert_eq!(path("/{a}/{b}", &Value::U8(7)), Err(Error::InvalidLen));
    assert_eq!(path("/{*a}", &Value::U8(7)), Err(Error::InvalidLen));
    assert_eq!(path("/a", &Value::U8(7)), Err(Error::InvalidLen));
}

#[test]
fn optional_value_at_the_top() {
    let present = Value::OptionSome(Box::new(Value::U8(7)));
    assert_eq!(path("/{a}", &present), Ok("/7".to_owned()));
    assert_eq!(path("/{a}", &Value::OptionNone), Err(Error::MissingCapture("a".to_owned())));
}

#[test]
fn optional_value_inside_is_refused() {
    let inside = Value::Tuple(vec![Value::OptionSome(Box::new(Value::U8(7)))]);
    assert_eq!(path("/{a}", &inside), Err(Error::TypeNotSupported("nested option")));
    let absent = Value::Struct(vec![("a".to_owned(), Value::OptionNone)]);
    assert_eq!(path("/{a}", &absent), Err(Error::TypeNotSupported("nested option")));
}

#[test]
fn map_entries_choose_captures_by_name() {
    let val = Value::Mapping(vec![
        (text("b"), Value::U8(2)),
        (text("rest"), Value::Sequence(vec![text("x"), text("y")])),
        (text("a"), Value::U8(1)),
    ]);
    assert_eq!(path("/{a}/m/{b}/{*rest}", &val), Ok("/1/m/2/x/y".to_owned()));
}

#[test]
fn map_key_is_taken_by_its_text() {
    let val = Value::Mapping(vec![(Value::Bool(true), Value::U8(1))]);
    assert_eq!(path("/{true}", &val), Ok("/1".to_owned()));
    let numbered = Value::Mapping(vec![(Value::U8(3), Value::U8(1))]);
    assert_eq!(path("/{a}", &numbered), Err(Error::UnknownCapture("3".to_owned())));
}

#[test]
fn repeated_name_goes_to_its_first_capture() {
    let by_place = Value::Tuple(vec![Value::U8(1), Value::U8(2)]);
    assert_eq!(path("/{a}/{a}", &by_place), Ok("/1/2".to_owned()));
    let by_name = Value::Struct(vec![
        ("a".to_owned(), Value::U8(1)),
        ("a".to_owned(), Value::U8(2)),
    ]);
    assert_eq!(path("/{a}/{a}", &by_name), Err(Error::MissingCapture("a".to_owned())));
}

#[test]
fn later_value_under_a_name_replaces_the_earlier() {
    let val = Value::Struct(vec![
        ("a".to_owned(), Value::U8(1)),
        ("a".to_owned(), Value::U8(2)),
    ]);
    assert_eq!(path("/{a}/{*w}", &val), Ok("/2".to_owned()));
}

#[test]
fn sequence_inside_sequence_is_taken_flat() {
    let val = Value::Sequence(vec![
        text("a"),
        Value::Sequence(vec![text("b"), text("c")]),
        text("d"),
    ]);
    assert_eq!(path("/{*w}", &val), Ok("/a/b/c/d".to_owned()));
}

#[test]
fn tuple_ends_with_the_wildcard() {
    let val = Value::Tuple(vec![Value::U8(1), Value::Sequence(vec![text("x"), text("y")])]);
    assert_eq!(path("/{a}/{*w}", &val), Ok("/1/x/y".to_owned()));
    let scalar_last = Value::Tuple(vec![Value::U8(1), text("x")]);
    assert_eq!(path("/{a}/{*w}", &scalar_last), Ok("/1/x".to_owned()));
}

#[test]
fn newtype_struct_is_its_value() {
    let val = Value::NewtypeStruct(Box::new(Value::Tuple(vec![Value::U8(1), Value::U8(2)])));
    assert_eq!(path("/{a}/{b}", &val), Ok("/1/2".to_owned()));
}

#[test]
fn unit_variant_is_its_name_in_lower_case() {
    assert_eq!(path("/{a}", &Value::UnitVariant("GetAll".to_owned())), Ok("/getall".to_owned()));
    assert_eq!(
        path("/{a}", &Value::UnitVariant("\u{c9}T\u{c9}".to_owned())),
        Ok("/%C3%A9t%C3%A9".to_owned())
    );
}

#[test]
fn numbers_are_written_in_decimal() {
    assert_eq!(path("/{a}", &Value::U8(255)), Ok("/255".to_owned()));
    assert_eq!(path("/{a}", &Value::I8(-128)), Ok("/-128".to_owned()));
    assert_eq!(path("/{a}", &Value::U16(65535)), Ok("/65535".to_owned()));
    assert_eq!(path("/{a}", &Value::I16(-32768)), Ok("/-32768".to_owned()));
    assert_eq!(path("/{a}", &Value::U32(4294967295)), Ok("/4294967295".to_owned()));
    assert_eq!(path("/{a}", &Value::I32(-2147483648)), Ok("/-2147483648".to_owned()));
    assert_eq!(path("/{a}", &Value::U64(u64::MAX)), Ok(format!("/{}", u64::MAX)));
    assert_eq!(path("/{a}", &Value::I64(i64::MIN)), Ok(format!("/{}", i64::MIN)));
    assert_eq!(
        path("/{a}", &Value::U128(u128::MAX)),
        Ok("/340282366920938463463374607431768211455".to_owned())
    );
    assert_eq!(
        path("/{a}", &Value::I128(i128::MIN)),
        Ok("/-170141183460469231731687303715884105728".to_owned())
    );
    assert_eq!(path("/{a}", &Value::I128(i128::MAX)), Ok(format!("/{}", i128::MAX)));
    assert_eq!(path("/{a}", &Value::I64(-10)), Ok("/-10".to_owned()));
    assert_eq!(path("/{a}", &Value::U32(1009)), Ok("/1009".to_owned()));
}

#[test]
fn characters_are_escaped_byte_by_byte() {
    assert_eq!(path("/{a}", &Value::Char(' ')), Ok("/%20".to_owned()));
    assert_eq!(path("/{a}", &Value::Char('_')), Ok("/_".to_owned()));
    assert_eq!(path("/{a}", &Value::Char('-')), Ok("/-".to_owned()));
    assert_eq!(path("/{a}", &Value::Char('~')), Ok("/%7E".to_owned()));
    assert_eq!(path("/{a}", &Value::Char('\u{20ac}')), Ok("/%E2%82%AC".to_owned()));
    assert_eq!(path("/{a}", &Value::Char('\u{1f600}')), Ok("/%F0%9F%98%80".to_owned()));
    assert_eq!(path("/{a}", &text("a%b?c#d")), Ok("/a%25b%3Fc%23d".to_owned()));
    assert_eq!(path("/{a}", &text("\u{0}\u{7f}")), Ok("/%00%7F".to_owned()));
    assert_eq!(path("/{a}", &text("")), Ok("/".to_owned()));
}

#[test]
fn copy_of_a_value_gives_the_same_path() {
    let val = Value::Struct(vec![
        ("a".to_owned(), Value::OptionSome(Box::new(Value::U8(1)))),
        ("b".to_owned(), Value::NewtypeStruct(Box::new(text("x y")))),
        (
            "c".to_owned(),
            Value::Sequence(vec![Value::Char('z'), Value::Bytes(vec![1, 2]), Value::Unit]),
        ),
    ]);
    let copy = val.clone();
    assert_eq!(copy, val);
    let entries = Value::Mapping(vec![(text("k"), Value::Tuple(vec![Value::I64(-1)]))]);
    assert_eq!(entries.clone(), entries);
    let plain = Value::Tuple(vec![Value::U8(1), text("x y"), Value::UnitVariant("Up".to_owned())]);
    assert_eq!(path("/{a}/{b}/{c}", &plain.clone()), path("/{a}/{b}/{c}", &plain));
    assert_eq!(path("/{a}/{b}/{c}", &plain), Ok("/1/x%20y/up".to_owned()));
}

#[test]
fn struct_fields_in_any_order() {
    let val = Value::Struct(vec![
        ("c".to_owned(), Value::U8(3)),
        ("a".to_owned(), Value::U8(1)),
        ("b".to_owned(), Value::U8(2)),
    ]);
    assert_eq!(path("/{a}/x/{b}/{c}", &val), Ok("/1/x/2/3".to_owned()));
}

#[test]
fn wildcard_field_may_hold_one_scalar() {
    let val = Value::Struct(vec![
        ("a".to_owned(), Value::U8(1)),
        ("w".to_owned(), text("only")),
    ]);
    assert_eq!(path("/{a}/{*w}", &val), Ok("/1/only".to_owned()));
}

#[test]
fn wildcard_name_goes_before_a_capture_of_the_same_name() {
    let val = Value::Struct(vec![
        ("a".to_owned(), Value::U8(1)),
        ("a".to_owned(), Value::U8(2)),
    ]);
    assert_eq!(path("/{a}/{*a}", &val), Err(Error::MissingCapture("a".to_owned())));
}

#[test]
fn static_template_takes_nothing() {
    assert_eq!(path("/a/b", &Value::Tuple(vec![])), Ok("/a/b".to_owned()));
    assert_eq!(path("/a/b", &Value::Struct(vec![])), Ok("/a/b".to_owned()));
    assert_eq!(path("/a/b", &Value::Mapping(vec![])), Ok("/a/b".to_owned()));
    assert_eq!(path("/a/b", &Value::OptionNone), Ok("/a/b".to_owned()));
}

#[test]
fn static_template_refuses_values() {
    assert_eq!(path("/a/b", &Value::Sequence(vec![])), Err(Error::NonWildcardCapture));
    assert_eq!(
        path("/a", &Value::Sequence(vec![Value::Bool(true)])),
        Err(Error::NonWildcardCapture)
    );
    assert_eq!(path("/a", &Value::Bool(true)), Err(Error::InvalidLen));
    assert_eq!(path("/a", &Value::Tuple(vec![Value::Bool(true)])), Err(Error::InvalidLen));
    assert_eq!(
        path("/a", &Value::Struct(vec![("a".to_owned(), Value::U8(1))])),
        Err(Error::InvalidLen)
    );
}

#[test]
fn length_is_checked_before_the_names() {
    let unknown = Value::Struct(vec![
        ("x".to_owned(), Value::U8(1)),
        ("y".to_owned(), Value::U8(2)),
    ]);
    assert_eq!(path("/{a}", &unknown), Err(Error::InvalidLen));
    assert_eq!(path("/{a}/{b}/{c}", &unknown), Err(Error::InvalidLen));
    assert_eq!(path("/{a}/{b}", &unknown), Err(Error::UnknownCapture("x".to_owned())));
}

#[test]
fn sequence_without_a_wildcard_is_refused() {
    let val = Value::Tuple(vec![Value::U8(1), Value::Sequence(vec![text("x")])]);
    assert_eq!(path("/{a}/{b}", &val), Err(Error::NonWildcardCapture));
    let field = Value::Struct(vec![
        ("a".to_owned(), Value::U8(1)),
        ("b".to_owned(), Value::Sequence(vec![])),
    ]);
    assert_eq!(path("/{a}/{b}", &field), Err(Error::NonWildcardCapture));
}
