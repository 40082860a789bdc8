//! Values as a path takes them.

use vstd::prelude::*;
use vstd::string::*;
use crate::escape::{escaped, is_escaped, lemma_escaped_is_escaped, lemma_escaped_plain};
use crate::path_serializer::{
    bool_text, lemma_bool_text_is_escaped, lemma_named_keeps, lemma_scalar_keeps, outcome, Error,
    ErrorView, PathSerializer, Session, Step,
};
use crate::path_template::TemplateView;
use crate::text::{decimal, lemma_decimal_digits, lowercase, signed_decimal};

verus! {

/// A value, by its kind and its parts.
#[derive(Debug, PartialEq)]
pub enum Value {
    Bool(bool),
    I8(i8),
    I16(i16),
    I32(i32),
    I64(i64),
    I128(i128),
    U8(u8),
    U16(u16),
    U32(u32),
    U64(u64),
    U128(u128),
    Char(char),
    /// A string; also a number with a fraction, as its decimal text.
    Str(String),
    Bytes(Vec<u8>),
    /// The optional value that is absent.
    OptionNone,
    /// The optional value that is present.
    OptionSome(Box<Value>),
    Unit,
    UnitStruct,
    /// The variant of an enum that holds nothing, by its name.
    UnitVariant(String),
    /// A struct around one unnamed value.
    NewtypeStruct(Box<Value>),
    NewtypeVariant,
    Sequence(Vec<Value>),
    Tuple(Vec<Value>),
    TupleStruct(Vec<Value>),
    TupleVariant,
    /// A map, by its entries in the order in which it hands them over.
    Mapping(Vec<(Value, Value)>),
    /// A struct, by its fields in their order.
    Struct(Vec<(String, Value)>),
    StructVariant,
}

/// What a [`Value`] stands for. An integer stands for its number, whatever
/// its width.
pub enum ValueView {
    Bool(bool),
    Int(int),
    Char(char),
    Str(Seq<char>),
    Bytes(Seq<u8>),
    OptionNone,
    OptionSome(Box<ValueView>),
    Unit,
    UnitStruct,
    UnitVariant(Seq<char>),
    NewtypeStruct(Box<ValueView>),
    NewtypeVariant,
    Sequence(Seq<ValueView>),
    Tuple(Seq<ValueView>),
    TupleStruct(Seq<ValueView>),
    TupleVariant,
    Mapping(Seq<(ValueView, ValueView)>),
    Struct(Seq<(Seq<char>, ValueView)>),
    StructVariant,
}

impl View for Value {
    type V = ValueView;

    open spec fn view(&self) -> ValueView {
        value_view(*self)
    }
}

/// What a value stands for.
pub open spec fn value_view(v: Value) -> ValueView
    decreases v, 0nat,
{
    match v {
        Value::Bool(v) => ValueView::Bool(v),
        Value::I8(v) => ValueView::Int(v as int),
        Value::I16(v) => ValueView::Int(v as int),
        Value::I32(v) => ValueView::Int(v as int),
        Value::I64(v) => ValueView::Int(v as int),
        Value::I128(v) => ValueView::Int(v as int),
        Value::U8(v) => ValueView::Int(v as int),
        Value::U16(v) => ValueView::Int(v as int),
        Value::U32(v) => ValueView::Int(v as int),
        Value::U64(v) => ValueView::Int(v as int),
        Value::U128(v) => ValueView::Int(v as int),
        Value::Char(v) => ValueView::Char(v),
        Value::Str(v) => ValueView::Str(v@),
        Value::Bytes(v) => ValueView::Bytes(v@),
        Value::OptionNone => ValueView::OptionNone,
        Value::OptionSome(inner) => ValueView::OptionSome(Box::new(value_view(*inner))),
        Value::Unit => ValueView::Unit,
        Value::UnitStruct => ValueView::UnitStruct,
        Value::UnitVariant(name) => ValueView::UnitVariant(name@),
        Value::NewtypeStruct(inner) => ValueView::NewtypeStruct(Box::new(value_view(*inner))),
        Value::NewtypeVariant => ValueView::NewtypeVariant,
        Value::Sequence(items) => ValueView::Sequence(value_views(items@)),
        Value::Tuple(items) => ValueView::Tuple(value_views(items@)),
        Value::TupleStruct(items) => ValueView::TupleStruct(value_views(items@)),
        Value::TupleVariant => ValueView::TupleVariant,
        Value::Mapping(entries) => ValueView::Mapping(entry_views(entries@)),
        Value::Struct(fields) => ValueView::Struct(field_views(fields@)),
        Value::StructVariant => ValueView::StructVariant,
    }
}

/// What each of some values stands for.
pub open spec fn value_views(items: Seq<Value>) -> Seq<ValueView>
    decreases items, 1nat,
{
    Seq::new(
        items.len(),
        |i: int|
            if 0 <= i < items.len() {
                value_view(items[i])
            } else {
                ValueView::Unit
            },
    )
}

/// What each of some entries of a map stands for.
pub open spec fn entry_views(entries: Seq<(Value, Value)>) -> Seq<(ValueView, ValueView)>
    decreases entries, 1nat,
{
    Seq::new(
        entries.len(),
        |i: int|
            if 0 <= i < entries.len() {
                (value_view(entries[i].0), value_view(entries[i].1))
            } else {
                (ValueView::Unit, ValueView::Unit)
            },
    )
}

/// What each of some fields of a struct stands for.
pub open spec fn field_views(fields: Seq<(String, Value)>) -> Seq<(Seq<char>, ValueView)>
    decreases fields, 1nat,
{
    Seq::new(
        fields.len(),
        |i: int|
            if 0 <= i < fields.len() {
                (fields[i].0@, value_view(fields[i].1))
            } else {
                (Seq::empty(), ValueView::Unit)
            },
    )
}

impl Clone for Value {
    fn clone(&self) -> (r: Self)
        ensures
            r@ == self@,
        decreases self, 1nat,
    {
        match self {
            Value::Bool(v) => Value::Bool(*v),
            Value::I8(v) => Value::I8(*v),
            Value::I16(v) => Value::I16(*v),
            Value::I32(v) => Value::I32(*v),
            Value::I64(v) => Value::I64(*v),
            Value::I128(v) => Value::I128(*v),
            Value::U8(v) => Value::U8(*v),
            Value::U16(v) => Value::U16(*v),
            Value::U32(v) => Value::U32(*v),
            Value::U64(v) => Value::U64(*v),
            Value::U128(v) => Value::U128(*v),
            Value::Char(v) => Value::Char(*v),
            Value::Str(v) => Value::Str(v.clone()),
            Value::Bytes(v) => {
                let mut copy: Vec<u8> = Vec::new();
                let mut i: usize = 0;
                while i < v.len()
                    invariant
                        i <= v.len(),
                        copy@ == v@.take(i as int),
                    decreases v.len() - i,
                {
                    copy.push(v[i]);
                    proof {
                        assert(v@.take(i + 1) == v@.take(i as int).push(v@[i as int]));
                    }
                    i += 1;
                }
                proof {
                    assert(v@.take(v.len() as int) == v@);
                }
                Value::Bytes(copy)
            },
            Value::OptionNone => Value::OptionNone,
            Value::OptionSome(inner) => {
                let copy = (**inner).clone();
                Value::OptionSome(Box::new(copy))
            },
            Value::Unit => Value::Unit,
            Value::UnitStruct => Value::UnitStruct,
            Value::UnitVariant(name) => Value::UnitVariant(name.clone()),
            Value::NewtypeStruct(inner) => {
                let copy = (**inner).clone();
                Value::NewtypeStruct(Box::new(copy))
            },
            Value::NewtypeVariant => Value::NewtypeVariant,
            Value::Sequence(items) => Value::Sequence(clone_values(self, items)),
            Value::Tuple(items) => Value::Tuple(clone_values(self, items)),
            Value::TupleStruct(items) => Value::TupleStruct(clone_values(self, items)),
            Value::TupleVariant => Value::TupleVariant,
            Value::Mapping(entries) => {
                let mut copy: Vec<(Value, Value)> = Vec::new();
                let mut i: usize = 0;
                while i < entries.len()
                    invariant
                        i <= entries.len(),
                        *self == Value::Mapping(*entries),
                        copy.len() == i,
                        forall|k: int|
                            0 <= k < i ==> entry_views(copy@)[k] == entry_views(entries@)[k],
                    decreases entries.len() - i,
                {
                    proof {
                        assert(decreases_to!(*self => self->Mapping_0));
                        assert(decreases_to!(*entries => entries@));
                        assert(decreases_to!(entries@ => entries@[i as int]));
                        assert(decreases_to!(entries@[i as int] => entries@[i as int].0));
                        assert(decreases_to!(entries@[i as int] => entries@[i as int].1));
                    }
                    let key = entries[i].0.clone();
                    let val = entries[i].1.clone();
                    let ghost before = copy@;
                    copy.push((key, val));
                    proof {
                        assert forall|k: int| 0 <= k < i + 1 implies entry_views(copy@)[k]
                            == entry_views(entries@)[k] by {
                            if k < i {
                                assert(copy@[k] == before[k]);
                                assert(entry_views(before)[k] == entry_views(entries@)[k]);
                            }
                        }
                    }
                    i += 1;
                }
                proof {
                    assert(entry_views(copy@) =~= entry_views(entries@));
                }
                Value::Mapping(copy)
            },
            Value::Struct(fields) => {
                let mut copy: Vec<(String, Value)> = Vec::new();
                let mut i: usize = 0;
                while i < fields.len()
                    invariant
                        i <= fields.len(),
                        *self == Value::Struct(*fields),
                        copy.len() == i,
                        forall|k: int|
                            0 <= k < i ==> field_views(copy@)[k] == field_views(fields@)[k],
                    decreases fields.len() - i,
                {
                    proof {
                        assert(decreases_to!(*self => self->Struct_0));
                        assert(decreases_to!(*fields => fields@));
                        assert(decreases_to!(fields@ => fields@[i as int]));
                        assert(decreases_to!(fields@[i as int] => fields@[i as int].1));
                    }
                    let name = fields[i].0.clone();
                    let val = fields[i].1.clone();
                    let ghost before = copy@;
                    copy.push((name, val));
                    proof {
                        assert forall|k: int| 0 <= k < i + 1 implies field_views(copy@)[k]
                            == field_views(fields@)[k] by {
                            if k < i {
                                assert(copy@[k] == before[k]);
                                assert(field_views(before)[k] == field_views(fields@)[k]);
                            }
                        }
                    }
                    i += 1;
                }
                proof {
                    assert(field_views(copy@) =~= field_views(fields@));
                }
                Value::Struct(copy)
            },
            Value::StructVariant => Value::StructVariant,
        }
    }
}

/// Copies of the values that are the parts of a value.
fn clone_values(whole: &Value, items: &Vec<Value>) -> (copy: Vec<Value>)
    requires
        decreases_to!(*whole => *items),
    ensures
        value_views(copy@) == value_views(items@),
    decreases whole, 0nat,
{
    let mut copy: Vec<Value> = Vec::new();
    let mut i: usize = 0;
    while i < items.len()
        invariant
            i <= items.len(),
            decreases_to!(*whole => *items),
            copy.len() == i,
            forall|k: int| 0 <= k < i ==> value_views(copy@)[k] == value_views(items@)[k],
        decreases items.len() - i,
    {
        proof {
            assert(decreases_to!(*items => items@));
            assert(decreases_to!(items@ => items@[i as int]));
        }
        let item = items[i].clone();
        let ghost before = copy@;
        copy.push(item);
        proof {
            assert forall|k: int| 0 <= k < i + 1 implies value_views(copy@)[k] == value_views(
                items@,
            )[k] by {
                if k < i {
                    assert(copy@[k] == before[k]);
                    assert(value_views(before)[k] == value_views(items@)[k]);
                }
            }
        }
        i += 1;
    }
    proof {
        assert(value_views(copy@) =~= value_views(items@));
    }
    copy
}

/// Whether a value is a scalar: a truth value, a number, a character, a
/// string, or the variant of an enum that holds nothing.
pub open spec fn is_scalar(v: ValueView) -> bool {
    v is Bool || v is Int || v is Char || v is Str || v is UnitVariant
}

/// The text that stands for a scalar in a path: `true` or `false` for a
/// truth value, and the percent-encoded form of the decimal text of a
/// number, of a character, of a string, or of a variant's name in lower case.
pub open spec fn scalar_text(v: ValueView) -> Seq<char> {
    match v {
        ValueView::Bool(b) => bool_text(b),
        ValueView::Int(n) => escaped(signed_decimal(n)),
        ValueView::Char(c) => escaped(seq![c]),
        ValueView::Str(text) => escaped(text),
        ValueView::UnitVariant(name) => escaped(lowercase(name)),
        _ => Seq::empty(),
    }
}

/// The text that stands for an integer is its decimal text as it is: the
/// encoding changes neither a digit nor the minus sign.
pub proof fn lemma_number_text(n: int)
    ensures
        scalar_text(ValueView::Int(n)) == signed_decimal(n),
{
    if n < 0 {
        lemma_decimal_digits((-n) as nat);
    } else {
        lemma_decimal_digits(n as nat);
    }
    lemma_escaped_plain(signed_decimal(n));
}

/// The text of a scalar holds only letters, digits, `-`, `_` and `%`.
pub proof fn lemma_scalar_text_is_escaped(v: ValueView)
    ensures
        is_escaped(scalar_text(v)),
{
    match v {
        ValueView::Bool(b) => lemma_bool_text_is_escaped(b),
        ValueView::Int(n) => lemma_escaped_is_escaped(signed_decimal(n)),
        ValueView::Char(c) => lemma_escaped_is_escaped(seq![c]),
        ValueView::Str(text) => lemma_escaped_is_escaped(text),
        ValueView::UnitVariant(name) => lemma_escaped_is_escaped(lowercase(name)),
        _ => {},
    }
}

/// The session after a value has handed itself over.
///
/// A scalar goes where the cursor is. An optional value is its content. A
/// sequence, tuple, struct or map is entered and hands over its parts in
/// their order; the first part that is refused ends the run.
pub open spec fn feed(s: Session, v: ValueView) -> Step
    decreases v, 0nat,
{
    match v {
        ValueView::Bool(_)
        | ValueView::Int(_)
        | ValueView::Char(_)
        | ValueView::Str(_)
        | ValueView::UnitVariant(_) => s.scalar(scalar_text(v)),
        ValueView::Bytes(_) => s.unsupported("&[u8])"@),
        ValueView::OptionNone => s.option(),
        ValueView::OptionSome(inner) => if s.option().1 is Err {
            s.option()
        } else {
            feed(s, *inner)
        },
        ValueView::Unit => s.unsupported("()"@),
        ValueView::UnitStruct => s.unsupported("unit structs"@),
        ValueView::NewtypeStruct(inner) => feed(s, *inner),
        ValueView::NewtypeVariant => s.unsupported("Newtype variant"@),
        ValueView::Sequence(items) => if s.seq().1 is Err {
            s.seq()
        } else {
            feed_elements(s.seq().0, items, items.len())
        },
        ValueView::Tuple(items) => if s.composite(Some(items.len())).1 is Err {
            s.composite(Some(items.len()))
        } else {
            feed_tuple(s.composite(Some(items.len())).0, items, items.len())
        },
        ValueView::TupleStruct(items) => if s.composite(Some(items.len())).1 is Err {
            s.composite(Some(items.len()))
        } else {
            feed_tuple(s.composite(Some(items.len())).0, items, items.len())
        },
        ValueView::TupleVariant => s.unsupported("Tuple variant"@),
        ValueView::Mapping(entries) => if s.composite(Some(entries.len())).1 is Err {
            s.composite(Some(entries.len()))
        } else {
            feed_entries(s.composite(Some(entries.len())).0, entries, entries.len())
        },
        ValueView::Struct(fields) => if s.composite(Some(fields.len())).1 is Err {
            s.composite(Some(fields.len()))
        } else {
            feed_fields(s.composite(Some(fields.len())).0, fields, fields.len())
        },
        ValueView::StructVariant => s.unsupported("Struct variant"@),
    }
}

/// The session after the first `n` elements of a sequence.
pub open spec fn feed_elements(s: Session, items: Seq<ValueView>, n: nat) -> Step
    decreases items, n,
{
    if n == 0 || n > items.len() {
        s.done()
    } else {
        let before = feed_elements(s, items, (n - 1) as nat);
        if before.1 is Err {
            before
        } else {
            feed(before.0, items[n - 1])
        }
    }
}

/// The session after the first `n` elements of a tuple: after each element
/// the cursor moves on.
pub open spec fn feed_tuple(s: Session, items: Seq<ValueView>, n: nat) -> Step
    decreases items, n,
{
    if n == 0 || n > items.len() {
        s.done()
    } else {
        let before = feed_tuple(s, items, (n - 1) as nat);
        if before.1 is Err {
            before
        } else {
            let element = feed(before.0, items[n - 1]);
            if element.1 is Err {
                element
            } else {
                element.0.set_next_tuple_capture()
            }
        }
    }
}

/// The session after the first `n` entries of a map: the key of each entry
/// chooses the capture, the value fills it.
pub open spec fn feed_entries(s: Session, entries: Seq<(ValueView, ValueView)>, n: nat) -> Step
    decreases entries, n,
{
    if n == 0 || n > entries.len() {
        s.done()
    } else {
        let before = feed_entries(s, entries, (n - 1) as nat);
        if before.1 is Err {
            before
        } else {
            let key = feed(before.0.key(), entries[n - 1].0);
            if key.1 is Err {
                key
            } else {
                feed(key.0, entries[n - 1].1)
            }
        }
    }
}

/// The session after the first `n` fields of a struct: the name of each
/// field chooses the capture, the value fills it.
pub open spec fn feed_fields(s: Session, fields: Seq<(Seq<char>, ValueView)>, n: nat) -> Step
    decreases fields, n,
{
    if n == 0 || n > fields.len() {
        s.done()
    } else {
        let before = feed_fields(s, fields, (n - 1) as nat);
        if before.1 is Err {
            before
        } else {
            let named = before.0.set_next_named_capture(fields[n - 1].0);
            if named.1 is Err {
                named
            } else {
                feed(named.0, fields[n - 1].1)
            }
        }
    }
}

/// The path that a value gives with a template, or the error: the value
/// hands itself over to a fresh session, and the session writes the path.
pub open spec fn serialized(template: TemplateView, v: ValueView) -> Result<Seq<char>, ErrorView> {
    let fed = feed(Session::start(template), v);
    match fed.1 {
        Err(e) => Err(e),
        Ok(()) => fed.0.path(),
    }
}

/// A value keeps the session in good form, whether it is taken or refused:
/// the template stays, each capture keeps its slot, and every value held is
/// encoded.
pub proof fn lemma_feed_keeps(s: Session, v: ValueView)
    requires
        s.wf(),
        s.encoded(),
    ensures
        s.kept_by(feed(s, v).0),
    decreases v, 0nat,
{
    match v {
        ValueView::OptionSome(inner) => {
            if s.option().1 is Ok {
                lemma_feed_keeps(s, *inner);
            }
        },
        ValueView::NewtypeStruct(inner) => {
            lemma_feed_keeps(s, *inner);
        },
        ValueView::Sequence(items) => {
            if s.seq().1 is Ok {
                lemma_feed_elements_keeps(s.seq().0, items, items.len());
            }
        },
        ValueView::Tuple(items) => {
            if s.composite(Some(items.len())).1 is Ok {
                lemma_feed_tuple_keeps(s.composite(Some(items.len())).0, items, items.len());
            }
        },
        ValueView::TupleStruct(items) => {
            if s.composite(Some(items.len())).1 is Ok {
                lemma_feed_tuple_keeps(s.composite(Some(items.len())).0, items, items.len());
            }
        },
        ValueView::Mapping(entries) => {
            if s.composite(Some(entries.len())).1 is Ok {
                lemma_feed_entries_keeps(
                    s.composite(Some(entries.len())).0,
                    entries,
                    entries.len(),
                );
            }
        },
        ValueView::Struct(fields) => {
            if s.composite(Some(fields.len())).1 is Ok {
                lemma_feed_fields_keeps(s.composite(Some(fields.len())).0, fields, fields.len());
            }
        },
        _ => {
            if is_scalar(v) {
                lemma_scalar_text_is_escaped(v);
                lemma_scalar_keeps(s, scalar_text(v));
            }
        },
    }
}

/// The elements of a sequence keep the session in good form.
pub proof fn lemma_feed_elements_keeps(s: Session, items: Seq<ValueView>, n: nat)
    requires
        s.wf(),
        s.encoded(),
    ensures
        s.kept_by(feed_elements(s, items, n).0),
    decreases items, n,
{
    if !(n == 0 || n > items.len()) {
        lemma_feed_elements_keeps(s, items, (n - 1) as nat);
        let before = feed_elements(s, items, (n - 1) as nat);
        if before.1 is Ok {
            lemma_feed_keeps(before.0, items[n - 1]);
        }
    }
}

/// The elements of a tuple keep the session in good form.
pub proof fn lemma_feed_tuple_keeps(s: Session, items: Seq<ValueView>, n: nat)
    requires
        s.wf(),
        s.encoded(),
    ensures
        s.kept_by(feed_tuple(s, items, n).0),
    decreases items, n,
{
    if !(n == 0 || n > items.len()) {
        lemma_feed_tuple_keeps(s, items, (n - 1) as nat);
        let before = feed_tuple(s, items, (n - 1) as nat);
        if before.1 is Ok {
            lemma_feed_keeps(before.0, items[n - 1]);
        }
    }
}

/// The entries of a map keep the session in good form.
pub proof fn lemma_feed_entries_keeps(s: Session, entries: Seq<(ValueView, ValueView)>, n: nat)
    requires
        s.wf(),
        s.encoded(),
    ensures
        s.kept_by(feed_entries(s, entries, n).0),
    decreases entries, n,
{
    if !(n == 0 || n > entries.len()) {
        lemma_feed_entries_keeps(s, entries, (n - 1) as nat);
        let before = feed_entries(s, entries, (n - 1) as nat);
        if before.1 is Ok {
            lemma_feed_keeps(before.0.key(), entries[n - 1].0);
            let key = feed(before.0.key(), entries[n - 1].0);
            if key.1 is Ok {
                lemma_feed_keeps(key.0, entries[n - 1].1);
            }
        }
    }
}

/// The fields of a struct keep the session in good form.
pub proof fn lemma_feed_fields_keeps(s: Session, fields: Seq<(Seq<char>, ValueView)>, n: nat)
    requires
        s.wf(),
        s.encoded(),
    ensures
        s.kept_by(feed_fields(s, fields, n).0),
    decreases fields, n,
{
    if !(n == 0 || n > fields.len()) {
        lemma_feed_fields_keeps(s, fields, (n - 1) as nat);
        let before = feed_fields(s, fields, (n - 1) as nat);
        if before.1 is Ok {
            lemma_named_keeps(before.0, fields[n - 1].0);
            let named = before.0.set_next_named_capture(fields[n - 1].0);
            if named.1 is Ok {
                lemma_feed_keeps(named.0, fields[n - 1].1);
            }
        }
    }
}

/// An error among the first elements is the answer of them all.
pub proof fn lemma_feed_elements_error(s: Session, items: Seq<ValueView>, n: nat, m: nat)
    requires
        n <= m <= items.len(),
        feed_elements(s, items, n).1 is Err,
    ensures
        feed_elements(s, items, m) == feed_elements(s, items, n),
    decreases m,
{
    if n < m {
        lemma_feed_elements_error(s, items, n, (m - 1) as nat);
    }
}

/// An error among the first elements is the answer of them all.
pub proof fn lemma_feed_tuple_error(s: Session, items: Seq<ValueView>, n: nat, m: nat)
    requires
        n <= m <= items.len(),
        feed_tuple(s, items, n).1 is Err,
    ensures
        feed_tuple(s, items, m) == feed_tuple(s, items, n),
    decreases m,
{
    if n < m {
        lemma_feed_tuple_error(s, items, n, (m - 1) as nat);
    }
}

/// An error among the first entries is the answer of them all.
pub proof fn lemma_feed_entries_error(
    s: Session,
    entries: Seq<(ValueView, ValueView)>,
    n: nat,
    m: nat,
)
    requires
        n <= m <= entries.len(),
        feed_entries(s, entries, n).1 is Err,
    ensures
        feed_entries(s, entries, m) == feed_entries(s, entries, n),
    decreases m,
{
    if n < m {
        lemma_feed_entries_error(s, entries, n, (m - 1) as nat);
    }
}

/// An error among the first fields is the answer of them all.
pub proof fn lemma_feed_fields_error(
    s: Session,
    fields: Seq<(Seq<char>, ValueView)>,
    n: nat,
    m: nat,
)
    requires
        n <= m <= fields.len(),
        feed_fields(s, fields, n).1 is Err,
    ensures
        feed_fields(s, fields, m) == feed_fields(s, fields, n),
    decreases m,
{
    if n < m {
        lemma_feed_fields_error(s, fields, n, (m - 1) as nat);
    }
}

impl<'s, 't> PathSerializer<'s, 't> {
    /// Takes a value: makes the calls that hand it over, part by part, and
    /// stops at the first that fails.
    pub fn serialize_value(&mut self, value: &Value) -> (r: Result<(), Error>)
        ensures
            (final(self)@, outcome(r)) == feed(old(self)@, value@),
            final(self)@.wf(),
        decreases value, 1nat,
    {
        match value {
            Value::Bool(v) => self.serialize_bool(*v),
            Value::I8(v) => self.serialize_i8(*v),
            Value::I16(v) => self.serialize_i16(*v),
            Value::I32(v) => self.serialize_i32(*v),
            Value::I64(v) => self.serialize_i64(*v),
            Value::I128(v) => self.serialize_i128(*v),
            Value::U8(v) => self.serialize_u8(*v),
            Value::U16(v) => self.serialize_u16(*v),
            Value::U32(v) => self.serialize_u32(*v),
            Value::U64(v) => self.serialize_u64(*v),
            Value::U128(v) => self.serialize_u128(*v),
            Value::Char(v) => self.serialize_char(*v),
            Value::Str(v) => self.serialize_str(v.as_str()),
            Value::Bytes(v) => self.serialize_bytes(v.as_slice()),
            Value::OptionNone => self.serialize_none(),
            Value::OptionSome(inner) => {
                match self.serialize_some() {
                    Err(e) => Err(e),
                    Ok(()) => self.serialize_value(inner),
                }
            },
            Value::Unit => self.serialize_unit(),
            Value::UnitStruct => self.serialize_unit_struct(),
            Value::UnitVariant(name) => self.serialize_unit_variant(name.as_str()),
            Value::NewtypeStruct(inner) => self.serialize_value(inner),
            Value::NewtypeVariant => self.serialize_newtype_variant(),
            Value::Sequence(items) => {
                proof {
                    assert(value_views(items@).len() == items@.len());
                }
                match self.serialize_seq(Some(items.len())) {
                    Err(e) => Err(e),
                    Ok(()) => {
                        let ghost entered = self@;
                        let mut i: usize = 0;
                        while i < items.len()
                            invariant
                                i <= items.len(),
                                *value == Value::Sequence(*items),
                                self@.wf(),
                                feed(old(self)@, value@) == feed_elements(
                                    entered,
                                    value_views(items@),
                                    items@.len(),
                                ),
                                feed_elements(entered, value_views(items@), i as nat)
                                    == self@.done(),
                            decreases items.len() - i,
                        {
                            proof {
                                assert(decreases_to!(*value => value->Sequence_0));
                                assert(decreases_to!(*items => items@));
                                assert(decreases_to!(items@ => items@[i as int]));
                            }
                            match self.serialize_value(&items[i]) {
                                Err(e) => {
                                    proof {
                                        lemma_feed_elements_error(
                                            entered,
                                            value_views(items@),
                                            (i + 1) as nat,
                                            items@.len(),
                                        );
                                    }
                                    return Err(e);
                                },
                                Ok(()) => {},
                            }
                            i += 1;
                        }
                        Ok(())
                    },
                }
            },
            Value::Tuple(items) => {
                proof {
                    assert(value_views(items@).len() == items@.len());
                }
                match self.serialize_tuple(items.len()) {
                    Err(e) => Err(e),
                    Ok(()) => self.serialize_tuple_elements(value, items),
                }
            },
            Value::TupleStruct(items) => {
                proof {
                    assert(value_views(items@).len() == items@.len());
                }
                match self.serialize_tuple_struct(items.len()) {
                    Err(e) => Err(e),
                    Ok(()) => self.serialize_tuple_elements(value, items),
                }
            },
            Value::TupleVariant => self.serialize_tuple_variant(),
            Value::Mapping(entries) => {
                proof {
                    assert(entry_views(entries@).len() == entries@.len());
                }
                match self.serialize_map(Some(entries.len())) {
                    Err(e) => Err(e),
                    Ok(()) => {
                        let ghost entered = self@;
                        let mut i: usize = 0;
                        while i < entries.len()
                            invariant
                                i <= entries.len(),
                                *value == Value::Mapping(*entries),
                                self@.wf(),
                                feed(old(self)@, value@) == feed_entries(
                                    entered,
                                    entry_views(entries@),
                                    entries@.len(),
                                ),
                                feed_entries(entered, entry_views(entries@), i as nat)
                                    == self@.done(),
                            decreases entries.len() - i,
                        {
                            proof {
                                assert(decreases_to!(*value => value->Mapping_0));
                                assert(decreases_to!(*entries => entries@));
                                assert(decreases_to!(entries@ => entries@[i as int]));
                                assert(decreases_to!(entries@[i as int] => entries@[i as int].0));
                                assert(decreases_to!(entries@[i as int] => entries@[i as int].1));
                            }
                            self.serialize_key();
                            match self.serialize_value(&entries[i].0) {
                                Err(e) => {
                                    proof {
                                        lemma_feed_entries_error(
                                            entered,
                                            entry_views(entries@),
                                            (i + 1) as nat,
                                            entries@.len(),
                                        );
                                    }
                                    return Err(e);
                                },
                                Ok(()) => {},
                            }
                            match self.serialize_value(&entries[i].1) {
                                Err(e) => {
                                    proof {
                                        lemma_feed_entries_error(
                                            entered,
                                            entry_views(entries@),
                                            (i + 1) as nat,
                                            entries@.len(),
                                        );
                                    }
                                    return Err(e);
                                },
                                Ok(()) => {},
                            }
                            i += 1;
                        }
                        Ok(())
                    },
                }
            },
            Value::Struct(fields) => {
                proof {
                    assert(field_views(fields@).len() == fields@.len());
                }
                match self.serialize_struct(fields.len()) {
                    Err(e) => Err(e),
                    Ok(()) => {
                        let ghost entered = self@;
                        let mut i: usize = 0;
                        while i < fields.len()
                            invariant
                                i <= fields.len(),
                                *value == Value::Struct(*fields),
                                self@.wf(),
                                feed(old(self)@, value@) == feed_fields(
                                    entered,
                                    field_views(fields@),
                                    fields@.len(),
                                ),
                                feed_fields(entered, field_views(fields@), i as nat)
                                    == self@.done(),
                            decreases fields.len() - i,
                        {
                            proof {
                                assert(decreases_to!(*value => value->Struct_0));
                                assert(decreases_to!(*fields => fields@));
                                assert(decreases_to!(fields@ => fields@[i as int]));
                                assert(decreases_to!(fields@[i as int] => fields@[i as int].1));
                            }
                            match self.set_next_named_capture(fields[i].0.as_str()) {
                                Err(e) => {
                                    proof {
                                        lemma_feed_fields_error(
                                            entered,
                                            field_views(fields@),
                                            (i + 1) as nat,
                                            fields@.len(),
                                        );
                                    }
                                    return Err(e);
                                },
                                Ok(()) => {},
                            }
                            match self.serialize_value(&fields[i].1) {
                                Err(e) => {
                                    proof {
                                        lemma_feed_fields_error(
                                            entered,
                                            field_views(fields@),
                                            (i + 1) as nat,
                                            fields@.len(),
                                        );
                                    }
                                    return Err(e);
                                },
                                Ok(()) => {},
                            }
                            i += 1;
                        }
                        Ok(())
                    },
                }
            },
            Value::StructVariant => self.serialize_struct_variant(),
        }
    }

    /// Takes the elements of a tuple, one capture after the other.
    fn serialize_tuple_elements(&mut self, whole: &Value, items: &Vec<Value>) -> (r: Result<
        (),
        Error,
    >)
        requires
            old(self)@.wf(),
            *whole == Value::Tuple(*items) || *whole == Value::TupleStruct(*items),
        ensures
            (final(self)@, outcome(r)) == feed_tuple(
                old(self)@,
                value_views(items@),
                items@.len(),
            ),
            final(self)@.wf(),
        decreases whole, 0nat,
    {
        let ghost entered = self@;
        let mut i: usize = 0;
        while i < items.len()
            invariant
                i <= items.len(),
                *whole == Value::Tuple(*items) || *whole == Value::TupleStruct(*items),
                self@.wf(),
                entered == old(self)@,
                feed_tuple(entered, value_views(items@), i as nat) == self@.done(),
            decreases items.len() - i,
        {
            proof {
                if *whole is Tuple {
                    assert(decreases_to!(*whole => whole->Tuple_0));
                } else {
                    assert(decreases_to!(*whole => whole->TupleStruct_0));
                }
                assert(decreases_to!(*items => items@));
                assert(decreases_to!(items@ => items@[i as int]));
            }
            match self.serialize_value(&items[i]) {
                Err(e) => {
                    proof {
                        lemma_feed_tuple_error(
                            entered,
                            value_views(items@),
                            (i + 1) as nat,
                            items@.len(),
                        );
                    }
                    return Err(e);
                },
                Ok(()) => {},
            }
            match self.set_next_tuple_capture() {
                Err(e) => {
                    proof {
                        lemma_feed_tuple_error(
                            entered,
                            value_views(items@),
                            (i + 1) as nat,
                            items@.len(),
                        );
                    }
                    return Err(e);
                },
                Ok(()) => {},
            }
            i += 1;
        }
        Ok(())
    }
}


} // verus!
