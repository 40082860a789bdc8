//! What holds of every template and every value.

use vstd::prelude::*;
use crate::escape::{is_escaped, is_escaped_char, is_plain, lemma_escaped_plain};
use crate::path_serializer::{
    filled, first_missing, lemma_position, position, render, trailing, ErrorView, Session,
};
use crate::path_template::{
    capture_names, checked_segment, is_url_path_char, lemma_capture_names_prefix, SegmentView,
    TemplateView,
};
use crate::value::{
    feed, feed_elements, feed_entries, feed_fields, feed_tuple, is_scalar,
    lemma_feed_fields_error, lemma_feed_keeps, lemma_feed_tuple_error,
    lemma_scalar_text_is_escaped, scalar_text, serialized, ValueView,
};

verus! {

/// Whether each of some values is a scalar.
pub open spec fn all_scalars(items: Seq<ValueView>) -> bool {
    forall|i: int| 0 <= i < items.len() ==> is_scalar(#[trigger] items[i])
}

/// The texts that stand for some scalars in a path.
pub open spec fn scalar_texts(items: Seq<ValueView>) -> Seq<Seq<char>> {
    Seq::new(items.len(), |i: int| scalar_text(items[i]))
}

/// Slots that hold the given texts, one each.
pub open spec fn full_slots(values: Seq<Seq<char>>) -> Seq<Option<Seq<char>>> {
    Seq::new(values.len(), |i: int| Some(values[i]))
}

/// No slot is reported missing exactly where every slot holds a value.
pub proof fn lemma_first_missing(slots: Seq<Option<Seq<char>>>)
    ensures
        first_missing(slots) is None <==> forall|i: int|
            0 <= i < slots.len() ==> (#[trigger] slots[i]) is Some,
        first_missing(slots) matches Some(k) ==> k < slots.len() && slots[k as int] is None
            && forall|i: int| 0 <= i < k ==> (#[trigger] slots[i]) is Some,
    decreases slots.len(),
{
    if slots.len() > 0 {
        lemma_first_missing(slots.drop_last());
        assert forall|i: int| 0 <= i < slots.len() - 1 implies slots[i] == slots.drop_last()[i] by {
        }
        if first_missing(slots.drop_last()) is None && slots.last() is Some {
            assert forall|i: int| 0 <= i < slots.len() implies (#[trigger] slots[i]) is Some by {
                if i < slots.len() - 1 {
                    assert(slots.drop_last()[i] is Some);
                }
            }
        }
    }
}

/// The segments of a path start with a slash, unless there are none.
pub proof fn lemma_filled_starts_with_slash(
    segments: Seq<SegmentView>,
    slots: Seq<Option<Seq<char>>>,
)
    ensures
        segments.len() == 0 ==> filled(segments, slots).len() == 0,
        segments.len() > 0 ==> filled(segments, slots).len() > 0 && filled(segments, slots)[0]
            == '/',
    decreases segments.len(),
{
    if segments.len() > 0 {
        lemma_filled_starts_with_slash(segments.drop_last(), slots);
    }
}

/// Trailing values start with a slash, unless there are none.
pub proof fn lemma_trailing_starts_with_slash(values: Seq<Seq<char>>)
    ensures
        values.len() == 0 ==> trailing(values).len() == 0,
        values.len() > 0 ==> trailing(values).len() > 0 && trailing(values)[0] == '/',
    decreases values.len(),
{
    if values.len() > 0 {
        lemma_trailing_starts_with_slash(values.drop_last());
    }
}

/// Every path starts with a slash.
pub proof fn lemma_render_starts_with_slash(
    template: TemplateView,
    slots: Seq<Option<Seq<char>>>,
    wildcard_slots: Seq<Seq<char>>,
)
    ensures
        render(template, slots, wildcard_slots).len() > 0,
        render(template, slots, wildcard_slots)[0] == '/',
{
    lemma_filled_starts_with_slash(template.segments, slots);
    lemma_trailing_starts_with_slash(wildcard_slots);
}

/// Whatever the value, a path that comes out starts with a slash, and it is
/// the template written out with the values that the session holds: every
/// capture has its value, every value held is percent-encoded, and the value
/// of the capture that is the `k`-th among the captures stands where the
/// segment of that capture stands.
pub proof fn lemma_path_shape(template: TemplateView, v: ValueView)
    requires
        template.wf(),
    ensures
        serialized(template, v) matches Ok(path) ==> {
            let held = feed(Session::start(template), v).0;
            &&& path.len() > 0
            &&& path[0] == '/'
            &&& held.template == template
            &&& held.slots.len() == template.idents.len()
            &&& forall|i: int|
                0 <= i < held.slots.len() ==> (#[trigger] held.slots[i]) is Some && is_escaped(
                    held.slots[i]->0,
                )
            &&& forall|j: int|
                0 <= j < held.wildcard_slots.len() ==> is_escaped(
                    #[trigger] held.wildcard_slots[j],
                )
            &&& path == render(template, held.slots, held.wildcard_slots)
        },
{
    let start = Session::start(template);
    lemma_feed_keeps(start, v);
    let held = feed(start, v).0;
    lemma_first_missing(held.slots);
    lemma_render_starts_with_slash(template, held.slots, held.wildcard_slots);
}

/// The session of a tuple after its first `n` scalars: they fill the first
/// `n` slots, and the cursor is on the place after them.
pub proof fn lemma_feed_tuple_scalars(s: Session, items: Seq<ValueView>, n: nat)
    requires
        s.wf(),
        s.nesting,
        !s.pending_key,
        s.cursor == Some(0nat),
        forall|j: int| 0 <= j < n ==> is_scalar(#[trigger] items[j]),
        n <= items.len(),
        n <= s.slots.len(),
    ensures
        feed_tuple(s, items, n) == (Session {
            slots: Seq::new(
                s.slots.len(),
                |i: int|
                    if i < n {
                        Some(scalar_text(items[i]))
                    } else {
                        s.slots[i]
                    },
            ),
            cursor: Some(n),
            ..s
        }).done(),
    decreases n,
{
    let after = Session {
        slots: Seq::new(
            s.slots.len(),
            |i: int|
                if i < n {
                    Some(scalar_text(items[i]))
                } else {
                    s.slots[i]
                },
        ),
        cursor: Some(n),
        ..s
    };
    if n == 0 {
        assert(after.slots =~= s.slots);
    } else {
        lemma_feed_tuple_scalars(s, items, (n - 1) as nat);
        let before = feed_tuple(s, items, (n - 1) as nat).0;
        let item = items[n - 1];
        assert(is_scalar(item));
        assert(feed(before, item) == before.scalar(scalar_text(item)));
        let written = before.scalar(scalar_text(item)).0;
        assert(written.slots =~= after.slots);
    }
}

/// A template without a wildcard, given a tuple of as many scalars as it has
/// captures, gives the path in which each capture, in the order of the
/// template, is replaced by the text of the scalar at its place: one slash
/// and one piece for each segment, the static ones as they stand.
pub proof fn lemma_tuple_fills_captures(template: TemplateView, v: ValueView)
    requires
        template.wf(),
        template.wildcard is None,
        v is Tuple || v is TupleStruct,
        all_scalars(elements(v)),
        elements(v).len() == template.idents.len(),
    ensures
        serialized(template, v) == Ok::<Seq<char>, ErrorView>(
            render(template, full_slots(scalar_texts(elements(v))), Seq::empty()),
        ),
{
    let items = elements(v);
    let start = Session::start(template);
    let entered = start.composite(Some(items.len())).0;
    assert(start.composite(Some(items.len())).1 is Ok);
    if items.len() == 0 {
        assert(feed_tuple(entered, items, 0) == entered.done());
        assert(entered.slots =~= full_slots(scalar_texts(items)));
        lemma_first_missing(entered.slots);
    } else {
        lemma_feed_tuple_scalars(entered, items, items.len());
        let held = feed_tuple(entered, items, items.len()).0;
        assert(held.slots =~= full_slots(scalar_texts(items)));
        lemma_first_missing(held.slots);
        assert(held.wildcard_slots =~= Seq::<Seq<char>>::empty());
    }
}

/// The elements of a tuple.
pub open spec fn elements(v: ValueView) -> Seq<ValueView> {
    match v {
        ValueView::Tuple(items) => items,
        ValueView::TupleStruct(items) => items,
        ValueView::Sequence(items) => items,
        _ => Seq::empty(),
    }
}

/// The number of parts that a struct, map or tuple says it holds.
pub open spec fn arity(v: ValueView) -> nat {
    match v {
        ValueView::Tuple(items) => items.len(),
        ValueView::TupleStruct(items) => items.len(),
        ValueView::Struct(fields) => fields.len(),
        ValueView::Mapping(entries) => entries.len(),
        _ => 0,
    }
}

/// Whether a value is a struct, map or tuple.
pub open spec fn is_composite(v: ValueView) -> bool {
    v is Tuple || v is TupleStruct || v is Struct || v is Mapping
}

/// The blank template, given a struct, map or tuple without parts, or an
/// absent optional value, gives the path `/`.
pub proof fn lemma_blank_gives_root(template: TemplateView, v: ValueView)
    requires
        template.wf(),
        template.is_blank(),
        (is_composite(v) && arity(v) == 0) || v is OptionNone,
    ensures
        serialized(template, v) == Ok::<Seq<char>, ErrorView>(seq!['/']),
{
    let start = Session::start(template);
    assert(template.idents.len() == 0);
    lemma_first_missing(start.slots);
    assert(template.segments =~= Seq::<SegmentView>::empty());
    let entered = start.composite(Some(0nat)).0;
    assert(start.composite(Some(0nat)).1 is Ok);
    match v {
        ValueView::Tuple(items) => {
            assert(feed_tuple(entered, items, 0) == entered.done());
        },
        ValueView::TupleStruct(items) => {
            assert(feed_tuple(entered, items, 0) == entered.done());
        },
        ValueView::Struct(fields) => {
            assert(feed_fields(entered, fields, 0) == entered.done());
        },
        ValueView::Mapping(entries) => {
            assert(feed_entries(entered, entries, 0) == entered.done());
        },
        _ => {},
    }
    assert(filled(template.segments, start.slots) =~= Seq::<char>::empty());
}

/// The session of a sequence after its first `n` scalars: they stand, in
/// their order, after the values that the wildcard held before.
pub proof fn lemma_feed_elements_scalars(s: Session, items: Seq<ValueView>, n: nat)
    requires
        s.nesting,
        !s.pending_key,
        s.next_capture_is_wildcard(),
        all_scalars(items),
        n <= items.len(),
    ensures
        feed_elements(s, items, n) == (Session {
            wildcard_slots: s.wildcard_slots + scalar_texts(items).take(n as int),
            ..s
        }).done(),
    decreases n,
{
    let after = Session {
        wildcard_slots: s.wildcard_slots + scalar_texts(items).take(n as int),
        ..s
    };
    if n == 0 {
        assert(after.wildcard_slots =~= s.wildcard_slots);
    } else {
        lemma_feed_elements_scalars(s, items, (n - 1) as nat);
        let before = feed_elements(s, items, (n - 1) as nat).0;
        let item = items[n - 1];
        assert(is_scalar(item));
        assert(feed(before, item) == before.scalar(scalar_text(item)));
        let written = before.scalar(scalar_text(item)).0;
        assert(written.wildcard_slots =~= after.wildcard_slots);
    }
}

/// A template with a wildcard and no capture, given a sequence of scalars,
/// gives the path of its segments followed by one piece for each scalar, in
/// the order of the sequence.
pub proof fn lemma_sequence_fills_wildcard(template: TemplateView, v: ValueView)
    requires
        template.wf(),
        template.wildcard is Some,
        template.idents.len() == 0,
        v is Sequence,
        all_scalars(elements(v)),
    ensures
        serialized(template, v) == Ok::<Seq<char>, ErrorView>(
            render(template, Seq::empty(), scalar_texts(elements(v))),
        ),
{
    let items = elements(v);
    let start = Session::start(template);
    assert(start.seq().1 is Ok);
    let entered = start.seq().0;
    lemma_feed_elements_scalars(entered, items, items.len());
    let held = feed_elements(entered, items, items.len()).0;
    assert(scalar_texts(items).take(items.len() as int) =~= scalar_texts(items));
    assert(held.wildcard_slots =~= scalar_texts(items));
    assert(held.slots =~= Seq::<Option<Seq<char>>>::empty());
    lemma_first_missing(held.slots);
}

/// A template that is its wildcard alone, given a sequence of `k` scalars,
/// gives a path of exactly `k` pieces, in the order of the sequence; given
/// the empty sequence it gives `/`.
pub proof fn lemma_wildcard_only(template: TemplateView, v: ValueView)
    requires
        template.wf(),
        template.wildcard is Some,
        template.segments.len() == 0,
        v is Sequence,
        all_scalars(elements(v)),
    ensures
        serialized(template, v) == Ok::<Seq<char>, ErrorView>(
            if elements(v).len() == 0 {
                seq!['/']
            } else {
                trailing(scalar_texts(elements(v)))
            },
        ),
{
    lemma_sequence_fills_wildcard(template, v);
    lemma_trailing_starts_with_slash(scalar_texts(elements(v)));
    let slots = Seq::<Option<Seq<char>>>::empty();
    assert(filled(template.segments, slots) =~= Seq::<char>::empty());
    assert(Seq::<char>::empty() + trailing(scalar_texts(elements(v))) =~= trailing(
        scalar_texts(elements(v)),
    ));
}

/// A struct, map or tuple that does not hold as many parts as the template
/// takes values is refused for its length, whatever the template and
/// whatever its parts are.
pub proof fn lemma_arity_mismatch(template: TemplateView, v: ValueView)
    requires
        template.wf(),
        is_composite(v),
        arity(v) != template.param_count(),
    ensures
        serialized(template, v) == Err::<Seq<char>, ErrorView>(ErrorView::InvalidLen),
{
    let start = Session::start(template);
    assert(start.composite(Some(arity(v))).1 == Err::<(), ErrorView>(ErrorView::InvalidLen));
}

/// The characters that a path is made of: those that a URL path may hold,
/// the slash between its pieces, and `%` before an escaped byte.
pub open spec fn is_path_char(c: char) -> bool {
    is_url_path_char(c) || c == '/' || c == '%'
}

/// Whether a text is made of the characters of a path alone.
pub open spec fn is_path(text: Seq<char>) -> bool {
    forall|i: int| 0 <= i < text.len() ==> is_path_char(#[trigger] text[i])
}

/// The number of slashes in a text.
pub open spec fn slashes(text: Seq<char>) -> nat
    decreases text.len(),
{
    if text.len() == 0 {
        0
    } else {
        slashes(text.drop_last()) + if text.last() == '/' {
            1nat
        } else {
            0nat
        }
    }
}

/// The slashes of two texts, one after the other, are those of both.
pub proof fn lemma_slashes_concat(a: Seq<char>, b: Seq<char>)
    ensures
        slashes(a + b) == slashes(a) + slashes(b),
    decreases b.len(),
{
    if b.len() == 0 {
        assert(a + b == a);
    } else {
        assert((a + b).drop_last() == a + b.drop_last());
        lemma_slashes_concat(a, b.drop_last());
    }
}

/// A text without a slash counts none.
pub proof fn lemma_slashes_none(text: Seq<char>)
    requires
        forall|i: int| 0 <= i < text.len() ==> text[i] != '/',
    ensures
        slashes(text) == 0,
    decreases text.len(),
{
    if text.len() > 0 {
        lemma_slashes_none(text.drop_last());
    }
}

/// What the segments of a checked template give, once each capture has its
/// encoded value: a text made of the characters of a path, with one slash
/// for each segment.
pub proof fn lemma_filled_is_path(segments: Seq<SegmentView>, slots: Seq<Option<Seq<char>>>)
    requires
        forall|i: int| 0 <= i < segments.len() ==> checked_segment(#[trigger] segments[i]),
        capture_names(segments).len() <= slots.len(),
        forall|k: int|
            0 <= k < slots.len() ==> (#[trigger] slots[k]) is Some && is_escaped(slots[k]->0),
    ensures
        is_path(filled(segments, slots)),
        slashes(filled(segments, slots)) == segments.len(),
    decreases segments.len(),
{
    if segments.len() > 0 {
        let init = segments.drop_last();
        lemma_capture_names_prefix(segments, segments.len() - 1);
        assert(segments.take(segments.len() - 1) == init);
        assert forall|i: int| 0 <= i < init.len() implies checked_segment(#[trigger] init[i]) by {
            assert(init[i] == segments[i]);
        }
        lemma_filled_is_path(init, slots);
        let before = filled(init, slots);
        let piece = match segments.last() {
            SegmentView::Static(text) => text,
            SegmentView::Capture(_) => slots[capture_names(init).len() as int]->0,
        };
        assert(checked_segment(segments[segments.len() - 1]));
        assert forall|i: int| 0 <= i < piece.len() implies is_url_path_char(
            #[trigger] piece[i],
        ) || piece[i] == '%' by {
            match segments.last() {
                SegmentView::Static(text) => {},
                SegmentView::Capture(_) => {
                    let k = capture_names(init).len() as int;
                    assert(slots[k] is Some);
                    assert(is_escaped_char(piece[i]));
                },
            }
        }
        assert(filled(segments, slots) == before + seq!['/'] + piece);
        lemma_slashes_none(piece);
        lemma_slashes_concat(before, seq!['/']);
        lemma_slashes_concat(before + seq!['/'], piece);
        assert(slashes(seq!['/']) == 1) by {
            assert(seq!['/'].drop_last() =~= Seq::<char>::empty());
            assert(slashes(Seq::<char>::empty()) == 0);
        }
    }
}

/// What encoded values give after the segments: a text made of the
/// characters of a path, with one slash for each value.
pub proof fn lemma_trailing_is_path(values: Seq<Seq<char>>)
    requires
        forall|j: int| 0 <= j < values.len() ==> is_escaped(#[trigger] values[j]),
    ensures
        is_path(trailing(values)),
        slashes(trailing(values)) == values.len(),
    decreases values.len(),
{
    if values.len() > 0 {
        let init = values.drop_last();
        assert forall|j: int| 0 <= j < init.len() implies is_escaped(#[trigger] init[j]) by {
            assert(init[j] == values[j]);
        }
        lemma_trailing_is_path(init);
        let before = trailing(init);
        let piece = values.last();
        assert(is_escaped(values[values.len() - 1]));
        assert forall|i: int| 0 <= i < piece.len() implies is_url_path_char(
            #[trigger] piece[i],
        ) || piece[i] == '%' by {
            assert(is_escaped_char(piece[i]));
        }
        lemma_slashes_none(piece);
        lemma_slashes_concat(before, seq!['/']);
        lemma_slashes_concat(before + seq!['/'], piece);
        assert(slashes(seq!['/']) == 1) by {
            assert(seq!['/'].drop_last() =~= Seq::<char>::empty());
            assert(slashes(Seq::<char>::empty()) == 0);
        }
    }
}

/// With a checked template, as parsing gives it, a path that comes out holds
/// only characters of a path, whatever the value held: what could not stand
/// in a path has been escaped.
pub proof fn lemma_path_is_valid(template: TemplateView, v: ValueView)
    requires
        template.checked(),
    ensures
        serialized(template, v) matches Ok(path) ==> is_path(path),
{
    if let Ok(path) = serialized(template, v) {
        lemma_path_shape(template, v);
        let held = feed(Session::start(template), v).0;
        lemma_filled_is_path(template.segments, held.slots);
        lemma_trailing_is_path(held.wildcard_slots);
    }
}

/// With a checked template that has no wildcard and at least one segment,
/// the path of a tuple of scalars holds one slash for each segment: one for
/// each capture beyond those of the static segments.
pub proof fn lemma_tuple_path_slashes(template: TemplateView, v: ValueView)
    requires
        template.checked(),
        template.wildcard is None,
        template.segments.len() > 0,
        v is Tuple || v is TupleStruct,
        all_scalars(elements(v)),
        elements(v).len() == template.idents.len(),
    ensures
        serialized(template, v) matches Ok(path) && slashes(path) == template.segments.len(),
{
    lemma_tuple_fills_captures(template, v);
    lemma_path_shape(template, v);
    let held = feed(Session::start(template), v).0;
    lemma_filled_is_path(template.segments, held.slots);
    lemma_filled_starts_with_slash(template.segments, held.slots);
    assert(filled(template.segments, held.slots) + Seq::<char>::empty() =~= filled(
        template.segments,
        held.slots,
    ));
}

/// With a template that is its wildcard alone, the path of a sequence of at
/// least one scalar holds one slash for each scalar.
pub proof fn lemma_wildcard_only_slashes(template: TemplateView, v: ValueView)
    requires
        template.wf(),
        template.wildcard is Some,
        template.segments.len() == 0,
        v is Sequence,
        all_scalars(elements(v)),
        elements(v).len() > 0,
    ensures
        serialized(template, v) matches Ok(path) && slashes(path) == elements(v).len(),
{
    lemma_wildcard_only(template, v);
    let texts = scalar_texts(elements(v));
    assert forall|j: int| 0 <= j < texts.len() implies is_escaped(#[trigger] texts[j]) by {
        lemma_scalar_text_is_escaped(elements(v)[j]);
    }
    lemma_trailing_is_path(texts);
}

/// A template with exactly one capture, given a scalar on its own, gives the
/// path in which the text of the scalar stands for the capture.
pub proof fn lemma_scalar_fills_single_capture(template: TemplateView, v: ValueView)
    requires
        template.wf(),
        template.idents.len() == 1,
        is_scalar(v),
    ensures
        serialized(template, v) == Ok::<Seq<char>, ErrorView>(
            render(template, seq![Some(scalar_text(v))], Seq::empty()),
        ),
{
    let start = Session::start(template);
    let held = feed(start, v).0;
    assert(held.slots =~= seq![Some(scalar_text(v))]);
    lemma_first_missing(held.slots);
}

/// The names of the fields of a struct, in their order.
pub open spec fn field_names(fields: Seq<(Seq<char>, ValueView)>) -> Seq<Seq<char>> {
    Seq::new(fields.len(), |j: int| fields[j].0)
}

/// The last place at which a name stands among some names.
pub open spec fn last_position(names: Seq<Seq<char>>, name: Seq<char>) -> Option<nat>
    decreases names.len(),
{
    if names.len() == 0 {
        None
    } else if names.last() == name {
        Some((names.len() - 1) as nat)
    } else {
        last_position(names.drop_last(), name)
    }
}

/// What `last_position` finds: a place at which the name stands; it finds
/// one wherever the name stands at all.
pub proof fn lemma_last_position(names: Seq<Seq<char>>, name: Seq<char>)
    ensures
        last_position(names, name) matches Some(j) ==> j < names.len() && names[j as int] == name,
        names.contains(name) ==> last_position(names, name) is Some,
    decreases names.len(),
{
    if names.len() > 0 {
        lemma_last_position(names.drop_last(), name);
        if names.contains(name) && names.last() != name {
            let k = choose|k: int| 0 <= k < names.len() && names[k] == name;
            assert(names.drop_last()[k] == name);
        }
    }
}

/// Whether a value can go to the wildcard from a field: a scalar, or a
/// sequence of scalars.
pub open spec fn fits_wildcard(v: ValueView) -> bool {
    is_scalar(v) || (v is Sequence && all_scalars(elements(v)))
}

/// The texts that a field gives to the wildcard.
pub open spec fn wildcard_texts(v: ValueView) -> Seq<Seq<char>> {
    if v is Sequence {
        scalar_texts(elements(v))
    } else {
        seq![scalar_text(v)]
    }
}

/// The texts that the first `n` fields give to the wildcard of the given
/// name, in their order.
pub open spec fn wildcard_of_fields(
    wildcard: Option<Seq<char>>,
    fields: Seq<(Seq<char>, ValueView)>,
    n: nat,
) -> Seq<Seq<char>>
    decreases n,
{
    if n == 0 || n > fields.len() {
        Seq::empty()
    } else {
        let before = wildcard_of_fields(wildcard, fields, (n - 1) as nat);
        if wildcard == Some(fields[n - 1].0) {
            before + wildcard_texts(fields[n - 1].1)
        } else {
            before
        }
    }
}

/// The slots of the captures after the first `n` fields: each capture holds
/// the text of the last field of its name, if there is one.
pub open spec fn slots_of_fields(
    idents: Seq<Seq<char>>,
    fields: Seq<(Seq<char>, ValueView)>,
    n: nat,
) -> Seq<Option<Seq<char>>> {
    Seq::new(
        idents.len(),
        |i: int|
            match last_position(field_names(fields).take(n as int), idents[i]) {
                Some(j) => Some(scalar_text(fields[j as int].1)),
                None => None,
            },
    )
}

/// Whether the names of a template tell its captures and its wildcard
/// apart: no two captures share a name, and none has the wildcard's.
pub open spec fn names_distinct(template: TemplateView) -> bool {
    &&& template.idents.no_duplicates()
    &&& template.wildcard matches Some(w) ==> !template.idents.contains(w)
}

/// Whether a field fits a template by its name: it is named as the wildcard
/// and holds a scalar or a sequence of scalars, or it is named as a capture
/// and holds a scalar.
pub open spec fn field_fits(template: TemplateView, field: (Seq<char>, ValueView)) -> bool {
    if template.wildcard == Some(field.0) {
        fits_wildcard(field.1)
    } else {
        template.idents.contains(field.0) && is_scalar(field.1)
    }
}

/// Whether each of the first `n` fields fits a template by its name.
pub open spec fn fields_fit(
    template: TemplateView,
    fields: Seq<(Seq<char>, ValueView)>,
    n: nat,
) -> bool {
    forall|j: int| 0 <= j < n && j < fields.len() ==> field_fits(template, #[trigger] fields[j])
}

/// Whether each capture of a template has a field of its name.
pub open spec fn captures_named(
    template: TemplateView,
    fields: Seq<(Seq<char>, ValueView)>,
) -> bool {
    forall|i: int|
        0 <= i < template.idents.len() ==> field_names(fields).contains(
            #[trigger] template.idents[i],
        )
}

/// The session of a struct after its first `n` fields, where the fields fit
/// the template by their names.
pub proof fn lemma_feed_fields_by_name(s: Session, fields: Seq<(Seq<char>, ValueView)>, n: nat)
    requires
        s.wf(),
        s.nesting,
        !s.pending_key,
        names_distinct(s.template),
        fields_fit(s.template, fields, n),
        n <= fields.len(),
    ensures
        ({
            let after = feed_fields(s, fields, n);
            &&& after.1 is Ok
            &&& after.0.wf()
            &&& after.0.template == s.template
            &&& after.0.nesting
            &&& !after.0.pending_key
            &&& after.0.wildcard_slots == s.wildcard_slots + wildcard_of_fields(
                s.template.wildcard,
                fields,
                n,
            )
            &&& forall|i: int|
                0 <= i < s.slots.len() ==> #[trigger] after.0.slots[i] == (match last_position(
                    field_names(fields).take(n as int),
                    s.template.idents[i],
                ) {
                    Some(j) => Some(scalar_text(fields[j as int].1)),
                    None => s.slots[i],
                })
        }),
    decreases n,
{
    let names = field_names(fields);
    let idents = s.template.idents;
    if n == 0 {
        assert(s.wildcard_slots + Seq::<Seq<char>>::empty() =~= s.wildcard_slots);
        assert(names.take(0) =~= Seq::<Seq<char>>::empty());
    } else {
        lemma_feed_fields_by_name(s, fields, (n - 1) as nat);
        let before = feed_fields(s, fields, (n - 1) as nat).0;
        let field = fields[n - 1];
        assert(field_fits(s.template, field));
        let name = field.0;
        let taken = names.take(n as int);
        assert(taken.drop_last() =~= names.take(n - 1));
        assert(taken.last() == name);
        let named = before.set_next_named_capture(name);
        lemma_position(idents, name);
        if s.template.wildcard == Some(name) {
            assert(named.1 is Ok);
            assert(named.0.next_capture_is_wildcard());
            if field.1 is Sequence {
                let items = elements(field.1);
                let entered = named.0.seq().0;
                lemma_feed_elements_scalars(entered, items, items.len());
                assert(scalar_texts(items).take(items.len() as int) =~= scalar_texts(items));
                assert(feed(named.0, field.1) == feed_elements(entered, items, items.len()));
            } else {
                assert(feed(named.0, field.1) == named.0.scalar(scalar_text(field.1)));
                assert(before.wildcard_slots.push(scalar_text(field.1)) =~= before.wildcard_slots
                    + seq![scalar_text(field.1)]);
            }
            let after = feed_fields(s, fields, n).0;
            assert(after.wildcard_slots =~= s.wildcard_slots + wildcard_of_fields(
                s.template.wildcard,
                fields,
                n,
            ));
            assert forall|i: int| 0 <= i < s.slots.len() implies #[trigger] after.slots[i] == (
            match last_position(taken, idents[i]) {
                Some(j) => Some(scalar_text(fields[j as int].1)),
                None => s.slots[i],
            }) by {
                assert(idents.contains(idents[i]));
                assert(idents[i] != name);
                assert(after.slots[i] == before.slots[i]);
            }
        } else {
            assert(idents.contains(name));
            let at = position(idents, name)->0 as int;
            assert(named.1 is Ok);
            assert(feed(named.0, field.1) == named.0.scalar(scalar_text(field.1)));
            let after = feed_fields(s, fields, n).0;
            assert(after.slots == before.slots.update(at, Some(scalar_text(field.1))));
            assert forall|i: int| 0 <= i < s.slots.len() implies #[trigger] after.slots[i] == (
            match last_position(taken, idents[i]) {
                Some(j) => Some(scalar_text(fields[j as int].1)),
                None => s.slots[i],
            }) by {
                if i != at {
                    assert(idents[i] != idents[at]);
                    assert(after.slots[i] == before.slots[i]);
                }
            }
        }
    }
}

/// Where the names of the template are distinct, a struct whose fields fit
/// the template by their names, one field for each value that the template
/// takes and one for each capture, gives the path in which each capture is
/// replaced by the text of the field of its name, and the wildcard by the
/// texts of its field, whatever the order of the fields.
pub proof fn lemma_struct_fills_by_name(template: TemplateView, v: ValueView)
    requires
        template.wf(),
        names_distinct(template),
        v is Struct,
        fields_fit(template, v->Struct_0, v->Struct_0.len()),
        captures_named(template, v->Struct_0),
        v->Struct_0.len() == template.param_count(),
    ensures
        serialized(template, v) == Ok::<Seq<char>, ErrorView>(
            render(
                template,
                slots_of_fields(template.idents, v->Struct_0, v->Struct_0.len()),
                wildcard_of_fields(template.wildcard, v->Struct_0, v->Struct_0.len()),
            ),
        ),
{
    let fields = v->Struct_0;
    let names = field_names(fields);
    let start = Session::start(template);
    let entered = start.composite(Some(fields.len())).0;
    assert(start.composite(Some(fields.len())).1 is Ok);
    lemma_feed_fields_by_name(entered, fields, fields.len());
    let held = feed_fields(entered, fields, fields.len()).0;
    assert(names.take(fields.len() as int) =~= names);
    assert forall|i: int| 0 <= i < held.slots.len() implies (#[trigger] held.slots[i]) is Some by {
        lemma_last_position(names, template.idents[i]);
    }
    assert(held.slots =~= slots_of_fields(template.idents, fields, fields.len()));
    assert(held.wildcard_slots =~= wildcard_of_fields(template.wildcard, fields, fields.len()));
    lemma_first_missing(held.slots);
}

/// Whether each entry of a map has a string for its key, made of letters,
/// digits, `-` and `_`.
pub open spec fn plain_keys(entries: Seq<(ValueView, ValueView)>) -> bool {
    forall|j: int|
        0 <= j < entries.len() ==> (#[trigger] entries[j]).0 is Str && is_plain(
            entries[j].0->Str_0,
        )
}

/// The entries of a map with strings for keys, as the fields of a struct.
pub open spec fn fields_of(entries: Seq<(ValueView, ValueView)>) -> Seq<(Seq<char>, ValueView)> {
    Seq::new(entries.len(), |j: int| (entries[j].0->Str_0, entries[j].1))
}

/// A map with plain strings for keys is taken as the struct whose fields
/// are named by the keys.
pub proof fn lemma_feed_entries_as_fields(s: Session, entries: Seq<(ValueView, ValueView)>, n: nat)
    requires
        s.nesting,
        !s.pending_key,
        plain_keys(entries),
        names_distinct(s.template),
        fields_fit(s.template, fields_of(entries), n),
        s.wf(),
        n <= entries.len(),
    ensures
        feed_entries(s, entries, n) == feed_fields(s, fields_of(entries), n),
    decreases n,
{
    if n > 0 {
        let fields = fields_of(entries);
        lemma_feed_entries_as_fields(s, entries, (n - 1) as nat);
        lemma_feed_fields_by_name(s, fields, (n - 1) as nat);
        let before = feed_fields(s, fields, (n - 1) as nat).0;
        let key = entries[n - 1].0;
        let name = key->Str_0;
        assert(fields[n - 1].0 == name);
        assert(fields[n - 1].1 == entries[n - 1].1);
        lemma_escaped_plain(name);
        assert(scalar_text(key) == name);
        assert(feed(before.key(), key) == before.key().scalar(name));
        assert(before.key().scalar(name) == before.set_next_named_capture(name));
    }
}

/// Where the names of the template are distinct, a map whose keys are plain
/// strings and whose entries fit the template by their keys, one entry for
/// each value that the template takes and one for each capture, gives the
/// path in which each capture is replaced by the text of the entry under its
/// name, and the wildcard by the texts of its entry, whatever the order of
/// the entries.
pub proof fn lemma_map_fills_by_key(template: TemplateView, v: ValueView)
    requires
        template.wf(),
        names_distinct(template),
        v is Mapping,
        plain_keys(v->Mapping_0),
        fields_fit(template, fields_of(v->Mapping_0), v->Mapping_0.len()),
        captures_named(template, fields_of(v->Mapping_0)),
        v->Mapping_0.len() == template.param_count(),
    ensures
        serialized(template, v) == Ok::<Seq<char>, ErrorView>(
            render(
                template,
                slots_of_fields(
                    template.idents,
                    fields_of(v->Mapping_0),
                    v->Mapping_0.len(),
                ),
                wildcard_of_fields(
                    template.wildcard,
                    fields_of(v->Mapping_0),
                    v->Mapping_0.len(),
                ),
            ),
        ),
{
    let entries = v->Mapping_0;
    let fields = fields_of(entries);
    let names = field_names(fields);
    let start = Session::start(template);
    let entered = start.composite(Some(entries.len())).0;
    assert(start.composite(Some(entries.len())).1 is Ok);
    lemma_feed_entries_as_fields(entered, entries, entries.len());
    lemma_feed_fields_by_name(entered, fields, fields.len());
    let held = feed_fields(entered, fields, fields.len()).0;
    assert(names.take(fields.len() as int) =~= names);
    assert forall|i: int| 0 <= i < held.slots.len() implies (#[trigger] held.slots[i]) is Some by {
        lemma_last_position(names, template.idents[i]);
    }
    assert(held.slots =~= slots_of_fields(template.idents, fields, fields.len()));
    assert(held.wildcard_slots =~= wildcard_of_fields(template.wildcard, fields, fields.len()));
    lemma_first_missing(held.slots);
}

/// A value of a kind that no template takes is refused with its kind,
/// whatever the template.
pub proof fn lemma_unsupported_kind(template: TemplateView, v: ValueView)
    requires
        v is Bytes || v is Unit || v is UnitStruct || v is NewtypeVariant || v is TupleVariant
            || v is StructVariant,
    ensures
        serialized(template, v) matches Err(ErrorView::TypeNotSupported(_)),
{
}

/// A sequence on its own is refused where the template has a capture or has
/// no wildcard: the wildcard is not next. The elements play no part; none of
/// them is taken and dropped.
pub proof fn lemma_sequence_needs_wildcard(template: TemplateView, v: ValueView)
    requires
        template.wf(),
        template.idents.len() > 0 || template.wildcard is None,
        v is Sequence,
    ensures
        serialized(template, v) == Err::<Seq<char>, ErrorView>(ErrorView::NonWildcardCapture),
{
}

/// A scalar on its own is refused for the length where the template does not
/// have exactly one capture; with the blank template in particular.
pub proof fn lemma_scalar_needs_single_capture(template: TemplateView, v: ValueView)
    requires
        template.wf(),
        template.idents.len() != 1,
        is_scalar(v),
    ensures
        serialized(template, v) == Err::<Seq<char>, ErrorView>(ErrorView::InvalidLen),
{
}

/// A fresh session has its cursor on the first place exactly where the
/// template takes a value, and nowhere else: a template of static segments
/// alone starts with the cursor nowhere, as the blank template does.
pub proof fn lemma_start_cursor(template: TemplateView)
    ensures
        template.param_count() > 0 ==> Session::start(template).cursor == Some(0nat),
        template.param_count() == 0 ==> Session::start(template).cursor is None,
        !Session::start(template).nesting,
        !Session::start(template).pending_key,
        Session::start(template).wildcard_slots.len() == 0,
        Session::start(template).slots.len() == template.idents.len(),
        forall|i: int|
            0 <= i < template.idents.len() ==> (#[trigger] Session::start(template).slots[i])
                is None,
{
}

/// The length that a struct, map or tuple states is held against the
/// template wherever the cursor is: it passes exactly where it is not stated
/// or is the number of values that the template takes, and the session stays
/// as it is either way.
pub proof fn lemma_length_check(s: Session, len: Option<nat>)
    ensures
        s.assert_len(len).0 == s,
        s.assert_len(len).1 is Ok <==> (len is None || len == Some(s.template.param_count())),
        s.assert_len(len).1 is Err ==> s.assert_len(len).1 == Err::<(), ErrorView>(
            ErrorView::InvalidLen,
        ),
{
}

/// A struct, map or tuple is entered only from the top: from inside another,
/// or from inside a sequence, it is refused for its depth wherever the
/// cursor is, and the session stays as it is; from the top it is entered and
/// nothing else changes.
pub proof fn lemma_depth_check(s: Session)
    ensures
        s.nesting ==> s.set_nested() == s.fail(ErrorView::DeepNesting),
        !s.nesting ==> s.set_nested() == (Session { nesting: true, ..s }).done(),
{
}

/// A tuple that holds a struct, map or tuple after some scalars is refused for
/// its depth, whatever the template and whatever follows.
pub proof fn lemma_nested_composite(template: TemplateView, v: ValueView, k: nat)
    requires
        template.wf(),
        v is Tuple || v is TupleStruct,
        elements(v).len() == template.param_count(),
        k < elements(v).len(),
        forall|j: int| 0 <= j < k ==> is_scalar(#[trigger] elements(v)[j]),
        is_composite(elements(v)[k as int]),
    ensures
        serialized(template, v) == Err::<Seq<char>, ErrorView>(ErrorView::DeepNesting),
{
    let items = elements(v);
    let start = Session::start(template);
    let entered = start.composite(Some(items.len())).0;
    assert(start.composite(Some(items.len())).1 is Ok);
    lemma_feed_tuple_scalars(entered, items, k);
    let before = feed_tuple(entered, items, k).0;
    assert(before.nesting);
    assert(feed(before, items[k as int]).1 == Err::<(), ErrorView>(ErrorView::DeepNesting));
    assert(feed_tuple(entered, items, k + 1).1 == Err::<(), ErrorView>(ErrorView::DeepNesting));
    lemma_feed_tuple_error(entered, items, k + 1, items.len());
}

/// A struct with a field that holds a struct, map or tuple is refused for
/// its depth, where the fields before it fit the template and the name of
/// the field is one of the template's.
pub proof fn lemma_nested_field(template: TemplateView, v: ValueView, k: nat)
    requires
        template.wf(),
        names_distinct(template),
        v is Struct,
        v->Struct_0.len() == template.param_count(),
        k < v->Struct_0.len(),
        fields_fit(template, v->Struct_0, k),
        template.wildcard == Some(v->Struct_0[k as int].0) || template.idents.contains(
            v->Struct_0[k as int].0,
        ),
        is_composite(v->Struct_0[k as int].1),
    ensures
        serialized(template, v) == Err::<Seq<char>, ErrorView>(ErrorView::DeepNesting),
{
    let fields = v->Struct_0;
    let name = fields[k as int].0;
    let start = Session::start(template);
    let entered = start.composite(Some(fields.len())).0;
    assert(start.composite(Some(fields.len())).1 is Ok);
    lemma_feed_fields_by_name(entered, fields, k);
    let before = feed_fields(entered, fields, k).0;
    lemma_position(template.idents, name);
    let named = before.set_next_named_capture(name);
    assert(named.1 is Ok);
    assert(named.0.nesting);
    assert(feed(named.0, fields[k as int].1).1 == Err::<(), ErrorView>(ErrorView::DeepNesting));
    assert(feed_fields(entered, fields, k + 1).1 == Err::<(), ErrorView>(
        ErrorView::DeepNesting,
    ));
    lemma_feed_fields_error(entered, fields, k + 1, fields.len());
}

/// A struct of the right length with a field whose name the template does
/// not have is refused with that name, where the fields before it fit the
/// template.
pub proof fn lemma_unknown_field(template: TemplateView, v: ValueView, k: nat)
    requires
        template.wf(),
        names_distinct(template),
        v is Struct,
        v->Struct_0.len() == template.param_count(),
        k < v->Struct_0.len(),
        fields_fit(template, v->Struct_0, k),
        template.wildcard != Some(v->Struct_0[k as int].0),
        !template.idents.contains(v->Struct_0[k as int].0),
    ensures
        serialized(template, v) == Err::<Seq<char>, ErrorView>(
            ErrorView::UnknownCapture(v->Struct_0[k as int].0),
        ),
{
    let fields = v->Struct_0;
    let name = fields[k as int].0;
    let start = Session::start(template);
    let entered = start.composite(Some(fields.len())).0;
    assert(start.composite(Some(fields.len())).1 is Ok);
    lemma_feed_fields_by_name(entered, fields, k);
    let before = feed_fields(entered, fields, k);
    lemma_position(template.idents, name);
    assert(before.0.set_next_named_capture(name).1 == Err::<(), ErrorView>(
        ErrorView::UnknownCapture(name),
    ));
    assert(feed_fields(entered, fields, k + 1).1 == Err::<(), ErrorView>(
        ErrorView::UnknownCapture(name),
    ));
    lemma_feed_fields_error(entered, fields, k + 1, fields.len());
}

} // verus!
