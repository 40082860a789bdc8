//! Filling a template's captures, value by value, and writing the path.

use vstd::prelude::*;
use vstd::string::*;
use crate::escape::{escaped, is_escaped, lemma_escaped_plain, percent_encode};
use crate::path_template::{
    capture_names, lemma_capture_names_prefix, segment_views, texts, PathTemplate, Segment,
    SegmentView, TemplateView,
};
use crate::text::{decimal, lowercase, signed_decimal, signed_to_string, str_eq, unsigned_to_string};

verus! {

/// Why a value does not fit a template.
#[derive(Debug, PartialEq)]
pub enum Error {
    /// A value of a kind that no template takes.
    TypeNotSupported(&'static str),
    /// An error that a value raised while it was handing itself over.
    Custom(String),
    /// The number of values does not match the number of captures.
    InvalidLen,
    /// A sequence was given where the wildcard is not next.
    NonWildcardCapture,
    /// A struct, map or tuple was given inside another.
    DeepNesting,
    /// No value was given for the capture of this name.
    MissingCapture(String),
    /// A value was given under a name that the template does not have.
    UnknownCapture(String),
}

impl Clone for Error {
    fn clone(&self) -> (r: Self)
        ensures
            r == *self,
    {
        match self {
            Error::TypeNotSupported(kind) => Error::TypeNotSupported(kind),
            Error::Custom(msg) => Error::Custom(msg.clone()),
            Error::InvalidLen => Error::InvalidLen,
            Error::NonWildcardCapture => Error::NonWildcardCapture,
            Error::DeepNesting => Error::DeepNesting,
            Error::MissingCapture(name) => Error::MissingCapture(name.clone()),
            Error::UnknownCapture(name) => Error::UnknownCapture(name.clone()),
        }
    }
}

/// What an [`Error`] stands for.
pub enum ErrorView {
    TypeNotSupported(Seq<char>),
    Custom(Seq<char>),
    InvalidLen,
    NonWildcardCapture,
    DeepNesting,
    MissingCapture(Seq<char>),
    UnknownCapture(Seq<char>),
}

impl View for Error {
    type V = ErrorView;

    open spec fn view(&self) -> ErrorView {
        match *self {
            Error::TypeNotSupported(kind) => ErrorView::TypeNotSupported(kind@),
            Error::Custom(msg) => ErrorView::Custom(msg@),
            Error::InvalidLen => ErrorView::InvalidLen,
            Error::NonWildcardCapture => ErrorView::NonWildcardCapture,
            Error::DeepNesting => ErrorView::DeepNesting,
            Error::MissingCapture(name) => ErrorView::MissingCapture(name@),
            Error::UnknownCapture(name) => ErrorView::UnknownCapture(name@),
        }
    }
}

/// The message of an error, in words.
pub open spec fn message_of(e: ErrorView) -> Seq<char> {
    match e {
        ErrorView::TypeNotSupported(kind) => "type `"@ + kind + "` is not supported"@,
        ErrorView::Custom(msg) => msg,
        ErrorView::InvalidLen => "number of serialized elements doesn't match path template"@,
        ErrorView::NonWildcardCapture => "trying to write invalid type into wildcard capture"@,
        ErrorView::DeepNesting =>
            "only plain values or serde flattened structs can be serialized to url path"@,
        ErrorView::MissingCapture(name) => "missing required capture member: "@ + name,
        ErrorView::UnknownCapture(name) => "unknown capture ident: "@ + name,
    }
}

impl Error {
    /// Says in words why the value does not fit, with the kind or the name
    /// that is at fault.
    pub fn message(&self) -> (text: String)
        ensures
            text@ == message_of(self@),
    {
        match self {
            Error::TypeNotSupported(kind) => {
                let mut text = "type `".to_owned();
                text.append(kind);
                text.append("` is not supported");
                text
            },
            Error::Custom(msg) => msg.clone(),
            Error::InvalidLen => "number of serialized elements doesn't match path template"
                .to_owned(),
            Error::NonWildcardCapture => "trying to write invalid type into wildcard capture"
                .to_owned(),
            Error::DeepNesting =>
                "only plain values or serde flattened structs can be serialized to url path"
                    .to_owned(),
            Error::MissingCapture(name) => {
                let mut text = "missing required capture member: ".to_owned();
                text.append(name.as_str());
                text
            },
            Error::UnknownCapture(name) => {
                let mut text = "unknown capture ident: ".to_owned();
                text.append(name.as_str());
                text
            },
        }
    }
}

/// What a step answers: nothing, or the error.
pub open spec fn outcome(r: Result<(), Error>) -> Result<(), ErrorView> {
    match r {
        Ok(()) => Ok(()),
        Err(e) => Err(e@),
    }
}

/// What a path or the error in its place stands for.
pub open spec fn path_outcome(r: Result<String, Error>) -> Result<Seq<char>, ErrorView> {
    match r {
        Ok(path) => Ok(path@),
        Err(e) => Err(e@),
    }
}

/// The first place at which a name stands among some names.
pub open spec fn position(idents: Seq<Seq<char>>, name: Seq<char>) -> Option<nat>
    decreases idents.len(),
{
    if idents.len() == 0 {
        None
    } else {
        match position(idents.drop_last(), name) {
            Some(i) => Some(i),
            None => if idents.last() == name {
                Some((idents.len() - 1) as nat)
            } else {
                None
            },
        }
    }
}

/// A name found among the first names is found at the same place among them
/// all.
pub proof fn lemma_position_found(idents: Seq<Seq<char>>, name: Seq<char>, n: int)
    requires
        0 <= n <= idents.len(),
        position(idents.take(n), name) is Some,
    ensures
        position(idents, name) == position(idents.take(n), name),
    decreases idents.len(),
{
    if n < idents.len() {
        assert(idents.drop_last().take(n) == idents.take(n));
        lemma_position_found(idents.drop_last(), name, n);
    } else {
        assert(idents.take(n) == idents);
    }
}

/// What `position` finds: the name stands at that place and at none before
/// it; where it finds nothing, the name stands nowhere.
pub proof fn lemma_position(idents: Seq<Seq<char>>, name: Seq<char>)
    ensures
        match position(idents, name) {
            Some(i) => i < idents.len() && idents[i as int] == name && forall|k: int|
                0 <= k < i ==> idents[k] != name,
            None => forall|k: int| 0 <= k < idents.len() ==> idents[k] != name,
        },
    decreases idents.len(),
{
    if idents.len() > 0 {
        lemma_position(idents.drop_last(), name);
        assert forall|k: int| 0 <= k < idents.len() - 1 implies idents[k] == idents.drop_last()[k] by {
        }
    }
}

/// The first slot that holds no value.
pub open spec fn first_missing(slots: Seq<Option<Seq<char>>>) -> Option<nat>
    decreases slots.len(),
{
    if slots.len() == 0 {
        None
    } else {
        match first_missing(slots.drop_last()) {
            Some(i) => Some(i),
            None => if slots.last() is None {
                Some((slots.len() - 1) as nat)
            } else {
                None
            },
        }
    }
}

/// A slot without a value among the first slots is the first such slot
/// among them all.
pub proof fn lemma_first_missing_found(slots: Seq<Option<Seq<char>>>, n: int)
    requires
        0 <= n <= slots.len(),
        first_missing(slots.take(n)) is Some,
    ensures
        first_missing(slots) == first_missing(slots.take(n)),
    decreases slots.len(),
{
    if n < slots.len() {
        assert(slots.drop_last().take(n) == slots.take(n));
        lemma_first_missing_found(slots.drop_last(), n);
    } else {
        assert(slots.take(n) == slots);
    }
}

/// The segments as a path writes them, a slash before each: static text as
/// it stands, and for the capture that is the `k`-th among the captures the
/// value of slot `k`.
pub open spec fn filled(segments: Seq<SegmentView>, slots: Seq<Option<Seq<char>>>) -> Seq<char>
    decreases segments.len(),
{
    if segments.len() == 0 {
        Seq::empty()
    } else {
        let before = filled(segments.drop_last(), slots);
        match segments.last() {
            SegmentView::Static(text) => before + seq!['/'] + text,
            SegmentView::Capture(_) => {
                let k = capture_names(segments.drop_last()).len() as int;
                before + seq!['/'] + slots[k]->0
            },
        }
    }
}

/// Some values as a path writes them, a slash before each.
pub open spec fn trailing(values: Seq<Seq<char>>) -> Seq<char>
    decreases values.len(),
{
    if values.len() == 0 {
        Seq::empty()
    } else {
        trailing(values.drop_last()) + seq!['/'] + values.last()
    }
}

/// The path of a template whose slots hold the given values: the segments,
/// then the wildcard's values where the template has a wildcard. The path
/// with nothing in it is `/`.
pub open spec fn render(
    template: TemplateView,
    slots: Seq<Option<Seq<char>>>,
    wildcard_slots: Seq<Seq<char>>,
) -> Seq<char> {
    let body = filled(template.segments, slots) + if template.wildcard is Some {
        trailing(wildcard_slots)
    } else {
        Seq::empty()
    };
    if body.len() == 0 {
        seq!['/']
    } else {
        body
    }
}

/// The text of a truth value.
pub open spec fn bool_text(v: bool) -> Seq<char> {
    if v {
        seq!['t', 'r', 'u', 'e']
    } else {
        seq!['f', 'a', 'l', 's', 'e']
    }
}

/// The state of one run of values against a template.
pub struct Session {
    /// The template that is being filled.
    pub template: TemplateView,
    /// One slot for each capture, empty until its value is written.
    pub slots: Seq<Option<Seq<char>>>,
    /// The values that went to the wildcard, in their order.
    pub wildcard_slots: Seq<Seq<char>>,
    /// Where the next value goes: a slot, the wildcard (the number of
    /// slots), or nowhere.
    pub cursor: Option<nat>,
    /// Whether the values now come from inside a struct, map, tuple or
    /// sequence.
    pub nesting: bool,
    /// Whether the next scalar is the key of a map entry.
    pub pending_key: bool,
}

/// The session after a step, and what the step answers.
pub type Step = (Session, Result<(), ErrorView>);

impl Session {
    /// The session before any value, and again after each path: every slot
    /// is empty, and the cursor is on the first place where the template has
    /// a capture or a wildcard, else nowhere.
    pub open spec fn start(template: TemplateView) -> Session {
        Session {
            template,
            slots: Seq::new(template.idents.len(), |i: int| None),
            wildcard_slots: Seq::empty(),
            cursor: if template.idents.len() > 0 || template.wildcard is Some {
                Some(0nat)
            } else {
                None
            },
            nesting: false,
            pending_key: false,
        }
    }

    /// The template is well formed, each of its captures has its slot, and
    /// the cursor is on one of them, on the wildcard or nowhere.
    pub open spec fn wf(self) -> bool {
        &&& self.template.wf()
        &&& self.slots.len() == self.template.idents.len()
        &&& self.cursor matches Some(i) ==> i <= self.slots.len()
    }

    /// Every value that the session holds is made of the characters of
    /// encoded values alone.
    pub open spec fn encoded(self) -> bool {
        &&& forall|i: int|
            0 <= i < self.slots.len() && (#[trigger] self.slots[i]) is Some ==> is_escaped(
                self.slots[i]->0,
            )
        &&& forall|j: int|
            0 <= j < self.wildcard_slots.len() ==> is_escaped(#[trigger] self.wildcard_slots[j])
    }

    /// What each step keeps of a session: its template, its good form, and
    /// that its values are encoded.
    pub open spec fn kept_by(self, after: Session) -> bool {
        &&& after.template == self.template
        &&& after.wf()
        &&& after.encoded()
    }

    /// The step that leaves the session as it is and succeeds.
    pub open spec fn done(self) -> Step {
        (self, Ok(()))
    }

    /// The step that leaves the session as it is and fails.
    pub open spec fn fail(self, e: ErrorView) -> Step {
        (self, Err(e))
    }

    /// Whether the next value goes to the wildcard: the template has one,
    /// and the cursor is on it.
    pub open spec fn next_capture_is_wildcard(self) -> bool {
        self.template.wildcard is Some && self.cursor == Some(self.slots.len())
    }

    /// A scalar is in order inside a struct, map, tuple or sequence, and on
    /// its own where the template has one capture.
    pub open spec fn assert_elem(self) -> Step {
        if self.nesting || self.slots.len() == 1 {
            self.done()
        } else {
            self.fail(ErrorView::InvalidLen)
        }
    }

    /// Entering a struct, map or tuple: never from inside another, nor from
    /// inside a sequence.
    pub open spec fn set_nested(self) -> Step {
        if self.nesting {
            self.fail(ErrorView::DeepNesting)
        } else {
            (Session { nesting: true, ..self }).done()
        }
    }

    /// A struct, map or tuple that says how many values it holds must hold
    /// as many as the template takes, wherever the cursor is.
    pub open spec fn assert_len(self, len: Option<nat>) -> Step {
        if len is Some && self.template.param_count() != len->0 {
            self.fail(ErrorView::InvalidLen)
        } else {
            self.done()
        }
    }

    /// A sequence is in order only where the wildcard is next.
    pub open spec fn assert_wildcard(self) -> Step {
        if self.next_capture_is_wildcard() {
            self.done()
        } else {
            self.fail(ErrorView::NonWildcardCapture)
        }
    }

    /// Moves the cursor to the capture of a name: to the wildcard where the
    /// name is the wildcard's, else to the first capture of that name.
    pub open spec fn set_next_named_capture(self, ident: Seq<char>) -> Step {
        if self.template.wildcard == Some(ident) {
            (Session { cursor: Some(self.slots.len()), ..self }).done()
        } else {
            match position(self.template.idents, ident) {
                Some(i) => (Session { cursor: Some(i), ..self }).done(),
                None => self.fail(ErrorView::UnknownCapture(ident)),
            }
        }
    }

    /// Takes one encoded scalar: as the key of a map entry where one is
    /// pending, else as the value for the place under the cursor. A value
    /// written to a slot replaces what the slot held.
    pub open spec fn set_next_value(self, val: Seq<char>) -> Step {
        if self.pending_key {
            (Session { pending_key: false, ..self }).set_next_named_capture(val)
        } else {
            match self.cursor {
                None => self.fail(ErrorView::InvalidLen),
                Some(i) => if i == self.slots.len() {
                    (Session { wildcard_slots: self.wildcard_slots.push(val), ..self }).done()
                } else {
                    (Session { slots: self.slots.update(i as int, Some(val)), ..self }).done()
                },
            }
        }
    }

    /// Moves the cursor on after an element of a tuple: from a slot to the
    /// next place, from the wildcard to nowhere.
    pub open spec fn set_next_tuple_capture(self) -> Step {
        match self.cursor {
            None => self.fail(ErrorView::InvalidLen),
            Some(i) => if i == self.slots.len() {
                (Session { cursor: None, ..self }).done()
            } else {
                (Session { cursor: Some(i + 1), ..self }).done()
            },
        }
    }

    /// Takes one scalar whose encoded text is given.
    pub open spec fn scalar(self, val: Seq<char>) -> Step {
        if self.assert_elem().1 is Err {
            self.assert_elem()
        } else {
            self.set_next_value(val)
        }
    }

    /// Refuses a value of a kind that no template takes.
    pub open spec fn unsupported(self, kind: Seq<char>) -> Step {
        self.fail(ErrorView::TypeNotSupported(kind))
    }

    /// An optional value is in order only at the top.
    pub open spec fn option(self) -> Step {
        if self.nesting {
            self.unsupported("nested option"@)
        } else {
            self.done()
        }
    }

    /// Enters a sequence.
    pub open spec fn seq(self) -> Step {
        if self.assert_wildcard().1 is Err {
            self.assert_wildcard()
        } else {
            (Session { nesting: true, ..self }).done()
        }
    }

    /// Enters a struct, map or tuple that holds `len` values, if it says.
    pub open spec fn composite(self, len: Option<nat>) -> Step {
        let entered = self.set_nested();
        if entered.1 is Err {
            entered
        } else {
            entered.0.assert_len(len)
        }
    }

    /// Marks the next scalar as the key of a map entry.
    pub open spec fn key(self) -> Session {
        Session { pending_key: true, ..self }
    }

    /// The path of the values taken so far, or the capture that has none:
    /// the first such capture in the order of the template.
    pub open spec fn path(self) -> Result<Seq<char>, ErrorView> {
        match first_missing(self.slots) {
            Some(i) => Err(ErrorView::MissingCapture(self.template.idents[i as int])),
            None => Ok(render(self.template, self.slots, self.wildcard_slots)),
        }
    }
}

/// A scalar keeps the session in good form, whether it is taken or refused.
pub proof fn lemma_scalar_keeps(s: Session, val: Seq<char>)
    requires
        s.wf(),
        s.encoded(),
        is_escaped(val),
    ensures
        s.kept_by(s.scalar(val).0),
{
    let after = s.scalar(val).0;
    if s.assert_elem().1 is Ok {
        if s.pending_key {
            lemma_position(s.template.idents, val);
        }
    }
    assert(after.wf());
    assert(after.encoded());
}

/// A name keeps the session in good form, whether it is found or not.
pub proof fn lemma_named_keeps(s: Session, ident: Seq<char>)
    requires
        s.wf(),
        s.encoded(),
    ensures
        s.kept_by(s.set_next_named_capture(ident).0),
{
    lemma_position(s.template.idents, ident);
}

/// The text of a truth value is made of letters, so that it is its own
/// encoded form.
pub proof fn lemma_bool_text_is_escaped(v: bool)
    ensures
        is_escaped(bool_text(v)),
        escaped(bool_text(v)) == bool_text(v),
{
    lemma_escaped_plain(bool_text(v));
}

/// What each of some slots holds.
pub open spec fn slot_views(slots: Seq<Option<String>>) -> Seq<Option<Seq<char>>> {
    slots.map_values(
        |slot: Option<String>|
            match slot {
                Some(text) => Some(text@),
                None => None,
            },
    )
}

/// The characters of each of some strings.
pub open spec fn string_views(items: Seq<String>) -> Seq<Seq<char>> {
    items.map_values(|item: String| item@)
}

/// Fills the captures of a template with the values it is given, and writes
/// the path.
///
/// A value is handed over by the calls that describe it: a scalar by the
/// call for its type, a sequence, tuple, struct or map by the call that
/// enters it and then its parts in their order. [`Self::serialize_value`]
/// makes these calls for a [`crate::value::Value`].
pub struct PathSerializer<'s, 't> {
    template: &'t PathTemplate<'s>,
    values: Vec<Option<String>>,
    wildcard_values: Vec<String>,
    nested: bool,
    next_entry: Option<usize>,
    key_mode: bool,
}

impl<'s, 't> View for PathSerializer<'s, 't> {
    type V = Session;

    closed spec fn view(&self) -> Session {
        Session {
            template: self.template@,
            slots: slot_views(self.values@),
            wildcard_slots: string_views(self.wildcard_values@),
            cursor: match self.next_entry {
                Some(i) => Some(i as nat),
                None => None,
            },
            nesting: self.nested,
            pending_key: self.key_mode,
        }
    }
}

/// As many empty slots as asked for.
fn empty_slots(n: usize) -> (slots: Vec<Option<String>>)
    ensures
        slot_views(slots@) == Seq::new(n as nat, |i: int| None::<Seq<char>>),
{
    let mut slots: Vec<Option<String>> = Vec::new();
    let mut i: usize = 0;
    while i < n
        invariant
            i <= n,
            slots.len() == i,
            forall|k: int| 0 <= k < i ==> slots@[k] is None,
        decreases n - i,
    {
        slots.push(None);
        i += 1;
    }
    proof {
        assert(slot_views(slots@) =~= Seq::new(n as nat, |i: int| None::<Seq<char>>));
    }
    slots
}

impl<'s, 't> PathSerializer<'s, 't> {
    #[verifier::type_invariant]
    spec fn inv(self) -> bool {
        self@.wf()
    }

    /// A serializer for one template, before any value.
    pub fn new(template: &'t PathTemplate<'s>) -> (r: Self)
        ensures
            r@ == Session::start(template@),
            r@.wf(),
    {
        let idents = template.idents();
        let values = empty_slots(idents.len());
        let next_entry = if idents.len() > 0 || template.wildcard().is_some() {
            Some(0)
        } else {
            None
        };
        let wildcard_values: Vec<String> = Vec::new();
        proof {
            assert(string_views(wildcard_values@) == Seq::<Seq<char>>::empty());
        }
        PathSerializer {
            template,
            values,
            wildcard_values,
            nested: false,
            next_entry,
            key_mode: false,
        }
    }

    /// Takes the values out and leaves the serializer as it was before any
    /// value.
    fn reset(&mut self) -> (taken: (Vec<Option<String>>, Vec<String>))
        ensures
            final(self)@ == Session::start(old(self)@.template),
            slot_views(taken.0@) == old(self)@.slots,
            string_views(taken.1@) == old(self)@.wildcard_slots,
            final(self)@.wf(),
    {
        proof {
            use_type_invariant(&*self);
        }
        let slots: usize = self.template.idents().len();
        let mut values = empty_slots(slots);
        let mut wildcard_values: Vec<String> = Vec::new();
        proof {
            assert(string_views(wildcard_values@) == Seq::<Seq<char>>::empty());
        }
        std::mem::swap(&mut values, &mut self.values);
        std::mem::swap(&mut wildcard_values, &mut self.wildcard_values);
        self.nested = false;
        self.key_mode = false;
        self.next_entry = if slots > 0 || self.template.wildcard().is_some() {
            Some(0)
        } else {
            None
        };
        (values, wildcard_values)
    }

    /// The place of the first capture of a name.
    fn find_capture(&self, ident: &str) -> (r: Result<usize, Error>)
        ensures
            match r {
                Ok(i) => position(self@.template.idents, ident@) == Some(i as nat),
                Err(e) => position(self@.template.idents, ident@) is None
                    && e@ == ErrorView::UnknownCapture(ident@),
            },
    {
        proof {
            use_type_invariant(&*self);
        }
        let idents = self.template.idents();
        let mut i: usize = 0;
        proof {
            assert(texts(idents@).take(0) == Seq::<Seq<char>>::empty());
        }
        while i < idents.len()
            invariant
                i <= idents.len(),
                texts(idents@) == self@.template.idents,
                position(texts(idents@).take(i as int), ident@) is None,
            decreases idents.len() - i,
        {
            proof {
                let now = texts(idents@).take(i + 1);
                assert(now.drop_last() == texts(idents@).take(i as int));
                assert(now.last() == idents@[i as int]@);
            }
            if str_eq(idents[i], ident) {
                proof {
                    lemma_position_found(texts(idents@), ident@, i + 1);
                }
                return Ok(i);
            }
            i += 1;
        }
        proof {
            assert(texts(idents@).take(idents.len() as int) == texts(idents@));
        }
        Err(Error::UnknownCapture(ident.to_owned()))
    }

    /// Moves to the capture of a name, as the next field of a struct does.
    pub fn set_next_named_capture(&mut self, ident: &str) -> (r: Result<(), Error>)
        ensures
            (final(self)@, outcome(r)) == old(self)@.set_next_named_capture(ident@),
            final(self)@.wf(),
    {
        proof {
            use_type_invariant(&*self);
        }
        let is_wildcard = match self.template.wildcard() {
            Some(wildcard) => str_eq(ident, wildcard),
            None => false,
        };
        if is_wildcard {
            self.next_entry = Some(self.values.len());
            Ok(())
        } else {
            match self.find_capture(ident) {
                Ok(i) => {
                    proof {
                        lemma_position(self@.template.idents, ident@);
                    }
                    self.next_entry = Some(i);
                    Ok(())
                },
                Err(e) => Err(e),
            }
        }
    }

    /// Takes one encoded scalar, as a key or as the value under the cursor.
    fn set_next_value(&mut self, val: String) -> (r: Result<(), Error>)
        ensures
            (final(self)@, outcome(r)) == old(self)@.set_next_value(val@),
            final(self)@.wf(),
    {
        proof {
            use_type_invariant(&*self);
        }
        if self.key_mode {
            self.key_mode = false;
            return self.set_next_named_capture(val.as_str());
        }
        match self.next_entry {
            Some(idx) => {
                if idx == self.values.len() {
                    proof {
                        assert(string_views(self.wildcard_values@.push(val)) == string_views(
                            self.wildcard_values@,
                        ).push(val@));
                    }
                    let mut wildcard_values: Vec<String> = Vec::new();
                    std::mem::swap(&mut wildcard_values, &mut self.wildcard_values);
                    wildcard_values.push(val);
                    std::mem::swap(&mut wildcard_values, &mut self.wildcard_values);
                } else {
                    proof {
                        assert(slot_views(self.values@.update(idx as int, Some(val)))
                            == slot_views(self.values@).update(idx as int, Some(val@)));
                    }
                    self.values[idx] = Some(val);
                }
                Ok(())
            },
            None => Err(Error::InvalidLen),
        }
    }

    /// Whether a scalar is in order.
    fn assert_elem(&self) -> (r: Result<(), Error>)
        ensures
            (self@, outcome(r)) == self@.assert_elem(),
            self@.wf(),
    {
        proof {
            use_type_invariant(self);
        }
        if self.nested || self.values.len() == 1 {
            Ok(())
        } else {
            Err(Error::InvalidLen)
        }
    }

    /// Enters a struct, map or tuple, unless that goes too deep.
    fn set_nested(&mut self) -> (r: Result<(), Error>)
        ensures
            (final(self)@, outcome(r)) == old(self)@.set_nested(),
            final(self)@.wf(),
    {
        proof {
            use_type_invariant(&*self);
        }
        if self.nested {
            Err(Error::DeepNesting)
        } else {
            self.nested = true;
            Ok(())
        }
    }

    /// Whether a struct, map or tuple holds as many values as the template
    /// takes.
    fn assert_len(&self, len: Option<usize>) -> (r: Result<(), Error>)
        ensures
            (self@, outcome(r)) == self@.assert_len(
                match len {
                    Some(n) => Some(n as nat),
                    None => None,
                },
            ),
    {
        proof {
            use_type_invariant(&*self);
        }
        match len {
            Some(len) => {
                if self.template.param_count() == len {
                    Ok(())
                } else {
                    Err(Error::InvalidLen)
                }
            },
            None => Ok(()),
        }
    }

    /// Moves on to the next capture, as the end of an element of a tuple
    /// does.
    pub fn set_next_tuple_capture(&mut self) -> (r: Result<(), Error>)
        ensures
            (final(self)@, outcome(r)) == old(self)@.set_next_tuple_capture(),
            final(self)@.wf(),
    {
        proof {
            use_type_invariant(&*self);
        }
        match self.next_entry {
            Some(val) => {
                if val == self.values.len() {
                    self.next_entry = None;
                } else {
                    self.next_entry = Some(val + 1);
                }
                Ok(())
            },
            None => Err(Error::InvalidLen),
        }
    }

    /// Whether the next value goes to the wildcard.
    fn next_capture_is_wildcard(&self) -> (r: bool)
        ensures
            r == self@.next_capture_is_wildcard(),
            self@.wf(),
    {
        proof {
            use_type_invariant(self);
        }
        match self.next_entry {
            Some(id) => self.template.wildcard().is_some() && id == self.values.len(),
            None => false,
        }
    }

    /// Whether a sequence is in order.
    fn assert_wildcard(&self) -> (r: Result<(), Error>)
        ensures
            (self@, outcome(r)) == self@.assert_wildcard(),
            self@.wf(),
    {
        proof {
            use_type_invariant(self);
        }
        if self.next_capture_is_wildcard() {
            Ok(())
        } else {
            Err(Error::NonWildcardCapture)
        }
    }

    /// Takes a scalar, given by its encoded text.
    fn take_scalar(&mut self, value: String) -> (r: Result<(), Error>)
        ensures
            (final(self)@, outcome(r)) == old(self)@.scalar(value@),
            final(self)@.wf(),
    {
        match self.assert_elem() {
            Err(e) => Err(e),
            Ok(()) => self.set_next_value(value),
        }
    }

    /// Takes a string; a number with a fraction is handed over as its
    /// decimal text.
    pub fn serialize_str(&mut self, v: &str) -> (r: Result<(), Error>)
        ensures
            (final(self)@, outcome(r)) == old(self)@.scalar(escaped(v@)),
            final(self)@.wf(),
    {
        self.take_scalar(percent_encode(v))
    }

    /// Takes a truth value, written `true` or `false`.
    pub fn serialize_bool(&mut self, v: bool) -> (r: Result<(), Error>)
        ensures
            (final(self)@, outcome(r)) == old(self)@.scalar(bool_text(v)),
            final(self)@.wf(),
    {
        let value = if v {
            "true"
        } else {
            "false"
        }.to_owned();
        proof {
            reveal_strlit("true");
            reveal_strlit("false");
            assert(value@ =~= bool_text(v));
        }
        self.take_scalar(value)
    }

    /// Takes a character.
    pub fn serialize_char(&mut self, v: char) -> (r: Result<(), Error>)
        ensures
            (final(self)@, outcome(r)) == old(self)@.scalar(escaped(seq![v])),
            final(self)@.wf(),
    {
        let mut text = String::new();
        text.push(v);
        proof {
            assert(text@ == seq![v]);
        }
        self.take_scalar(percent_encode(text.as_str()))
    }

    /// Takes an unsigned number of any width.
    fn serialize_unsigned(&mut self, v: u128) -> (r: Result<(), Error>)
        ensures
            (final(self)@, outcome(r)) == old(self)@.scalar(escaped(decimal(v as nat))),
            final(self)@.wf(),
    {
        let text = unsigned_to_string(v);
        self.take_scalar(percent_encode(text.as_str()))
    }

    /// Takes a signed number of any width.
    fn serialize_signed(&mut self, v: i128) -> (r: Result<(), Error>)
        ensures
            (final(self)@, outcome(r)) == old(self)@.scalar(escaped(signed_decimal(v as int))),
            final(self)@.wf(),
    {
        let text = signed_to_string(v);
        self.take_scalar(percent_encode(text.as_str()))
    }

    /// Takes an unsigned number, written in decimal.
    pub fn serialize_u8(&mut self, v: u8) -> (r: Result<(), Error>)
        ensures
            (final(self)@, outcome(r)) == old(self)@.scalar(escaped(decimal(v as nat))),
            final(self)@.wf(),
    {
        self.serialize_unsigned(v as u128)
    }

    /// Takes an unsigned number, written in decimal.
    pub fn serialize_u16(&mut self, v: u16) -> (r: Result<(), Error>)
        ensures
            (final(self)@, outcome(r)) == old(self)@.scalar(escaped(decimal(v as nat))),
            final(self)@.wf(),
    {
        self.serialize_unsigned(v as u128)
    }

    /// Takes an unsigned number, written in decimal.
    pub fn serialize_u32(&mut self, v: u32) -> (r: Result<(), Error>)
        ensures
            (final(self)@, outcome(r)) == old(self)@.scalar(escaped(decimal(v as nat))),
            final(self)@.wf(),
    {
        self.serialize_unsigned(v as u128)
    }

    /// Takes an unsigned number, written in decimal.
    pub fn serialize_u64(&mut self, v: u64) -> (r: Result<(), Error>)
        ensures
            (final(self)@, outcome(r)) == old(self)@.scalar(escaped(decimal(v as nat))),
            final(self)@.wf(),
    {
        self.serialize_unsigned(v as u128)
    }

    /// Takes an unsigned number, written in decimal.
    pub fn serialize_u128(&mut self, v: u128) -> (r: Result<(), Error>)
        ensures
            (final(self)@, outcome(r)) == old(self)@.scalar(escaped(decimal(v as nat))),
            final(self)@.wf(),
    {
        self.serialize_unsigned(v)
    }

    /// Takes a signed number, written in decimal.
    pub fn serialize_i8(&mut self, v: i8) -> (r: Result<(), Error>)
        ensures
            (final(self)@, outcome(r)) == old(self)@.scalar(escaped(signed_decimal(v as int))),
            final(self)@.wf(),
    {
        self.serialize_signed(v as i128)
    }

    /// Takes a signed number, written in decimal.
    pub fn serialize_i16(&mut self, v: i16) -> (r: Result<(), Error>)
        ensures
            (final(self)@, outcome(r)) == old(self)@.scalar(escaped(signed_decimal(v as int))),
            final(self)@.wf(),
    {
        self.serialize_signed(v as i128)
    }

    /// Takes a signed number, written in decimal.
    pub fn serialize_i32(&mut self, v: i32) -> (r: Result<(), Error>)
        ensures
            (final(self)@, outcome(r)) == old(self)@.scalar(escaped(signed_decimal(v as int))),
            final(self)@.wf(),
    {
        self.serialize_signed(v as i128)
    }

    /// Takes a signed number, written in decimal.
    pub fn serialize_i64(&mut self, v: i64) -> (r: Result<(), Error>)
        ensures
            (final(self)@, outcome(r)) == old(self)@.scalar(escaped(signed_decimal(v as int))),
            final(self)@.wf(),
    {
        self.serialize_signed(v as i128)
    }

    /// Takes a signed number, written in decimal.
    pub fn serialize_i128(&mut self, v: i128) -> (r: Result<(), Error>)
        ensures
            (final(self)@, outcome(r)) == old(self)@.scalar(escaped(signed_decimal(v as int))),
            final(self)@.wf(),
    {
        self.serialize_signed(v)
    }
    /// Takes the variant of an enum that holds nothing: its name in lower
    /// case stands for it.
    pub fn serialize_unit_variant(&mut self, variant: &str) -> (r: Result<(), Error>)
        ensures
            (final(self)@, outcome(r)) == old(self)@.scalar(escaped(lowercase(variant@))),
            final(self)@.wf(),
    {
        let lower = variant.to_lowercase();
        self.serialize_str(lower.as_str())
    }

    /// Refuses a byte string.
    pub fn serialize_bytes(&self, _v: &[u8]) -> (r: Result<(), Error>)
        ensures
            (self@, outcome(r)) == self@.unsupported("&[u8])"@),
            self@.wf(),
    {
        proof {
            use_type_invariant(self);
        }
        Err(Error::TypeNotSupported("&[u8])"))
    }

    /// Refuses the unit value.
    pub fn serialize_unit(&self) -> (r: Result<(), Error>)
        ensures
            (self@, outcome(r)) == self@.unsupported("()"@),
            self@.wf(),
    {
        proof {
            use_type_invariant(self);
        }
        Err(Error::TypeNotSupported("()"))
    }

    /// Refuses a struct without fields.
    pub fn serialize_unit_struct(&self) -> (r: Result<(), Error>)
        ensures
            (self@, outcome(r)) == self@.unsupported("unit structs"@),
            self@.wf(),
    {
        proof {
            use_type_invariant(self);
        }
        Err(Error::TypeNotSupported("unit structs"))
    }

    /// Refuses the variant of an enum that holds one value.
    pub fn serialize_newtype_variant(&self) -> (r: Result<(), Error>)
        ensures
            (self@, outcome(r)) == self@.unsupported("Newtype variant"@),
            self@.wf(),
    {
        proof {
            use_type_invariant(self);
        }
        Err(Error::TypeNotSupported("Newtype variant"))
    }

    /// Refuses the variant of an enum that holds a tuple.
    pub fn serialize_tuple_variant(&self) -> (r: Result<(), Error>)
        ensures
            (self@, outcome(r)) == self@.unsupported("Tuple variant"@),
            self@.wf(),
    {
        proof {
            use_type_invariant(self);
        }
        Err(Error::TypeNotSupported("Tuple variant"))
    }

    /// Refuses the variant of an enum that holds fields.
    pub fn serialize_struct_variant(&self) -> (r: Result<(), Error>)
        ensures
            (self@, outcome(r)) == self@.unsupported("Struct variant"@),
            self@.wf(),
    {
        proof {
            use_type_invariant(self);
        }
        Err(Error::TypeNotSupported("Struct variant"))
    }

    /// An absent optional value: in order at the top, where it leaves every
    /// capture as it is.
    pub fn serialize_none(&self) -> (r: Result<(), Error>)
        ensures
            (self@, outcome(r)) == self@.option(),
            self@.wf(),
    {
        proof {
            use_type_invariant(self);
        }
        if self.nested {
            Err(Error::TypeNotSupported("nested option"))
        } else {
            Ok(())
        }
    }

    /// A present optional value: in order at the top. The value itself
    /// comes next.
    pub fn serialize_some(&self) -> (r: Result<(), Error>)
        ensures
            (self@, outcome(r)) == self@.option(),
            self@.wf(),
    {
        proof {
            use_type_invariant(self);
        }
        if self.nested {
            Err(Error::TypeNotSupported("nested option"))
        } else {
            Ok(())
        }
    }

    /// Enters a sequence: in order only where the wildcard is next. Its
    /// elements come next.
    pub fn serialize_seq(&mut self, _len: Option<usize>) -> (r: Result<(), Error>)
        ensures
            (final(self)@, outcome(r)) == old(self)@.seq(),
            final(self)@.wf(),
    {
        proof {
            use_type_invariant(&*self);
        }
        match self.assert_wildcard() {
            Err(e) => Err(e),
            Ok(()) => {
                self.nested = true;
                Ok(())
            },
        }
    }

    /// Enters a map of `len` entries, if it says how many. Each entry comes
    /// as [`Self::serialize_key`], the key, then the value.
    pub fn serialize_map(&mut self, len: Option<usize>) -> (r: Result<(), Error>)
        ensures
            (final(self)@, outcome(r)) == old(self)@.composite(
                match len {
                    Some(n) => Some(n as nat),
                    None => None,
                },
            ),
            final(self)@.wf(),
    {
        match self.set_nested() {
            Err(e) => Err(e),
            Ok(()) => self.assert_len(len),
        }
    }

    /// Enters a struct of `len` fields. Each field comes as
    /// [`Self::set_next_named_capture`] with its name, then the value.
    pub fn serialize_struct(&mut self, len: usize) -> (r: Result<(), Error>)
        ensures
            (final(self)@, outcome(r)) == old(self)@.composite(Some(len as nat)),
            final(self)@.wf(),
    {
        match self.set_nested() {
            Err(e) => Err(e),
            Ok(()) => self.assert_len(Some(len)),
        }
    }

    /// Enters a tuple of `len` elements. Each element comes as the value,
    /// then [`Self::set_next_tuple_capture`].
    pub fn serialize_tuple(&mut self, len: usize) -> (r: Result<(), Error>)
        ensures
            (final(self)@, outcome(r)) == old(self)@.composite(Some(len as nat)),
            final(self)@.wf(),
    {
        match self.set_nested() {
            Err(e) => Err(e),
            Ok(()) => self.assert_len(Some(len)),
        }
    }

    /// Enters a struct of `len` unnamed fields, which is taken as a tuple.
    pub fn serialize_tuple_struct(&mut self, len: usize) -> (r: Result<(), Error>)
        ensures
            (final(self)@, outcome(r)) == old(self)@.composite(Some(len as nat)),
            final(self)@.wf(),
    {
        self.serialize_tuple(len)
    }

    /// Says that the key of a map entry comes next.
    pub fn serialize_key(&mut self)
        ensures
            final(self)@ == old(self)@.key(),
            final(self)@.wf(),
    {
        proof {
            use_type_invariant(&*self);
        }
        self.key_mode = true;
    }

    /// Writes the path of the values taken so far and makes the serializer
    /// ready for the next run of values.
    ///
    /// Where a capture has no value, the first such capture in the order of
    /// the template is reported. The serializer is ready again either way.
    pub fn finalize(&mut self) -> (r: Result<String, Error>)
        ensures
            path_outcome(r) == old(self)@.path(),
            final(self)@ == Session::start(old(self)@.template),
            final(self)@.wf(),
    {
        proof {
            use_type_invariant(&*self);
        }
        let (values, wildcard_values) = self.reset();
        let segments = self.template.segments();
        let ghost views = segment_views(segments@);
        let ghost slots = slot_views(values@);
        let mut output = String::new();
        let mut next: usize = 0;
        let mut i: usize = 0;
        proof {
            assert(views.take(0) == Seq::<SegmentView>::empty());
            assert(slots.take(0) == Seq::<Option<Seq<char>>>::empty());
        }
        while i < segments.len()
            invariant
                i <= segments.len(),
                self@ == Session::start(old(self)@.template),
                self@.wf(),
                views == segment_views(segments@),
                slots == slot_views(values@),
                old(self)@.template.segments == views,
                old(self)@.template.idents == capture_names(views),
                old(self)@.slots == slots,
                slots.len() == capture_names(views).len(),
                values.len() == slots.len(),
                next == capture_names(views.take(i as int)).len(),
                first_missing(slots.take(next as int)) is None,
                output@ == filled(views.take(i as int), slots),
            decreases segments.len() - i,
        {
            proof {
                let now = views.take(i + 1);
                assert(now.drop_last() == views.take(i as int));
                assert(now.last() == segments@[i as int]@);
                lemma_capture_names_prefix(views, i + 1);
            }
            match segments[i] {
                Segment::Static(segment) => {
                    output.push('/');
                    output.append(segment);
                },
                Segment::Capture(ident) => {
                    proof {
                        let names = capture_names(views.take(i + 1));
                        assert(names.len() == next + 1);
                        assert(next < values.len());
                        let taken = slots.take(next + 1);
                        assert(taken.drop_last() == slots.take(next as int));
                        assert(taken.last() == slots[next as int]);
                    }
                    match &values[next] {
                        Some(value) => {
                            output.push('/');
                            output.append(value.as_str());
                        },
                        None => {
                            proof {
                                lemma_first_missing_found(slots, next + 1);
                                let names = capture_names(views.take(i + 1));
                                assert(names[next as int] == ident@);
                                assert(capture_names(views)[next as int] == ident@);
                            }
                            return Err(Error::MissingCapture(ident.to_owned()));
                        },
                    }
                    next += 1;
                },
            }
            i += 1;
        }
        proof {
            assert(views.take(segments.len() as int) == views);
            assert(slots.take(next as int) == slots);
        }
        if self.template.wildcard().is_some() {
            let ghost body = output@;
            let ghost extra = string_views(wildcard_values@);
            let mut j: usize = 0;
            proof {
                assert(extra.take(0) == Seq::<Seq<char>>::empty());
                assert(body + Seq::<char>::empty() == body);
            }
            while j < wildcard_values.len()
                invariant
                    j <= wildcard_values.len(),
                    self@ == Session::start(old(self)@.template),
                    self@.wf(),
                    extra == string_views(wildcard_values@),
                    output@ == body + trailing(extra.take(j as int)),
                decreases wildcard_values.len() - j,
            {
                proof {
                    let now = extra.take(j + 1);
                    assert(now.drop_last() == extra.take(j as int));
                    assert(now.last() == wildcard_values@[j as int]@);
                }
                let ghost before = trailing(extra.take(j as int));
                output.push('/');
                output.append(wildcard_values[j].as_str());
                proof {
                    assert(output@ == body + (before + seq!['/'] + wildcard_values@[j as int]@));
                }
                j += 1;
            }
            proof {
                assert(extra.take(wildcard_values.len() as int) == extra);
            }
        } else {
            proof {
                assert(output@ + Seq::<char>::empty() == output@);
            }
        }
        if output.as_str().is_empty() {
            output.push('/');
            proof {
                assert(output@ == seq!['/']);
            }
        }
        Ok(output)
    }
}

} // verus!
