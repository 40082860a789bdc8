//! Path templates: static text, named captures and an optional trailing
//! wildcard capture, parsed from a route pattern.

use vstd::prelude::*;
use vstd::string::*;
use crate::text::{chars_of, str_eq};
use vstd::std_specs::cmp::PartialEqSpecImpl;

verus! {

/// A segment of a path template.
#[derive(Debug, Clone, Copy)]
pub enum Segment<'s> {
    /// Literal text, copied to the path as it stands.
    Static(&'s str),
    /// A place that a value fills; holds the name of the capture.
    Capture(&'s str),
}

/// What a [`Segment`] stands for.
pub enum SegmentView {
    Static(Seq<char>),
    Capture(Seq<char>),
}

impl<'s> View for Segment<'s> {
    type V = SegmentView;

    open spec fn view(&self) -> SegmentView {
        match *self {
            Segment::Static(text) => SegmentView::Static(text@),
            Segment::Capture(name) => SegmentView::Capture(name@),
        }
    }
}

/// Why a pattern is no template.
#[derive(Debug, Clone, Copy, PartialEq, Eq, Structural)]
pub enum Error {
    /// A component opens a capture without closing it, or closes one that
    /// was never opened.
    UnclosedCapture,
    /// A wildcard capture stands before the last component.
    InvalidWildcard,
    /// The name of a capture is no identifier.
    InvalidIdent,
    /// Static text holds a character that a URL path may not hold.
    InvalidPathChar,
}

/// The message of an error, in words.
pub open spec fn message_of(e: Error) -> Seq<char> {
    match e {
        Error::UnclosedCapture => "unclosed capture"@,
        Error::InvalidWildcard => "wildcard can only be the last capture in path template"@,
        Error::InvalidIdent => "capture ident should be a valid Rust ident"@,
        Error::InvalidPathChar =>
            "static segments of template should be valid url path substrings"@,
    }
}

impl Error {
    /// Says in words what is wrong with the pattern.
    pub fn message(&self) -> (text: String)
        ensures
            text@ == message_of(*self),
    {
        match self {
            Error::UnclosedCapture => "unclosed capture".to_owned(),
            Error::InvalidWildcard => "wildcard can only be the last capture in path template"
                .to_owned(),
            Error::InvalidIdent => "capture ident should be a valid Rust ident".to_owned(),
            Error::InvalidPathChar =>
                "static segments of template should be valid url path substrings".to_owned(),
        }
    }
}

/// What `char::is_alphabetic` answers for a character.
pub uninterp spec fn is_alphabetic(c: char) -> bool;

/// What `char::is_numeric` answers for a character.
pub uninterp spec fn is_numeric(c: char) -> bool;

/// `char::is_alphabetic` tells whether the character has the Unicode
/// property `Alphabetic`; the answer depends on the character alone.
pub assume_specification[ char::is_alphabetic ](c: char) -> (yes: bool)
    ensures
        yes == is_alphabetic(c),
;

/// `char::is_alphanumeric` answers yes exactly where `char::is_alphabetic`
/// or `char::is_numeric` does.
pub assume_specification[ char::is_alphanumeric ](c: char) -> (yes: bool)
    ensures
        yes == (is_alphabetic(c) || is_numeric(c)),
;

/// The characters that static text may hold.
pub open spec fn is_url_path_char(c: char) -> bool {
    ||| 'A' <= c <= 'Z'
    ||| 'a' <= c <= 'z'
    ||| '0' <= c <= '9'
    ||| c == '-'
    ||| c == '.'
    ||| c == '_'
    ||| c == '~'
    ||| c == '!'
    ||| c == '$'
    ||| c == '&'
    ||| c == '\''
    ||| c == '('
    ||| c == ')'
    ||| c == '*'
    ||| c == '+'
    ||| c == ','
    ||| c == ';'
    ||| c == '='
    ||| c == ':'
    ||| c == '@'
}

/// Static text is valid when each of its characters is.
pub open spec fn is_url_segment(text: Seq<char>) -> bool {
    forall|i: int| 0 <= i < text.len() ==> is_url_path_char(#[trigger] text[i])
}

/// An identifier starts with a letter or `_` and goes on with letters,
/// digits and `_`.
pub open spec fn is_ident(name: Seq<char>) -> bool {
    &&& name.len() > 0
    &&& (is_alphabetic(name[0]) || name[0] == '_')
    &&& forall|i: int| 0 < i < name.len() ==> is_ident_char(#[trigger] name[i])
}

/// The characters that an identifier may hold: letters, digits and `_`.
pub open spec fn is_ident_char(c: char) -> bool {
    is_alphabetic(c) || is_numeric(c) || c == '_'
}

/// The text between the braces of a component that is a capture: `None`
/// for a component without braces, an error where only one brace is there.
pub open spec fn capture_of(component: Seq<char>) -> Result<Option<Seq<char>>, Error> {
    let opens = component.len() > 0 && component.first() == '{';
    let closes = component.len() > 0 && component.last() == '}';
    if opens != closes {
        Err(Error::UnclosedCapture)
    } else if opens {
        Ok(Some(component.subrange(1, component.len() - 1)))
    } else {
        Ok(None)
    }
}

/// Whether the text between the braces names a wildcard.
pub open spec fn is_starred(inner: Seq<char>) -> bool {
    inner.len() > 0 && inner.first() == '*'
}

/// The wildcard that a component declares, if it declares one.
pub open spec fn wildcard_of(component: Seq<char>) -> Result<Option<Seq<char>>, Error> {
    match capture_of(component) {
        Err(e) => Err(e),
        Ok(None) => Ok(None),
        Ok(Some(inner)) => if is_starred(inner) {
            if is_ident(inner.skip(1)) {
                Ok(Some(inner.skip(1)))
            } else {
                Err(Error::InvalidIdent)
            }
        } else {
            Ok(None)
        },
    }
}

/// The segment that a component before the wildcard stands for.
pub open spec fn segment_of(component: Seq<char>) -> Result<SegmentView, Error> {
    match capture_of(component) {
        Err(e) => Err(e),
        Ok(Some(inner)) => if is_starred(inner) {
            Err(Error::InvalidWildcard)
        } else if is_ident(inner) {
            Ok(SegmentView::Capture(inner))
        } else {
            Err(Error::InvalidIdent)
        },
        Ok(None) => if is_url_segment(component) {
            Ok(SegmentView::Static(component))
        } else {
            Err(Error::InvalidPathChar)
        },
    }
}

/// The components of a pattern: the pieces between its slashes. A pattern
/// with `n` slashes has `n + 1` components, some of them possibly empty.
pub open spec fn components(pattern: Seq<char>) -> Seq<Seq<char>>
    decreases pattern.len(),
{
    if pattern.len() == 0 {
        seq![Seq::empty()]
    } else {
        let before = components(pattern.drop_last());
        if pattern.last() == '/' {
            before.push(Seq::empty())
        } else {
            before.drop_last().push(before.last().push(pattern.last()))
        }
    }
}

/// The segments that a run of components stands for. Empty components
/// stand for nothing; the first component in error decides the error.
pub open spec fn segments_of(parts: Seq<Seq<char>>) -> Result<Seq<SegmentView>, Error>
    decreases parts.len(),
{
    if parts.len() == 0 {
        Ok(Seq::empty())
    } else {
        match segments_of(parts.drop_last()) {
            Err(e) => Err(e),
            Ok(before) => if parts.last().len() == 0 {
                Ok(before)
            } else {
                match segment_of(parts.last()) {
                    Err(e) => Err(e),
                    Ok(segment) => Ok(before.push(segment)),
                }
            },
        }
    }
}

/// The names of the captures among the segments, in their order.
pub open spec fn capture_names(segments: Seq<SegmentView>) -> Seq<Seq<char>>
    decreases segments.len(),
{
    if segments.len() == 0 {
        Seq::empty()
    } else {
        let before = capture_names(segments.drop_last());
        match segments.last() {
            SegmentView::Capture(name) => before.push(name),
            SegmentView::Static(_) => before,
        }
    }
}

/// What parsing checks of one segment.
pub open spec fn checked_segment(segment: SegmentView) -> bool {
    match segment {
        SegmentView::Static(text) => text.len() > 0 && is_url_segment(text),
        SegmentView::Capture(name) => is_ident(name),
    }
}

/// What a [`PathTemplate`] stands for.
pub struct TemplateView {
    /// The segments, in the order in which a path is put together.
    pub segments: Seq<SegmentView>,
    /// The names of the captures, in the order of their segments.
    pub idents: Seq<Seq<char>>,
    /// The name of the wildcard capture, which comes after every segment.
    pub wildcard: Option<Seq<char>>,
}

impl TemplateView {
    /// Each capture among the segments has its entry in `idents`, at the
    /// place that its segment has among the captures, and `idents` holds
    /// nothing else. The wildcard is no segment and has no entry.
    pub open spec fn wf(self) -> bool {
        self.idents == capture_names(self.segments)
    }

    /// What parsing checks of a template: static text is not empty and holds
    /// only characters that a URL path may hold, and the names of the
    /// captures and of the wildcard are identifiers.
    pub open spec fn checked(self) -> bool {
        &&& self.wf()
        &&& forall|i: int|
            0 <= i < self.segments.len() ==> checked_segment(#[trigger] self.segments[i])
        &&& self.wildcard matches Some(name) ==> is_ident(name)
    }

    /// The template without segments and without a wildcard.
    pub open spec fn blank() -> TemplateView {
        TemplateView { segments: Seq::empty(), idents: Seq::empty(), wildcard: None }
    }

    /// Whether the template has neither segments nor a wildcard.
    pub open spec fn is_blank(self) -> bool {
        self.segments.len() == 0 && self.wildcard is None
    }

    /// The number of values that the template takes: one for each capture
    /// and one for the wildcard.
    pub open spec fn param_count(self) -> nat {
        self.idents.len() + if self.wildcard is Some { 1nat } else { 0nat }
    }
}

/// The pattern without its last character, where that is a slash.
pub open spec fn trim_slash(pattern: Seq<char>) -> Seq<char> {
    if pattern.len() > 0 && pattern.last() == '/' {
        pattern.drop_last()
    } else {
        pattern
    }
}

/// The template over some segments and a wildcard: the captures among the
/// segments give the names.
pub open spec fn assemble(
    segments: Result<Seq<SegmentView>, Error>,
    wildcard: Option<Seq<char>>,
) -> Result<TemplateView, Error> {
    match segments {
        Err(e) => Err(e),
        Ok(segments) => Ok(TemplateView { segments, idents: capture_names(segments), wildcard }),
    }
}

/// The template that a pattern stands for.
///
/// One trailing slash does not count. The last component may declare the
/// wildcard; the components before it give the segments.
pub open spec fn parse(pattern: Seq<char>) -> Result<TemplateView, Error> {
    let trimmed = trim_slash(pattern);
    if trimmed.len() == 0 {
        Ok(TemplateView::blank())
    } else {
        let parts = components(trimmed);
        match wildcard_of(parts.last()) {
            Err(e) => Err(e),
            Ok(wildcard) => {
                let body = if wildcard is Some { parts.drop_last() } else { parts };
                assemble(segments_of(body), wildcard)
            },
        }
    }
}

/// The characters of an optional string.
pub open spec fn opt_text(text: Option<&str>) -> Option<Seq<char>> {
    match text {
        Some(t) => Some(t@),
        None => None,
    }
}

/// The characters of an optional string, or the error in its place.
pub open spec fn res_opt_text(r: Result<Option<&str>, Error>) -> Result<Option<Seq<char>>, Error> {
    match r {
        Ok(text) => Ok(opt_text(text)),
        Err(e) => Err(e),
    }
}

/// A segment as a route pattern writes it: static text as it stands, a
/// capture between braces.
pub open spec fn segment_pattern(segment: SegmentView) -> Seq<char> {
    match segment {
        SegmentView::Static(text) => text,
        SegmentView::Capture(name) => seq!['{'] + name + seq!['}'],
    }
}

/// The segments as a route pattern writes them, a slash before each.
pub open spec fn segments_pattern(segments: Seq<SegmentView>) -> Seq<char>
    decreases segments.len(),
{
    if segments.len() == 0 {
        Seq::empty()
    } else {
        segments_pattern(segments.drop_last()) + seq!['/'] + segment_pattern(segments.last())
    }
}

/// The route pattern of a template in the syntax of axum: the wildcard is
/// written `{*name}`.
pub open spec fn axum_pattern(template: TemplateView) -> Seq<char> {
    segments_pattern(template.segments) + match template.wildcard {
        Some(name) => seq!['/', '{', '*'] + name + seq!['}'],
        None => Seq::empty(),
    }
}

/// The route pattern of a template in the syntax of actix-web: the wildcard
/// is written `{name:.*}`.
pub open spec fn actix_web_pattern(template: TemplateView) -> Seq<char> {
    segments_pattern(template.segments) + match template.wildcard {
        Some(name) => seq!['/', '{'] + name + seq![':', '.', '*', '}'],
        None => Seq::empty(),
    }
}

/// The characters of each of some strings.
pub open spec fn texts(items: Seq<&str>) -> Seq<Seq<char>> {
    items.map_values(|item: &str| item@)
}

/// What each of some segments stands for.
pub open spec fn segment_views(items: Seq<Segment>) -> Seq<SegmentView> {
    items.map_values(|item: Segment| item@)
}

/// The captures among the first segments are the first captures among
/// them all.
pub proof fn lemma_capture_names_prefix(segments: Seq<SegmentView>, n: int)
    requires
        0 <= n <= segments.len(),
    ensures
        capture_names(segments.take(n)).len() <= capture_names(segments).len(),
        capture_names(segments.take(n)) == capture_names(segments).take(
            capture_names(segments.take(n)).len() as int,
        ),
    decreases segments.len(),
{
    if n < segments.len() {
        assert(segments.drop_last().take(n) == segments.take(n));
        lemma_capture_names_prefix(segments.drop_last(), n);
        let short = capture_names(segments.take(n));
        let before = capture_names(segments.drop_last());
        assert(short == capture_names(segments).take(short.len() as int));
    } else {
        assert(segments.take(n) == segments);
        assert(capture_names(segments) == capture_names(segments).take(
            capture_names(segments).len() as int,
        ));
    }
}

/// The segments that components stand for have been checked, each of them.
pub proof fn lemma_segments_of_checked(parts: Seq<Seq<char>>)
    ensures
        segments_of(parts) matches Ok(segments) ==> forall|i: int|
            0 <= i < segments.len() ==> checked_segment(#[trigger] segments[i]),
    decreases parts.len(),
{
    if parts.len() > 0 {
        lemma_segments_of_checked(parts.drop_last());
    }
}

/// A template that comes out of parsing is well formed and has been checked.
pub proof fn lemma_parse_checked(pattern: Seq<char>)
    ensures
        parse(pattern) matches Ok(template) ==> template.checked(),
{
    let trimmed = trim_slash(pattern);
    if trimmed.len() > 0 {
        let parts = components(trimmed);
        if let Ok(wildcard) = wildcard_of(parts.last()) {
            let body = if wildcard is Some {
                parts.drop_last()
            } else {
                parts
            };
            lemma_segments_of_checked(body);
        }
    }
}

/// The empty pattern and the pattern that is one slash stand for the blank
/// template.
pub proof fn lemma_parse_blank()
    ensures
        parse(Seq::empty()) == Ok::<TemplateView, Error>(TemplateView::blank()),
        parse(seq!['/']) == Ok::<TemplateView, Error>(TemplateView::blank()),
{
    assert(seq!['/'].drop_last() =~= Seq::<char>::empty());
}

/// An error among the first components is the error of them all.
pub proof fn lemma_segments_of_error(parts: Seq<Seq<char>>, n: int)
    requires
        0 <= n <= parts.len(),
        segments_of(parts.take(n)) is Err,
    ensures
        segments_of(parts) == segments_of(parts.take(n)),
    decreases parts.len(),
{
    if n < parts.len() {
        assert(parts.drop_last().take(n) == parts.take(n));
        lemma_segments_of_error(parts.drop_last(), n);
    } else {
        assert(parts.take(n) == parts);
    }
}

/// Whether static text may hold the character.
pub fn is_valid_url_path_char(ch: char) -> (valid: bool)
    ensures
        valid == is_url_path_char(ch),
{
    ('A' <= ch && ch <= 'Z') || ('a' <= ch && ch <= 'z') || ('0' <= ch && ch <= '9') || ch == '-'
        || ch == '.' || ch == '_' || ch == '~' || ch == '!' || ch == '$' || ch == '&' || ch == '\''
        || ch == '(' || ch == ')' || ch == '*' || ch == '+' || ch == ',' || ch == ';' || ch == '='
        || ch == ':' || ch == '@'
}

/// Whether an identifier may start with the character, given whether the
/// character is alphabetic.
pub fn starts_ident(ch: char, alphabetic: bool) -> (starts: bool)
    ensures
        starts == (alphabetic || ch == '_'),
{
    alphabetic || ch == '_'
}

/// Whether an identifier may go on with the character, given whether the
/// character is alphanumeric.
pub fn continues_ident(ch: char, alphanumeric: bool) -> (continues: bool)
    ensures
        continues == (alphanumeric || ch == '_'),
{
    alphanumeric || ch == '_'
}

/// Whether a text is an identifier.
pub fn is_valid_ident(segment: &str) -> (valid: bool)
    ensures
        valid == is_ident(segment@),
{
    let chars = chars_of(segment);
    if chars.len() == 0 {
        return false;
    }
    let first = chars[0];
    if !starts_ident(first, first.is_alphabetic()) {
        return false;
    }
    let mut i: usize = 1;
    while i < chars.len()
        invariant
            1 <= i <= chars.len(),
            chars@ == segment@,
            forall|k: int| 0 < k < i ==> is_ident_char(#[trigger] chars@[k]),
        decreases chars.len() - i,
    {
        let c = chars[i];
        if !continues_ident(c, c.is_alphanumeric()) {
            return false;
        }
        i += 1;
    }
    true
}

/// The text itself where it is an identifier.
fn assert_ident<'s>(seg: &'s str) -> (r: Result<&'s str, Error>)
    ensures
        is_ident(seg@) ==> r == Ok::<&str, Error>(seg),
        !is_ident(seg@) ==> r == Err::<&str, Error>(Error::InvalidIdent),
{
    if is_valid_ident(seg) {
        Ok(seg)
    } else {
        Err(Error::InvalidIdent)
    }
}

/// The text itself where it may stand in a path as it is.
fn assert_url_segment<'s>(seg: &'s str) -> (r: Result<&'s str, Error>)
    ensures
        is_url_segment(seg@) ==> r == Ok::<&str, Error>(seg),
        !is_url_segment(seg@) ==> r == Err::<&str, Error>(Error::InvalidPathChar),
{
    let chars = chars_of(seg);
    let mut i: usize = 0;
    while i < chars.len()
        invariant
            i <= chars.len(),
            chars@ == seg@,
            forall|k: int| 0 <= k < i ==> is_url_path_char(#[trigger] chars@[k]),
        decreases chars.len() - i,
    {
        if !is_valid_url_path_char(chars[i]) {
            return Err(Error::InvalidPathChar);
        }
        i += 1;
    }
    Ok(seg)
}

/// The text between the braces of a component, where it has braces.
fn get_capture<'s>(seg: &'s str) -> (r: Result<Option<&'s str>, Error>)
    ensures
        res_opt_text(r) == capture_of(seg@),
{
    let len = seg.unicode_len();
    if len == 0 {
        return Ok(None);
    }
    let capture_start = seg.get_char(0) == '{';
    let capture_end = seg.get_char(len - 1) == '}';
    if capture_start != capture_end {
        return Err(Error::UnclosedCapture);
    }
    if capture_start {
        Ok(Some(seg.substring_char(1, len - 1)))
    } else {
        Ok(None)
    }
}

/// Whether the text starts with `*`.
fn starts_with_star(text: &str) -> (starred: bool)
    ensures
        starred == is_starred(text@),
{
    text.unicode_len() > 0 && text.get_char(0) == '*'
}

/// The name of the wildcard that a component declares, where it declares
/// one.
fn get_wildcard<'s>(seg: &'s str) -> (r: Result<Option<&'s str>, Error>)
    ensures
        res_opt_text(r) == wildcard_of(seg@),
{
    match get_capture(seg) {
        Err(e) => Err(e),
        Ok(None) => Ok(None),
        Ok(Some(capture)) => {
            if starts_with_star(capture) {
                let ident = capture.substring_char(1, capture.unicode_len());
                match assert_ident(ident) {
                    Err(e) => Err(e),
                    Ok(_) => Ok(Some(ident)),
                }
            } else {
                Ok(None)
            }
        },
    }
}

/// The pieces of a pattern between its slashes.
fn split_components<'s>(pattern: &'s str) -> (parts: Vec<&'s str>)
    ensures
        texts(parts@) == components(pattern@),
        parts.len() > 0,
{
    let chars = chars_of(pattern);
    let mut parts: Vec<&'s str> = Vec::new();
    let mut start: usize = 0;
    let mut i: usize = 0;
    assert(pattern@.take(0) == Seq::<char>::empty());
    assert(pattern@.subrange(0, 0) == Seq::<char>::empty());
    assert(texts(parts@).push(Seq::<char>::empty()) == seq![Seq::<char>::empty()]);
    while i < chars.len()
        invariant
            start <= i <= chars.len(),
            chars@ == pattern@,
            components(pattern@.take(i as int)) == texts(parts@).push(
                pattern@.subrange(start as int, i as int),
            ),
        decreases chars.len() - i,
    {
        let ghost before = pattern@.take(i as int);
        let ghost now = pattern@.take(i + 1);
        assert(now.drop_last() == before);
        assert(now.last() == chars@[i as int]);
        let ghost piece = pattern@.subrange(start as int, i as int);
        if chars[i] == '/' {
            let part = pattern.substring_char(start, i);
            proof {
                assert(texts(parts@.push(part)) == texts(parts@).push(piece));
                assert(pattern@.subrange(i + 1, i + 1) == Seq::<char>::empty());
            }
            parts.push(part);
            start = i + 1;
        } else {
            proof {
                let all = texts(parts@).push(piece);
                assert(all.drop_last() == texts(parts@));
                assert(all.last() == piece);
                assert(piece.push(chars@[i as int]) == pattern@.subrange(start as int, i + 1));
            }
        }
        i += 1;
    }
    let part = pattern.substring_char(start, chars.len());
    proof {
        assert(pattern@.take(chars.len() as int) == pattern@);
        assert(texts(parts@.push(part)) == texts(parts@).push(part@));
    }
    parts.push(part);
    parts
}

/// Takes the wildcard off the end of the components, where the last of them
/// declares one.
fn trim_wildcard<'s>(parts: Vec<&'s str>) -> (r: Result<(Vec<&'s str>, Option<&'s str>), Error>)
    requires
        parts.len() > 0,
    ensures
        match r {
            Ok((body, wildcard)) => {
                &&& wildcard_of(texts(parts@).last()) == Ok::<Option<Seq<char>>, Error>(
                    opt_text(wildcard),
                )
                &&& wildcard is Some ==> body@ == parts@.drop_last()
                &&& wildcard is None ==> body@ == parts@
            },
            Err(e) => wildcard_of(texts(parts@).last()) == Err::<Option<Seq<char>>, Error>(e),
        },
{
    let mut parts = parts;
    let last_segment = parts[parts.len() - 1];
    match get_wildcard(last_segment) {
        Err(e) => Err(e),
        Ok(wildcard) => {
            if wildcard.is_some() {
                parts.pop();
            }
            Ok((parts, wildcard))
        },
    }
}

/// The segments of a template, owned or borrowed for the whole run.
#[derive(Debug)]
enum Segments<'s> {
    Owned(Vec<Segment<'s>>),
    Static(&'static [Segment<'static>]),
}

impl<'s> View for Segments<'s> {
    type V = Seq<SegmentView>;

    closed spec fn view(&self) -> Seq<SegmentView> {
        match *self {
            Segments::Owned(items) => segment_views(items@),
            Segments::Static(items) => segment_views(items@),
        }
    }
}

/// The capture names of a template, owned or borrowed for the whole run.
#[derive(Debug)]
enum Idents<'s> {
    Owned(Vec<&'s str>),
    Static(&'static [&'static str]),
}

impl<'s> View for Idents<'s> {
    type V = Seq<Seq<char>>;

    closed spec fn view(&self) -> Seq<Seq<char>> {
        match *self {
            Idents::Owned(items) => texts(items@),
            Idents::Static(items) => texts(items@),
        }
    }
}

/// A parsed route pattern.
#[derive(Debug)]
pub struct PathTemplate<'s> {
    segments: Segments<'s>,
    idents: Idents<'s>,
    wildcard: Option<&'s str>,
}

impl<'s> View for PathTemplate<'s> {
    type V = TemplateView;

    closed spec fn view(&self) -> TemplateView {
        TemplateView {
            segments: self.segments@,
            idents: self.idents@,
            wildcard: opt_text(self.wildcard),
        }
    }
}

impl<'s> Clone for Segments<'s> {
    fn clone(&self) -> (r: Self)
        ensures
            r@ == self@,
    {
        match self {
            Segments::Owned(items) => {
                let mut copy: Vec<Segment<'s>> = Vec::new();
                let mut i: usize = 0;
                while i < items.len()
                    invariant
                        i <= items.len(),
                        copy@ == items@.take(i as int),
                    decreases items.len() - i,
                {
                    copy.push(items[i]);
                    proof {
                        assert(items@.take(i + 1) == items@.take(i as int).push(items@[i as int]));
                    }
                    i += 1;
                }
                proof {
                    assert(items@.take(items.len() as int) == items@);
                }
                Segments::Owned(copy)
            },
            Segments::Static(items) => Segments::Static(items),
        }
    }
}

impl<'s> Clone for Idents<'s> {
    fn clone(&self) -> (r: Self)
        ensures
            r@ == self@,
    {
        match self {
            Idents::Owned(items) => {
                let mut copy: Vec<&'s str> = Vec::new();
                let mut i: usize = 0;
                while i < items.len()
                    invariant
                        i <= items.len(),
                        copy@ == items@.take(i as int),
                    decreases items.len() - i,
                {
                    copy.push(items[i]);
                    proof {
                        assert(items@.take(i + 1) == items@.take(i as int).push(items@[i as int]));
                    }
                    i += 1;
                }
                proof {
                    assert(items@.take(items.len() as int) == items@);
                }
                Idents::Owned(copy)
            },
            Idents::Static(items) => Idents::Static(items),
        }
    }
}

impl<'s> Clone for PathTemplate<'s> {
    fn clone(&self) -> (r: Self)
        ensures
            r@ == self@,
    {
        proof {
            use_type_invariant(self);
        }
        PathTemplate {
            segments: self.segments.clone(),
            idents: self.idents.clone(),
            wildcard: self.wildcard,
        }
    }
}

impl<'s> PartialEq for Segment<'s> {
    fn eq(&self, other: &Self) -> (r: bool) {
        match (*self, *other) {
            (Segment::Static(a), Segment::Static(b)) => str_eq(a, b),
            (Segment::Capture(a), Segment::Capture(b)) => str_eq(a, b),
            _ => false,
        }
    }
}

impl<'s> PartialEqSpecImpl for Segment<'s> {
    open spec fn obeys_eq_spec() -> bool {
        true
    }

    /// Two segments are equal when they are of one kind and hold the same
    /// characters.
    open spec fn eq_spec(&self, other: &Self) -> bool {
        self@ == other@
    }
}

/// Whether two lists hold equal segments at each place.
fn same_segments(a: &[Segment], b: &[Segment]) -> (same: bool)
    ensures
        same == (segment_views(a@) == segment_views(b@)),
{
    if a.len() != b.len() {
        proof {
            assert(segment_views(a@).len() != segment_views(b@).len());
        }
        return false;
    }
    let mut i: usize = 0;
    while i < a.len()
        invariant
            i <= a.len(),
            a.len() == b.len(),
            forall|k: int| 0 <= k < i ==> a@[k]@ == b@[k]@,
        decreases a.len() - i,
    {
        if a[i] != b[i] {
            proof {
                assert(segment_views(a@)[i as int] == a@[i as int]@);
                assert(segment_views(b@)[i as int] == b@[i as int]@);
            }
            return false;
        }
        i += 1;
    }
    proof {
        assert(segment_views(a@) =~= segment_views(b@));
    }
    true
}

/// Whether two lists hold the same characters at each place.
fn same_texts(a: &[&str], b: &[&str]) -> (same: bool)
    ensures
        same == (texts(a@) == texts(b@)),
{
    if a.len() != b.len() {
        proof {
            assert(texts(a@).len() != texts(b@).len());
        }
        return false;
    }
    let mut i: usize = 0;
    while i < a.len()
        invariant
            i <= a.len(),
            a.len() == b.len(),
            forall|k: int| 0 <= k < i ==> a@[k]@ == b@[k]@,
        decreases a.len() - i,
    {
        if !str_eq(a[i], b[i]) {
            proof {
                assert(texts(a@)[i as int] == a@[i as int]@);
                assert(texts(b@)[i as int] == b@[i as int]@);
            }
            return false;
        }
        i += 1;
    }
    proof {
        assert(texts(a@) =~= texts(b@));
    }
    true
}

impl<'s> PartialEq for PathTemplate<'s> {
    fn eq(&self, other: &Self) -> (r: bool) {
        let wildcards = match (self.wildcard, other.wildcard) {
            (Some(a), Some(b)) => str_eq(a, b),
            (None, None) => true,
            _ => false,
        };
        wildcards && same_segments(self.segments.as_slice(), other.segments.as_slice())
            && same_texts(self.idents.as_slice(), other.idents.as_slice())
    }
}

impl<'s> PartialEqSpecImpl for PathTemplate<'s> {
    open spec fn obeys_eq_spec() -> bool {
        true
    }

    /// Two templates are equal when they stand for the same segments, names
    /// and wildcard, however they hold them.
    open spec fn eq_spec(&self, other: &Self) -> bool {
        self@ == other@
    }
}

/// `Vec::leak` hands out the vector's items as a slice that lives for the
/// rest of the run; the items and their order stay.
#[verifier::external_body]
fn leak_vec<T: 'static>(items: Vec<T>) -> (r: &'static [T])
    ensures
        r@ == items@,
{
    items.leak()
}

impl Segments<'static> {
    /// The same segments, handed over to the rest of the run: whatever held
    /// them before, the result holds them as a slice that lives as long as
    /// the run does, item for item. Segments that were held so already come
    /// back as they are.
    pub fn leak(self) -> (r: Self)
        ensures
            r.is_leaked(),
            r.items() == self.items(),
            r@ == self@,
            self.is_leaked() ==> r == self,
    {
        match self {
            Segments::Owned(owned) => Segments::Static(leak_vec(owned)),
            Segments::Static(st) => Segments::Static(st),
        }
    }
}

impl<'s> Segments<'s> {
    /// The segments themselves, in their order, however they are held.
    pub closed spec fn items(&self) -> Seq<Segment<'s>> {
        match *self {
            Segments::Owned(items) => items@,
            Segments::Static(items) => items@,
        }
    }

    /// Whether the segments are held as a slice that lives as long as the
    /// run does.
    pub closed spec fn is_leaked(&self) -> bool {
        *self is Static
    }

    fn as_slice(&self) -> (r: &[Segment<'s>])
        ensures
            segment_views(r@) == self@,
    {
        match self {
            Segments::Owned(items) => items.as_slice(),
            Segments::Static(items) => items,
        }
    }
}

impl Idents<'static> {
    /// The same names, handed over to the rest of the run: whatever held
    /// them before, the result holds them as a slice that lives as long as
    /// the run does, name for name. Names that were held so already come
    /// back as they are.
    pub fn leak(self) -> (r: Self)
        ensures
            r.is_leaked(),
            r.items() == self.items(),
            r@ == self@,
            self.is_leaked() ==> r == self,
    {
        match self {
            Idents::Owned(owned) => Idents::Static(leak_vec(owned)),
            Idents::Static(st) => Idents::Static(st),
        }
    }
}

impl<'s> Idents<'s> {
    /// The names themselves, in their order, however they are held.
    pub closed spec fn items(&self) -> Seq<&'s str> {
        match *self {
            Idents::Owned(items) => items@,
            Idents::Static(items) => items@,
        }
    }

    /// Whether the names are held as a slice that lives as long as the run
    /// does.
    pub closed spec fn is_leaked(&self) -> bool {
        *self is Static
    }

    fn as_slice(&self) -> (r: &[&'s str])
        ensures
            texts(r@) == self@,
    {
        match self {
            Idents::Owned(items) => items.as_slice(),
            Idents::Static(items) => items,
        }
    }
}

impl PathTemplate<'static> {
    /// A template over data that lives for the whole run.
    pub fn new_static(
        segments: &'static [Segment<'static>],
        idents: &'static [&'static str],
        wildcard: Option<&'static str>,
    ) -> (r: Self)
        requires
            texts(idents@) == capture_names(segment_views(segments@)),
            idents@.len() < usize::MAX,
        ensures
            r@ == (TemplateView {
                segments: segment_views(segments@),
                idents: texts(idents@),
                wildcard: opt_text(wildcard),
            }),
            r@.wf(),
    {
        PathTemplate {
            segments: Segments::Static(segments),
            idents: Idents::Static(idents),
            wildcard,
        }
    }

    /// The same template, with its lists handed over to the rest of the run.
    pub fn leak(self) -> (r: Self)
        ensures
            r@ == self@,
            r@.wf(),
    {
        proof {
            use_type_invariant(&self);
        }
        let PathTemplate { segments, idents, wildcard } = self;
        PathTemplate { segments: segments.leak(), idents: idents.leak(), wildcard }
    }
}

impl<'s> PathTemplate<'s> {
    #[verifier::type_invariant]
    spec fn inv(self) -> bool {
        &&& self@.wf()
        &&& self@.param_count() <= usize::MAX
    }

    /// Parses a route pattern.
    ///
    /// One trailing slash is dropped first. The last component may declare
    /// the wildcard, as `{*name}`; each component before it is static text
    /// or a capture, as `{name}`, and empty components are skipped.
    pub fn new(expr: &'s str) -> (r: Result<Self, Error>)
        ensures
            match r {
                Ok(template) => parse(expr@) == Ok::<TemplateView, Error>(template@)
                    && template@.checked(),
                Err(e) => parse(expr@) == Err::<TemplateView, Error>(e),
            },
    {
        proof {
            lemma_parse_checked(expr@);
        }
        let len = expr.unicode_len();
        let trimmed = if len > 0 && expr.get_char(len - 1) == '/' {
            expr.substring_char(0, len - 1)
        } else {
            expr
        };
        assert(trimmed@ == trim_slash(expr@));
        if trimmed.unicode_len() == 0 {
            let segments: Vec<Segment<'s>> = Vec::new();
            let idents: Vec<&'s str> = Vec::new();
            proof {
                assert(segment_views(segments@) == Seq::<SegmentView>::empty());
                assert(texts(idents@) == Seq::<Seq<char>>::empty());
            }
            return Ok(
                PathTemplate {
                    segments: Segments::Owned(segments),
                    idents: Idents::Owned(idents),
                    wildcard: None,
                },
            );
        }
        let all = split_components(trimmed);
        let (parts, wildcard) = match trim_wildcard(all) {
            Err(e) => {
                return Err(e);
            },
            Ok(trimmed) => trimmed,
        };
        proof {
            if wildcard is Some {
                assert(texts(parts@) == texts(all@).drop_last());
            }
            assert(parse(expr@) == assemble(segments_of(texts(parts@)), opt_text(wildcard)));
        }
        let mut segments: Vec<Segment<'s>> = Vec::new();
        let mut idents: Vec<&'s str> = Vec::new();
        let mut i: usize = 0;
        proof {
            assert(texts(parts@).take(0) == Seq::<Seq<char>>::empty());
            assert(segment_views(segments@) == Seq::<SegmentView>::empty());
            assert(texts(idents@) == Seq::<Seq<char>>::empty());
        }
        while i < parts.len()
            invariant
                i <= parts.len(),
                parse(expr@) == assemble(segments_of(texts(parts@)), opt_text(wildcard)),
                segments_of(texts(parts@).take(i as int)) == Ok::<Seq<SegmentView>, Error>(
                    segment_views(segments@),
                ),
                texts(idents@) == capture_names(segment_views(segments@)),
                idents.len() <= i,
                wildcard is Some ==> parts.len() < usize::MAX,
            decreases parts.len() - i,
        {
            let seg = parts[i];
            let ghost before = texts(parts@).take(i as int);
            let ghost now = texts(parts@).take(i + 1);
            let ghost views = segment_views(segments@);
            proof {
                assert(now.drop_last() == before);
                assert(now.last() == seg@);
            }
            if seg.unicode_len() != 0 {
                match get_capture(seg) {
                    Err(e) => {
                        proof {
                            lemma_segments_of_error(texts(parts@), i + 1);
                        }
                        return Err(e);
                    },
                    Ok(Some(ident)) => {
                        if starts_with_star(ident) {
                            proof {
                                lemma_segments_of_error(texts(parts@), i + 1);
                            }
                            return Err(Error::InvalidWildcard);
                        }
                        match assert_ident(ident) {
                            Err(e) => {
                                proof {
                                    lemma_segments_of_error(texts(parts@), i + 1);
                                }
                                return Err(e);
                            },
                            Ok(ident) => {
                                let segment = Segment::Capture(ident);
                                proof {
                                    let grown = segment_views(segments@.push(segment));
                                    assert(grown == views.push(segment@));
                                    assert(grown.drop_last() == views);
                                    assert(texts(idents@.push(ident)) == texts(idents@).push(
                                        ident@,
                                    ));
                                }
                                segments.push(segment);
                                idents.push(ident);
                            },
                        }
                    },
                    Ok(None) => {
                        match assert_url_segment(seg) {
                            Err(e) => {
                                proof {
                                    lemma_segments_of_error(texts(parts@), i + 1);
                                }
                                return Err(e);
                            },
                            Ok(seg) => {
                                let segment = Segment::Static(seg);
                                proof {
                                    let grown = segment_views(segments@.push(segment));
                                    assert(grown == views.push(segment@));
                                    assert(grown.drop_last() == views);
                                }
                                segments.push(segment);
                            },
                        }
                    },
                }
            }
            i += 1;
        }
        proof {
            assert(texts(parts@).take(parts.len() as int) == texts(parts@));
        }
        Ok(
            PathTemplate {
                segments: Segments::Owned(segments),
                idents: Idents::Owned(idents),
                wildcard,
            },
        )
    }

    /// The segments between the slashes of the template.
    pub fn segments(&self) -> (r: &[Segment<'s>])
        ensures
            segment_views(r@) == self@.segments,
            self@.wf(),
    {
        proof {
            use_type_invariant(self);
        }
        self.segments.as_slice()
    }

    /// The names of the captures.
    pub fn idents(&self) -> (r: &[&'s str])
        ensures
            texts(r@) == self@.idents,
            self@.wf(),
    {
        proof {
            use_type_invariant(self);
        }
        self.idents.as_slice()
    }

    /// The name of the wildcard capture, if the template has one.
    pub fn wildcard(&self) -> (r: Option<&'s str>)
        ensures
            opt_text(r) == self@.wildcard,
    {
        self.wildcard
    }

    /// The number of captures in the template, the wildcard among them.
    pub fn param_count(&self) -> (r: usize)
        ensures
            r == self@.param_count(),
    {
        proof {
            use_type_invariant(self);
        }
        self.idents.as_slice().len() + if self.wildcard.is_some() {
            1
        } else {
            0
        }
    }

    /// Whether the template has neither segments nor a wildcard.
    pub fn is_blank(&self) -> (r: bool)
        ensures
            r == self@.is_blank(),
    {
        self.segments.as_slice().len() == 0 && self.wildcard.is_none()
    }

    /// The segments written as a route pattern.
    fn write_segments(&self) -> (output: String)
        ensures
            output@ == segments_pattern(self@.segments),
    {
        let segments = self.segments.as_slice();
        let mut output = String::new();
        let mut i: usize = 0;
        proof {
            assert(segment_views(segments@).take(0) == Seq::<SegmentView>::empty());
        }
        while i < segments.len()
            invariant
                i <= segments.len(),
                output@ == segments_pattern(segment_views(segments@).take(i as int)),
            decreases segments.len() - i,
        {
            proof {
                let now = segment_views(segments@).take(i + 1);
                assert(now.drop_last() == segment_views(segments@).take(i as int));
                assert(now.last() == segments@[i as int]@);
            }
            output.push('/');
            match segments[i] {
                Segment::Static(seg) => {
                    output.append(seg);
                },
                Segment::Capture(ident) => {
                    output.push('{');
                    output.append(ident);
                    output.push('}');
                },
            }
            proof {
                let so_far = segments_pattern(segment_views(segments@).take(i as int));
                let piece = segment_pattern(segments@[i as int]@);
                assert(output@ == so_far + seq!['/'] + piece);
            }
            i += 1;
        }
        proof {
            assert(segment_views(segments@).take(segments.len() as int) == segment_views(
                segments@,
            ));
        }
        output
    }

    /// The template as a route pattern for axum.
    pub fn generate_axum_template(&self) -> (output: String)
        ensures
            output@ == axum_pattern(self@),
    {
        let mut output = self.write_segments();
        if let Some(ident) = self.wildcard {
            let ghost before = output@;
            output.push('/');
            output.push('{');
            output.push('*');
            output.append(ident);
            output.push('}');
            proof {
                assert(output@ == before + (seq!['/', '{', '*'] + ident@ + seq!['}']));
            }
        } else {
            proof {
                assert(output@ == output@ + Seq::<char>::empty());
            }
        }
        output
    }

    /// The template as a route pattern for actix-web.
    pub fn generate_actix_web_template(&self) -> (output: String)
        ensures
            output@ == actix_web_pattern(self@),
    {
        let mut output = self.write_segments();
        if let Some(ident) = self.wildcard {
            let ghost before = output@;
            output.push('/');
            output.push('{');
            output.append(ident);
            output.push(':');
            output.push('.');
            output.push('*');
            output.push('}');
            proof {
                assert(output@ == before + (seq!['/', '{'] + ident@ + seq![':', '.', '*', '}']));
            }
        } else {
            proof {
                assert(output@ == output@ + Seq::<char>::empty());
            }
        }
        output
    }
}

} // verus!
