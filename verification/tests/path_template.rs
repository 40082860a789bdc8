use comfund_paths::path_template::{Error, PathTemplate, Segment};

#[test]
fn test_empty() {
    let parsed = PathTemplate::new("/");
    let template = PathTemplate::new_static(&[], &[], None);

    assert_eq!(Ok(template), parsed);
}

#[test]
fn test_static_only() {
    let parsed = PathTemplate::new("/a/b/c");
    let template = PathTemplate::new_static(
        &[Segment::Static("a"), Segment::Static("b"), Segment::Static("c")],
        &[],
        None,
    );

    assert_eq!(Ok(template), parsed);
}

#[test]
fn test_captures_only() {
    let parsed = PathTemplate::new("/{a}/{b}/{c}");
    let template = PathTemplate::new_static(
        &[Segment::Capture("a"), Segment::Capture("b"), Segment::Capture("c")],
        &["a", "b", "c"],
        None,
    );

    assert_eq!(Ok(template), parsed);
}

#[test]
fn test_wildcard_only() {
    let parsed = PathTemplate::new("/{*a}");
    let template = PathTemplate::new_static(&[], &[], Some("a"));

    assert_eq!(Ok(template), parsed);
}

#[test]
fn test_normal() {
    let parsed = PathTemplate::new("/a/{b}/c/{d}/{*f}");
    let template = PathTemplate::new_static(
        &[
            Segment::Static("a"),
            Segment::Capture("b"),
            Segment::Static("c"),
            Segment::Capture("d"),
        ],
        &["b", "d"],
        Some("f"),
    );

    assert_eq!(Ok(template), parsed);
}

#[test]
fn test_no_leading_slash() {
    let expr = "a/b/c/d";
    assert!(PathTemplate::new(expr).is_ok())
}

#[test]
fn test_repeated_slashes() {
    let parsed = PathTemplate::new("//a//b////c//d");
    let template = PathTemplate::new_static(
        &[
            Segment::Static("a"),
            Segment::Static("b"),
            Segment::Static("c"),
            Segment::Static("d"),
        ],
        &[],
        None,
    );
    assert_eq!(Ok(template), parsed);
}

#[test]
fn test_unclosed_capture() {
    let parsed = PathTemplate::new("/{a/b/c");
    let parsed2 = PathTemplate::new("/a/b}/c/d");

    let error = Err(Error::UnclosedCapture);

    assert_eq!(parsed, error);
    assert_eq!(parsed2, error);
}

#[test]
fn test_invalid_ident() {
    let parsed = PathTemplate::new("/a/{b-s}/c/d");
    let parsed2 = PathTemplate::new("/a/{b?s}/c/d");
    let parsed3 = PathTemplate::new("/a/{b.s}/c/d");
    let parsed4 = PathTemplate::new("/a/{11b}/c/d");

    let error: Result<PathTemplate<'_>, Error> = Err(Error::InvalidIdent);

    assert_eq!(parsed, error.clone());
    assert_eq!(parsed2, error.clone());
    assert_eq!(parsed3, error.clone());
    assert_eq!(parsed4, error);
}

#[test]
fn test_invalid_wildcard() {
    let parsed = PathTemplate::new("/a/{*bs}/c/");
    let error = Err(Error::InvalidWildcard);

    assert_eq!(parsed, error);
}
