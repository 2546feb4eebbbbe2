use yash::parser::{finish, Error, ErrorCause, Rec, Scripted};
use yash::source::Location;

fn exhausted() -> Error {
    Error {
        cause: ErrorCause::UnexpectedToken,
        location: Location::dummy(),
    }
}

#[test]
fn finish_skips_alias_substitutions() {
    let mut f = Scripted::new(2, Ok(Rec::Empty(7u32)), exhausted());
    assert_eq!(finish(&mut f), Ok(7));
    let mut f = Scripted::new(0, Ok(Rec::NonEmpty(3u32)), exhausted());
    assert_eq!(finish(&mut f), Ok(3));
    assert_eq!(finish(&mut f), Err(exhausted()));
}

#[test]
fn finish_passes_errors_on() {
    let error = Error {
        cause: ErrorCause::MissingHereDocDelimiter,
        location: Location::dummy(),
    };
    let mut f = Scripted::<u32>::new(5, Err(error.clone()), exhausted());
    assert_eq!(finish(&mut f), Err(error));
}

#[test]
fn zip_short_circuits_on_substitution() {
    let mut f = Scripted::new(1, Ok(Rec::Empty(9u32)), exhausted());
    assert_eq!(
        Rec::<u32>::AliasSubstituted.zip(&mut f),
        Ok(Rec::AliasSubstituted)
    );
    assert_eq!(Rec::Empty(1u32).zip(&mut f), Ok(Rec::AliasSubstituted));
    assert_eq!(Rec::Empty(1u32).zip(&mut f), Ok(Rec::Empty((1, 9))));
}

#[test]
fn zip_retries_after_consumption() {
    let mut f = Scripted::new(3, Ok(Rec::Empty(6u32)), exhausted());
    assert_eq!(Rec::NonEmpty(5u32).zip(&mut f), Ok(Rec::NonEmpty((5, 6))));
    let mut f = Scripted::new(0, Ok(Rec::NonEmpty(2u32)), exhausted());
    assert_eq!(Rec::Empty(4u32).zip(&mut f), Ok(Rec::NonEmpty((4, 2))));
}

#[test]
fn map_transforms_the_value() {
    assert_eq!(Rec::Empty(2).map(|x| Ok(x * 10)), Ok(Rec::Empty(20)));
    assert_eq!(Rec::NonEmpty(2).map(|x| Ok(x + 1)), Ok(Rec::NonEmpty(3)));
    assert_eq!(
        Rec::<u32>::AliasSubstituted.map(|x| Ok(x)),
        Ok(Rec::AliasSubstituted)
    );
    assert_eq!(
        Rec::Empty(2u32).map(|_| Err::<u32, Error>(exhausted())),
        Err(exhausted())
    );
}
