use contort::{DomainError, Error};

#[test]
fn error_messages_render_their_fields_in_decimal() {
    assert_eq!(
        Error::MultiplierCount { expected: 8, got: 7 }.message(),
        "column-multiplier count 7 does not match domain length 8"
    );
    assert_eq!(
        Error::ZeroMultiplier { index: 0 }.message(),
        "column multiplier at index 0 is zero"
    );
    assert_eq!(
        Error::TwistOffset { offset: 1209, max: 10 }.message(),
        "twist offset 1209 is outside 1..=10"
    );
    assert_eq!(
        Error::DuplicateTwist { offset: 3, hook: 40 }.message(),
        "twists share the pair (t=3, h=40)"
    );
    assert_eq!(
        Error::PunctureIndex { index: 100, length: 99 }.message(),
        "puncture index 100 is outside 0..99"
    );
    assert_eq!(
        Error::ZeroInterleave.message(),
        "interleaving order must be nonzero"
    );
    assert_eq!(Error::MobiusDelta.message(), "Möbius map is singular (Δ = 0)");
    assert_eq!(
        Error::GeometryOverflow { context: "net fold" }.message(),
        "net fold overflows usize"
    );
    assert_eq!(
        Error::ReceivedLength { expected: usize::MAX, got: 65536 }.message(),
        format!("received length 65536 does not match code length {}", usize::MAX)
    );
}

#[test]
fn domain_error_messages_nest_inside_the_shared_error() {
    assert_eq!(DomainError::Empty.message(), "evaluation domain is empty");
    assert_eq!(
        DomainError::DuplicatePoint { first: 2, second: 15 }.message(),
        "evaluation points 2 and 15 are equal"
    );
    assert_eq!(
        Error::Domain(DomainError::DuplicatePoint { first: 0, second: 9 }).message(),
        "evaluation domain: evaluation points 0 and 9 are equal"
    );
}
