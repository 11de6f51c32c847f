//! Error type shared by the deformed Reed–Solomon families.
use vstd::prelude::*;

verus! {

/// Failure while validating an evaluation domain.
#[derive(Clone, Copy, Debug, PartialEq, Eq)]
pub enum DomainError {
    /// The domain has no points.
    Empty,
    /// Two evaluation points are equal.
    DuplicatePoint {
        /// Index of the first occurrence.
        first: usize,
        /// Index of the duplicate occurrence.
        second: usize,
    },
}

/// Failure while building, encoding, or decoding a deformed GRS code.
#[derive(Clone, Copy, Debug, PartialEq, Eq)]
pub enum Error {
    /// The column-multiplier vector length disagreed with the domain length.
    MultiplierCount {
        /// Evaluation-domain length `n`.
        expected: usize,
        /// Supplied multiplier count.
        got: usize,
    },
    /// A column multiplier was zero; every multiplier must be nonzero.
    ZeroMultiplier {
        /// Index of the offending multiplier.
        index: usize,
    },
    /// The dimension `k` was zero or not strictly below the code length `n`.
    InvalidDimension {
        /// Requested dimension `k`.
        dimension: usize,
        /// Evaluation-domain length `n`.
        length: usize,
    },
    /// The dimension `k` was below the family minimum (Roth–Lempel needs
    /// `k >= 2` for its exceptional coordinate).
    MinimumDimension {
        /// Requested dimension `k`.
        dimension: usize,
        /// Smallest admissible dimension.
        minimum: usize,
    },
    /// A twist degree offset `t` was outside the range `1..=n-k`.
    TwistOffset {
        /// Offending offset `t`.
        offset: usize,
        /// Largest admissible offset `n-k`.
        max: usize,
    },
    /// A twist hook `h` was not strictly below the dimension `k`.
    TwistHook {
        /// Offending hook `h`.
        hook: usize,
        /// Dimension `k`.
        dimension: usize,
    },
    /// A twist coefficient `η` was zero.
    ZeroTwistCoefficient {
        /// Index of the offending twist.
        index: usize,
    },
    /// Two twists shared the same `(t, h)` pair.
    DuplicateTwist {
        /// Shared offset `t`.
        offset: usize,
        /// Shared hook `h`.
        hook: usize,
    },
    /// A message slice did not have exactly `k` symbols.
    MessageLength {
        /// Expected dimension `k`.
        expected: usize,
        /// Supplied message length.
        got: usize,
    },
    /// A codeword slice did not have exactly `n` symbols.
    CodewordLength {
        /// Expected length `n`.
        expected: usize,
        /// Supplied codeword length.
        got: usize,
    },
    /// A received slice did not have exactly `n` symbols.
    ReceivedLength {
        /// Expected length `n`.
        expected: usize,
        /// Supplied received length.
        got: usize,
    },
    /// The generator does not produce `length` distinct powers, so it cannot
    /// index a multiplicative orbit of that length.
    InsufficientOrbit {
        /// Number of distinct orbit points required.
        length: usize,
    },
    /// The fold `m` was zero or did not divide the code length `n`.
    FoldParameter {
        /// The offending fold value.
        fold: usize,
        /// The code length it must divide.
        length: usize,
    },
    /// The interleaving order `ℓ` was zero.
    ZeroInterleave,
    /// A batch of row messages did not have exactly `ℓ` entries.
    MessageCount {
        /// Interleaving order `ℓ`.
        expected: usize,
        /// Number of row messages supplied.
        got: usize,
    },
    /// A puncture set left fewer than `k` surviving coordinates.
    PunctureLength {
        /// Surviving coordinate count `n - |S|`.
        remaining: usize,
        /// Dimension `k`.
        dimension: usize,
    },
    /// A puncture index was outside `0..n`.
    PunctureIndex {
        /// Offending index.
        index: usize,
        /// Base code length `n`.
        length: usize,
    },
    /// A puncture set listed the same coordinate twice.
    DuplicatePuncture {
        /// Repeated index.
        index: usize,
    },
    /// The Möbius map was singular (`Δ = ad - bc = 0`).
    MobiusDelta,
    /// The Möbius pole `-d/c` coincided with a domain evaluation point.
    MobiusPole {
        /// Index of the domain point hit by the pole.
        index: usize,
    },
    /// An extension functional did not have exactly `k` coefficients.
    FunctionalLength {
        /// Expected dimension `k`.
        expected: usize,
        /// Supplied functional length.
        got: usize,
    },
    /// A derived size (net fold, net interleave, a length or an index)
    /// overflowed `usize`.
    GeometryOverflow {
        /// The quantity that overflowed.
        context: &'static str,
    },
    /// Evaluation-domain construction failed (e.g. repeated points).
    Domain(DomainError),
}

/// The decimal digit `d`.
pub open spec fn digit_char(d: nat) -> char {
    if d == 0 {
        '0'
    } else if d == 1 {
        '1'
    } else if d == 2 {
        '2'
    } else if d == 3 {
        '3'
    } else if d == 4 {
        '4'
    } else if d == 5 {
        '5'
    } else if d == 6 {
        '6'
    } else if d == 7 {
        '7'
    } else if d == 8 {
        '8'
    } else {
        '9'
    }
}

/// The decimal representation of `value`, most significant digit first.
pub open spec fn decimal(value: nat) -> Seq<char>
    decreases value,
{
    if value < 10 {
        seq![digit_char(value)]
    } else {
        decimal(value / 10).push(digit_char(value % 10))
    }
}

/// Append the digit `d`.
fn push_digit(text: &mut String, d: usize)
    requires
        d < 10,
    ensures
        final(text)@ == old(text)@.push(digit_char(d as nat)),
{
    let ghost before = text@;
    if d == 0 {
        text.append("0");
        proof {
            reveal_strlit("0");
        }
    } else if d == 1 {
        text.append("1");
        proof {
            reveal_strlit("1");
        }
    } else if d == 2 {
        text.append("2");
        proof {
            reveal_strlit("2");
        }
    } else if d == 3 {
        text.append("3");
        proof {
            reveal_strlit("3");
        }
    } else if d == 4 {
        text.append("4");
        proof {
            reveal_strlit("4");
        }
    } else if d == 5 {
        text.append("5");
        proof {
            reveal_strlit("5");
        }
    } else if d == 6 {
        text.append("6");
        proof {
            reveal_strlit("6");
        }
    } else if d == 7 {
        text.append("7");
        proof {
            reveal_strlit("7");
        }
    } else if d == 8 {
        text.append("8");
        proof {
            reveal_strlit("8");
        }
    } else {
        text.append("9");
        proof {
            reveal_strlit("9");
        }
    }
    proof {
        assert(text@ =~= before.push(digit_char(d as nat)));
    }
}

/// Append the decimal representation of `value`.
fn push_decimal(text: &mut String, value: usize)
    ensures
        final(text)@ == old(text)@ + decimal(value as nat),
    decreases value,
{
    let ghost before = text@;
    if value >= 10 {
        push_decimal(text, value / 10);
    }
    push_digit(text, value % 10);
    proof {
        if value < 10 {
            assert(text@ =~= before + decimal(value as nat));
        } else {
            assert(text@ =~= before + decimal(value as nat));
        }
    }
}

/// `prefix`, then the decimal `value`, then `suffix`.
fn phrase(prefix: &str, value: usize, suffix: &str) -> (r: String)
    ensures
        r@ == prefix@ + decimal(value as nat) + suffix@,
{
    let mut text = String::from_str(prefix);
    push_decimal(&mut text, value);
    text.append(suffix);
    text
}

/// `prefix`, the decimal `first`, `middle`, then the decimal `second`.
fn phrase2(prefix: &str, first: usize, middle: &str, second: usize) -> (r: String)
    ensures
        r@ == prefix@ + decimal(first as nat) + middle@ + decimal(second as nat),
{
    let mut text = String::from_str(prefix);
    push_decimal(&mut text, first);
    text.append(middle);
    push_decimal(&mut text, second);
    text
}

/// The description of a domain failure.
pub open spec fn domain_message(error: DomainError) -> Seq<char> {
    match error {
        DomainError::Empty => "evaluation domain is empty"@,
        DomainError::DuplicatePoint { first, second } => "evaluation points "@ + decimal(first as nat)
            + " and "@ + decimal(second as nat) + " are equal"@,
    }
}

/// The description of a failure.
pub open spec fn error_message(error: Error) -> Seq<char> {
    match error {
        Error::MultiplierCount { expected, got } => "column-multiplier count "@ + decimal(got as nat)
            + " does not match domain length "@ + decimal(expected as nat),
        Error::ZeroMultiplier { index } => "column multiplier at index "@ + decimal(index as nat)
            + " is zero"@,
        Error::InvalidDimension { dimension, length } => "dimension "@ + decimal(dimension as nat)
            + " must satisfy 1 <= k < n for length "@ + decimal(length as nat),
        Error::MinimumDimension { dimension, minimum } => "dimension "@ + decimal(dimension as nat)
            + " is below the family minimum "@ + decimal(minimum as nat),
        Error::TwistOffset { offset, max } => "twist offset "@ + decimal(offset as nat)
            + " is outside 1..="@ + decimal(max as nat),
        Error::TwistHook { hook, dimension } => "twist hook "@ + decimal(hook as nat)
            + " is not below dimension "@ + decimal(dimension as nat),
        Error::ZeroTwistCoefficient { index } => "twist coefficient at index "@ + decimal(index as nat)
            + " is zero"@,
        Error::DuplicateTwist { offset, hook } => "twists share the pair (t="@ + decimal(offset as nat)
            + ", h="@ + decimal(hook as nat) + ")"@,
        Error::MessageLength { expected, got } => "message length "@ + decimal(got as nat)
            + " does not match dimension "@ + decimal(expected as nat),
        Error::CodewordLength { expected, got } => "codeword length "@ + decimal(got as nat)
            + " does not match code length "@ + decimal(expected as nat),
        Error::ReceivedLength { expected, got } => "received length "@ + decimal(got as nat)
            + " does not match code length "@ + decimal(expected as nat),
        Error::InsufficientOrbit { length } => "generator does not produce "@ + decimal(length as nat)
            + " distinct orbit powers"@,
        Error::FoldParameter { fold, length } => "fold "@ + decimal(fold as nat)
            + " must be nonzero and divide code length "@ + decimal(length as nat),
        Error::ZeroInterleave => "interleaving order must be nonzero"@,
        Error::MessageCount { expected, got } => "row-message count "@ + decimal(got as nat)
            + " does not match interleaving order "@ + decimal(expected as nat),
        Error::PunctureLength { remaining, dimension } => "puncture leaves "@ + decimal(remaining as nat)
            + " coordinates, below dimension "@ + decimal(dimension as nat),
        Error::PunctureIndex { index, length } => "puncture index "@ + decimal(index as nat)
            + " is outside 0.."@ + decimal(length as nat),
        Error::DuplicatePuncture { index } => "puncture set repeats coordinate "@ + decimal(index as nat),
        Error::MobiusDelta => "Möbius map is singular (Δ = 0)"@,
        Error::MobiusPole { index } => "Möbius pole coincides with domain point "@ + decimal(index as nat),
        Error::FunctionalLength { expected, got } => "extension functional length "@ + decimal(got as nat)
            + " does not match dimension "@ + decimal(expected as nat),
        Error::GeometryOverflow { context } => context@ + " overflows usize"@,
        Error::Domain(inner) => "evaluation domain: "@ + domain_message(inner),
    }
}

impl DomainError {
    /// The human-readable description of the failure.
    pub fn message(&self) -> (r: String)
        ensures
            r@ == domain_message(*self),
    {
        match self {
            DomainError::Empty => String::from_str("evaluation domain is empty"),
            DomainError::DuplicatePoint { first, second } => {
                let mut text = phrase2("evaluation points ", *first, " and ", *second);
                text.append(" are equal");
                text
            },
        }
    }
}

impl Error {
    /// The human-readable description of the failure.
    pub fn message(&self) -> (r: String)
        ensures
            r@ == error_message(*self),
    {
        match self {
            Error::MultiplierCount { expected, got } => phrase2(
                "column-multiplier count ",
                *got,
                " does not match domain length ",
                *expected,
            ),
            Error::ZeroMultiplier { index } => phrase("column multiplier at index ", *index, " is zero"),
            Error::InvalidDimension { dimension, length } => phrase2(
                "dimension ",
                *dimension,
                " must satisfy 1 <= k < n for length ",
                *length,
            ),
            Error::MinimumDimension { dimension, minimum } => phrase2(
                "dimension ",
                *dimension,
                " is below the family minimum ",
                *minimum,
            ),
            Error::TwistOffset { offset, max } => phrase2("twist offset ", *offset, " is outside 1..=", *max),
            Error::TwistHook { hook, dimension } => phrase2(
                "twist hook ",
                *hook,
                " is not below dimension ",
                *dimension,
            ),
            Error::ZeroTwistCoefficient { index } => phrase(
                "twist coefficient at index ",
                *index,
                " is zero",
            ),
            Error::DuplicateTwist { offset, hook } => {
                let mut text = phrase2("twists share the pair (t=", *offset, ", h=", *hook);
                text.append(")");
                text
            },
            Error::MessageLength { expected, got } => phrase2(
                "message length ",
                *got,
                " does not match dimension ",
                *expected,
            ),
            Error::CodewordLength { expected, got } => phrase2(
                "codeword length ",
                *got,
                " does not match code length ",
                *expected,
            ),
            Error::ReceivedLength { expected, got } => phrase2(
                "received length ",
                *got,
                " does not match code length ",
                *expected,
            ),
            Error::InsufficientOrbit { length } => phrase(
                "generator does not produce ",
                *length,
                " distinct orbit powers",
            ),
            Error::FoldParameter { fold, length } => phrase2(
                "fold ",
                *fold,
                " must be nonzero and divide code length ",
                *length,
            ),
            Error::ZeroInterleave => String::from_str("interleaving order must be nonzero"),
            Error::MessageCount { expected, got } => phrase2(
                "row-message count ",
                *got,
                " does not match interleaving order ",
                *expected,
            ),
            Error::PunctureLength { remaining, dimension } => phrase2(
                "puncture leaves ",
                *remaining,
                " coordinates, below dimension ",
                *dimension,
            ),
            Error::PunctureIndex { index, length } => phrase2(
                "puncture index ",
                *index,
                " is outside 0..",
                *length,
            ),
            Error::DuplicatePuncture { index } => {
                let mut text = String::from_str("puncture set repeats coordinate ");
                push_decimal(&mut text, *index);
                text
            },
            Error::MobiusDelta => String::from_str("Möbius map is singular (Δ = 0)"),
            Error::MobiusPole { index } => {
                let mut text = String::from_str("Möbius pole coincides with domain point ");
                push_decimal(&mut text, *index);
                text
            },
            Error::FunctionalLength { expected, got } => phrase2(
                "extension functional length ",
                *got,
                " does not match dimension ",
                *expected,
            ),
            Error::GeometryOverflow { context } => {
                let mut text = String::from_str(*context);
                text.append(" overflows usize");
                text
            },
            Error::Domain(inner) => {
                let mut text = String::from_str("evaluation domain: ");
                let detail = inner.message();
                text.append(detail.as_str());
                text
            },
        }
    }
}

} // verus!
