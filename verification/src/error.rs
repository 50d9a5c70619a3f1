//! Why decoding failed, and where: a failure with the chain of field and
//! type names that leads to it.

use cbor_event::Type;
use vstd::prelude::*;
use vstd::string::StringExecFns;

verus! {

/// A map key as an error reports it.
#[derive(Debug)]
pub enum Key {
    Str(String),
    Uint(u64),
}

/// What a `Key` stands for.
pub enum KeyView {
    Str(Seq<char>),
    Uint(u64),
}

impl View for Key {
    type V = KeyView;

    open spec fn view(&self) -> KeyView {
        match self {
            Key::Str(s) => KeyView::Str(s@),
            Key::Uint(n) => KeyView::Uint(*n),
        }
    }
}

/// The kinds of failure.
#[derive(Debug)]
#[allow(inconsistent_fields)]
pub enum DeserializeFailure {
    /// A break marker stands inside a definite-length container.
    BreakInDefiniteLen,
    /// The primitive reader refused the input.
    CBOR(cbor_event::Error),
    /// A definite-length container declares one number of elements and holds
    /// another: the declared number, and the number read where it is known.
    DefiniteLenMismatch(u64, Option<u64>),
    /// A key stands twice in a map.
    DuplicateKey(Key),
    /// An indefinite-length container does not end with a break marker.
    EndingBreakMissing,
    /// A field that can only hold one value holds another.
    FixedValueMismatch { found: Key, expected: Key },
    /// A field that must be there is not.
    MandatoryFieldMissing(Key),
    /// The input has the shape of no variant.
    NoVariantMatched,
    /// Each variant was tried and failed: the failures, in the order of the
    /// trials.
    NoVariantMatchedWithCauses(Vec<DeserializeError>),
    /// A length is out of its range.
    RangeCheck { found: isize, min: Option<isize>, max: Option<isize> },
    /// The tag is not the expected one.
    TagMismatch { found: u64, expected: u64 },
    /// A key that the map's schema does not know.
    UnknownKey(Key),
    /// A map key that is neither an integer nor a text.
    UnexpectedKeyType(Type),
}

/// A failure and where it happened.
#[derive(Debug)]
pub struct DeserializeError {
    pub location: Option<String>,
    pub failure: DeserializeFailure,
}

/// What a `DeserializeFailure` stands for. The primitive reader's own error
/// is not looked into.
#[allow(inconsistent_fields)]
pub enum FailureView {
    BreakInDefiniteLen,
    CBOR,
    DefiniteLenMismatch(u64, Option<u64>),
    DuplicateKey(KeyView),
    EndingBreakMissing,
    FixedValueMismatch { found: KeyView, expected: KeyView },
    MandatoryFieldMissing(KeyView),
    NoVariantMatched,
    NoVariantMatchedWithCauses(Seq<ErrorView>),
    RangeCheck { found: isize, min: Option<isize>, max: Option<isize> },
    TagMismatch { found: u64, expected: u64 },
    UnknownKey(KeyView),
    UnexpectedKeyType(Type),
}

/// What a `DeserializeError` stands for.
pub struct ErrorView {
    pub location: Option<Seq<char>>,
    pub failure: FailureView,
}

/// The failure as a mathematical value.
pub open spec fn failure_view(f: DeserializeFailure) -> FailureView
    decreases f,
{
    match f {
        DeserializeFailure::BreakInDefiniteLen => FailureView::BreakInDefiniteLen,
        DeserializeFailure::CBOR(_) => FailureView::CBOR,
        DeserializeFailure::DefiniteLenMismatch(n, read) => FailureView::DefiniteLenMismatch(
            n,
            read,
        ),
        DeserializeFailure::DuplicateKey(k) => FailureView::DuplicateKey(k@),
        DeserializeFailure::EndingBreakMissing => FailureView::EndingBreakMissing,
        DeserializeFailure::FixedValueMismatch { found, expected } => {
            FailureView::FixedValueMismatch { found: found@, expected: expected@ }
        },
        DeserializeFailure::MandatoryFieldMissing(k) => FailureView::MandatoryFieldMissing(k@),
        DeserializeFailure::NoVariantMatched => FailureView::NoVariantMatched,
        DeserializeFailure::NoVariantMatchedWithCauses(causes) => {
            FailureView::NoVariantMatchedWithCauses(
                Seq::new(
                    causes.len() as nat,
                    |i: int|
                        if 0 <= i < causes.len() {
                            error_view(causes[i])
                        } else {
                            arbitrary()
                        },
                ),
            )
        },
        DeserializeFailure::RangeCheck { found, min, max } => FailureView::RangeCheck {
            found,
            min,
            max,
        },
        DeserializeFailure::TagMismatch { found, expected } => FailureView::TagMismatch {
            found,
            expected,
        },
        DeserializeFailure::UnknownKey(k) => FailureView::UnknownKey(k@),
        DeserializeFailure::UnexpectedKeyType(t) => FailureView::UnexpectedKeyType(t),
    }
}

/// The error as a mathematical value.
pub open spec fn error_view(e: DeserializeError) -> ErrorView
    decreases e,
{
    ErrorView {
        location: match e.location {
            Some(s) => Some(s@),
            None => None,
        },
        failure: failure_view(e.failure),
    }
}

impl View for DeserializeFailure {
    type V = FailureView;

    open spec fn view(&self) -> FailureView {
        failure_view(*self)
    }
}

impl View for DeserializeError {
    type V = ErrorView;

    open spec fn view(&self) -> ErrorView {
        error_view(*self)
    }
}

/// An error without a place.
pub open spec fn bare(failure: FailureView) -> ErrorView {
    ErrorView { location: None, failure }
}

/// An error at a place.
pub open spec fn located(location: Seq<char>, failure: FailureView) -> ErrorView {
    ErrorView { location: Some(location), failure }
}

/// The error that the primitive reader's refusal becomes.
pub open spec fn cbor_error() -> ErrorView {
    bare(FailureView::CBOR)
}

/// The error one step further out: `location` is put in front of the place,
/// with a dot between the two where there was a place already.
pub open spec fn annotated(e: ErrorView, location: Seq<char>) -> ErrorView {
    ErrorView {
        location: match e.location {
            Some(inner) => Some(location + "."@ + inner),
            None => Some(location),
        },
        failure: e.failure,
    }
}

/// The result one step further out: a value is kept, an error is annotated.
pub open spec fn annotated_result<T>(r: Result<T, ErrorView>, location: Seq<char>) -> Result<
    T,
    ErrorView,
> {
    match r {
        Ok(v) => Ok(v),
        Err(e) => Err(annotated(e, location)),
    }
}

impl DeserializeError {
    /// A failure at a place.
    pub fn new(location: &str, failure: DeserializeFailure) -> (r: Self)
        ensures
            r@ == located(location@, failure@),
    {
        DeserializeError { location: Some(String::from_str(location)), failure }
    }

    /// A failure without a place yet.
    pub fn from_failure(failure: DeserializeFailure) -> (r: Self)
        ensures
            r@ == bare(failure@),
    {
        DeserializeError { location: None, failure }
    }

    /// The primitive reader's refusal as an error without a place.
    pub fn from_cbor(e: cbor_event::Error) -> (r: Self)
        ensures
            r@ == cbor_error(),
    {
        DeserializeError { location: None, failure: DeserializeFailure::CBOR(e) }
    }

    /// The same failure, one step further out.
    pub fn annotate(self, location: &str) -> (r: Self)
        ensures
            r@ == annotated(self@, location@),
    {
        let DeserializeError { location: inner, failure } = self;
        match inner {
            Some(loc) => {
                let mut place = String::from_str(location);
                place.append(".");
                place.append(loc.as_str());
                DeserializeError { location: Some(place), failure }
            },
            None => DeserializeError { location: Some(String::from_str(location)), failure },
        }
    }
}

} // verus!
