use vstd::prelude::*;

verus! {

/// Lets `serde_json::Value` stand in signatures: it carries, unread, the
/// already-resolved settings that an extension may consult.
#[verifier::external_type_specification]
#[verifier::external_body]
pub struct ExJsonValue(serde_json::Value);

/// The outcome of producing defaults: either the full value, or the partial
/// value gathered so far when the defaults still wait on outside data.
#[derive(Debug, PartialEq, Eq)]
pub enum GenerateResult<P, C> {
    Remaining(P),
    Complete(C),
}

/// The operations that one version of an extension's settings offers.
///
/// `PartialKind` is the representation in which every field may be missing,
/// used while defaults are gathered; `ErrorKind` is what the operations fail
/// with (`Infallible` where they never fail).
pub trait SettingsModel: Sized {
    type PartialKind;

    type ErrorKind;

    /// The tag of this version.
    spec fn version_tag() -> Seq<char>;

    /// `r` is the outcome of producing defaults from what is known so far.
    spec fn generates(
        existing_partial: Option<Self::PartialKind>,
        dependent_settings: Option<serde_json::Value>,
        r: Result<GenerateResult<Self::PartialKind, Self>, Self::ErrorKind>,
    ) -> bool;

    /// Whether moving from `current` to `target` is allowed.
    spec fn accepts(current_value: Option<Self>, target: Self) -> bool;

    /// Whether `value` may be recorded, given the settings already validated.
    spec fn is_valid(value: Self, validated_settings: Option<serde_json::Value>) -> bool;

    /// The version tag; it does not depend on any stored state.
    fn get_version() -> (r: &'static str)
        ensures
            r@ == Self::version_tag(),
    ;

    /// Decides whether `target` may replace `current_value`.
    fn set(current_value: Option<Self>, target: Self) -> (r: Result<(), Self::ErrorKind>)
        ensures
            r is Ok <==> Self::accepts(current_value, target),
    ;

    /// Produces defaults, informed by the partial value gathered so far and
    /// by the settings this extension depends on.
    fn generate(
        existing_partial: Option<Self::PartialKind>,
        dependent_settings: Option<serde_json::Value>,
    ) -> (r: Result<GenerateResult<Self::PartialKind, Self>, Self::ErrorKind>)
        ensures
            Self::generates(existing_partial, dependent_settings, r),
    ;

    /// Checks `value` before it is durably recorded.
    fn validate(value: Self, validated_settings: Option<serde_json::Value>) -> (r: Result<
        (),
        Self::ErrorKind,
    >)
        ensures
            r is Ok <==> Self::is_valid(value, validated_settings),
    ;
}

} // verus!
