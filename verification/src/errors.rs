//! Error taxonomy of the harness.

use vstd::prelude::*;

verus! {

/// Everything that can go wrong while building or running a bundle, resolving
/// a coder, or registering a contributed table.
///
/// - `UnknownUrn`: the coder registry has no entry, built-in or contributed,
///   for the named URN.
/// - `UnsupportedUrn`: the operator factory has no variant for the named
///   transform URN.
/// - `MalformedDescriptor`: a consumed channel identifier has no producer, a
///   producer is declared twice for one channel, or a transform entry is
///   otherwise unusable; the carried string names the offending channel or
///   transform.
/// - `DoubleRegistration`: the contributed table was installed twice in
///   production mode.
/// - `OperatorFailure`: an operator's lifecycle or process call signalled
///   failure; carries the failing operator's name.
#[derive(Debug, Clone, PartialEq, Eq)]
pub enum HarnessError {
    UnknownUrn(String),
    UnsupportedUrn(String),
    MalformedDescriptor(String),
    DoubleRegistration,
    OperatorFailure(String),
}

} // verus!
