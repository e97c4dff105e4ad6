//! Plain-value forms of the pipeline description messages.
//!
//! A bundle descriptor arrives from the control plane as a set of transform
//! entries; each entry names its behaviour by URN, carries an opaque payload,
//! and maps logical port names to channel identifiers.  Port maps and the
//! transform set are association lists here, so that their contents are plain
//! values the contracts can speak about; name keys are unique by invariant.

use vstd::prelude::*;

verus! {

/// A URN plus opaque configuration bytes.
#[derive(Clone, Debug)]
pub struct FunctionSpec {
    pub urn: String,
    pub payload: Vec<u8>,
}

/// One named transform entry: behaviour URN with payload, and port-name to
/// channel-identifier maps for inputs and outputs.
#[derive(Clone, Debug)]
pub struct PTransform {
    pub unique_name: String,
    pub spec: Option<FunctionSpec>,
    pub inputs: Vec<(String, String)>,
    pub outputs: Vec<(String, String)>,
    pub environment_id: String,
}

/// A pipeline-level description of one data channel.
#[derive(Clone, Debug)]
pub struct PCollection {
    pub unique_name: String,
    pub coder_id: String,
    pub is_bounded: bool,
    pub windowing_strategy_id: String,
}

/// A pipeline-level coder message: a URN-tagged spec plus the ids of its
/// component coders.
#[derive(Clone, Debug)]
pub struct Coder {
    pub spec: Option<FunctionSpec>,
    pub component_coder_ids: Vec<String>,
}

/// The full set of transform entries for one bundle, keyed by name.
#[derive(Clone, Debug)]
pub struct ProcessBundleDescriptor {
    pub id: String,
    pub transforms: Vec<(String, PTransform)>,
}

/// Builds a transform entry from its URN, port maps and payload.
pub fn make_ptransform(
    urn: &str,
    inputs: Vec<(String, String)>,
    outputs: Vec<(String, String)>,
    payload: Vec<u8>,
) -> (t: PTransform)
    ensures
        t.unique_name@ == Seq::<char>::empty(),
        t.spec is Some,
        t.spec->Some_0.urn@ == urn@,
        t.spec->Some_0.payload == payload,
        t.inputs == inputs,
        t.outputs == outputs,
        t.environment_id@ == Seq::<char>::empty(),
{
    PTransform {
        unique_name: String::new(),
        spec: Some(FunctionSpec { urn: urn.to_owned(), payload }),
        inputs,
        outputs,
        environment_id: String::new(),
    }
}

} // verus!
