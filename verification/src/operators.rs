//! Operators and receivers: the runtime units of one bundle's graph.
//!
//! An operator is selected by the URN of its transform and exposes the
//! three-phase lifecycle start/process/finish.  A receiver fans one produced
//! element out to every operator consuming the corresponding channel, in the
//! order the graph was wired.  Lifecycle and process calls of the recording
//! operator append one line each to the bundle's call log; the call log is
//! the bundle's observable behaviour.

use crate::errors::HarnessError;
use crate::lex::views_of;
use crate::urns;
use vstd::prelude::*;

verus! {

/// What `serde_json` parses a payload into, when the payload is the JSON
/// rendering of a list of strings; no meaning is assigned to the bytes here
/// beyond being a function of them.
pub uninterp spec fn json_string_list(bytes: Seq<u8>) -> Option<Seq<Seq<char>>>;

/// Relies on serde_json::from_slice::<Vec<String>>: parses the payload bytes
/// as a JSON list of strings; the result depends on the bytes alone.
#[verifier::external_body]
fn decode_string_list(payload: &Vec<u8>) -> (r: Option<Vec<String>>)
    ensures
        match r {
            Some(v) => json_string_list(payload@) == Some(v.deep_view()),
            None => json_string_list(payload@) is None,
        },
{
    match serde_json::from_slice::<Vec<String>>(payload) {
        Ok(v) => Some(v),
        Err(_) => None,
    }
}

/// Fan-out target list of one output channel: the indices, in the operator
/// table, of every operator consuming that channel, in wiring order.
#[derive(Debug)]
pub struct Receiver {
    pub consumers: Vec<usize>,
}

impl View for Receiver {
    type V = Seq<usize>;

    open spec fn view(&self) -> Seq<usize> {
        self.consumers@
    }
}

/// The views of a sequence of receivers.
pub open spec fn receiver_views(rs: Seq<Receiver>) -> Seq<Seq<usize>> {
    rs.map_values(|r: Receiver| r@)
}

/// The mathematical shape of one operator.
#[verifier::ext_equal]
pub struct OperatorView {
    pub name: Seq<char>,
    pub is_recording: bool,
    pub elements: Seq<Seq<char>>,
    pub receivers: Seq<Seq<usize>>,
}

/// One operator of the graph, selected by transform URN.
#[derive(Debug)]
pub enum Operator {
    /// Root source: emits its configured elements, in order, when driven.
    Create { name: String, elements: Vec<String>, receivers: Vec<Receiver> },
    /// Test-observation operator: logs its lifecycle and process calls and
    /// forwards each element unchanged.
    Recording { name: String, receivers: Vec<Receiver> },
}

impl View for Operator {
    type V = OperatorView;

    open spec fn view(&self) -> OperatorView {
        match self {
            Operator::Create { name, elements, receivers } => OperatorView {
                name: name@,
                is_recording: false,
                elements: views_of(elements@),
                receivers: receiver_views(receivers@),
            },
            Operator::Recording { name, receivers } => OperatorView {
                name: name@,
                is_recording: true,
                elements: Seq::empty(),
                receivers: receiver_views(receivers@),
            },
        }
    }
}

impl Operator {
    /// The operator's receivers, one per output channel.
    pub fn receivers(&self) -> (r: &Vec<Receiver>)
        ensures
            receiver_views(r@) == self@.receivers,
    {
        match self {
            Operator::Create { receivers, .. } => receivers,
            Operator::Recording { receivers, .. } => receivers,
        }
    }

    /// The operator's name in the descriptor.
    pub fn name(&self) -> (r: &String)
        ensures
            r@ == self@.name,
    {
        match self {
            Operator::Create { name, .. } => name,
            Operator::Recording { name, .. } => name,
        }
    }
}

/// The log line of a start call.
pub open spec fn start_entry(name: Seq<char>) -> Seq<char> {
    name + ".start_bundle()"@
}

/// The log line of a process call.
pub open spec fn process_entry(name: Seq<char>, elem: Seq<char>) -> Seq<char> {
    name + ".process(\""@ + elem + "\")"@
}

/// The log line of a finish call.
pub open spec fn finish_entry(name: Seq<char>) -> Seq<char> {
    name + ".finish_bundle()"@
}

/// What one operator contributes to the log when started.
pub open spec fn op_start_log(op: OperatorView) -> Seq<Seq<char>> {
    if op.is_recording {
        seq![start_entry(op.name)]
    } else {
        Seq::empty()
    }
}

/// What one operator contributes to the log when finished.
pub open spec fn op_finish_log(op: OperatorView) -> Seq<Seq<char>> {
    if op.is_recording {
        seq![finish_entry(op.name)]
    } else {
        Seq::empty()
    }
}

/// What one operator's own process call contributes to the log.
pub open spec fn op_process_log(op: OperatorView, elem: Seq<char>) -> Seq<Seq<char>> {
    if op.is_recording {
        seq![process_entry(op.name, elem)]
    } else {
        Seq::empty()
    }
}

pub fn mk_start_entry(name: &String) -> (r: String)
    ensures
        r@ == start_entry(name@),
{
    let mut s = name.clone();
    s.append(".start_bundle()");
    s
}

pub fn mk_process_entry(name: &String, elem: &String) -> (r: String)
    ensures
        r@ == process_entry(name@, elem@),
{
    let mut s = name.clone();
    s.append(".process(\"");
    s.append(elem.as_str());
    s.append("\")");
    s
}

pub fn mk_finish_entry(name: &String) -> (r: String)
    ensures
        r@ == finish_entry(name@),
{
    let mut s = name.clone();
    s.append(".finish_bundle()");
    s
}

/// Whether the factory has a variant for the URN, given the payload it would
/// be constructed from.
pub open spec fn spec_urn_supported(urn: Seq<char>) -> bool {
    urn == urns::CREATE_URN@ || urn == urns::RECORDING_URN@
}

/// The operator the factory builds; meaningful when the URN is supported and,
/// for the create URN, the payload decodes.
pub open spec fn spec_operator(
    name: Seq<char>,
    urn: Seq<char>,
    payload: Seq<u8>,
    receivers: Seq<Seq<usize>>,
) -> OperatorView {
    if urn == urns::RECORDING_URN@ {
        OperatorView { name, is_recording: true, elements: Seq::empty(), receivers }
    } else {
        OperatorView {
            name,
            is_recording: false,
            elements: json_string_list(payload)->Some_0,
            receivers,
        }
    }
}

/// Builds the operator for one transform: the recording operator for the
/// recording URN, the create source (elements decoded from the payload as a
/// JSON string list) for the create URN.  Fails with `UnsupportedUrn` for any
/// other URN, and with `MalformedDescriptor` naming the transform when a
/// create payload does not decode.
pub fn create_operator(
    name: &String,
    urn: &String,
    payload: &Vec<u8>,
    receivers: Vec<Receiver>,
) -> (r: Result<Operator, HarnessError>)
    ensures
        match r {
            Ok(op) => spec_urn_supported(urn@) && (urn@ == urns::CREATE_URN@
                ==> json_string_list(payload@) is Some) && op@ == spec_operator(
                name@,
                urn@,
                payload@,
                receiver_views(receivers@),
            ),
            Err(e) => match e {
                HarnessError::UnsupportedUrn(u) => u@ == urn@ && !spec_urn_supported(urn@),
                HarnessError::MalformedDescriptor(n) => n@ == name@ && urn@ == urns::CREATE_URN@
                    && json_string_list(payload@) is None,
                _ => false,
            },
        },
{
    if urn.eq(&String::from_str(urns::RECORDING_URN)) {
        let op = Operator::Recording { name: name.clone(), receivers };
        proof {
            urns::lemma_transform_urns_distinct();
            assert(op@ =~= spec_operator(
                name@,
                urn@,
                payload@,
                op@.receivers,
            ));
        }
        return Ok(op);
    }
    if urn.eq(&String::from_str(urns::CREATE_URN)) {
        match decode_string_list(payload) {
            Some(elements) => {
                let op = Operator::Create { name: name.clone(), elements, receivers };
                proof {
                    urns::lemma_transform_urns_distinct();
                    assert(op@.elements =~= json_string_list(payload@)->Some_0);
                    assert(op@ =~= spec_operator(name@, urn@, payload@, op@.receivers));
                }
                return Ok(op);
            },
            None => {
                return Err(HarnessError::MalformedDescriptor(name.clone()));
            },
        }
    }
    Err(HarnessError::UnsupportedUrn(urn.clone()))
}

} // verus!
