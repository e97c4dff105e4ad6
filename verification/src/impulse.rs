//! The impulse transform: the root source that kicks a pipeline off with a
//! single signal element.

use crate::proto;
use crate::pvalue::{ElemType, PTransform, PValue, PType, spec_coder_id};
use crate::urns;
use vstd::prelude::*;

verus! {

/// The fixed payload the impulse transform carries.
pub open spec fn impulse_buffer() -> Seq<u8> {
    seq![105u8, 109u8, 112u8, 117u8, 108u8, 115u8, 101u8]
}

fn make_impulse_buffer() -> (r: Vec<u8>)
    ensures
        r@ == impulse_buffer(),
{
    let mut v: Vec<u8> = Vec::new();
    v.push(105);
    v.push(109);
    v.push(112);
    v.push(117);
    v.push(108);
    v.push(115);
    v.push(101);
    proof {
        assert(v@ =~= impulse_buffer());
    }
    v
}

/// Stands in for an input element type that no element ever inhabits.
pub type Never = bool;

/// The root source transform, selected by the impulse URN.
pub struct Impulse {
    urn: &'static str,
}

impl Impulse {
    pub closed spec fn spec_urn(&self) -> Seq<char> {
        self.urn@
    }

    pub fn new() -> (r: Self)
        ensures
            r.spec_urn() == urns::IMPULSE_URN@,
    {
        Self { urn: urns::IMPULSE_URN }
    }
}

impl Default for Impulse {
    fn default() -> (r: Self)
        ensures
            r.spec_urn() == urns::IMPULSE_URN@,
    {
        Self::new()
    }
}

impl PTransform<Never, Vec<u8>> for Impulse {
    /// Marks the transform proto as an impulse, registers the bytes coder,
    /// and produces the value denoting the channel the impulse feeds.
    fn expand_internal(
        &self,
        input: PValue<Never>,
        transform_proto: &mut proto::PTransform,
    ) -> (r: PValue<Vec<u8>>)
        ensures
            final(transform_proto).spec is Some,
            final(transform_proto).spec->Some_0.urn@ == self.spec_urn(),
            final(transform_proto).spec->Some_0.payload@ == impulse_buffer(),
            final(transform_proto).unique_name == old(transform_proto).unique_name,
            final(transform_proto).inputs == old(transform_proto).inputs,
            final(transform_proto).outputs == old(transform_proto).outputs,
            final(transform_proto).environment_id == old(transform_proto).environment_id,
            r.spec_type() == PType::PCollection,
            r.spec_id() == input.spec_id(),
            r.spec_pipeline().spec_coders().len() == input.spec_pipeline().spec_coders().len()
                + 1,
            r.spec_pipeline().spec_coders().drop_last() == input.spec_pipeline().spec_coders(),
            r.spec_pipeline().spec_coders().last().spec is Some,
            r.spec_pipeline().spec_coders().last().spec->Some_0.urn@
                == urns::BYTES_CODER_URN@,
            r.spec_pipeline().spec_coders().last().spec->Some_0.payload@ == Seq::<u8>::empty(),
            r.spec_pipeline().spec_coders().last().component_coder_ids@.len() == 0,
            r.spec_pipeline().spec_transforms() == input.spec_pipeline().spec_transforms(),
            r.spec_pcoll_proto().coder_id@ == spec_coder_id(
                input.spec_pipeline().spec_coders().len() as int,
            ),
            r.spec_pcoll_proto().unique_name@ == "pcollection_impulse"@,
    {
        let spec = proto::FunctionSpec {
            urn: self.urn.to_owned(),
            payload: make_impulse_buffer(),
        };
        transform_proto.spec = Some(spec);

        let mut input = input;
        let coder_id = input.register_pipeline_coder_proto(
            proto::Coder {
                spec: Some(
                    proto::FunctionSpec {
                        urn: urns::BYTES_CODER_URN.to_owned(),
                        payload: Vec::new(),
                    },
                ),
                component_coder_ids: Vec::new(),
            },
        );
        let pcoll_proto = proto::PCollection {
            unique_name: String::from_str("pcollection_impulse"),
            coder_id,
            is_bounded: true,
            windowing_strategy_id: String::from_str("placeholder"),
        };
        input.into_pcollection(pcoll_proto)
    }
}

} // verus!
