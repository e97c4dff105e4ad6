//! Client-side pipeline values: the handles a pipeline author threads through
//! transform applications while the pipeline proto is accumulated.
//!
//! A `PValue` owns the growing `Pipeline` description; applying a transform
//! hands the value to the transform's expansion, which registers what it
//! creates and returns the downstream value.

use crate::proto;
use crate::urns;
use core::marker::PhantomData;
use vstd::prelude::*;

verus! {

/// Marker for element types a `PValue` can carry.
pub trait ElemType {

}

impl ElemType for Vec<u8> {

}

impl ElemType for String {

}

impl ElemType for bool {

}

/// The decimal digits of `n`.
pub open spec fn digits_of(n: int) -> Seq<char>
    decreases n,
{
    if n < 10 {
        digit_seq(n)
    } else {
        digits_of(n / 10) + digit_seq(n % 10)
    }
}

pub open spec fn digit_seq(d: int) -> Seq<char> {
    if d == 0 {
        "0"@
    } else if d == 1 {
        "1"@
    } else if d == 2 {
        "2"@
    } else if d == 3 {
        "3"@
    } else if d == 4 {
        "4"@
    } else if d == 5 {
        "5"@
    } else if d == 6 {
        "6"@
    } else if d == 7 {
        "7"@
    } else if d == 8 {
        "8"@
    } else {
        "9"@
    }
}

fn digit_str(d: u64) -> (r: &'static str)
    requires
        d < 10,
    ensures
        r@ == digit_seq(d as int),
{
    match d {
        0 => "0",
        1 => "1",
        2 => "2",
        3 => "3",
        4 => "4",
        5 => "5",
        6 => "6",
        7 => "7",
        8 => "8",
        _ => "9",
    }
}

/// Decimal rendering of an unsigned number.
fn u64_to_dec(n: u64) -> (r: String)
    ensures
        r@ == digits_of(n as int),
    decreases n,
{
    if n < 10 {
        digit_str(n).to_owned()
    } else {
        let mut s = u64_to_dec(n / 10);
        s.append(digit_str(n % 10));
        s
    }
}

/// The id handed out for the `n`-th registered coder.
pub open spec fn spec_coder_id(n: int) -> Seq<char> {
    "coder_"@ + digits_of(n)
}

/// The pipeline description being accumulated: registered coders (identified
/// by their registration ordinal), transform protos, and data channels.
pub struct Pipeline {
    coders: Vec<proto::Coder>,
    transforms: Vec<proto::PTransform>,
    pcollections: Vec<proto::PCollection>,
}

impl Pipeline {
    pub closed spec fn spec_coders(&self) -> Seq<proto::Coder> {
        self.coders@
    }

    pub closed spec fn spec_transforms(&self) -> Seq<proto::PTransform> {
        self.transforms@
    }

    pub closed spec fn spec_pcollections(&self) -> Seq<proto::PCollection> {
        self.pcollections@
    }

    pub fn new() -> (r: Self)
        ensures
            r.spec_coders() == Seq::<proto::Coder>::empty(),
            r.spec_transforms() == Seq::<proto::PTransform>::empty(),
            r.spec_pcollections() == Seq::<proto::PCollection>::empty(),
    {
        Pipeline { coders: Vec::new(), transforms: Vec::new(), pcollections: Vec::new() }
    }

    /// Registers a coder proto and returns its id, formed from its
    /// registration ordinal.
    pub fn register_coder_proto(&mut self, coder: proto::Coder) -> (id: String)
        ensures
            final(self).spec_coders() == old(self).spec_coders().push(coder),
            final(self).spec_transforms() == old(self).spec_transforms(),
            final(self).spec_pcollections() == old(self).spec_pcollections(),
            id@ == spec_coder_id(old(self).spec_coders().len() as int),
    {
        let n = self.coders.len();
        self.coders.push(coder);
        let mut id = String::from_str("coder_");
        let digits = u64_to_dec(n as u64);
        id.append(digits.as_str());
        id
    }

    /// Registers a transform proto.
    pub fn register_proto_transform(&mut self, transform: proto::PTransform)
        ensures
            final(self).spec_transforms() == old(self).spec_transforms().push(transform),
            final(self).spec_coders() == old(self).spec_coders(),
            final(self).spec_pcollections() == old(self).spec_pcollections(),
    {
        self.transforms.push(transform);
    }

    /// Number of registered coders.
    pub fn coder_count(&self) -> (r: usize)
        ensures
            r == self.spec_coders().len(),
    {
        self.coders.len()
    }

    /// Registers a data channel description.
    pub fn register_pcollection(&mut self, pcollection: proto::PCollection)
        ensures
            final(self).spec_pcollections() == old(self).spec_pcollections().push(pcollection),
            final(self).spec_coders() == old(self).spec_coders(),
            final(self).spec_transforms() == old(self).spec_transforms(),
    {
        self.pcollections.push(pcollection);
    }
}

/// Which kind of pipeline value a handle denotes.
#[derive(Clone, Debug, Eq, PartialEq, Structural)]
pub enum PType {
    Root,
    PCollection,
    PValueArr,
    PValueMap,
}

/// A handle to one pipeline value: its id, its kind, the proto of the data
/// channel it denotes, and ownership of the pipeline under construction.
pub struct PValue<E>
    where E: ElemType,
{
    id: String,
    ptype: PType,
    pcoll_proto: proto::PCollection,
    pipeline: Pipeline,
    phantom: PhantomData<E>,
}

/// A transform: expands an input value into an output value, recording what
/// it creates in the pipeline the value carries.  Implemented by pipeline
/// authors; the library states nothing about what an expansion produces.
pub trait PTransform<In, Out>
    where In: ElemType, Out: ElemType,
{
    fn expand_internal(
        &self,
        input: PValue<In>,
        transform_proto: &mut proto::PTransform,
    ) -> PValue<Out>;
}

impl<E> PValue<E> where E: ElemType {
    pub closed spec fn spec_id(&self) -> Seq<char> {
        self.id@
    }

    pub closed spec fn spec_type(&self) -> PType {
        self.ptype
    }

    pub closed spec fn spec_pcoll_proto(&self) -> proto::PCollection {
        self.pcoll_proto
    }

    pub closed spec fn spec_pipeline(&self) -> Pipeline {
        self.pipeline
    }

    pub fn new(ptype: PType, pcoll_proto: proto::PCollection, pipeline: Pipeline, id: String) -> (r:
        Self)
        ensures
            r.spec_type() == ptype,
            r.spec_pcoll_proto() == pcoll_proto,
            r.spec_pipeline() == pipeline,
            r.spec_id() == id@,
    {
        Self { id, ptype, pcoll_proto, pipeline, phantom: PhantomData }
    }

    /// The root value of a fresh pipeline: registers the bytes coder and the
    /// root impulse transform, and denotes the channel the impulse produces.
    pub fn new_root(pipeline: Pipeline) -> (r: Self)
        ensures
            r.spec_type() == PType::Root,
            r.spec_pcoll_proto().unique_name@ == "root"@,
            r.spec_pcoll_proto().coder_id@ == spec_coder_id(
                pipeline.spec_coders().len() as int,
            ),
            r.spec_pipeline().spec_coders().len() == pipeline.spec_coders().len() + 1,
            r.spec_pipeline().spec_coders().drop_last() == pipeline.spec_coders(),
            r.spec_pipeline().spec_coders().last().spec is Some,
            r.spec_pipeline().spec_coders().last().spec->Some_0.urn@ == urns::BYTES_CODER_URN@,
            r.spec_pipeline().spec_coders().last().spec->Some_0.payload@ == Seq::<u8>::empty(),
            r.spec_pipeline().spec_coders().last().component_coder_ids@.len() == 0,
            r.spec_pipeline().spec_transforms().len() == pipeline.spec_transforms().len() + 1,
            r.spec_pipeline().spec_transforms().drop_last() == pipeline.spec_transforms(),
            r.spec_pipeline().spec_transforms().last().unique_name@ == "root"@,
            r.spec_pipeline().spec_transforms().last().inputs@.len() == 0,
            r.spec_pipeline().spec_transforms().last().outputs@.len() == 1,
            r.spec_pipeline().spec_transforms().last().outputs@[0].0@ == "out"@,
            r.spec_pipeline().spec_transforms().last().outputs@[0].1@ == "root"@,
            r.spec_pipeline().spec_pcollections() == pipeline.spec_pcollections(),
    {
        let mut pipeline = pipeline;
        let pcoll_name = String::from_str("root");

        let proto_coder_id = pipeline.register_coder_proto(
            proto::Coder {
                spec: Some(
                    proto::FunctionSpec {
                        urn: urns::BYTES_CODER_URN.to_owned(),
                        payload: Vec::new(),
                    },
                ),
                component_coder_ids: Vec::new(),
            },
        );

        let output_proto = proto::PCollection {
            unique_name: pcoll_name.clone(),
            coder_id: proto_coder_id,
            is_bounded: true,
            windowing_strategy_id: String::from_str("placeholder"),
        };

        let mut impulse_outputs: Vec<(String, String)> = Vec::new();
        impulse_outputs.push((String::from_str("out"), pcoll_name));
        let impulse_proto = proto::PTransform {
            unique_name: String::from_str("root"),
            spec: None,
            inputs: Vec::new(),
            outputs: impulse_outputs,
            environment_id: String::new(),
        };

        pipeline.register_proto_transform(impulse_proto);

        PValue::new(PType::Root, output_proto, pipeline, bad_id())
    }

    /// Registers a coder proto in the carried pipeline.
    pub fn register_pipeline_coder_proto(&mut self, coder_proto: proto::Coder) -> (id: String)
        ensures
            final(self).spec_pipeline().spec_coders() == old(
                self,
            ).spec_pipeline().spec_coders().push(coder_proto),
            final(self).spec_pipeline().spec_transforms() == old(
                self,
            ).spec_pipeline().spec_transforms(),
            id@ == spec_coder_id(old(self).spec_pipeline().spec_coders().len() as int),
            final(self).spec_id() == old(self).spec_id(),
            final(self).spec_type() == old(self).spec_type(),
    {
        self.pipeline.register_coder_proto(coder_proto)
    }

    /// Registers a transform proto in the carried pipeline.
    pub fn register_pipeline_proto_transform(&mut self, transform: proto::PTransform)
        ensures
            final(self).spec_pipeline().spec_transforms() == old(
                self,
            ).spec_pipeline().spec_transforms().push(transform),
            final(self).spec_pipeline().spec_coders() == old(self).spec_pipeline().spec_coders(),
            final(self).spec_id() == old(self).spec_id(),
            final(self).spec_type() == old(self).spec_type(),
    {
        self.pipeline.register_proto_transform(transform)
    }

    /// Hands the carried pipeline out, consuming the value.
    pub fn get_pipeline_arc(self) -> (r: std::sync::Arc<Pipeline>)
        ensures
            *r == self.spec_pipeline(),
    {
        std::sync::Arc::new(self.pipeline)
    }

    /// Number of coders registered in the carried pipeline.
    pub fn pipeline_coder_count(&self) -> (r: usize)
        ensures
            r == self.spec_pipeline().spec_coders().len(),
    {
        self.pipeline.coder_count()
    }

    /// Re-types the handle onto a data channel it newly denotes, keeping the
    /// carried pipeline.
    pub fn into_pcollection<Out>(self, pcoll_proto: proto::PCollection) -> (r: PValue<Out>)
        where Out: ElemType,
        ensures
            r.spec_type() == PType::PCollection,
            r.spec_pcoll_proto() == pcoll_proto,
            r.spec_pipeline() == self.spec_pipeline(),
            r.spec_id() == self.spec_id(),
    {
        PValue::new(PType::PCollection, pcoll_proto, self.pipeline, self.id)
    }

    pub fn get_type(&self) -> (r: &PType)
        ensures
            *r == self.spec_type(),
    {
        &self.ptype
    }

    pub fn get_id(&self) -> (r: String)
        ensures
            r@ == self.spec_id(),
    {
        self.id.clone()
    }

    /// Applies a transform: expands this value through it and records the
    /// transform proto the expansion filled in.  What the expansion produces
    /// is up to the transform implementation.
    pub fn apply<F, Out>(self, transform: F) -> (r: PValue<Out>)
        where Out: ElemType, F: PTransform<E, Out>,
    {
        let mut transform_proto = proto::PTransform {
            unique_name: String::new(),
            spec: None,
            inputs: Vec::new(),
            outputs: Vec::new(),
            environment_id: String::new(),
        };
        let mut out = transform.expand_internal(self, &mut transform_proto);
        out.register_pipeline_proto_transform(transform_proto);
        out
    }
}

/// The sentinel id of a value that does not denote a registered channel.
fn bad_id() -> (r: String)
    ensures
        r@ == "invalid_id"@,
{
    String::from_str("invalid_id")
}

/// Returns a value as a flat list of key/value bindings.
///
/// A data-bearing value binds under the supplied prefix, or under "main"
/// when none is given; a root binds under "main".  Array- and map-shaped
/// values are not constructed by any transform here, so they are outside
/// this function's domain.
pub fn flatten_pvalue<T>(pvalue: PValue<T>, prefix: Option<String>) -> (r: Vec<(String, PValue<T>)>)
    where T: ElemType,
    requires
        pvalue.spec_type() != PType::PValueArr,
        pvalue.spec_type() != PType::PValueMap,
    ensures
        r@.len() == 1,
        r@[0].1 == pvalue,
        r@[0].0@ == (if pvalue.spec_type() == PType::PCollection && prefix is Some {
            prefix->Some_0@
        } else {
            "main"@
        }),
{
    let mut result: Vec<(String, PValue<T>)> = Vec::new();
    match pvalue.get_type() {
        PType::PCollection => match prefix {
            Some(pr) => {
                result.push((pr, pvalue));
            },
            None => {
                result.push((String::from_str("main"), pvalue));
            },
        },
        _ => {
            result.push((String::from_str("main"), pvalue));
        },
    }
    result
}

} // verus!
