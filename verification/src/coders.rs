//! The coder interface: the contract concrete serialization strategies
//! implement.  Byte-level encodings of specific element types are supplied by
//! collaborators; only the interface and the simplest pass-through coder live
//! here.

use crate::errors::HarnessError;
use crate::urns;
use vstd::prelude::*;

verus! {

/// The context an element is encoded in.  `WholeStream` encodes the element
/// as-is; `NeedsDelimiters` encodes it so a decoder can find its end inside
/// a longer stream.
#[derive(Clone, Debug, Eq, PartialEq, Structural)]
pub enum Context {
    WholeStream,
    NeedsDelimiters,
}

/// A serialization strategy for one element type, selected by URN.  Elements
/// cross this interface as plain bytes.
pub trait Coder {
    /// The URN under which this coder registers.
    fn get_coder_urn() -> &'static str where Self: Sized;

    /// Encodes one element into bytes.
    fn encode(&self, element: &Vec<u8>, context: &Context) -> Vec<u8>;

    /// Decodes one element from bytes.
    fn decode(&self, bytes: &Vec<u8>, context: &Context) -> Result<Vec<u8>, HarnessError>;
}

/// The whole-stream byte coder: bytes pass through unchanged.
pub struct BytesCoder {
}

impl BytesCoder {
    pub fn new() -> (r: Self)
    {
        BytesCoder {  }
    }
}

impl Coder for BytesCoder {
    fn get_coder_urn() -> (r: &'static str)
        ensures
            r@ == urns::BYTES_CODER_URN@,
    {
        urns::BYTES_CODER_URN
    }

    fn encode(&self, element: &Vec<u8>, context: &Context) -> (r: Vec<u8>)
        ensures
            r@ == element@,
    {
        let _ = context;
        copy_bytes(element)
    }

    fn decode(&self, bytes: &Vec<u8>, context: &Context) -> (r: Result<Vec<u8>, HarnessError>)
        ensures
            r is Ok,
            r->Ok_0@ == bytes@,
    {
        let _ = context;
        Ok(copy_bytes(bytes))
    }
}

/// A byte-for-byte copy.
pub(crate) fn copy_bytes(b: &Vec<u8>) -> (r: Vec<u8>)
    ensures
        r@ == b@,
{
    let mut out: Vec<u8> = Vec::new();
    let mut i: usize = 0;
    while i < b.len()
        invariant
            0 <= i <= b@.len(),
            out@ == b@.take(i as int),
        decreases b@.len() - i,
    {
        out.push(b[i]);
        proof {
            assert(out@ =~= b@.take(i + 1));
        }
        i = i + 1;
    }
    proof {
        assert(b@.take(b@.len() as int) =~= b@);
    }
    out
}

} // verus!
