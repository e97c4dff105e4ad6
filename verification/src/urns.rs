//! URN strings for the built-in coders and transform kinds.

use vstd::prelude::*;

verus! {

pub const BYTES_CODER_URN: &'static str = "beam:coder:bytes:v1";

pub const STR_UTF8_CODER_URN: &'static str = "beam:coder:string_utf8:v1";

pub const VARINT_CODER_URN: &'static str = "beam:coder:varint:v1";

pub const KV_CODER_URN: &'static str = "beam:coder:kv:v1";

pub const ITERABLE_CODER_URN: &'static str = "beam:coder:iterable:v1";

pub const IMPULSE_URN: &'static str = "beam:transform:impulse:v1";

pub const CREATE_URN: &'static str = "beam:transform:create:v1";

pub const RECORDING_URN: &'static str = "beam:transform:recording:v1";

/// The transform URNs name different kinds.
pub proof fn lemma_transform_urns_distinct()
    ensures
        CREATE_URN@ != RECORDING_URN@,
        CREATE_URN@ != IMPULSE_URN@,
        RECORDING_URN@ != IMPULSE_URN@,
{
    reveal_strlit("beam:transform:impulse:v1");
    reveal_strlit("beam:transform:create:v1");
    reveal_strlit("beam:transform:recording:v1");
    assert(CREATE_URN@.len() == 24);
    assert(RECORDING_URN@.len() == 27);
    assert(IMPULSE_URN@.len() == 25);
}

} // verus!
