//! The binary delta codec, as the rest of the library sees it.
//!
//! The codec is an outside crate. Its three entry points are called here and
//! nowhere else, and what the library knows of them is what these contracts say.

use vstd::prelude::*;

verus! {

/// The delta that the codec's encoder produces for a tag, a base and a target.
pub uninterp spec fn codec_encode(tag: nat, base: Seq<u8>, target: Seq<u8>, compress: bool) -> Seq<u8>;

/// The bytes that the codec's decoder reconstructs from a base and a delta,
/// or `None` where it rejects the pair.
pub uninterp spec fn codec_decode(base: Seq<u8>, delta: Seq<u8>) -> Option<Seq<u8>>;

/// The tag that the codec reads from the header of a delta, or `None` where
/// it cannot read one.
pub uninterp spec fn codec_tag(delta: Seq<u8>) -> Option<nat>;

/// True of the byte strings that the encoder can produce, for whatever
/// arguments. The decoder is only ever handed such bytes: on others it may
/// stop the program instead of reporting an error.
pub open spec fn is_codec_output(delta: Seq<u8>) -> bool {
    exists|tag: nat, base: Seq<u8>, target: Seq<u8>, compress: bool|
        delta == #[trigger] codec_encode(tag, base, target, compress)
}

/// A delta that the encoder produced. Stored deltas are held in this type,
/// so that whatever reaches the decoder is of the encoder's making.
#[derive(Debug)]
pub struct Delta {
    bytes: Vec<u8>,
}

impl View for Delta {
    type V = Seq<u8>;

    closed spec fn view(&self) -> Seq<u8> {
        self.bytes@
    }
}

impl Delta {
    #[verifier::type_invariant]
    spec fn encoded(self) -> bool {
        is_codec_output(self.bytes@)
    }

    /// Takes bytes that the encoder produced, such as a delta read back from
    /// where it was stored.
    pub fn from_stored(bytes: Vec<u8>) -> (delta: Delta)
        requires
            is_codec_output(bytes@),
        ensures
            delta@ == bytes@,
    {
        Delta { bytes }
    }

    /// The bytes of the delta.
    pub fn as_bytes(&self) -> (bytes: &Vec<u8>)
        ensures
            bytes@ == self@,
            is_codec_output(self@),
    {
        proof {
            use_type_invariant(self);
        }
        &self.bytes
    }

    /// A copy of the delta.
    pub fn duplicate(&self) -> (copy: Delta)
        ensures
            copy@ == self@,
    {
        proof {
            use_type_invariant(self);
        }
        Delta { bytes: self.bytes.clone() }
    }
}

/// Calls `xpatch::encode`.
///
/// Trusted: the result is the encoder's delta for these arguments; applied
/// to the same base it decodes to the target, and it carries the tag. Both
/// facts are the round trip that the codec documents for its encoder.
#[verifier::external_body]
pub(crate) fn encode_delta(tag: usize, base: &[u8], target: &[u8], compress: bool) -> (delta: Vec<u8>)
    ensures
        delta@ == codec_encode(tag as nat, base@, target@, compress),
        codec_decode(base@, delta@) == Some(target@),
        codec_tag(delta@) == Some(tag as nat),
{
    xpatch::encode(tag, base, target, compress)
}

/// Calls `xpatch::decode`.
///
/// Trusted: on a delta that the encoder produced the decoder returns, with
/// the reconstructed bytes or with an error (a delta applied to a base it
/// does not fit); which of the two, and which bytes, depends on the
/// arguments alone.
#[verifier::external_body]
pub(crate) fn decode_delta(base: &[u8], delta: &[u8]) -> (content: Option<Vec<u8>>)
    requires
        is_codec_output(delta@),
    ensures
        content is Some <==> codec_decode(base@, delta@) is Some,
        content matches Some(bytes) ==> codec_decode(base@, delta@) == Some(bytes@),
{
    match xpatch::decode(base, delta) {
        Ok(bytes) => Some(bytes),
        Err(_) => None,
    }
}

/// Calls `xpatch::get_tag`.
///
/// Trusted: on a delta that the encoder produced the call returns, and what
/// it reads from the header depends on the delta alone.
#[verifier::external_body]
pub(crate) fn read_tag(delta: &[u8]) -> (tag: Option<usize>)
    requires
        is_codec_output(delta@),
    ensures
        tag is Some <==> codec_tag(delta@) is Some,
        tag matches Some(t) ==> codec_tag(delta@) == Some(t as nat),
{
    match xpatch::get_tag(delta) {
        Ok(t) => Some(t),
        Err(_) => None,
    }
}

} // verus!
