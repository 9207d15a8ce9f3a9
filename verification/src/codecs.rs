//! Codecs of the values whose encoding is fixed: the unit value and
//! resource handles, and the wrapper that gives any codec no deferred work.

use vstd::prelude::*;

use crate::codec::{deferred_view, ValEncoder};
use crate::leb128::{uleb, write_u32};
use crate::wire::{le_bytes, le_value, lemma_le_roundtrip, pow256, read_le, write_le, CodecError};

verus! {

/// A codec's deferred work: the paths of the nested streams whose contents
/// follow the value it last encoded.
pub trait Deferred {
    /// Takes the deferred work, if any.
    fn take_deferred(&mut self) -> Option<Vec<Vec<usize>>>;
}

impl<'a> Deferred for ValEncoder<'a> {
    /// Takes the paths of the input streams of the last value encoded that
    /// had any.
    fn take_deferred(&mut self) -> (r: Option<Vec<Vec<usize>>>)
        ensures
            deferred_view(r) == deferred_view(old(self).deferred),
            final(self).deferred is None,
            final(self).ty == old(self).ty,
    {
        self.deferred.take()
    }
}

/// Codec for `()`: the unit value takes no bytes.
#[derive(Clone, Copy, Debug, PartialEq, Eq)]
pub struct UnitCodec;

impl UnitCodec {
    /// Encodes `()`, which writes nothing.
    pub fn encode(&mut self, item: (), dst: &mut Vec<u8>) -> (r: Result<(), CodecError>)
        ensures
            r is Ok,
            final(dst)@ == old(dst)@,
    {
        Ok(())
    }

    /// Decodes `()` at position `k`, which reads nothing.
    pub fn decode(&mut self, src: &[u8], k: usize) -> (r: Result<Option<((), usize)>, CodecError>)
        ensures
            r == Ok::<Option<((), usize)>, CodecError>(Some(((), k))),
    {
        Ok(Some(((), k)))
    }
}

impl Deferred for UnitCodec {
    /// Never has deferred work.
    fn take_deferred(&mut self) -> (r: Option<Vec<Vec<usize>>>)
        ensures
            r is None,
    {
        None
    }
}

/// Encoding of a resource handle: its length, then its bytes.
pub open spec fn handle_bytes(h: Seq<u8>) -> Seq<u8> {
    uleb(h.len()) + h
}

/// Encoder of resource handles, owned or borrowed.
#[derive(Clone, Copy, Debug, PartialEq, Eq)]
pub struct ResourceEncoder;

impl ResourceEncoder {
    /// Appends the encoding of the handle `repr`; nothing when it is longer
    /// than `u32::MAX` bytes.
    pub fn encode(&mut self, repr: &[u8], dst: &mut Vec<u8>) -> (r: Result<(), CodecError>)
        ensures
            r is Ok <==> repr@.len() <= u32::MAX,
            r is Ok ==> final(dst)@ == old(dst)@ + handle_bytes(repr@),
            r is Err ==> r == Err::<(), CodecError>(CodecError::TooLong) && final(dst)@ == old(dst)@,
    {
        if repr.len() > u32::MAX as usize {
            return Err(CodecError::TooLong);
        }
        write_u32(repr.len() as u32, dst);
        let mut c = vstd::slice::slice_to_vec(repr);
        dst.append(&mut c);
        assert(dst@ =~= old(dst)@ + handle_bytes(repr@));
        Ok(())
    }
}

impl Deferred for ResourceEncoder {
    /// Never has deferred work.
    fn take_deferred(&mut self) -> (r: Option<Vec<Vec<usize>>>)
        ensures
            r is None,
    {
        None
    }
}

/// A codec of synchronous values: any codec, with no deferred work.
pub struct SyncCodec<T>(pub T);

impl<T> Deferred for SyncCodec<T> {
    /// Never has deferred work.
    fn take_deferred(&mut self) -> (r: Option<Vec<Vec<usize>>>)
        ensures
            r is None,
    {
        None
    }
}

/// The one `NaN` that the component model allows in an `f32`, by its bits.
pub const CANONICAL_NAN_F32: u32 = 0x7fc0_0000;

/// The one `NaN` that the component model allows in an `f64`, by its bits.
pub const CANONICAL_NAN_F64: u64 = 0x7ff8_0000_0000_0000;

/// Whether the bits of an `f32` are a `NaN`: all exponent bits set and a
/// mantissa that is not zero.
pub open spec fn is_nan_f32(bits: u32) -> bool {
    bits & 0x7fff_ffffu32 > 0x7f80_0000u32
}

/// Whether the bits of an `f64` are a `NaN`.
pub open spec fn is_nan_f64(bits: u64) -> bool {
    bits & 0x7fff_ffff_ffff_ffffu64 > 0x7ff0_0000_0000_0000u64
}

/// The bits an `f32` is written as: the canonical `NaN` for every `NaN`,
/// the value unchanged otherwise.
pub open spec fn canonical_f32(bits: u32) -> u32 {
    if is_nan_f32(bits) {
        CANONICAL_NAN_F32
    } else {
        bits
    }
}

/// The bits an `f64` is written as.
pub open spec fn canonical_f64(bits: u64) -> u64 {
    if is_nan_f64(bits) {
        CANONICAL_NAN_F64
    } else {
        bits
    }
}

/// Codec of `f32` values, by their bits, that writes every `NaN` as the
/// canonical one and reads any `NaN` as it is.
#[derive(Clone, Copy, Debug, Default, PartialEq, Eq)]
pub struct CanonicalNanF32Codec;

impl CanonicalNanF32Codec {
    /// Appends the four little-endian bytes of `bits`, made canonical.
    pub fn encode(&mut self, bits: u32, dst: &mut Vec<u8>) -> (r: Result<(), CodecError>)
        ensures
            r is Ok,
            final(dst)@ == old(dst)@ + le_bytes(canonical_f32(bits) as nat, 4),
    {
        let b: u32 = if bits & 0x7fff_ffff > 0x7f80_0000 {
            CANONICAL_NAN_F32
        } else {
            bits
        };
        write_le(b as u64, 4, dst);
        Ok(())
    }

    /// Reads the four little-endian bytes at `k`, as they are.
    pub fn decode(&mut self, src: &[u8], k: usize) -> (r: Result<Option<(u32, usize)>, CodecError>)
        ensures
            k + 4 <= src.len() ==> r == Ok::<Option<(u32, usize)>, CodecError>(
                Some((le_value(src@.subrange(k as int, k + 4)) as u32, (k + 4) as usize)),
            ),
            k + 4 > src.len() ==> r == Ok::<Option<(u32, usize)>, CodecError>(None),
    {
        match read_le(src, k, 4) {
            Some((v, e)) => Ok(Some((v as u32, e))),
            None => Ok(None),
        }
    }
}

impl Deferred for CanonicalNanF32Codec {
    /// Never has deferred work.
    fn take_deferred(&mut self) -> (r: Option<Vec<Vec<usize>>>)
        ensures
            r is None,
    {
        None
    }
}

/// Codec of `f64` values, by their bits, that writes every `NaN` as the
/// canonical one and reads any `NaN` as it is.
#[derive(Clone, Copy, Debug, Default, PartialEq, Eq)]
pub struct CanonicalNanF64Codec;

impl CanonicalNanF64Codec {
    /// Appends the eight little-endian bytes of `bits`, made canonical.
    pub fn encode(&mut self, bits: u64, dst: &mut Vec<u8>) -> (r: Result<(), CodecError>)
        ensures
            r is Ok,
            final(dst)@ == old(dst)@ + le_bytes(canonical_f64(bits) as nat, 8),
    {
        let b: u64 = if bits & 0x7fff_ffff_ffff_ffff > 0x7ff0_0000_0000_0000 {
            CANONICAL_NAN_F64
        } else {
            bits
        };
        write_le(b, 8, dst);
        Ok(())
    }

    /// Reads the eight little-endian bytes at `k`, as they are.
    pub fn decode(&mut self, src: &[u8], k: usize) -> (r: Result<Option<(u64, usize)>, CodecError>)
        ensures
            k + 8 <= src.len() ==> r == Ok::<Option<(u64, usize)>, CodecError>(
                Some((le_value(src@.subrange(k as int, k + 8)) as u64, (k + 8) as usize)),
            ),
            k + 8 > src.len() ==> r == Ok::<Option<(u64, usize)>, CodecError>(None),
    {
        match read_le(src, k, 8) {
            Some((v, e)) => Ok(Some((v, e))),
            None => Ok(None),
        }
    }
}

impl Deferred for CanonicalNanF64Codec {
    /// Never has deferred work.
    fn take_deferred(&mut self) -> (r: Option<Vec<Vec<usize>>>)
        ensures
            r is None,
    {
        None
    }
}

/// Reading back what the `f32` codec wrote gives the value written, made
/// canonical: a `NaN` comes back as the canonical `NaN`, anything else as it
/// was. Writing is idempotent on what it reads back.
pub proof fn lemma_f32_roundtrip(bits: u32, rest: Seq<u8>)
    ensures
        ({
            let b = le_bytes(canonical_f32(bits) as nat, 4) + rest;
            &&& b.len() >= 4
            &&& le_value(b.subrange(0, 4)) as u32 == canonical_f32(bits)
            &&& canonical_f32(canonical_f32(bits)) == canonical_f32(bits)
            &&& is_nan_f32(canonical_f32(bits)) == is_nan_f32(bits)
        }),
{
    assert(pow256(4) == 0x1_0000_0000) by {
        reveal_with_fuel(pow256, 5);
    }
    lemma_le_roundtrip(canonical_f32(bits) as nat, 4);
    let b = le_bytes(canonical_f32(bits) as nat, 4) + rest;
    assert(b.subrange(0, 4) =~= le_bytes(canonical_f32(bits) as nat, 4));
    assert(0x7fc0_0000u32 & 0x7fff_ffffu32 > 0x7f80_0000u32) by (bit_vector);
}

/// Reading back what the `f64` codec wrote gives the value written, made
/// canonical.
pub proof fn lemma_f64_roundtrip(bits: u64, rest: Seq<u8>)
    ensures
        ({
            let b = le_bytes(canonical_f64(bits) as nat, 8) + rest;
            &&& b.len() >= 8
            &&& le_value(b.subrange(0, 8)) as u64 == canonical_f64(bits)
            &&& canonical_f64(canonical_f64(bits)) == canonical_f64(bits)
            &&& is_nan_f64(canonical_f64(bits)) == is_nan_f64(bits)
        }),
{
    assert(pow256(8) == 0x1_0000_0000_0000_0000) by {
        reveal_with_fuel(pow256, 9);
    }
    lemma_le_roundtrip(canonical_f64(bits) as nat, 8);
    let b = le_bytes(canonical_f64(bits) as nat, 8) + rest;
    assert(b.subrange(0, 8) =~= le_bytes(canonical_f64(bits) as nat, 8));
    assert(0x7ff8_0000_0000_0000u64 & 0x7fff_ffff_ffff_ffffu64 > 0x7ff0_0000_0000_0000u64)
        by (bit_vector);
}

} // verus!
