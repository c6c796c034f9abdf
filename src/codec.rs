//! The value codec: Snappy compression with a raw passthrough on failure.

use vstd::prelude::*;

verus! {

/// What Snappy's raw encoder produces for the given bytes, or `None` where it fails.
pub uninterp spec fn snappy_compressed(data: Seq<u8>) -> Option<Seq<u8>>;

/// What Snappy's raw decoder produces for the given bytes, or `None` where they
/// are not a valid compressed stream.
pub uninterp spec fn snappy_decompressed(data: Seq<u8>) -> Option<Seq<u8>>;

/// Whether the raw encoder accepts an input of length `n`: its worst-case
/// output length, `32 + n + n / 6`, must not exceed `u32::MAX`.
pub open spec fn compressible_len(n: nat) -> bool {
    32 + n + n / 6 <= 0xFFFF_FFFF
}

pub open spec fn opt_bytes(o: Option<Vec<u8>>) -> Option<Seq<u8>> {
    match o {
        Some(v) => Some(v@),
        None => None,
    }
}

/// Relies on `snap::raw::Encoder::compress_vec`: it returns the compressed
/// block, and fails only when `max_compress_len` of the input length is zero,
/// that is when the worst-case output would exceed `u32::MAX` bytes. Snappy is
/// lossless: the raw decoder gives the input back from the block.
#[verifier::external_body]
fn snap_compress(data: &[u8]) -> (r: Option<Vec<u8>>)
    ensures
        opt_bytes(r) == snappy_compressed(data@),
        r is Some <==> compressible_len(data@.len()),
        r matches Some(c) ==> snappy_decompressed(c@) == Some(data@),
{
    snap::raw::Encoder::new().compress_vec(data).ok()
}

/// Relies on `snap::raw::Decoder::decompress_vec`: it fails on input that is
/// not a Snappy block, the empty input among them (`Error::Empty`).
#[verifier::external_body]
fn snap_decompress(data: &[u8]) -> (r: Option<Vec<u8>>)
    ensures
        opt_bytes(r) == snappy_decompressed(data@),
        data@.len() == 0 ==> r is None,
{
    snap::raw::Decoder::new().decompress_vec(data).ok()
}

/// The attempt's output where it succeeded, the raw bytes otherwise.
pub open spec fn or_raw_spec(raw: Seq<u8>, attempt: Option<Seq<u8>>) -> Seq<u8> {
    match attempt {
        Some(out) => out,
        None => raw,
    }
}

/// The bytes stored for a raw value.
pub open spec fn encoded(raw: Seq<u8>) -> Seq<u8> {
    or_raw_spec(raw, snappy_compressed(raw))
}

/// The bytes handed back for stored bytes.
pub open spec fn decoded(stored: Seq<u8>) -> Seq<u8> {
    or_raw_spec(stored, snappy_decompressed(stored))
}

/// Keeps the output of a codec attempt, or falls back to the raw input when
/// the attempt failed.
pub fn or_raw(raw: &[u8], attempt: Option<Vec<u8>>) -> (r: Vec<u8>)
    ensures
        r@ == or_raw_spec(raw@, opt_bytes(attempt)),
{
    match attempt {
        Some(out) => out,
        None => vstd::slice::slice_to_vec(raw),
    }
}

/// Compresses a value; never fails, storing the raw bytes where compression
/// does. What it stores decodes back to the value wherever compression succeeds.
pub fn encode(raw: &[u8]) -> (r: Vec<u8>)
    ensures
        r@ == encoded(raw@),
        !compressible_len(raw@.len()) ==> r@ == raw@,
        compressible_len(raw@.len()) ==> decoded(r@) == raw@,
{
    let attempt = snap_compress(raw);
    or_raw(raw, attempt)
}

/// Decompresses stored bytes; never fails, handing back the stored bytes
/// unchanged where they are not a valid compressed stream.
pub fn decode(stored: &[u8]) -> (r: Vec<u8>)
    ensures
        r@ == decoded(stored@),
        snappy_decompressed(stored@) is None ==> r@ == stored@,
        stored@.len() == 0 ==> r@.len() == 0,
{
    let attempt = snap_decompress(stored);
    or_raw(stored, attempt)
}

} // verus!
