use crate::err::IngestError;
use vstd::prelude::*;

verus! {

/// The compressed frame the blob compressor produces for the given raw
/// bytes.  The compressor runs at a fixed quality level, so the frame is a
/// function of the input alone.
pub uninterp spec fn lz4_frame_of(raw: Seq<u8>) -> Seq<u8>;

/// Relies on lz4's `EncoderBuilder` and `Encoder`: compressing a byte
/// string at a fixed level with decompression speed favored produces one
/// frame determined by the input bytes alone.
#[verifier::external_body]
fn lz4_compress(raw: &Vec<u8>) -> (r: Result<Vec<u8>, IngestError>)
    ensures
        r matches Ok(frame) ==> frame@ == lz4_frame_of(raw@),
        r matches Err(e) ==> e == IngestError::Compression,
{
    let sink: Vec<u8> = Vec::new();
    let mut enc = lz4::EncoderBuilder::new()
        .level(10)
        .favor_dec_speed(true)
        .build(sink)
        .map_err(|_| IngestError::Compression)?;
    std::io::Write::write_all(&mut enc, raw.as_slice()).map_err(|_| IngestError::Compression)?;
    let (out, res) = enc.finish();
    match res {
        Ok(()) => Ok(out),
        Err(_) => Err(IngestError::Compression),
    }
}

/// Relies on lz4's `Decoder`: decoding a frame the encoder produced yields
/// exactly the bytes that were compressed.
#[verifier::external_body]
fn lz4_decompress(frame: &Vec<u8>) -> (r: Result<Vec<u8>, IngestError>)
    ensures
        r matches Ok(out) ==> forall|raw: Seq<u8>|
            frame@ == #[trigger] lz4_frame_of(raw) ==> out@ == raw,
        r matches Err(e) ==> e == IngestError::Compression && forall|raw: Seq<u8>|
            frame@ != #[trigger] lz4_frame_of(raw),
{
    let mut dec = lz4::Decoder::new(frame.as_slice()).map_err(|_| IngestError::Compression)?;
    let mut out: Vec<u8> = Vec::new();
    std::io::Read::read_to_end(&mut dec, &mut out).map_err(|_| IngestError::Compression)?;
    Ok(out)
}

/// Compress raw blob content into the frame the store persists.
pub fn compress_content(raw: &Vec<u8>) -> (r: Result<Vec<u8>, IngestError>)
    ensures
        r matches Ok(frame) ==> frame@ == lz4_frame_of(raw@),
        r matches Err(e) ==> e == IngestError::Compression,
{
    lz4_compress(raw)
}

/// Decompress a stored frame back into raw blob content: a stored frame
/// produced for raw bytes decodes to exactly those bytes.
pub fn decompress_content(frame: &Vec<u8>) -> (r: Result<Vec<u8>, IngestError>)
    ensures
        forall|raw: Seq<u8>|
            frame@ == #[trigger] lz4_frame_of(raw) ==> (r matches Ok(out) && out@ == raw),
{
    let r = lz4_decompress(frame);
    proof {
        if exists|raw: Seq<u8>| frame@ == #[trigger] lz4_frame_of(raw) {
            assert(!(r matches Err(_)));
        }
    }
    r
}

} // verus!
