//! Streaming frame compression of the index and records artifacts, by
//! lz4_flex's frame format.
use vstd::prelude::*;

verus! {

/// The LZ4 frame that lz4_flex's `FrameEncoder` writes for the data.
pub uninterp spec fn lz4_frame_of(data: Seq<u8>) -> Seq<u8>;

/// What lz4_flex's `FrameDecoder` reads out of a byte sequence to its end,
/// or `None` where it fails.
pub uninterp spec fn lz4_unframe_of(frame: Seq<u8>) -> Option<Seq<u8>>;

/// Relies on lz4_flex's `FrameEncoder` writing into a `Vec`, which cannot
/// fail: the frame depends on the data alone, and `FrameDecoder` reads the
/// data back out of it.
#[verifier::external_body]
pub(crate) fn lz4_frame(data: &[u8]) -> (r: Vec<u8>)
    ensures
        r@ == lz4_frame_of(data@),
        lz4_unframe_of(r@) == Some(data@),
{
    let mut encoder = lz4_flex::frame::FrameEncoder::new(Vec::new());
    std::io::Write::write_all(&mut encoder, data).expect("writing into a Vec does not fail");
    encoder.finish().expect("writing into a Vec does not fail")
}

/// Relies on lz4_flex's `FrameDecoder` reading a byte slice to its end: the
/// outcome depends on the bytes alone.
#[verifier::external_body]
pub(crate) fn lz4_unframe(frame: &[u8]) -> (r: Option<Vec<u8>>)
    ensures
        match r {
            Some(v) => lz4_unframe_of(frame@) == Some(v@),
            None => lz4_unframe_of(frame@) is None,
        },
{
    let mut out = Vec::new();
    let mut decoder = lz4_flex::frame::FrameDecoder::new(frame);
    match std::io::Read::read_to_end(&mut decoder, &mut out) {
        Ok(_) => Some(out),
        Err(_) => None,
    }
}

} // verus!
