use crate::compression::{BytesCompression, Compressed, Compression};
use std::io::Read;
use std::io::Write;
use vstd::prelude::*;

verus! {

/// The Snappy frame stream that snap's `FrameEncoder` writes for `bytes`.
pub uninterp spec fn snappy_frame(bytes: Seq<u8>) -> Seq<u8>;

/// The bytes that snap's `FrameDecoder` reads out of `frame`.
pub uninterp spec fn snappy_content(frame: Seq<u8>) -> Seq<u8>;

/// Relies on `snap::write::FrameEncoder::new`, `Write::write_all` on it and
/// `FrameEncoder::into_inner`: the output is the Snappy frame stream of `bytes`, from which
/// the decoder reads `bytes` back (Snappy is lossless). Writing into a `Vec` cannot fail.
#[verifier::external_body]
fn snappy_encode(bytes: &[u8]) -> (r: Vec<u8>)
    ensures
        r@ == snappy_frame(bytes@),
        snappy_content(r@) == bytes@,
{
    let mut encoder = snap::write::FrameEncoder::new(Vec::new());
    encoder.write_all(bytes).expect("writing into memory");
    encoder.into_inner().expect("writing into memory")
}

/// Relies on `snap::read::FrameDecoder::new` and `Read::read_to_end` on it: the bytes read
/// out of `frame`; a stream that the encoder wrote is always read back.
#[verifier::external_body]
fn snappy_decode(frame: &[u8]) -> (r: Option<Vec<u8>>)
    ensures
        r matches Some(v) ==> v@ == snappy_content(frame@),
        (exists|b: Seq<u8>| frame@ == snappy_frame(b)) ==> r is Some,
{
    let mut decoder = snap::read::FrameDecoder::new(frame);
    let mut bytes = Vec::new();
    decoder.read_to_end(&mut bytes).ok()?;
    Some(bytes)
}

/// A fast compression scheme for use with the `CompressibleMap`: values are
/// held as their serialized bytes, compressed into a Snappy frame stream.
#[derive(Clone, Copy, Debug)]
pub struct BincodeSnappy;

/// The Snappy frame stream of a serialized value.
pub struct BincodeSnappyCompressed {
    pub compressed_bytes: Vec<u8>,
}

impl BytesCompression for BincodeSnappy {
    open spec fn compressed_bytes(&self, bytes: Seq<u8>) -> Seq<u8> {
        snappy_frame(bytes)
    }

    open spec fn is_output(c: Seq<u8>) -> bool {
        exists|b: Seq<u8>| c == snappy_frame(b)
    }

    open spec fn source_bytes(c: Seq<u8>) -> Seq<u8> {
        snappy_content(c)
    }

    fn compress_bytes(&self, bytes: &[u8]) -> (r: Vec<u8>) {
        let r = snappy_encode(bytes);
        assert(r@ == snappy_frame(bytes@));
        r
    }

    fn decompress_bytes(compressed_bytes: &[u8]) -> (r: Vec<u8>) {
        match snappy_decode(compressed_bytes) {
            Some(bytes) => bytes,
            None => unreached(),
        }
    }
}

impl Compression for BincodeSnappy {
    type Data = Vec<u8>;

    type CompressedData = BincodeSnappyCompressed;

    open spec fn compresses_to(&self, d: Vec<u8>, c: BincodeSnappyCompressed) -> bool {
        &&& c.compressed_bytes@ == self.compressed_bytes(d@)
        &&& Self::source_bytes(c.compressed_bytes@) == d@
    }

    open spec fn decodable(c: BincodeSnappyCompressed) -> bool {
        Self::is_output(c.compressed_bytes@)
    }

    open spec fn decompresses_to(c: BincodeSnappyCompressed, d: Vec<u8>) -> bool {
        d@ == Self::source_bytes(c.compressed_bytes@)
    }

    fn compress(&self, data: &Vec<u8>) -> (r: Compressed<Self>) {
        let compressed_bytes = self.compress_bytes(data.as_slice());
        Compressed {
            compressed_data: BincodeSnappyCompressed { compressed_bytes },
            marker: core::marker::PhantomData,
        }
    }

    fn decompress(compressed: &BincodeSnappyCompressed) -> (r: Vec<u8>) {
        Self::decompress_bytes(compressed.compressed_bytes.as_slice())
    }
}

/// Decompressing what `compress` produced gives the input bytes back.
pub proof fn lemma_snappy_round_trip(
    params: BincodeSnappy,
    data: Vec<u8>,
    compressed: BincodeSnappyCompressed,
    decompressed: Vec<u8>,
)
    requires
        params.compresses_to(data, compressed),
        BincodeSnappy::decompresses_to(compressed, decompressed),
    ensures
        decompressed@ == data@,
{
}

} // verus!
