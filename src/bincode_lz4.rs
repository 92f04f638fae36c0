use crate::compression::{BytesCompression, Compressed, Compression};
use std::io::Read;
use std::io::Write;
use vstd::prelude::*;

verus! {

/// The LZ4 frame that lz4's `Encoder` writes for `bytes` at compression `level`.
pub uninterp spec fn lz4_frame(level: u32, bytes: Seq<u8>) -> Seq<u8>;

/// The bytes that lz4's `Decoder` reads out of `frame`.
pub uninterp spec fn lz4_content(frame: Seq<u8>) -> Seq<u8>;

/// Relies on `lz4::EncoderBuilder::build`, `Write::write_all` on the `lz4::Encoder` and
/// `lz4::Encoder::finish`: the output is the LZ4 frame of `bytes`, from which the decoder
/// reads `bytes` back (LZ4 is lossless). Writing into a `Vec` cannot fail; the encoder fails
/// only when LZ4 cannot allocate its context.
#[verifier::external_body]
fn lz4_encode(level: u32, bytes: &[u8]) -> (r: Vec<u8>)
    ensures
        r@ == lz4_frame(level, bytes@),
        lz4_content(r@) == bytes@,
{
    let mut encoder = lz4::EncoderBuilder::new().level(level).build(Vec::new()).expect(
        "LZ4 compression context",
    );
    encoder.write_all(bytes).expect("writing into memory");
    let (compressed_bytes, result) = encoder.finish();
    result.expect("writing into memory");
    compressed_bytes
}

/// Relies on `lz4::Decoder::new` and `Read::read_to_end` on the `lz4::Decoder`: the bytes
/// read out of `frame`; a frame that the encoder wrote is always read back.
#[verifier::external_body]
fn lz4_decode(frame: &[u8]) -> (r: Option<Vec<u8>>)
    ensures
        r matches Some(v) ==> v@ == lz4_content(frame@),
        (exists|level: u32, b: Seq<u8>| frame@ == lz4_frame(level, b)) ==> r is Some,
{
    let mut decoder = lz4::Decoder::new(frame).ok()?;
    let mut bytes = Vec::new();
    decoder.read_to_end(&mut bytes).ok()?;
    Some(bytes)
}

/// A fast compression scheme for use with the `CompressibleMap`: values are
/// held as their serialized bytes, compressed into an LZ4 frame.
#[derive(Clone, Copy)]
pub struct BincodeLz4 {
    pub level: u32,
}

/// The LZ4 frame of a serialized value.
pub struct BincodeLz4Compressed {
    pub compressed_bytes: Vec<u8>,
}

impl BytesCompression for BincodeLz4 {
    open spec fn compressed_bytes(&self, bytes: Seq<u8>) -> Seq<u8> {
        lz4_frame(self.level, bytes)
    }

    open spec fn is_output(c: Seq<u8>) -> bool {
        exists|level: u32, b: Seq<u8>| c == lz4_frame(level, b)
    }

    open spec fn source_bytes(c: Seq<u8>) -> Seq<u8> {
        lz4_content(c)
    }

    fn compress_bytes(&self, bytes: &[u8]) -> (r: Vec<u8>) {
        let r = lz4_encode(self.level, bytes);
        assert(r@ == lz4_frame(self.level, bytes@));
        r
    }

    fn decompress_bytes(compressed_bytes: &[u8]) -> (r: Vec<u8>) {
        match lz4_decode(compressed_bytes) {
            Some(bytes) => bytes,
            None => unreached(),
        }
    }
}

impl Compression for BincodeLz4 {
    type Data = Vec<u8>;

    type CompressedData = BincodeLz4Compressed;

    open spec fn compresses_to(&self, d: Vec<u8>, c: BincodeLz4Compressed) -> bool {
        &&& c.compressed_bytes@ == self.compressed_bytes(d@)
        &&& Self::source_bytes(c.compressed_bytes@) == d@
    }

    open spec fn decodable(c: BincodeLz4Compressed) -> bool {
        Self::is_output(c.compressed_bytes@)
    }

    open spec fn decompresses_to(c: BincodeLz4Compressed, d: Vec<u8>) -> bool {
        d@ == Self::source_bytes(c.compressed_bytes@)
    }

    fn compress(&self, data: &Vec<u8>) -> (r: Compressed<Self>) {
        let compressed_bytes = self.compress_bytes(data.as_slice());
        Compressed { compressed_data: BincodeLz4Compressed { compressed_bytes }, marker: core::marker::PhantomData }
    }

    fn decompress(compressed: &BincodeLz4Compressed) -> (r: Vec<u8>) {
        Self::decompress_bytes(compressed.compressed_bytes.as_slice())
    }
}

/// Decompressing what `compress` produced gives the input bytes back.
pub proof fn lemma_lz4_round_trip(
    params: BincodeLz4,
    data: Vec<u8>,
    compressed: BincodeLz4Compressed,
    decompressed: Vec<u8>,
)
    requires
        params.compresses_to(data, compressed),
        BincodeLz4::decompresses_to(compressed, decompressed),
    ensures
        decompressed@ == data@,
{
}

} // verus!
