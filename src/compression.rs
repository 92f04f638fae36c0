use vstd::prelude::*;

verus! {

/// An algorithm that compresses values of type `Data` into values of type `CompressedData`.
///
/// `compresses_to` and `decompresses_to` describe the two directions. A representation that
/// `compress` hands out is always `decodable`; `decompress` needs nothing more. An
/// implementation that does not describe itself keeps the defaults, which promise nothing
/// about the values.
pub trait Compression: Sized {
    type Data;

    type CompressedData;

    /// `c` is a representation that `self` may produce for `d`.
    open spec fn compresses_to(&self, d: Self::Data, c: Self::CompressedData) -> bool {
        true
    }

    /// `c` is a representation that `decompress` accepts.
    open spec fn decodable(c: Self::CompressedData) -> bool {
        true
    }

    /// `d` is what `decompress` gives back for `c`.
    open spec fn decompresses_to(c: Self::CompressedData, d: Self::Data) -> bool {
        true
    }

    fn compress(&self, data: &Self::Data) -> (r: Compressed<Self>)
        ensures
            self.compresses_to(*data, r.compressed_data),
            Self::decodable(r.compressed_data),
    ;

    fn decompress(compressed: &Self::CompressedData) -> (r: Self::Data)
        requires
            Self::decodable(*compressed),
        ensures
            Self::decompresses_to(*compressed, r),
    ;
}

/// The compressed form of a value, tagged with the algorithm that produced it.
pub struct Compressed<A: Compression> {
    pub compressed_data: A::CompressedData,
    pub marker: core::marker::PhantomData<A>,
}

impl<A: Compression> Compressed<A> {
    pub fn new(compressed_data: A::CompressedData) -> (r: Self)
        ensures
            r.compressed_data == compressed_data,
    {
        Compressed { compressed_data, marker: core::marker::PhantomData }
    }

    pub fn decompress(&self) -> (r: A::Data)
        requires
            A::decodable(self.compressed_data),
        ensures
            A::decompresses_to(self.compressed_data, r),
    {
        A::decompress(&self.compressed_data)
    }

    pub fn take(self) -> (r: A::CompressedData)
        ensures
            r == self.compressed_data,
    {
        self.compressed_data
    }
}

/// A compression algorithm that acts directly on bytes.
///
/// `compressed_bytes` names what `compress_bytes` produces for the given input, and
/// `decompress_bytes` gives the input back for every such output.
pub trait BytesCompression: Sized {
    spec fn compressed_bytes(&self, bytes: Seq<u8>) -> Seq<u8>;

    /// `c` is an output of `compress_bytes` (under any parameters of this algorithm).
    spec fn is_output(c: Seq<u8>) -> bool;

    /// The input that `c` was compressed from.
    spec fn source_bytes(c: Seq<u8>) -> Seq<u8>;

    fn compress_bytes(&self, bytes: &[u8]) -> (r: Vec<u8>)
        ensures
            r@ == self.compressed_bytes(bytes@),
            Self::is_output(r@),
            Self::source_bytes(r@) == bytes@,
    ;

    fn decompress_bytes(compressed_bytes: &[u8]) -> (r: Vec<u8>)
        requires
            Self::is_output(compressed_bytes@),
        ensures
            r@ == Self::source_bytes(compressed_bytes@),
    ;
}

} // verus!
