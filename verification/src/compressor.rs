//! Payload compression with LZ4 or Zstandard, skipped for small payloads or
//! when disabled.

use vstd::prelude::*;
use crate::partition::copy_bytes;

verus! {

/// `std::io::Error`, the error of the compression libraries.
#[verifier::external_type_specification]
#[verifier::external_body]
pub struct ExIoError(std::io::Error);

/// The text of an I/O error (its `Display` form). Nothing is promised of
/// the text.
#[verifier::external_body]
fn io_error_text(e: std::io::Error) -> (r: String) {
    e.to_string()
}

/// The LZ4 frame that `lz4::EncoderBuilder` at level 4 writes for `data`.
pub uninterp spec fn lz4_frame_of(data: Seq<u8>) -> Seq<u8>;

/// The Zstandard frame that `zstd::encode_all` writes for `data` at `level`.
pub uninterp spec fn zstd_frame_of(data: Seq<u8>, level: i32) -> Seq<u8>;

/// LZ4 compression with `lz4::EncoderBuilder` (level 4) into a vector:
/// `build`, `write_all`, `finish`. What it writes is named `lz4_frame_of`.
/// Writing into a vector fails only when memory runs out, so the call is
/// taken to succeed.
#[verifier::external_body]
fn lz4_encode(data: &[u8]) -> (r: Result<Vec<u8>, std::io::Error>)
    ensures
        r is Ok,
        r matches Ok(v) ==> v@ == lz4_frame_of(data@),
{
    let mut encoder = lz4::EncoderBuilder::new().level(4).build(Vec::new())?;
    std::io::Write::write_all(&mut encoder, data)?;
    let (compressed, result) = encoder.finish();
    result?;
    Ok(compressed)
}

/// LZ4 decompression with `lz4::Decoder` and `read_to_end`. A frame that
/// LZ4 compression wrote decodes to the data it was written from; of other
/// input nothing is promised.
#[verifier::external_body]
fn lz4_decode(data: &[u8]) -> (r: Result<Vec<u8>, std::io::Error>)
    ensures
        forall|x: Seq<u8>| #[trigger] lz4_frame_of(x) == data@ ==> r is Ok && r->Ok_0@ == x,
{
    let mut decoder = lz4::Decoder::new(data)?;
    let mut decompressed = Vec::new();
    std::io::Read::read_to_end(&mut decoder, &mut decompressed)?;
    Ok(decompressed)
}

/// Zstandard compression with `zstd::encode_all` at `level`. What it writes
/// is named `zstd_frame_of`. The library clamps the level into its bounds,
/// and writing into a vector fails only when memory runs out, so the call
/// is taken to succeed.
#[verifier::external_body]
fn zstd_encode(data: &[u8], level: i32) -> (r: Result<Vec<u8>, std::io::Error>)
    ensures
        r is Ok,
        r matches Ok(v) ==> v@ == zstd_frame_of(data@, level),
{
    zstd::encode_all(data, level)
}

/// Zstandard decompression with `zstd::decode_all`. A frame that Zstandard
/// compression wrote decodes to the data it was written from, whatever the
/// level; of other input nothing is promised.
#[verifier::external_body]
fn zstd_decode(data: &[u8]) -> (r: Result<Vec<u8>, std::io::Error>)
    ensures
        forall|x: Seq<u8>, level: i32| #[trigger] zstd_frame_of(x, level) == data@ ==> r is Ok && r->Ok_0@ == x,
{
    zstd::decode_all(data)
}

/// The compression algorithms.
#[derive(Debug, Clone, Copy, PartialEq, Eq, Structural)]
pub enum CompressionAlgorithm {
    /// No compression.
    NoCompression,
    /// LZ4: fast (the default).
    Lz4,
    /// Zstandard: smaller output.
    Zstd,
}

impl Default for CompressionAlgorithm {
    fn default() -> (r: Self)
        ensures
            r == CompressionAlgorithm::Lz4,
    {
        CompressionAlgorithm::Lz4
    }
}

/// Compression settings.
#[derive(Debug, Clone, Copy)]
pub struct CompressionConfig {
    /// Whether compression is on.
    pub enabled: bool,
    /// Smallest payload that is compressed, in bytes.
    pub min_payload_size: usize,
    /// Algorithm when none is asked for.
    pub default_algorithm: CompressionAlgorithm,
    /// Zstandard level.
    pub zstd_level: i32,
}

impl Default for CompressionConfig {
    fn default() -> (r: Self)
        ensures
            !r.enabled,
            r.min_payload_size == 1024,
            r.default_algorithm == CompressionAlgorithm::Lz4,
            r.zstd_level == 3,
    {
        CompressionConfig {
            enabled: false,
            min_payload_size: 1024,
            default_algorithm: CompressionAlgorithm::Lz4,
            zstd_level: 3,
        }
    }
}

/// A failure of compression or decompression, with the library's message.
#[derive(Debug)]
pub enum CompressionError {
    Io(String),
}

/// Map a library result to this module's error.
fn lift(r: Result<Vec<u8>, std::io::Error>) -> (out: Result<Vec<u8>, CompressionError>)
    ensures
        r is Ok <==> out is Ok,
        r matches Ok(v) ==> (out matches Ok(w) && w@ == v@),
{
    match r {
        Ok(v) => Ok(v),
        Err(e) => Err(CompressionError::Io(io_error_text(e))),
    }
}

/// The compressor.
pub struct Compressor {
    config: CompressionConfig,
}

impl Compressor {
    /// The settings.
    pub closed spec fn settings(&self) -> CompressionConfig {
        self.config
    }

    /// Whether `n` bytes are compressed under these settings.
    pub open spec fn compresses(&self, n: nat) -> bool {
        self.settings().enabled && n >= self.settings().min_payload_size
    }

    /// A compressor with the given settings.
    pub fn new(config: CompressionConfig) -> (r: Self)
        ensures
            r.settings() == config,
    {
        Compressor { config }
    }

    /// Whether `data` would be compressed: compression on and the payload
    /// at least the minimum size.
    pub fn should_compress(&self, data: &[u8]) -> (r: bool)
        ensures
            r == self.compresses(data@.len()),
    {
        self.config.enabled && data.len() >= self.config.min_payload_size
    }

    /// Compress `data` with `algorithm` (else the default). A payload that is
    /// not compressed (see `should_compress`), or `NoCompression`, comes back
    /// as it is; otherwise the answer is the library's frame.
    pub fn compress(&self, data: &[u8], algorithm: Option<CompressionAlgorithm>) -> (r: Result<Vec<u8>, CompressionError>)
        ensures
            ({
                let algo = match algorithm {
                    Some(a) => a,
                    None => self.settings().default_algorithm,
                };
                if !self.compresses(data@.len()) || algo == CompressionAlgorithm::NoCompression {
                    r matches Ok(v) && v@ == data@
                } else if algo == CompressionAlgorithm::Lz4 {
                    r matches Ok(v) && v@ == lz4_frame_of(data@)
                } else {
                    r matches Ok(v) && v@ == zstd_frame_of(data@, self.settings().zstd_level)
                }
            }),
    {
        if !self.config.enabled || data.len() < self.config.min_payload_size {
            return Ok(copy_slice(data));
        }
        let algo = match algorithm {
            Some(a) => a,
            None => self.config.default_algorithm,
        };
        match algo {
            CompressionAlgorithm::NoCompression => Ok(copy_slice(data)),
            CompressionAlgorithm::Lz4 => lift(lz4_encode(data)),
            CompressionAlgorithm::Zstd => lift(zstd_encode(data, self.config.zstd_level)),
        }
    }

    /// Decompress `data` written with `algorithm`; `NoCompression` gives the
    /// bytes back as they are.
    pub fn decompress(&self, data: &[u8], algorithm: CompressionAlgorithm) -> (r: Result<Vec<u8>, CompressionError>)
        ensures
            algorithm == CompressionAlgorithm::NoCompression ==> (r matches Ok(v) && v@ == data@),
            algorithm == CompressionAlgorithm::Lz4 ==> forall|x: Seq<u8>| data@ == lz4_frame_of(x) ==> (r matches Ok(v) && v@ == x),
            algorithm == CompressionAlgorithm::Zstd ==> forall|x: Seq<u8>, level: i32| data@ == zstd_frame_of(x, level) ==> (r matches Ok(v) && v@ == x),
    {
        match algorithm {
            CompressionAlgorithm::NoCompression => Ok(copy_slice(data)),
            CompressionAlgorithm::Lz4 => lift(lz4_decode(data)),
            CompressionAlgorithm::Zstd => lift(zstd_decode(data)),
        }
    }
}

/// A copy of a byte slice.
fn copy_slice(data: &[u8]) -> (r: Vec<u8>)
    ensures
        r@ == data@,
{
    let mut r: Vec<u8> = Vec::new();
    let mut i: usize = 0;
    while i < data.len()
        invariant
            i <= data@.len(),
            r@ == data@.take(i as int),
        decreases data@.len() - i,
    {
        r.push(data[i]);
        i = i + 1;
        proof {
            assert(r@ =~= data@.take(i as int));
        }
    }
    proof {
        assert(data@.take(data@.len() as int) =~= data@);
    }
    r
}

} // verus!
