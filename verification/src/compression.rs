//! Page compression: none, or zstd through the `zstd` crate.
use vstd::prelude::*;
use crate::errors::MgeError;

verus! {

pub const DEFAULT_ZSTD_LEVEL: i32 = 3;

#[derive(Clone, Copy, Debug, PartialEq, Eq, Structural)]
pub enum CompressionKind {
    Uncompressed,
    Zstd,
}

pub open spec fn compression_name(k: CompressionKind) -> Seq<char> {
    match k {
        CompressionKind::Uncompressed => "none"@,
        CompressionKind::Zstd => "zstd"@,
    }
}

impl CompressionKind {
    pub fn as_str(&self) -> (s: &'static str)
        ensures
            s@ == compression_name(*self),
    {
        match self {
            CompressionKind::Uncompressed => "none",
            CompressionKind::Zstd => "zstd",
        }
    }

    /// The default kind: no compression.
    pub fn default_kind() -> (k: Self)
        ensures
            k == CompressionKind::Uncompressed,
    {
        CompressionKind::Uncompressed
    }
}

/// A byte-level compressor.
pub trait Compressor {
    fn compress(&self, data: &[u8]) -> Result<Vec<u8>, MgeError>;

    fn decompress(&self, data: &[u8]) -> Result<Vec<u8>, MgeError>;
}

pub fn bytes_to_vec(data: &[u8]) -> (out: Vec<u8>)
    ensures
        out@ == data@,
{
    let mut out: Vec<u8> = Vec::new();
    let mut i: usize = 0;
    while i < data.len()
        invariant
            i <= data.len(),
            out@ == data@.take(i as int),
        decreases data.len() - i,
    {
        out.push(data[i]);
        proof {
            assert(data@.take(i + 1) =~= data@.take(i as int).push(data@[i as int]));
        }
        i += 1;
    }
    proof {
        assert(data@.take(i as int) =~= data@);
    }
    out
}

/// The identity compressor.
#[derive(Clone, Copy, Debug, Default)]
pub struct NoCompression;

impl Compressor for NoCompression {
    fn compress(&self, data: &[u8]) -> (r: Result<Vec<u8>, MgeError>)
        ensures
            r matches Ok(v) && v@ == data@,
    {
        Ok(bytes_to_vec(data))
    }

    fn decompress(&self, data: &[u8]) -> (r: Result<Vec<u8>, MgeError>)
        ensures
            r matches Ok(v) && v@ == data@,
    {
        Ok(bytes_to_vec(data))
    }
}

/// The zstd frame that `zstd::stream::encode_all` produces for `data` at `level`.
pub uninterp spec fn zstd_compressed(level: i32, data: Seq<u8>) -> Seq<u8>;

/// What `zstd::stream::decode_all` yields for `data`: the decompressed bytes,
/// or `None` when it reports an error.
pub uninterp spec fn zstd_decompressed(data: Seq<u8>) -> Option<Seq<u8>>;

/// Calls `zstd::stream::encode_all` on the bytes. The contract names the
/// result and states the documented lossless round trip: decoding the frame
/// gives the input back. It does not state that compression succeeds.
#[verifier::external_body]
fn zstd_encode_all(data: &[u8], level: i32) -> (r: Result<Vec<u8>, String>)
    ensures
        r matches Ok(v) ==> v@ == zstd_compressed(level, data@) && zstd_decompressed(v@) == Some(
            data@,
        ),
{
    match zstd::stream::encode_all(std::io::Cursor::new(data), level) {
        Ok(v) => Ok(v),
        Err(e) => Err(e.to_string()),
    }
}

/// Calls `zstd::stream::decode_all` on the bytes. The contract names the
/// result, a function of the input bytes alone.
#[verifier::external_body]
fn zstd_decode_all(data: &[u8]) -> (r: Result<Vec<u8>, String>)
    ensures
        match zstd_decompressed(data@) {
            Some(d) => r matches Ok(v) && v@ == d,
            None => r is Err,
        },
{
    match zstd::stream::decode_all(std::io::Cursor::new(data)) {
        Ok(v) => Ok(v),
        Err(e) => Err(e.to_string()),
    }
}

/// zstd compression at a fixed level.
#[derive(Clone, Copy, Debug)]
pub struct ZstdCompression {
    level: i32,
}

impl ZstdCompression {
    pub fn new(level: i32) -> (z: Self)
        ensures
            z.level() == level,
    {
        ZstdCompression { level }
    }

    /// The default level, 3.
    pub fn default_level() -> (z: Self)
        ensures
            z.level() == DEFAULT_ZSTD_LEVEL,
    {
        ZstdCompression { level: DEFAULT_ZSTD_LEVEL }
    }

    pub closed spec fn level(&self) -> i32 {
        self.level
    }
}

impl Compressor for ZstdCompression {
    /// Compresses at the configured level; an encoder failure is an `Io` error.
    fn compress(&self, data: &[u8]) -> (r: Result<Vec<u8>, MgeError>)
        ensures
            r matches Ok(v) ==> v@ == zstd_compressed(self.level(), data@) && zstd_decompressed(
                v@,
            ) == Some(data@),
            r matches Err(e) ==> e is Io,
    {
        match zstd_encode_all(data, self.level) {
            Ok(v) => Ok(v),
            Err(m) => Err(MgeError::Io(m)),
        }
    }

    /// Decompresses a zstd frame; data that is not one is an `Io` error.
    fn decompress(&self, data: &[u8]) -> (r: Result<Vec<u8>, MgeError>)
        ensures
            match zstd_decompressed(data@) {
                Some(d) => r matches Ok(v) && v@ == d,
                None => r matches Err(e) && e is Io,
            },
    {
        match zstd_decode_all(data) {
            Ok(v) => Ok(v),
            Err(m) => Err(MgeError::Io(m)),
        }
    }
}

/// What decompressing `data` with `kind` yields, or `None` for an error.
pub open spec fn decompressed(kind: CompressionKind, data: Seq<u8>) -> Option<Seq<u8>> {
    match kind {
        CompressionKind::Uncompressed => Some(data),
        CompressionKind::Zstd => zstd_decompressed(data),
    }
}

/// Compresses with the given kind (zstd at the default level). Whatever comes
/// out decompresses with the same kind to the input; an encoder failure is an
/// `Io` error.
pub fn compress_with(kind: CompressionKind, data: &[u8]) -> (r: Result<Vec<u8>, MgeError>)
    ensures
        kind == CompressionKind::Uncompressed ==> (r matches Ok(v) && v@ == data@),
        kind == CompressionKind::Zstd ==> (r matches Ok(v) ==> v@ == zstd_compressed(
            DEFAULT_ZSTD_LEVEL,
            data@,
        )),
        r matches Ok(v) ==> decompressed(kind, v@) == Some(data@),
        r matches Err(e) ==> e is Io,
{
    match kind {
        CompressionKind::Uncompressed => NoCompression.compress(data),
        CompressionKind::Zstd => ZstdCompression::default_level().compress(data),
    }
}

/// Decompresses with the given kind.
pub fn decompress_with(kind: CompressionKind, data: &[u8]) -> (r: Result<Vec<u8>, MgeError>)
    ensures
        match decompressed(kind, data@) {
            Some(d) => r matches Ok(v) && v@ == d,
            None => r matches Err(e) && e is Io,
        },
{
    match kind {
        CompressionKind::Uncompressed => NoCompression.decompress(data),
        CompressionKind::Zstd => ZstdCompression::default_level().decompress(data),
    }
}


impl Default for CompressionKind {
    /// No compression.
    fn default() -> (k: Self)
        ensures
            k == CompressionKind::Uncompressed,
    {
        CompressionKind::Uncompressed
    }
}

impl Default for ZstdCompression {
    /// Level 3.
    fn default() -> (z: Self)
        ensures
            z.level() == DEFAULT_ZSTD_LEVEL,
    {
        ZstdCompression::default_level()
    }
}

} // verus!
