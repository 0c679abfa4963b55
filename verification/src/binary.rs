//! The binary frame format of every runtime storage file: an 8-byte magic, the
//! file kind, the format version, the payload codec, the payload length, the
//! SHA-256 of the payload, then the payload.
use vstd::prelude::*;
use crate::checksum::{sha256, sha256_digest};
use crate::errors::MgeError;
use crate::text::{decimal, push_decimal_str, push_str, string_from};

verus! {

pub const HEADER_LEN: usize = 52;

pub const FORMAT_VERSION: u16 = 1;

/// The magic bytes `MGEFILE\0`.
pub open spec fn magic() -> Seq<u8> {
    seq![0x4du8, 0x47u8, 0x45u8, 0x46u8, 0x49u8, 0x4cu8, 0x45u8, 0x00u8]
}

#[derive(Clone, Copy, Debug, PartialEq, Eq, Structural)]
pub enum FileKind {
    Manifest,
    MarkerDictionary,
    HotLog,
    HotRecord,
    Page,
    PageIndex,
    MarkerIndex,
    FuseIndex,
    HotSnapshot,
}

/// The byte that identifies each file kind in a frame header.
pub open spec fn kind_id(k: FileKind) -> u8 {
    match k {
        FileKind::Manifest => 1,
        FileKind::MarkerDictionary => 2,
        FileKind::HotLog => 3,
        FileKind::HotRecord => 4,
        FileKind::Page => 5,
        FileKind::PageIndex => 6,
        FileKind::MarkerIndex => 7,
        FileKind::FuseIndex => 8,
        FileKind::HotSnapshot => 9,
    }
}

pub open spec fn kind_name(k: FileKind) -> Seq<char> {
    match k {
        FileKind::Manifest => "manifest"@,
        FileKind::MarkerDictionary => "marker_dictionary"@,
        FileKind::HotLog => "hot_log"@,
        FileKind::HotRecord => "hot_record"@,
        FileKind::Page => "page"@,
        FileKind::PageIndex => "page_index"@,
        FileKind::MarkerIndex => "marker_index"@,
        FileKind::FuseIndex => "fuse_index"@,
        FileKind::HotSnapshot => "hot_snapshot"@,
    }
}

pub open spec fn kind_from_id(v: u8) -> Option<FileKind> {
    if v == 1 {
        Some(FileKind::Manifest)
    } else if v == 2 {
        Some(FileKind::MarkerDictionary)
    } else if v == 3 {
        Some(FileKind::HotLog)
    } else if v == 4 {
        Some(FileKind::HotRecord)
    } else if v == 5 {
        Some(FileKind::Page)
    } else if v == 6 {
        Some(FileKind::PageIndex)
    } else if v == 7 {
        Some(FileKind::MarkerIndex)
    } else if v == 8 {
        Some(FileKind::FuseIndex)
    } else if v == 9 {
        Some(FileKind::HotSnapshot)
    } else {
        None
    }
}

impl FileKind {
    pub fn id(self) -> (v: u8)
        ensures
            v == kind_id(self),
    {
        match self {
            FileKind::Manifest => 1,
            FileKind::MarkerDictionary => 2,
            FileKind::HotLog => 3,
            FileKind::HotRecord => 4,
            FileKind::Page => 5,
            FileKind::PageIndex => 6,
            FileKind::MarkerIndex => 7,
            FileKind::FuseIndex => 8,
            FileKind::HotSnapshot => 9,
        }
    }

    /// The file kind with header byte `value`; fails with a `StorageFormat`
    /// error naming the value when no kind has it.
    pub fn from_u8(value: u8) -> (r: Result<FileKind, MgeError>)
        ensures
            match kind_from_id(value) {
                Some(k) => r == Ok::<FileKind, MgeError>(k),
                None => r matches Err(MgeError::StorageFormat(m)) && m@ == "unknown file kind id "@
                    + decimal(value as nat),
            },
    {
        match value {
            1 => Ok(FileKind::Manifest),
            2 => Ok(FileKind::MarkerDictionary),
            3 => Ok(FileKind::HotLog),
            4 => Ok(FileKind::HotRecord),
            5 => Ok(FileKind::Page),
            6 => Ok(FileKind::PageIndex),
            7 => Ok(FileKind::MarkerIndex),
            8 => Ok(FileKind::FuseIndex),
            9 => Ok(FileKind::HotSnapshot),
            _ => {
                let mut m = string_from("unknown file kind id ");
                push_decimal_str(&mut m, value as u64);
                Err(MgeError::StorageFormat(m))
            },
        }
    }

    pub fn as_str(self) -> (s: &'static str)
        ensures
            s@ == kind_name(self),
    {
        match self {
            FileKind::Manifest => "manifest",
            FileKind::MarkerDictionary => "marker_dictionary",
            FileKind::HotLog => "hot_log",
            FileKind::HotRecord => "hot_record",
            FileKind::Page => "page",
            FileKind::PageIndex => "page_index",
            FileKind::MarkerIndex => "marker_index",
            FileKind::FuseIndex => "fuse_index",
            FileKind::HotSnapshot => "hot_snapshot",
        }
    }
}

proof fn lemma_kind_id_roundtrip(k: FileKind)
    ensures
        kind_from_id(kind_id(k)) == Some(k),
{
}

#[derive(Clone, Copy, Debug, PartialEq, Eq, Structural)]
pub enum CodecId {
    Raw,
    MessagePack,
    MessagePackZstd,
    MessagePackEncrypted,
    MessagePackZstdEncrypted,
}

pub open spec fn codec_id(c: CodecId) -> u8 {
    match c {
        CodecId::Raw => 0,
        CodecId::MessagePack => 1,
        CodecId::MessagePackZstd => 2,
        CodecId::MessagePackEncrypted => 3,
        CodecId::MessagePackZstdEncrypted => 4,
    }
}

pub open spec fn codec_from_id(v: u8) -> Option<CodecId> {
    if v == 0 {
        Some(CodecId::Raw)
    } else if v == 1 {
        Some(CodecId::MessagePack)
    } else if v == 2 {
        Some(CodecId::MessagePackZstd)
    } else if v == 3 {
        Some(CodecId::MessagePackEncrypted)
    } else if v == 4 {
        Some(CodecId::MessagePackZstdEncrypted)
    } else {
        None
    }
}

pub open spec fn codec_name(c: CodecId) -> Seq<char> {
    match c {
        CodecId::Raw => "none"@,
        CodecId::MessagePack => "messagepack"@,
        CodecId::MessagePackZstd => "messagepack_zstd"@,
        CodecId::MessagePackEncrypted => "messagepack_encrypted"@,
        CodecId::MessagePackZstdEncrypted => "messagepack_zstd_encrypted"@,
    }
}

impl CodecId {
    pub fn id(self) -> (v: u8)
        ensures
            v == codec_id(self),
    {
        match self {
            CodecId::Raw => 0,
            CodecId::MessagePack => 1,
            CodecId::MessagePackZstd => 2,
            CodecId::MessagePackEncrypted => 3,
            CodecId::MessagePackZstdEncrypted => 4,
        }
    }

    /// The codec with header byte `value`; fails with a `StorageFormat` error
    /// naming the value when no codec has it.
    pub fn from_u8(value: u8) -> (r: Result<CodecId, MgeError>)
        ensures
            match codec_from_id(value) {
                Some(c) => r == Ok::<CodecId, MgeError>(c),
                None => r matches Err(MgeError::StorageFormat(m)) && m@ == "unknown codec id "@
                    + decimal(value as nat),
            },
    {
        match value {
            0 => Ok(CodecId::Raw),
            1 => Ok(CodecId::MessagePack),
            2 => Ok(CodecId::MessagePackZstd),
            3 => Ok(CodecId::MessagePackEncrypted),
            4 => Ok(CodecId::MessagePackZstdEncrypted),
            _ => {
                let mut m = string_from("unknown codec id ");
                push_decimal_str(&mut m, value as u64);
                Err(MgeError::StorageFormat(m))
            },
        }
    }

    pub fn as_str(self) -> (s: &'static str)
        ensures
            s@ == codec_name(self),
    {
        match self {
            CodecId::Raw => "none",
            CodecId::MessagePack => "messagepack",
            CodecId::MessagePackZstd => "messagepack_zstd",
            CodecId::MessagePackEncrypted => "messagepack_encrypted",
            CodecId::MessagePackZstdEncrypted => "messagepack_zstd_encrypted",
        }
    }
}

/// A frame read back from storage.
pub struct DecodedFrame {
    pub kind: FileKind,
    pub codec: CodecId,
    pub payload: Vec<u8>,
}

// ---------------------------------------------------------------------------
// Little-endian integers
// ---------------------------------------------------------------------------

/// The `k` low bytes of `n`, least significant first.
pub open spec fn le_bytes(n: nat, k: nat) -> Seq<u8>
    decreases k,
{
    if k == 0 {
        Seq::empty()
    } else {
        seq![(n % 256) as u8] + le_bytes(n / 256, (k - 1) as nat)
    }
}

/// The number whose little-endian bytes are `s`.
pub open spec fn le_value(s: Seq<u8>) -> nat
    decreases s.len(),
{
    if s.len() == 0 {
        0
    } else {
        s[0] as nat + 256 * le_value(s.drop_first())
    }
}

pub proof fn lemma_le_bytes_len(n: nat, k: nat)
    ensures
        le_bytes(n, k).len() == k,
    decreases k,
{
    if k > 0 {
        lemma_le_bytes_len(n / 256, (k - 1) as nat);
    }
}

pub open spec fn pow256(k: nat) -> nat
    decreases k,
{
    if k == 0 {
        1
    } else {
        256 * pow256((k - 1) as nat)
    }
}

pub proof fn lemma_le_roundtrip(n: nat, k: nat)
    requires
        n < pow256(k),
    ensures
        le_value(le_bytes(n, k)) == n,
    decreases k,
{
    if k > 0 {
        lemma_le_bytes_len(n / 256, (k - 1) as nat);
        assert(n / 256 < pow256((k - 1) as nat));
        lemma_le_roundtrip(n / 256, (k - 1) as nat);
        let s = le_bytes(n, k);
        assert(s.drop_first() =~= le_bytes(n / 256, (k - 1) as nat));
    } else {
        assert(n == 0);
    }
}

pub proof fn lemma_le_value_bound(s: Seq<u8>)
    ensures
        le_value(s) < pow256(s.len()),
    decreases s.len(),
{
    if s.len() > 0 {
        lemma_le_value_bound(s.drop_first());
    }
}

fn u64_le_bytes(n: u64) -> (out: Vec<u8>)
    ensures
        out@ == le_bytes(n as nat, 8),
{
    let mut out: Vec<u8> = Vec::new();
    let mut rest: u64 = n;
    let mut i: usize = 0;
    while i < 8
        invariant
            i <= 8,
            out@ + le_bytes(rest as nat, (8 - i) as nat) == le_bytes(n as nat, 8),
        decreases 8 - i,
    {
        proof {
            let t = le_bytes(rest as nat, (8 - i) as nat);
            assert(t == seq![(rest % 256) as u8] + le_bytes((rest / 256) as nat, (8 - i - 1) as nat));
            assert(out@.push((rest % 256) as u8) + le_bytes((rest / 256) as nat, (8 - i - 1) as nat)
                =~= out@ + t);
        }
        out.push((rest % 256) as u8);
        rest = rest / 256;
        i += 1;
    }
    proof {
        assert(le_bytes(rest as nat, 0) =~= Seq::<u8>::empty());
        assert(out@ + Seq::<u8>::empty() =~= out@);
    }
    out
}

fn read_le(bytes: &[u8], start: usize, count: usize) -> (v: u64)
    requires
        start + count <= bytes@.len(),
        count <= 8,
    ensures
        v as nat == le_value(bytes@.subrange(start as int, start + count)),
{
    let mut v: u64 = 0;
    let mut i: usize = count;
    proof {
        assert(bytes@.subrange(start + count, start + count) =~= Seq::<u8>::empty());
    }
    while i > 0
        invariant
            i <= count,
            count <= 8,
            start + count <= bytes.len(),
            v as nat == le_value(bytes@.subrange(start + i, start + count)),
            v < pow256((count - i) as nat),
        decreases i,
    {
        let b = bytes[start + i - 1];
        proof {
            let s = bytes@.subrange(start + i - 1, start + count);
            assert(s.drop_first() =~= bytes@.subrange(start + i, start + count));
            assert(s[0] == b);
            assert(pow256((count - i) as nat) <= pow256(7)) by {
                lemma_pow256_mono((count - i) as nat, 7);
            }
            assert(pow256(7) == 72057594037927936) by {
                reveal_with_fuel(pow256, 8);
            }
        }
        v = b as u64 + 256 * v;
        i -= 1;
    }
    v
}

proof fn lemma_pow256_mono(a: nat, b: nat)
    requires
        a <= b,
    ensures
        pow256(a) <= pow256(b),
    decreases b,
{
    if a < b {
        lemma_pow256_mono(a, (b - 1) as nat);
    }
}

// ---------------------------------------------------------------------------
// Frames
// ---------------------------------------------------------------------------

/// The bytes of a frame holding `payload`.
pub open spec fn frame_bytes(kind: FileKind, codec: CodecId, payload: Seq<u8>) -> Seq<u8> {
    magic() + seq![kind_id(kind)] + le_bytes(FORMAT_VERSION as nat, 2) + seq![codec_id(codec)]
        + le_bytes(payload.len(), 8) + checksum32(payload) + payload
}

/// The 32-byte SHA-256 checksum field of a frame holding `payload`.
pub open spec fn checksum32(payload: Seq<u8>) -> Seq<u8> {
    let d = sha256_digest(payload);
    if d.len() == 32 {
        d
    } else {
        Seq::new(32, |i: int| 0u8)
    }
}

/// What reading a frame at `offset` of `b` yields: the kind, codec and payload
/// with the offset just past the frame, or the message of the storage error.
pub open spec fn parse_frame_at(b: Seq<u8>, offset: int, expected: FileKind) -> Result<
    (FileKind, CodecId, Seq<u8>, int),
    Seq<char>,
> {
    let name = kind_name(expected);
    if b.len() - offset < HEADER_LEN as int {
        Err("truncated "@ + name + " header at byte "@ + decimal(offset as nat))
    } else {
        let h = b.subrange(offset, offset + HEADER_LEN as int);
        if h.take(8) != magic() {
            Err("wrong magic for "@ + name)
        } else {
            match kind_from_id(h[8]) {
                None => Err("unknown file kind id "@ + decimal(h[8] as nat)),
                Some(actual) => if actual != expected {
                    Err("wrong file kind: expected "@ + name + ", found "@ + kind_name(actual))
                } else {
                    let version = le_value(h.subrange(9, 11));
                    if version != FORMAT_VERSION as nat {
                        Err("unsupported version "@ + decimal(version) + " for "@ + name)
                    } else {
                        match codec_from_id(h[11]) {
                            None => Err("unknown codec id "@ + decimal(h[11] as nat)),
                            Some(codec) => {
                                let len = le_value(h.subrange(12, 20));
                                let payload_offset = offset + HEADER_LEN as int;
                                if len > usize::MAX {
                                    Err("payload length for "@ + name
                                        + " does not fit this platform"@)
                                } else if payload_offset + len > usize::MAX {
                                    Err("payload length overflow for "@ + name)
                                } else if b.len() < payload_offset + len {
                                    Err("truncated "@ + name + " payload: expected "@ + decimal(
                                        len,
                                    ) + " bytes, found "@ + decimal(
                                        (b.len() - payload_offset) as nat,
                                    ))
                                } else {
                                    let payload = b.subrange(payload_offset, payload_offset + len);
                                    if checksum32(payload) != h.subrange(20, 52) {
                                        Err("corrupted "@ + name + " payload checksum"@)
                                    } else {
                                        Ok((actual, codec, payload, payload_offset + len))
                                    }
                                }
                            },
                        }
                    }
                },
            }
        }
    }
}

/// What reading a whole buffer as exactly one frame yields.
pub open spec fn parse_frame(b: Seq<u8>, expected: FileKind) -> Result<
    (FileKind, CodecId, Seq<u8>),
    Seq<char>,
> {
    match parse_frame_at(b, 0, expected) {
        Err(m) => Err(m),
        Ok((k, c, p, next)) => if next != b.len() {
            Err(kind_name(expected) + " has "@ + decimal((b.len() - next) as nat)
                + " trailing bytes after payload"@)
        } else {
            Ok((k, c, p))
        },
    }
}

fn push_bytes(out: &mut Vec<u8>, bytes: &[u8])
    ensures
        final(out)@ == old(out)@ + bytes@,
{
    let mut i: usize = 0;
    while i < bytes.len()
        invariant
            i <= bytes.len(),
            out@ == old(out)@ + bytes@.take(i as int),
        decreases bytes.len() - i,
    {
        out.push(bytes[i]);
        proof {
            assert(bytes@.take(i + 1) =~= bytes@.take(i as int).push(bytes@[i as int]));
        }
        i += 1;
    }
    proof {
        assert(bytes@.take(i as int) =~= bytes@);
    }
}

/// The frame bytes holding `payload` with the given kind and codec.
pub fn encode_frame(kind: FileKind, codec: CodecId, payload: &[u8]) -> (r: Result<Vec<u8>, MgeError>)
    ensures
        r matches Ok(v) && v@ == frame_bytes(kind, codec, payload@),
{
    let checksum = sha256(payload);
    let mut out: Vec<u8> = Vec::new();
    let magic_bytes: [u8; 8] = [0x4d, 0x47, 0x45, 0x46, 0x49, 0x4c, 0x45, 0x00];
    push_bytes(&mut out, &magic_bytes);
    proof {
        assert(magic_bytes@ =~= magic());
    }
    out.push(kind.id());
    out.push(1u8);
    out.push(0u8);
    proof {
        assert(le_bytes(1, 2) =~= seq![1u8, 0u8]) by {
            reveal_with_fuel(le_bytes, 3);
        }
    }
    out.push(codec.id());
    let len_bytes = u64_le_bytes(payload.len() as u64);
    push_bytes(&mut out, len_bytes.as_slice());
    push_bytes(&mut out, checksum.as_slice());
    push_bytes(&mut out, payload);
    proof {
        assert(out@ =~= frame_bytes(kind, codec, payload@));
    }
    Ok(out)
}

fn frame_error(msg: String) -> (e: MgeError)
    ensures
        e matches MgeError::StorageFormat(m) && m@ == msg@,
{
    MgeError::StorageFormat(msg)
}

fn slices_equal(a: &[u8], b: &[u8]) -> (r: bool)
    ensures
        r == (a@ == b@),
{
    if a.len() != b.len() {
        return false;
    }
    let mut i: usize = 0;
    while i < a.len()
        invariant
            i <= a.len(),
            a.len() == b.len(),
            forall|k: int| 0 <= k < i ==> a@[k] == b@[k],
        decreases a.len() - i,
    {
        if a[i] != b[i] {
            return false;
        }
        i += 1;
    }
    proof {
        assert(a@ =~= b@);
    }
    true
}

fn copy_range(bytes: &[u8], a: usize, b: usize) -> (out: Vec<u8>)
    requires
        a <= b <= bytes@.len(),
    ensures
        out@ == bytes@.subrange(a as int, b as int),
{
    let mut out: Vec<u8> = Vec::new();
    let mut i = a;
    while i < b
        invariant
            a <= i <= b,
            b <= bytes@.len(),
            out@ == bytes@.subrange(a as int, i as int),
        decreases b - i,
    {
        out.push(bytes[i]);
        proof {
            assert(bytes@.subrange(a as int, i + 1) =~= bytes@.subrange(a as int, i as int).push(
                bytes@[i as int],
            ));
        }
        i += 1;
    }
    out
}

/// Reads the frame that starts at `offset`, checking magic, kind, version,
/// codec, length and checksum in that order; answers the frame and the offset
/// just past it, or the `StorageFormat` error of the first failed check.
pub fn decode_frame_at(bytes: &[u8], offset: usize, expected_kind: FileKind) -> (r: Result<
    (DecodedFrame, usize),
    MgeError,
>)
    ensures
        match parse_frame_at(bytes@, offset as int, expected_kind) {
            Ok((k, c, p, next)) => r matches Ok((f, n)) && f.kind == k && f.codec == c
                && f.payload@ == p && n == next,
            Err(msg) => r matches Err(MgeError::StorageFormat(m)) && m@ == msg,
        },
{
    let name = expected_kind.as_str();
    let avail: usize = if bytes.len() >= offset {
        bytes.len() - offset
    } else {
        0
    };
    if avail < HEADER_LEN {
        let mut m = string_from("truncated ");
        push_str(&mut m, name);
        push_str(&mut m, " header at byte ");
        push_decimal_str(&mut m, offset as u64);
        return Err(frame_error(m));
    }
    let ghost h = bytes@.subrange(offset as int, offset + HEADER_LEN as int);
    let magic_bytes: [u8; 8] = [0x4d, 0x47, 0x45, 0x46, 0x49, 0x4c, 0x45, 0x00];
    let header_magic = copy_range(bytes, offset, offset + 8);
    proof {
        assert(magic_bytes@ =~= magic());
        assert(header_magic@ =~= h.take(8));
    }
    if !slices_equal(header_magic.as_slice(), &magic_bytes) {
        let mut m = string_from("wrong magic for ");
        push_str(&mut m, name);
        return Err(frame_error(m));
    }
    let actual_kind = match FileKind::from_u8(bytes[offset + 8]) {
        Ok(k) => k,
        Err(e) => {
            return Err(e);
        },
    };
    if actual_kind != expected_kind {
        let mut m = string_from("wrong file kind: expected ");
        push_str(&mut m, name);
        push_str(&mut m, ", found ");
        push_str(&mut m, actual_kind.as_str());
        return Err(frame_error(m));
    }
    let version = read_le(bytes, offset + 9, 2);
    proof {
        assert(bytes@.subrange(offset + 9, offset + 11) =~= h.subrange(9, 11));
    }
    if version != 1 {
        let mut m = string_from("unsupported version ");
        push_decimal_str(&mut m, version);
        push_str(&mut m, " for ");
        push_str(&mut m, name);
        return Err(frame_error(m));
    }
    let codec = match CodecId::from_u8(bytes[offset + 11]) {
        Ok(c) => c,
        Err(e) => {
            return Err(e);
        },
    };
    let payload_len64 = read_le(bytes, offset + 12, 8);
    proof {
        assert(bytes@.subrange(offset + 12, offset + 20) =~= h.subrange(12, 20));
    }
    if payload_len64 > usize::MAX as u64 {
        let mut m = string_from("payload length for ");
        push_str(&mut m, name);
        push_str(&mut m, " does not fit this platform");
        return Err(frame_error(m));
    }
    let payload_len = payload_len64 as usize;
    let payload_offset = offset + HEADER_LEN;
    if payload_len > usize::MAX - payload_offset {
        let mut m = string_from("payload length overflow for ");
        push_str(&mut m, name);
        return Err(frame_error(m));
    }
    let next_offset = payload_offset + payload_len;
    if bytes.len() < next_offset {
        let mut m = string_from("truncated ");
        push_str(&mut m, name);
        push_str(&mut m, " payload: expected ");
        push_decimal_str(&mut m, payload_len as u64);
        push_str(&mut m, " bytes, found ");
        let found: usize = if bytes.len() >= payload_offset {
            bytes.len() - payload_offset
        } else {
            0
        };
        push_decimal_str(&mut m, found as u64);
        return Err(frame_error(m));
    }
    let payload = copy_range(bytes, payload_offset, next_offset);
    let expected_checksum = copy_range(bytes, offset + 20, offset + 52);
    proof {
        assert(expected_checksum@ =~= h.subrange(20, 52));
    }
    let actual_checksum = sha256(payload.as_slice());
    if !slices_equal(actual_checksum.as_slice(), expected_checksum.as_slice()) {
        let mut m = string_from("corrupted ");
        push_str(&mut m, name);
        push_str(&mut m, " payload checksum");
        return Err(frame_error(m));
    }
    Ok((DecodedFrame { kind: actual_kind, codec, payload }, next_offset))
}

/// Reads `bytes` as exactly one frame of the expected kind; trailing bytes
/// after the payload are a `StorageFormat` error.
pub fn decode_frame(bytes: &[u8], expected_kind: FileKind) -> (r: Result<DecodedFrame, MgeError>)
    ensures
        match parse_frame(bytes@, expected_kind) {
            Ok((k, c, p)) => r matches Ok(f) && f.kind == k && f.codec == c && f.payload@ == p,
            Err(msg) => r matches Err(MgeError::StorageFormat(m)) && m@ == msg,
        },
{
    let (frame, next_offset) = match decode_frame_at(bytes, 0, expected_kind) {
        Ok(x) => x,
        Err(e) => {
            return Err(e);
        },
    };
    if next_offset != bytes.len() {
        let mut m = string_from(expected_kind.as_str());
        push_str(&mut m, " has ");
        push_decimal_str(&mut m, (bytes.len() - next_offset) as u64);
        push_str(&mut m, " trailing bytes after payload");
        return Err(frame_error(m));
    }
    Ok(frame)
}

/// Reading back a frame that was written gives the kind, codec and payload
/// that were written, wherever in a byte stream the frame stands; the offset
/// answered is just past the frame.
pub proof fn law_frame_roundtrip(
    before: Seq<u8>,
    kind: FileKind,
    codec: CodecId,
    payload: Seq<u8>,
    after: Seq<u8>,
)
    requires
        before.len() + HEADER_LEN + payload.len() + after.len() <= usize::MAX,
    ensures
        parse_frame_at(before + frame_bytes(kind, codec, payload) + after, before.len() as int, kind)
            == Ok::<(FileKind, CodecId, Seq<u8>, int), Seq<char>>(
            (kind, codec, payload, before.len() + HEADER_LEN + payload.len()),
        ),
{
    let f = frame_bytes(kind, codec, payload);
    let b = before + f + after;
    let o = before.len() as int;
    lemma_le_bytes_len(1, 2);
    lemma_le_bytes_len(payload.len(), 8);
    assert(pow256(2) == 65536) by {
        reveal_with_fuel(pow256, 3);
    }
    lemma_le_roundtrip(1, 2);
    assert(payload.len() < pow256(8)) by {
        reveal_with_fuel(pow256, 9);
    }
    lemma_le_roundtrip(payload.len(), 8);
    let h = b.subrange(o, o + HEADER_LEN as int);
    assert(h.take(8) =~= magic());
    assert(h[8] == kind_id(kind));
    assert(h.subrange(9, 11) =~= le_bytes(1, 2));
    assert(h[11] == codec_id(codec));
    assert(h.subrange(12, 20) =~= le_bytes(payload.len(), 8));
    assert(h.subrange(20, 52) =~= checksum32(payload));
    assert(b.subrange(o + HEADER_LEN as int, o + HEADER_LEN as int + payload.len()) =~= payload);
    lemma_kind_id_roundtrip(kind);
}

} // verus!
