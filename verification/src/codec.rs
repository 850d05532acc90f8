//! The versioned container of a persisted document: twelve bytes of magic,
//! the format version as a little-endian 32-bit number, and the payload.

use vstd::prelude::*;

verus! {

/// The format version that is written, and the only one that is read.
pub const CURRENT_FORMAT_VERSION: u32 = 1;

/// The number of bytes before the payload.
pub const HEADER_LEN: usize = 16;

/// The ways in which writing or reading a document can fail.
#[derive(PartialEq, Eq, Structural, Debug, Clone, Copy)]
pub enum PainterDataError {
    /// The sink refused the bytes.
    WriteError,
    /// The document could not be encoded.
    SerializeError,
    /// The payload could not be decoded.
    DeserializeError,
    /// The bytes do not start with the magic.
    InvalidMagicString,
    /// The container has a format version that this library does not read.
    UnknownVersion(u32),
    /// The bytes end inside the magic or the version.
    ReadError,
}

/// The magic: the ASCII text `PAINTER_SVEG`.
pub open spec fn magic() -> Seq<u8> {
    seq![0x50u8, 0x41u8, 0x49u8, 0x4Eu8, 0x54u8, 0x45u8, 0x52u8, 0x5Fu8, 0x53u8, 0x56u8, 0x45u8, 0x47u8]
}

/// The four bytes of `v`, least significant first.
pub open spec fn le_bytes(v: u32) -> Seq<u8> {
    seq![
        (v % 256) as u8,
        ((v / 256) % 256) as u8,
        ((v / 65536) % 256) as u8,
        (v / 16777216) as u8,
    ]
}

/// The number whose four bytes, least significant first, are `b`.
pub open spec fn le_value(b: Seq<u8>) -> int {
    b[0] + 256 * b[1] + 65536 * b[2] + 16777216 * b[3]
}

/// The container around a payload, in the current format version.
pub open spec fn container(payload: Seq<u8>) -> Seq<u8> {
    magic() + le_bytes(CURRENT_FORMAT_VERSION) + payload
}

/// What reading a container yields: the payload of a container in the
/// current format version, or the first thing found wrong.
pub open spec fn parse(bytes: Seq<u8>) -> Result<Seq<u8>, PainterDataError> {
    if bytes.len() < 12 {
        Err(PainterDataError::ReadError)
    } else if bytes.subrange(0, 12) != magic() {
        Err(PainterDataError::InvalidMagicString)
    } else if bytes.len() < 16 {
        Err(PainterDataError::ReadError)
    } else if le_value(bytes.subrange(12, 16)) != CURRENT_FORMAT_VERSION {
        Err(PainterDataError::UnknownVersion(le_value(bytes.subrange(12, 16)) as u32))
    } else {
        Ok(bytes.skip(16))
    }
}

/// The magic, as bytes.
pub fn magic_bytes() -> (r: [u8; 12])
    ensures
        r@ == magic(),
{
    let r: [u8; 12] = [0x50, 0x41, 0x49, 0x4E, 0x54, 0x45, 0x52, 0x5F, 0x53, 0x56, 0x45, 0x47];
    assert(r@ =~= magic());
    r
}

/// Appends the four bytes of `v`, least significant first.
pub fn push_le(out: &mut Vec<u8>, v: u32)
    ensures
        final(out)@ == old(out)@ + le_bytes(v),
{
    out.push((v % 256) as u8);
    out.push(((v / 256) % 256) as u8);
    out.push(((v / 65536) % 256) as u8);
    out.push((v / 16777216) as u8);
    assert(out@ =~= old(out)@ + le_bytes(v));
}

/// Reads four bytes at `at`, least significant first.
pub fn read_le(bytes: &Vec<u8>, at: usize) -> (v: u32)
    requires
        at + 4 <= bytes@.len(),
    ensures
        v == le_value(bytes@.subrange(at as int, at + 4)),
{
    assert(at + 4 <= bytes.len());
    let b0: u32 = bytes[at] as u32;
    let b1: u32 = bytes[at + 1] as u32;
    let b2: u32 = bytes[at + 2] as u32;
    let b3: u32 = bytes[at + 3] as u32;
    b0 + 256 * b1 + 65536 * b2 + 16777216 * b3
}

/// Appends to `writer` the container around `payload`.
pub fn write_into(payload: &Vec<u8>, writer: &mut Vec<u8>)
    ensures
        final(writer)@ == old(writer)@ + container(payload@),
{
    let head = magic_bytes();
    let mut i: usize = 0;
    while i < 12
        invariant
            i <= 12,
            head@ == magic(),
            writer@ == old(writer)@ + magic().take(i as int),
        decreases 12 - i,
    {
        writer.push(head[i]);
        assert(magic().take(i + 1) =~= magic().take(i as int).push(magic()[i as int]));
        assert(writer@ =~= old(writer)@ + magic().take(i + 1));
        i = i + 1;
    }
    assert(magic().take(12) =~= magic());
    push_le(writer, CURRENT_FORMAT_VERSION);
    let ghost before = writer@;
    let mut j: usize = 0;
    while j < payload.len()
        invariant
            j <= payload.len(),
            writer@ == before + payload@.take(j as int),
        decreases payload.len() - j,
    {
        writer.push(payload[j]);
        assert(payload@.take(j + 1) =~= payload@.take(j as int).push(payload@[j as int]));
        assert(writer@ =~= before + payload@.take(j + 1));
        j = j + 1;
    }
    assert(payload@.take(payload@.len() as int) =~= payload@);
    assert(writer@ =~= old(writer)@ + container(payload@));
}

/// Reads a container: checks the magic and the version and hands out the
/// payload.
pub fn load_from_reader(bytes: &Vec<u8>) -> (r: Result<Vec<u8>, PainterDataError>)
    ensures
        match parse(bytes@) {
            Ok(payload) => r.is_ok() && r.unwrap()@ == payload,
            Err(e) => r == Err::<Vec<u8>, PainterDataError>(e),
        },
{
    if bytes.len() < 12 {
        return Err(PainterDataError::ReadError);
    }
    let head = magic_bytes();
    let mut i: usize = 0;
    while i < 12
        invariant
            i <= 12,
            bytes@.len() >= 12,
            head@ == magic(),
            forall|k: int| 0 <= k < i ==> bytes@[k] == magic()[k],
        decreases 12 - i,
    {
        if bytes[i] != head[i] {
            assert(bytes@.subrange(0, 12)[i as int] != magic()[i as int]);
            return Err(PainterDataError::InvalidMagicString);
        }
        i = i + 1;
    }
    assert(bytes@.subrange(0, 12) =~= magic());
    if bytes.len() < 16 {
        return Err(PainterDataError::ReadError);
    }
    let version_number = read_le(bytes, 12);
    if version_number != CURRENT_FORMAT_VERSION {
        return Err(PainterDataError::UnknownVersion(version_number));
    }
    let mut payload: Vec<u8> = Vec::new();
    let mut j: usize = 16;
    while j < bytes.len()
        invariant
            16 <= j <= bytes.len(),
            payload@ == bytes@.subrange(16, j as int),
        decreases bytes.len() - j,
    {
        payload.push(bytes[j]);
        assert(bytes@.subrange(16, j + 1) =~= bytes@.subrange(16, j as int).push(bytes@[j as int]));
        j = j + 1;
    }
    assert(bytes@.subrange(16, bytes@.len() as int) =~= bytes@.skip(16));
    Ok(payload)
}

/// Reading the four bytes of a number gives the number back.
pub proof fn law_le_round_trip(v: u32)
    ensures
        le_value(le_bytes(v)) == v,
{
}

/// Reading what was written gives the payload back.
pub proof fn law_container_round_trip(payload: Seq<u8>)
    ensures
        parse(container(payload)) == Ok::<Seq<u8>, PainterDataError>(payload),
{
    let bytes = container(payload);
    law_le_round_trip(CURRENT_FORMAT_VERSION);
    assert(bytes.subrange(0, 12) =~= magic());
    assert(bytes.subrange(12, 16) =~= le_bytes(CURRENT_FORMAT_VERSION));
    assert(bytes.skip(16) =~= payload);
}

} // verus!
