//! The envelope of a persisted filter.
//!
//! A serialized filter is a fixed header, the words of the solution, and a trailing checksum. The
//! header tells the filter's family, so that a homogeneous filter cannot be taken for a standard
//! one, its result width, its seed and its geometry. Every field is validated before it is used.
//!
//! All integers are little-endian:
//! ```text
//! offset  size  field
//! 0       4     magic  = "PLT1"
//! 4       1     family = 0 (homogeneous) | 1 (standard)
//! 5       1     result width
//! 6       2     reserved (0)
//! 8       8     seed (homogeneous: raw seed; standard: seed number)
//! 16      8     number of starts
//! 24      8     number of words
//! 32      ...   words (8 bytes each, homogeneous; 16 bytes each, standard)
//! end-8   8     checksum: FNV-1a of all bytes before it
//! ```

use crate::bytes;
pub use crate::bytes::fnv1a;
use crate::bytes::{get_u64, put_word};
use vstd::arithmetic::div_mod;
use vstd::arithmetic::mul;
use vstd::arithmetic::power;
use vstd::prelude::*;
use vstd::slice::slice_subrange;

verus! {

/// Why a buffer was not decoded.
#[derive(Debug, Clone, PartialEq, Eq, Structural)]
pub enum DecodeError {
    /// The buffer is shorter than a header and a checksum.
    TooShort,
    /// The magic bytes do not match.
    BadMagic,
    /// The family is not that of the filter that is decoded.
    WrongFamily,
    /// The result width is not that of the filter that is decoded.
    WrongResultWidth,
    /// The number of starts and the number of words are not those of a filter.
    BadGeometry,
    /// The number of words does not match the length of the buffer.
    LengthMismatch,
    /// The seed is out of range for the family.
    BadSeed,
    /// The checksum does not match.
    BadChecksum,
}

impl DecodeError {
    /// The error, in words.
    pub fn message(&self) -> (text: &'static str)
        ensures
            text@ == match *self {
                DecodeError::TooShort => "buffer too short for a valid filter"@,
                DecodeError::BadMagic => "not a pleat filter buffer (bad magic)"@,
                DecodeError::WrongFamily => "filter family does not match"@,
                DecodeError::WrongResultWidth => "result width does not match"@,
                DecodeError::BadGeometry => "inconsistent filter geometry"@,
                DecodeError::LengthMismatch => "payload length does not match declared segments"@,
                DecodeError::BadSeed => "seed out of range"@,
                DecodeError::BadChecksum => "checksum mismatch"@,
            },
    {
        match self {
            DecodeError::TooShort => "buffer too short for a valid filter",
            DecodeError::BadMagic => "not a pleat filter buffer (bad magic)",
            DecodeError::WrongFamily => "filter family does not match",
            DecodeError::WrongResultWidth => "result width does not match",
            DecodeError::BadGeometry => "inconsistent filter geometry",
            DecodeError::LengthMismatch => "payload length does not match declared segments",
            DecodeError::BadSeed => "seed out of range",
            DecodeError::BadChecksum => "checksum mismatch",
        }
    }
}

/// The magic bytes, as a little-endian number: "PLT1".
pub const MAGIC: u32 = 0x3154_4c50;

pub const HEADER_LEN: usize = 32;

pub const CHECKSUM_LEN: usize = 8;

pub const FAMILY_HOMOG: u8 = 0;

pub const FAMILY_STD: u8 = 1;

/// The header fields that a decoder has use for once they are validated.
#[derive(Debug)]
pub struct Header {
    pub seed: u64,
    pub num_starts: u64,
}

/// The bytes of a header.
pub open spec fn header_bytes(family: u8, r: u8, seed: u64, num_starts: u64, count: u64) -> Seq<
    u8,
> {
    bytes::le_bytes(MAGIC as nat, 4) + seq![family, r, 0u8, 0u8] + bytes::le_bytes(seed as nat, 8)
        + bytes::le_bytes(num_starts as nat, 8) + bytes::le_bytes(count as nat, 8)
}

/// Bytes, with their checksum behind them.
pub open spec fn sealed(front: Seq<u8>) -> Seq<u8> {
    front + bytes::le_bytes(bytes::fnv_of(front) as nat, 8)
}

/// The number in the eight bytes from `at` on.
pub open spec fn field(buf: Seq<u8>, at: int) -> nat {
    bytes::le_value(buf.subrange(at, at + 8))
}

/// The number of starts and the number of words are those of a filter: at least two whole blocks
/// of `w` slots, all but the last `w - 1` of which are starts, and `r` words per block.
pub open spec fn fits_geometry(num_starts: nat, count: nat, r: nat, w: nat) -> bool {
    let num_slots: int = num_starts + w - 1;
    &&& num_starts > 0
    &&& num_slots <= u64::MAX
    &&& num_slots % (w as int) == 0
    &&& num_slots >= 2 * w
    &&& count == (num_slots / (w as int)) * r
}

/// What a buffer decodes to: its validated header and its payload, or the first reason against it.
pub open spec fn decoded(buf: Seq<u8>, family: u8, r: u8, elem_size: nat, w: nat) -> Result<
    (Header, Seq<u8>),
    DecodeError,
> {
    let end: int = buf.len() - 8;
    let payload_len: int = (field(buf, 24) * elem_size) as int;
    if buf.len() < 40 {
        Err(DecodeError::TooShort)
    } else if bytes::le_value(buf.take(4)) != MAGIC {
        Err(DecodeError::BadMagic)
    } else if field(buf, end) != bytes::fnv_of(buf.take(end)) {
        Err(DecodeError::BadChecksum)
    } else if buf[4] != family {
        Err(DecodeError::WrongFamily)
    } else if buf[5] != r {
        Err(DecodeError::WrongResultWidth)
    } else if !fits_geometry(field(buf, 16), field(buf, 24), r as nat, w) {
        Err(DecodeError::BadGeometry)
    } else if payload_len > usize::MAX {
        Err(DecodeError::BadGeometry)
    } else if 32 + payload_len + 8 != buf.len() {
        Err(DecodeError::LengthMismatch)
    } else {
        Ok(
            (
                Header { seed: field(buf, 8) as u64, num_starts: field(buf, 16) as u64 },
                buf.subrange(32, 32 + payload_len),
            ),
        )
    }
}

/// Writes a header. The caller appends the words and seals the buffer.
pub fn write_header(family: u8, r: u8, seed: u64, num_starts: u64, segment_count: u64) -> (out: Vec<
    u8,
>)
    ensures
        out@ == header_bytes(family, r, seed, num_starts, segment_count),
        out@.len() == 32,
{
    let mut out: Vec<u8> = Vec::with_capacity(HEADER_LEN);
    put_word(&mut out, MAGIC as u128, 4);
    out.push(family);
    out.push(r);
    out.push(0);
    out.push(0);
    put_word(&mut out, seed as u128, 8);
    put_word(&mut out, num_starts as u128, 8);
    put_word(&mut out, segment_count as u128, 8);
    proof {
        lemma_header_len(family, r, seed, num_starts, segment_count);
        assert(out@ =~= header_bytes(family, r, seed, num_starts, segment_count));
    }
    out
}

/// Appends the checksum of everything written so far.
pub fn finish(buf: Vec<u8>) -> (out: Vec<u8>)
    ensures
        out@ == sealed(buf@),
{
    let sum: u64 = fnv1a(buf.as_slice());
    let mut out: Vec<u8> = buf;
    put_word(&mut out, sum as u128, 8);
    out
}

/// Validates a buffer and decodes its header. `expected_family` and `expected_r` are those of the
/// filter that is decoded, `elem_size` the bytes of its words, and `w` the slots of its blocks.
pub fn decode(buf: &[u8], expected_family: u8, expected_r: u8, elem_size: usize, w: usize) -> (d: Result<
    (Header, &[u8]),
    DecodeError,
>)
    requires
        0 < w,
    ensures
        match d {
            Ok((header, payload)) => decoded(
                buf@,
                expected_family,
                expected_r,
                elem_size as nat,
                w as nat,
            ) == Ok::<(Header, Seq<u8>), DecodeError>((header, payload@)),
            Err(e) => decoded(buf@, expected_family, expected_r, elem_size as nat, w as nat)
                == Err::<(Header, Seq<u8>), DecodeError>(e),
        },
{
    if buf.len() < HEADER_LEN + CHECKSUM_LEN {
        return Err(DecodeError::TooShort);
    }
    let magic: u128 = bytes::get_word(buf, 0, 4);
    assert(buf@.subrange(0, 4) =~= buf@.take(4));
    if magic != MAGIC as u128 {
        return Err(DecodeError::BadMagic);
    }
    let checksum_at: usize = buf.len() - CHECKSUM_LEN;
    let stored: u64 = get_u64(buf, checksum_at);
    let front: &[u8] = slice_subrange(buf, 0, checksum_at);
    assert(front@ =~= buf@.take(checksum_at as int));
    if fnv1a(front) != stored {
        return Err(DecodeError::BadChecksum);
    }
    if buf[4] != expected_family {
        return Err(DecodeError::WrongFamily);
    }
    let r: u8 = buf[5];
    if r != expected_r {
        return Err(DecodeError::WrongResultWidth);
    }
    let seed: u64 = get_u64(buf, 8);
    let num_starts: u64 = get_u64(buf, 16);
    let segment_count: u64 = get_u64(buf, 24);
    let num_slots: u128 = num_starts as u128 + w as u128 - 1;
    if num_starts == 0 || num_slots > u64::MAX as u128 || num_slots % w as u128 != 0 || num_slots
        < 2 * w as u128 {
        return Err(DecodeError::BadGeometry);
    }
    let num_blocks: u128 = num_slots / w as u128;
    proof {
        assert(num_blocks * r <= 0x1_0000_0000_0000_0000 * 256) by (nonlinear_arith)
            requires
                num_blocks <= 0x1_0000_0000_0000_0000,
                r <= 256,
        ;
        assert(segment_count * elem_size <= 0xffff_ffff_ffff_ffff * 0xffff_ffff_ffff_ffff)
            by (nonlinear_arith)
            requires
                segment_count <= 0xffff_ffff_ffff_ffff,
                elem_size <= 0xffff_ffff_ffff_ffff,
        ;
    }
    if segment_count as u128 != num_blocks * r as u128 {
        return Err(DecodeError::BadGeometry);
    }
    let payload_len: u128 = segment_count as u128 * elem_size as u128;
    if payload_len > usize::MAX as u128 {
        return Err(DecodeError::BadGeometry);
    }
    if payload_len + 40 != buf.len() as u128 {
        return Err(DecodeError::LengthMismatch);
    }
    let payload: &[u8] = slice_subrange(buf, HEADER_LEN, HEADER_LEN + payload_len as usize);
    Ok((Header { seed, num_starts }, payload))
}

proof fn lemma_header_len(family: u8, r: u8, seed: u64, num_starts: u64, count: u64)
    ensures
        header_bytes(family, r, seed, num_starts, count).len() == 32,
{
    bytes::lemma_le_len(MAGIC as nat, 4);
    bytes::lemma_le_len(seed as nat, 8);
    bytes::lemma_le_len(num_starts as nat, 8);
    bytes::lemma_le_len(count as nat, 8);
}

/// What is written is read back: a sealed buffer of a header and its words decodes to them.
pub proof fn lemma_round_trip(
    family: u8,
    r: u8,
    seed: u64,
    num_starts: u64,
    count: u64,
    payload: Seq<u8>,
    elem_size: nat,
    w: nat,
)
    requires
        fits_geometry(num_starts as nat, count as nat, r as nat, w),
        payload.len() == count * elem_size,
        payload.len() <= usize::MAX,
    ensures
        decoded(
            sealed(header_bytes(family, r, seed, num_starts, count) + payload),
            family,
            r,
            elem_size,
            w,
        ) == Ok::<(Header, Seq<u8>), DecodeError>((Header { seed, num_starts }, payload)),
{
    let head: Seq<u8> = header_bytes(family, r, seed, num_starts, count);
    let front: Seq<u8> = head + payload;
    let buf: Seq<u8> = sealed(front);
    lemma_sealed(front);
    lemma_header_fields(family, r, seed, num_starts, count, payload);
    assert(buf.subrange(32, 32 + payload.len() as int) =~= payload);
}

/// A sealed buffer has the checksum of what stands before it.
proof fn lemma_sealed(front: Seq<u8>)
    ensures
        sealed(front).len() == front.len() + 8,
        sealed(front).take(front.len() as int) == front,
        field(sealed(front), front.len() as int) == bytes::fnv_of(front),
{
    let sum: u64 = bytes::fnv_of(front);
    let end: int = front.len() as int;
    bytes::lemma_limits();
    bytes::lemma_le_len(sum as nat, 8);
    bytes::lemma_le_read(sum as nat, 8);
    assert(sealed(front).take(end) =~= front);
    assert(sealed(front).subrange(end, end + 8) =~= bytes::le_bytes(sum as nat, 8));
}

/// The fields of a header are where they belong.
proof fn lemma_header_fields(
    family: u8,
    r: u8,
    seed: u64,
    num_starts: u64,
    count: u64,
    payload: Seq<u8>,
)
    ensures
        ({
            let buf: Seq<u8> = sealed(
                header_bytes(family, r, seed, num_starts, count) + payload,
            );
            &&& buf.len() == 40 + payload.len()
            &&& bytes::le_value(buf.take(4)) == MAGIC
            &&& buf[4] == family
            &&& buf[5] == r
            &&& field(buf, 8) == seed
            &&& field(buf, 16) == num_starts
            &&& field(buf, 24) == count
        }),
{
    let buf: Seq<u8> = sealed(header_bytes(family, r, seed, num_starts, count) + payload);
    lemma_header_len(family, r, seed, num_starts, count);
    lemma_sealed(header_bytes(family, r, seed, num_starts, count) + payload);
    bytes::lemma_limits();
    reveal_with_fuel(bytes::limit, 5);
    bytes::lemma_le_len(MAGIC as nat, 4);
    bytes::lemma_le_len(seed as nat, 8);
    bytes::lemma_le_len(num_starts as nat, 8);
    bytes::lemma_le_len(count as nat, 8);
    bytes::lemma_le_read(MAGIC as nat, 4);
    bytes::lemma_le_read(seed as nat, 8);
    bytes::lemma_le_read(num_starts as nat, 8);
    bytes::lemma_le_read(count as nat, 8);
    assert(buf.take(4) =~= bytes::le_bytes(MAGIC as nat, 4));
    assert(buf.subrange(8, 16) =~= bytes::le_bytes(seed as nat, 8));
    assert(buf.subrange(16, 24) =~= bytes::le_bytes(num_starts as nat, 8));
    assert(buf.subrange(24, 32) =~= bytes::le_bytes(count as nat, 8));
}

/// A filter is not taken for one of another family, or of another width.
pub proof fn lemma_not_mistaken(
    family: u8,
    r: u8,
    seed: u64,
    num_starts: u64,
    count: u64,
    payload: Seq<u8>,
    other_family: u8,
    other_r: u8,
    elem_size: nat,
    w: nat,
)
    ensures
        ({
            let buf: Seq<u8> = sealed(
                header_bytes(family, r, seed, num_starts, count) + payload,
            );
            let d: Result<(Header, Seq<u8>), DecodeError> = decoded(
                buf,
                other_family,
                other_r,
                elem_size,
                w,
            );
            &&& other_family != family ==> d == Err::<(Header, Seq<u8>), DecodeError>(
                DecodeError::WrongFamily,
            )
            &&& other_family == family && other_r != r ==> d == Err::<
                (Header, Seq<u8>),
                DecodeError,
            >(DecodeError::WrongResultWidth)
        }),
{
    let head: Seq<u8> = header_bytes(family, r, seed, num_starts, count);
    let front: Seq<u8> = head + payload;
    lemma_sealed(front);
    lemma_header_fields(family, r, seed, num_starts, count, payload);
}

/// One wrong byte is found out: a buffer that differs in a single byte from one that decodes is
/// refused, for its magic or its checksum.
pub proof fn lemma_one_byte(
    buf: Seq<u8>,
    i: int,
    b: u8,
    family: u8,
    r: u8,
    elem_size: nat,
    w: nat,
)
    requires
        decoded(buf, family, r, elem_size, w) is Ok,
        0 <= i < buf.len(),
        b != buf[i],
    ensures
        decoded(buf.update(i, b), family, r, elem_size, w) == Err::<(Header, Seq<u8>), DecodeError>(
            if i < 4 {
                DecodeError::BadMagic
            } else {
                DecodeError::BadChecksum
            },
        ),
{
    let bad: Seq<u8> = buf.update(i, b);
    let end: int = buf.len() - 8;
    if i < 4 {
        bytes::lemma_le_write(buf.take(4));
        bytes::lemma_le_write(bad.take(4));
        assert(bad.take(4)[i] != buf.take(4)[i]);
    } else {
        assert(bad.take(4) =~= buf.take(4));
        if i < end {
            assert(bad.subrange(end, end + 8) =~= buf.subrange(end, end + 8));
            assert(bad.take(end) =~= buf.take(end).update(i, b));
            bytes::lemma_fnv_byte(bytes::FNV_OFFSET, buf.take(end), i, b);
        } else {
            assert(bad.take(end) =~= buf.take(end));
            bytes::lemma_le_write(buf.subrange(end, end + 8));
            bytes::lemma_le_write(bad.subrange(end, end + 8));
            assert(bad.subrange(end, end + 8)[i - end] != buf.subrange(end, end + 8)[i - end]);
        }
    }
}

/// A field of a buffer, in numbers.
pub proof fn lemma_field_value(buf: Seq<u8>, at: int)
    requires
        0 <= at,
        at + 8 <= buf.len(),
    ensures
        field(buf, at) == buf[at] + 0x100 * buf[at + 1] + 0x1_0000 * buf[at + 2] + 0x100_0000
            * buf[at + 3] + 0x1_0000_0000 * buf[at + 4] + 0x100_0000_0000 * buf[at + 5]
            + 0x1_0000_0000_0000 * buf[at + 6] + 0x100_0000_0000_0000 * buf[at + 7],
{
    bytes::lemma_value_8(buf.subrange(at, at + 8));
}

/// The first four bytes, in numbers.
proof fn lemma_magic_value(buf: Seq<u8>)
    requires
        buf.len() >= 4,
    ensures
        bytes::le_value(buf.take(4)) == MAGIC <==> buf[0] == 0x50 && buf[1] == 0x4c && buf[2] == 0x54
            && buf[3] == 0x31,
{
    let m: Seq<u8> = buf.take(4);
    assert(bytes::le_value(m.skip(1).skip(1).skip(1).skip(1)) == 0);
    reveal_with_fuel(bytes::le_value, 5);
}

/// What the geometry of a filter is: two or more blocks, `w` slots and `r` words to each, and a
/// start at every slot but the last `w - 1`.
pub proof fn lemma_geometry_blocks(num_starts: nat, count: nat, r: nat, w: nat)
    requires
        w > 0,
    ensures
        fits_geometry(num_starts, count, r, w) <==> exists|blocks: int|
            #![trigger blocks * w]
            2 <= blocks && num_starts + w - 1 == blocks * w && blocks * w <= 0xffff_ffff_ffff_ffff
                && count == blocks * r,
{
    let slots: int = num_starts + w - 1;
    if fits_geometry(num_starts, count, r, w) {
        let blocks: int = slots / (w as int);
        div_mod::lemma_fundamental_div_mod(slots, w as int);
        mul::lemma_mul_is_commutative(w as int, blocks);
        assert(blocks >= 2) by (nonlinear_arith)
            requires
                blocks * w >= 2 * w,
                w > 0,
        ;
        assert(blocks * w == slots);
    }
    if exists|blocks: int|
        #![trigger blocks * w]
        2 <= blocks && num_starts + w - 1 == blocks * w && blocks * w <= 0xffff_ffff_ffff_ffff
            && count == blocks * r {
        let blocks: int = choose|blocks: int|
            #![trigger blocks * w]
            2 <= blocks && num_starts + w - 1 == blocks * w && blocks * w <= 0xffff_ffff_ffff_ffff
                && count == blocks * r;
        assert(blocks * w >= 2 * w) by (nonlinear_arith)
            requires
                blocks >= 2,
        ;
        div_mod::lemma_mod_multiples_basic(blocks, w as int);
        div_mod::lemma_div_by_multiple(blocks, w as int);
    }
}

/// What decoding says of a buffer. Each reason is given exactly if it holds and none before it does:
/// the length, the magic, the checksum, the family, the width, the geometry, the length of the
/// payload. A buffer against which nothing holds decodes to its fields and what lies between the
/// header and the checksum.
pub proof fn lemma_decoded(buf: Seq<u8>, family: u8, r: u8, elem_size: nat, w: nat)
    requires
        w > 0,
    ensures
        ({
            let d: Result<(Header, Seq<u8>), DecodeError> = decoded(buf, family, r, elem_size, w);
            let end: int = buf.len() - 8;
            let long: bool = buf.len() >= 40;
            let magic: bool = long && buf[0] == 0x50 && buf[1] == 0x4c && buf[2] == 0x54 && buf[3]
                == 0x31;
            let sum: bool = magic && field(buf, end) == bytes::fnv_of(buf.take(end));
            let kind: bool = sum && buf[4] == family;
            let width: bool = kind && buf[5] == r;
            let shape: bool = width && fits_geometry(field(buf, 16), field(buf, 24), r as nat, w)
                && field(buf, 24) * elem_size <= usize::MAX;
            let whole: bool = shape && buf.len() == 40 + field(buf, 24) * elem_size;
            &&& d is Ok <==> whole
            &&& d is Ok ==> d->Ok_0.0.seed == field(buf, 8) && d->Ok_0.0.num_starts == field(
                buf,
                16,
            ) && d->Ok_0.1 == buf.subrange(32, end)
            &&& d is Err ==> match d->Err_0 {
                DecodeError::TooShort => !long,
                DecodeError::BadMagic => long && !magic,
                DecodeError::BadChecksum => magic && !sum,
                DecodeError::WrongFamily => sum && !kind,
                DecodeError::WrongResultWidth => kind && !width,
                DecodeError::BadGeometry => width && !shape,
                DecodeError::LengthMismatch => shape && !whole,
                DecodeError::BadSeed => false,
            }
        }),
{
    if buf.len() >= 40 {
        lemma_magic_value(buf);
        bytes::lemma_limits();
        bytes::lemma_le_write(buf.subrange(8, 16));
        bytes::lemma_le_write(buf.subrange(16, 24));
    }
}

/// What is written, byte by byte: the magic, the family, the width, two zeros, the seed, the number
/// of starts and the number of words, the payload, and the checksum of all that.
pub proof fn lemma_layout(
    family: u8,
    r: u8,
    seed: u64,
    num_starts: u64,
    count: u64,
    payload: Seq<u8>,
    i: nat,
)
    ensures
        ({
            let front: Seq<u8> = header_bytes(family, r, seed, num_starts, count) + payload;
            let buf: Seq<u8> = sealed(front);
            let end: int = 32 + payload.len() as int;
            &&& buf.len() == end + 8
            &&& buf.take(end) == front
            &&& buf[0] == 0x50 && buf[1] == 0x4c && buf[2] == 0x54 && buf[3] == 0x31
            &&& buf[4] == family && buf[5] == r && buf[6] == 0 && buf[7] == 0
            &&& i < 8 ==> buf[8 + i as int] == (seed as int / power::pow(256, i)) % 256
            &&& i < 8 ==> buf[16 + i as int] == (num_starts as int / power::pow(256, i)) % 256
            &&& i < 8 ==> buf[24 + i as int] == (count as int / power::pow(256, i)) % 256
            &&& i < payload.len() ==> buf[32 + i as int] == payload[i as int]
            &&& i < 8 ==> buf[end + i] == (bytes::fnv_of(front) as int / power::pow(256, i)) % 256
        }),
{
    let front: Seq<u8> = header_bytes(family, r, seed, num_starts, count) + payload;
    let buf: Seq<u8> = sealed(front);
    lemma_header_len(family, r, seed, num_starts, count);
    lemma_sealed(front);
    lemma_header_fields(family, r, seed, num_starts, count, payload);
    lemma_magic_value(buf);
    bytes::lemma_le_len(MAGIC as nat, 4);
    bytes::lemma_le_len(seed as nat, 8);
    bytes::lemma_le_len(num_starts as nat, 8);
    bytes::lemma_le_len(count as nat, 8);
    bytes::lemma_le_len(bytes::fnv_of(front) as nat, 8);
    if i < 8 {
        bytes::lemma_le_digit(seed as nat, 8, i);
        bytes::lemma_le_digit(num_starts as nat, 8, i);
        bytes::lemma_le_digit(count as nat, 8, i);
        bytes::lemma_le_digit(bytes::fnv_of(front) as nat, 8, i);
    }
}

} // verus!
