//! Writers of the EXI base types.
use crate::bits::{lemma_put_bits_append, u32_bits};
use crate::exi_basetypes::{
    lemma_septets_len_bound, septets_of, ExiUnsigned, EXI_BASETYPES_MAX_OCTETS_SUPPORTED,
    EXI_BASETYPES_UINT16_MAX_OCTETS, EXI_BASETYPES_UINT32_MAX_OCTETS,
    EXI_BASETYPES_UINT8_MAX_OCTETS,
};
use crate::exi_bitstream::{emit, fail, Emission, ExiBitstream};
use crate::exi_error_codes::ExiError;
use vstd::arithmetic::power2::{lemma2_to64, lemma_pow2_strictly_increases};
use vstd::prelude::*;
use vstd::utf8::is_ascii_chars;

verus! {

/// The octets `o` one after the other, each most significant bit first.
pub open spec fn octets_bits(o: Seq<u8>) -> Seq<bool>
    decreases o.len(),
{
    if o.len() == 0 {
        Seq::empty()
    } else {
        octets_bits(o.drop_last()) + u32_bits(o.last() as u32, 8)
    }
}

/// The EXI unsigned integer `v` on the wire.
pub open spec fn uint_bits(v: nat) -> Seq<bool> {
    octets_bits(septets_of(v))
}

/// A signed integer on the wire: the sign, then the magnitude as an unsigned integer.
pub open spec fn int_bits(v: int) -> Seq<bool> {
    seq![v < 0] + uint_bits(if v < 0 { (-v) as nat } else { v as nat })
}

/// The bytes of ASCII characters.
pub open spec fn ascii_bytes(cs: Seq<char>) -> Seq<u8> {
    cs.map_values(|c: char| c as u8)
}

/// Characters on the wire: one octet each, ASCII only, and no more than the buffer size
/// less one.
pub open spec fn enc_characters(cs: Seq<char>, size: nat) -> Emission {
    if !is_ascii_chars(cs) {
        fail(ExiError::UnsupportedCharacterValue)
    } else if cs.len() + 1 > size {
        fail(ExiError::CharacterBufferTooSmall)
    } else {
        emit(octets_bits(ascii_bytes(cs)))
    }
}

pub proof fn lemma_octets_bits_len(o: Seq<u8>)
    ensures
        octets_bits(o).len() == 8 * o.len(),
    decreases o.len(),
{
    if o.len() > 0 {
        lemma_octets_bits_len(o.drop_last());
    }
}

pub proof fn lemma_octets_bits_push(o: Seq<u8>, b: u8)
    ensures
        octets_bits(o.push(b)) == octets_bits(o) + u32_bits(b as u32, 8),
{
    assert(o.push(b).drop_last() =~= o);
}

proof fn lemma_bool_bits(v: bool)
    ensures
        u32_bits(if v { 1u32 } else { 0u32 }, 1) == seq![v],
{
    let x: u32 = if v { 1u32 } else { 0u32 };
    assert((x >> 0u32) & 1u32 == 1u32 <==> x == 1u32) by (bit_vector)
        requires
            x <= 1,
    ;
    assert(u32_bits(x, 1) =~= seq![v]);
}

/// Writes the octets of an unsigned integer.
pub fn write_unsigned(stream: &mut ExiBitstream, exi_unsigned: &ExiUnsigned) -> (r: Result<(), ExiError>)
    requires
        old(stream).wf(),
        exi_unsigned.wf(),
    ensures
        ExiBitstream::emitted(*old(stream), *final(stream), r, emit(octets_bits(exi_unsigned.septets()))),
{
    let ghost d0 = stream.data@;
    let ghost p0 = stream.pos();
    let ghost o = exi_unsigned.septets();
    proof {
        lemma_octets_bits_len(o);
    }
    let count = *exi_unsigned.octets_count();
    let mut n: usize = 0;
    while n < count
        invariant
            stream.wf(),
            stream.same_frame(old(stream)),
            exi_unsigned.wf(),
            count == exi_unsigned.octets_count,
            o == exi_unsigned.septets(),
            octets_bits(o).len() == 8 * o.len(),
            n <= count,
            d0 == old(stream).data@,
            p0 == old(stream).pos(),
            stream.pos() == p0 + 8 * n,
            p0 + 8 * n <= stream.limit(),
            stream.data@ == crate::bits::put_bits(d0, p0, octets_bits(o.take(n as int))),
        decreases count - n,
    {
        proof {
            lemma_octets_bits_len(o.take(n as int));
            lemma_octets_bits_len(o.take(n + 1));
            lemma_octets_bits_push(o.take(n as int), o[n as int]);
            assert(o.take(n as int).push(o[n as int]) =~= o.take(n + 1));
            lemma_put_bits_append(d0, p0, octets_bits(o.take(n as int)), u32_bits(o[n as int] as u32, 8));
        }
        stream.write_octet(exi_unsigned.octets()[n])?;
        n += 1;
    }
    proof {
        assert(o.take(n as int) =~= o);
    }
    Ok(())
}

/// Writes one bit: 1 for true.
pub fn encoder_bool(stream: &mut ExiBitstream, value: bool) -> (r: Result<(), ExiError>)
    requires
        old(stream).wf(),
    ensures
        ExiBitstream::emitted(*old(stream), *final(stream), r, emit(seq![value])),
{
    proof {
        lemma_bool_bits(value);
    }
    stream.write_bits(1, if value { 1 } else { 0 })
}

/// Writes `bytes_len` raw octets of `bytes`; fails when that is more than `bytes_size` or
/// than `bytes` holds.
pub fn encoder_bytes(stream: &mut ExiBitstream, bytes_len: usize, bytes: &[u8], bytes_size: usize) -> (r: Result<(), ExiError>)
    requires
        old(stream).wf(),
    ensures
        ExiBitstream::emitted(
            *old(stream),
            *final(stream),
            r,
            if bytes_len > bytes_size || bytes_len > bytes@.len() {
                fail(ExiError::ByteBufferTooSmall)
            } else {
                emit(octets_bits(bytes@.take(bytes_len as int)))
            },
        ),
{
    if bytes_len > bytes_size || bytes_len > bytes.len() {
        return Err(ExiError::ByteBufferTooSmall);
    }
    let ghost d0 = stream.data@;
    let ghost p0 = stream.pos();
    let ghost o = bytes@.take(bytes_len as int);
    proof {
        lemma_octets_bits_len(o);
    }
    let mut n: usize = 0;
    while n < bytes_len
        invariant
            stream.wf(),
            stream.same_frame(old(stream)),
            bytes_len <= bytes@.len(),
            bytes_len <= bytes_size,
            o == bytes@.take(bytes_len as int),
            octets_bits(o).len() == 8 * o.len(),
            n <= bytes_len,
            d0 == old(stream).data@,
            p0 == old(stream).pos(),
            stream.pos() == p0 + 8 * n,
            p0 + 8 * n <= stream.limit(),
            stream.data@ == crate::bits::put_bits(d0, p0, octets_bits(o.take(n as int))),
        decreases bytes_len - n,
    {
        proof {
            lemma_octets_bits_len(o.take(n as int));
            lemma_octets_bits_len(o.take(n + 1));
            lemma_octets_bits_push(o.take(n as int), o[n as int]);
            assert(o.take(n as int).push(o[n as int]) =~= o.take(n + 1));
            lemma_put_bits_append(d0, p0, octets_bits(o.take(n as int)), u32_bits(o[n as int] as u32, 8));
        }
        stream.write_octet(bytes[n])?;
        n += 1;
    }
    proof {
        assert(o.take(n as int) =~= o);
    }
    Ok(())
}

/// Writes the `bit_count` lowest bits of `value`.
pub fn encoder_nbit_uint(stream: &mut ExiBitstream, bit_count: usize, value: u32) -> (r: Result<(), ExiError>)
    requires
        old(stream).wf(),
    ensures
        bit_count > 32 ==> r == Err::<(), ExiError>(ExiError::BitCountLargerThanTypeSize)
            && *final(stream) == *old(stream),
        bit_count <= 32 ==> ExiBitstream::emitted(
            *old(stream),
            *final(stream),
            r,
            emit(u32_bits(value, bit_count as nat)),
        ),
{
    stream.write_bits(bit_count, value)
}

pub fn encoder_u8(stream: &mut ExiBitstream, value: u8) -> (r: Result<(), ExiError>)
    requires
        old(stream).wf(),
    ensures
        ExiBitstream::emitted(*old(stream), *final(stream), r, emit(uint_bits(value as nat))),
{
    let mut exi_unsigned = ExiUnsigned::new([0; EXI_BASETYPES_MAX_OCTETS_SUPPORTED], 0);
    proof {
        lemma2_to64();
        lemma_pow2_strictly_increases(8, 14);
        lemma_septets_len_bound(value as nat, 2);
    }
    let converted = exi_unsigned.convert32_to(value as u32, EXI_BASETYPES_UINT8_MAX_OCTETS);
    if converted.is_err() {
        return converted;
    }
    write_unsigned(stream, &exi_unsigned)
}

pub fn encoder_u16(stream: &mut ExiBitstream, value: u16) -> (r: Result<(), ExiError>)
    requires
        old(stream).wf(),
    ensures
        ExiBitstream::emitted(*old(stream), *final(stream), r, emit(uint_bits(value as nat))),
{
    let mut exi_unsigned = ExiUnsigned::new([0; EXI_BASETYPES_MAX_OCTETS_SUPPORTED], 0);
    proof {
        lemma2_to64();
        lemma_pow2_strictly_increases(16, 21);
        vstd::arithmetic::power2::lemma2_to64_rest();
        lemma_septets_len_bound(value as nat, 3);
    }
    let converted = exi_unsigned.convert32_to(value as u32, EXI_BASETYPES_UINT16_MAX_OCTETS);
    if converted.is_err() {
        return converted;
    }
    write_unsigned(stream, &exi_unsigned)
}

pub fn encoder_u32(stream: &mut ExiBitstream, value: u32) -> (r: Result<(), ExiError>)
    requires
        old(stream).wf(),
    ensures
        ExiBitstream::emitted(*old(stream), *final(stream), r, emit(uint_bits(value as nat))),
{
    let mut exi_unsigned = ExiUnsigned::new([0; EXI_BASETYPES_MAX_OCTETS_SUPPORTED], 0);
    proof {
        lemma2_to64();
        lemma_pow2_strictly_increases(32, 35);
        lemma_septets_len_bound(value as nat, 5);
    }
    let converted = exi_unsigned.convert32_to(value, EXI_BASETYPES_UINT32_MAX_OCTETS);
    if converted.is_err() {
        return converted;
    }
    write_unsigned(stream, &exi_unsigned)
}

pub fn encoder_u64(stream: &mut ExiBitstream, value: u64) -> (r: Result<(), ExiError>)
    requires
        old(stream).wf(),
    ensures
        ExiBitstream::emitted(*old(stream), *final(stream), r, emit(uint_bits(value as nat))),
{
    let mut exi_unsigned = ExiUnsigned::new([0; EXI_BASETYPES_MAX_OCTETS_SUPPORTED], 0);
    let converted = exi_unsigned.convert64_to(value);
    if converted.is_err() {
        return converted;
    }
    write_unsigned(stream, &exi_unsigned)
}

/// Ends a two-part encoder: `emitted` for the first part and the second part give `emitted`
/// for both.
proof fn lemma_emitted_pair(s0: ExiBitstream, s1: ExiBitstream, s2: ExiBitstream, r2: Result<(), ExiError>, a: Seq<bool>, b: Seq<bool>)
    requires
        s0.wf(),
        ExiBitstream::emitted(s0, s1, Ok(()), emit(a)),
        ExiBitstream::emitted(s1, s2, r2, emit(b)),
    ensures
        ExiBitstream::emitted(s0, s2, r2, emit(a + b)),
{
    if s0.pos() + a.len() <= s0.limit() {
        lemma_put_bits_append(s0.data@, s0.pos(), a, b);
    }
}

pub fn encoder_i8(stream: &mut ExiBitstream, value: i8) -> (r: Result<(), ExiError>)
    requires
        old(stream).wf(),
        value != i8::MIN,
    ensures
        ExiBitstream::emitted(*old(stream), *final(stream), r, emit(int_bits(value as int))),
{
    let ghost s0 = *stream;
    encoder_bool(stream, value < 0)?;
    let ghost s1 = *stream;
    let r = encoder_u8(stream, if value < 0 { (-value) as u8 } else { value as u8 });
    proof {
        lemma_emitted_pair(s0, s1, *stream, r, seq![value < 0], uint_bits(if value < 0 { (-value) as nat } else { value as nat }));
    }
    r
}

pub fn encoder_i16(stream: &mut ExiBitstream, value: i16) -> (r: Result<(), ExiError>)
    requires
        old(stream).wf(),
        value != i16::MIN,
    ensures
        ExiBitstream::emitted(*old(stream), *final(stream), r, emit(int_bits(value as int))),
{
    let ghost s0 = *stream;
    encoder_bool(stream, value < 0)?;
    let ghost s1 = *stream;
    let r = encoder_u16(stream, if value < 0 { (-value) as u16 } else { value as u16 });
    proof {
        lemma_emitted_pair(s0, s1, *stream, r, seq![value < 0], uint_bits(if value < 0 { (-value) as nat } else { value as nat }));
    }
    r
}

pub fn encoder_i32(stream: &mut ExiBitstream, value: i32) -> (r: Result<(), ExiError>)
    requires
        old(stream).wf(),
        value != i32::MIN,
    ensures
        ExiBitstream::emitted(*old(stream), *final(stream), r, emit(int_bits(value as int))),
{
    let ghost s0 = *stream;
    encoder_bool(stream, value < 0)?;
    let ghost s1 = *stream;
    let r = encoder_u32(stream, if value < 0 { (-value) as u32 } else { value as u32 });
    proof {
        lemma_emitted_pair(s0, s1, *stream, r, seq![value < 0], uint_bits(if value < 0 { (-value) as nat } else { value as nat }));
    }
    r
}

pub fn encoder_i64(stream: &mut ExiBitstream, value: i64) -> (r: Result<(), ExiError>)
    requires
        old(stream).wf(),
        value != i64::MIN,
    ensures
        ExiBitstream::emitted(*old(stream), *final(stream), r, emit(int_bits(value as int))),
{
    let ghost s0 = *stream;
    encoder_bool(stream, value < 0)?;
    let ghost s1 = *stream;
    let r = encoder_u64(stream, if value < 0 { (-value) as u64 } else { value as u64 });
    proof {
        lemma_emitted_pair(s0, s1, *stream, r, seq![value < 0], uint_bits(if value < 0 { (-value) as nat } else { value as nat }));
    }
    r
}

/// Writes ASCII characters, one octet each; `characters_size` is the size of the buffer the
/// reading side will need, terminator included.
pub fn encoder_characters(stream: &mut ExiBitstream, characters: &str, characters_size: usize) -> (r: Result<(), ExiError>)
    requires
        old(stream).wf(),
    ensures
        ExiBitstream::emitted(*old(stream), *final(stream), r, enc_characters(characters@, characters_size as nat)),
{
    broadcast use vstd::string::is_ascii_spec_bytes;

    if !characters.is_ascii() {
        return Err(ExiError::UnsupportedCharacterValue);
    }
    let bytes = characters.as_bytes();
    proof {
        assert(bytes@ =~= ascii_bytes(characters@));
    }
    if bytes.len() >= characters_size {
        return Err(ExiError::CharacterBufferTooSmall);
    }
    let r = encoder_bytes(stream, bytes.len(), bytes, characters_size);
    proof {
        assert(bytes@.take(bytes@.len() as int) =~= bytes@);
    }
    r
}

} // verus!
