//! Typed values: a subtype selector bit (0: the schema's own type), the value, and a
//! deviant bit (0: no deviation).
use crate::exi_basetypes_decoder::{
    dec_bytes_from, dec_signed, dec_uint_width, decoder_bytes, decoder_i16, decoder_i32,
    decoder_i64, decoder_i8, decoder_nbit_uint, decoder_u16, decoder_u32, decoder_u64,
    decoder_u8, Decoding,
};
use crate::exi_bitstream::{lemma_read_field_fits, read_field, ExiBitstream};
use crate::exi_error_codes::ExiError;
use vstd::prelude::*;

verus! {

broadcast use lemma_read_field_fits;

/// A value decoded by `inner` inside the typed-value framing.
pub open spec fn dec_typed<T>(bs: Seq<bool>, p: int, inner: spec_fn(int) -> Decoding<T>) -> Decoding<T> {
    match read_field(bs, p, 1) {
        Err(e) => Err(e),
        Ok((sub, q)) => if sub != 0 {
            Err(ExiError::UnsupportedSubEvent)
        } else {
            match inner(q) {
                Err(e) => Err(e),
                Ok((v, q2)) => match read_field(bs, q2, 1) {
                    Err(e) => Err(e),
                    Ok((dev, q3)) => if dev != 0 {
                        Err(ExiError::DeviantsNotSupported)
                    } else {
                        Ok((v, q3))
                    },
                },
            }
        },
    }
}

pub open spec fn dec_u8(bs: Seq<bool>, p: int) -> Decoding<u8> {
    match dec_uint_width(bs, p, 2, 8) {
        Ok((v, q)) => Ok((v as u8, q)),
        Err(e) => Err(e),
    }
}

pub open spec fn dec_u16(bs: Seq<bool>, p: int) -> Decoding<u16> {
    match dec_uint_width(bs, p, 3, 16) {
        Ok((v, q)) => Ok((v as u16, q)),
        Err(e) => Err(e),
    }
}

pub open spec fn dec_u32(bs: Seq<bool>, p: int) -> Decoding<u32> {
    match dec_uint_width(bs, p, 5, 32) {
        Ok((v, q)) => Ok((v as u32, q)),
        Err(e) => Err(e),
    }
}

pub open spec fn dec_u64(bs: Seq<bool>, p: int) -> Decoding<u64> {
    match dec_uint_width(bs, p, 10, 64) {
        Ok((v, q)) => Ok((v as u64, q)),
        Err(e) => Err(e),
    }
}

pub open spec fn dec_i8(bs: Seq<bool>, p: int) -> Decoding<i8> {
    match dec_signed(bs, p, 2, 8, i8::MIN as int) {
        Ok((v, q)) => Ok((v as i8, q)),
        Err(e) => Err(e),
    }
}

pub open spec fn dec_i16(bs: Seq<bool>, p: int) -> Decoding<i16> {
    match dec_signed(bs, p, 3, 16, i16::MIN as int) {
        Ok((v, q)) => Ok((v as i16, q)),
        Err(e) => Err(e),
    }
}

pub open spec fn dec_i32(bs: Seq<bool>, p: int) -> Decoding<i32> {
    match dec_signed(bs, p, 5, 32, i32::MIN as int) {
        Ok((v, q)) => Ok((v as i32, q)),
        Err(e) => Err(e),
    }
}

pub open spec fn dec_i64(bs: Seq<bool>, p: int) -> Decoding<i64> {
    match dec_signed(bs, p, 10, 64, i64::MIN as int) {
        Ok((v, q)) => Ok((v as i64, q)),
        Err(e) => Err(e),
    }
}

/// A length-prefixed run of raw octets.
pub open spec fn dec_hex_binary(bs: Seq<bool>, p: int, size: nat) -> Decoding<Seq<u8>> {
    match dec_u16(bs, p) {
        Err(e) => Err(e),
        Ok((len, q)) => if len > size {
            Err(ExiError::ByteBufferTooSmall)
        } else {
            dec_bytes_from(bs, q, len as nat, Seq::empty())
        },
    }
}

/// Reads a typed hexBinary value: its length into `value_len`, its octets into the front of
/// `value_buffer`, of which at most `value_buffer_size` octets are used.
pub fn decode_exi_type_hex_binary(
    stream: &mut ExiBitstream,
    value_len: &mut u16,
    value_buffer: &mut [u8],
    value_buffer_size: usize,
) -> (r: Result<(), ExiError>)
    requires
        old(stream).wf(),
    ensures
        final(stream).wf(),
        final(stream).same_frame(old(stream)),
        final(stream).data@ == old(stream).data@,
        final(value_buffer)@.len() == old(value_buffer)@.len(),
        match dec_typed(
            old(stream).bits(),
            old(stream).pos(),
            |q: int|
                dec_hex_binary(
                    old(stream).bits(),
                    q,
                    if value_buffer_size <= old(value_buffer)@.len() {
                        value_buffer_size as nat
                    } else {
                        old(value_buffer)@.len()
                    },
                ),
        ) {
            Ok((o, q)) => r is Ok && final(stream).pos() == q && *final(value_len) == o.len()
                && final(value_buffer)@ == o + old(value_buffer)@.skip(o.len() as int),
            Err(e) => r == Err::<(), ExiError>(e),
        },
{
    let ghost bs = stream.bits();
    if decoder_nbit_uint(stream, 1)? == 0 {
        *value_len = decoder_u16(stream)?;
        decoder_bytes(stream, *value_len as usize, value_buffer, value_buffer_size)?;
    } else {
        return Err(ExiError::UnsupportedSubEvent);
    }
    if decoder_nbit_uint(stream, 1)? != 0 {
        Err(ExiError::DeviantsNotSupported)
    } else {
        Ok(())
    }
}

pub fn decode_exi_type_i8(stream: &mut ExiBitstream) -> (r: Result<i8, ExiError>)
    requires
        old(stream).wf(),
    ensures
        ExiBitstream::decoded(
            *old(stream),
            *final(stream),
            r,
            dec_typed(old(stream).bits(), old(stream).pos(), |q: int| dec_i8(old(stream).bits(), q)),
        ),
{
    let value;
    if decoder_nbit_uint(stream, 1)? == 0 {
        value = decoder_i8(stream)?;
    } else {
        return Err(ExiError::UnsupportedSubEvent);
    }
    if decoder_nbit_uint(stream, 1)? != 0 {
        Err(ExiError::DeviantsNotSupported)
    } else {
        Ok(value)
    }
}

pub fn decode_exi_type_i16(stream: &mut ExiBitstream) -> (r: Result<i16, ExiError>)
    requires
        old(stream).wf(),
    ensures
        ExiBitstream::decoded(
            *old(stream),
            *final(stream),
            r,
            dec_typed(old(stream).bits(), old(stream).pos(), |q: int| dec_i16(old(stream).bits(), q)),
        ),
{
    let value;
    if decoder_nbit_uint(stream, 1)? == 0 {
        value = decoder_i16(stream)?;
    } else {
        return Err(ExiError::UnsupportedSubEvent);
    }
    if decoder_nbit_uint(stream, 1)? != 0 {
        Err(ExiError::DeviantsNotSupported)
    } else {
        Ok(value)
    }
}

pub fn decode_exi_type_i32(stream: &mut ExiBitstream) -> (r: Result<i32, ExiError>)
    requires
        old(stream).wf(),
    ensures
        ExiBitstream::decoded(
            *old(stream),
            *final(stream),
            r,
            dec_typed(old(stream).bits(), old(stream).pos(), |q: int| dec_i32(old(stream).bits(), q)),
        ),
{
    let value;
    if decoder_nbit_uint(stream, 1)? == 0 {
        value = decoder_i32(stream)?;
    } else {
        return Err(ExiError::UnsupportedSubEvent);
    }
    if decoder_nbit_uint(stream, 1)? != 0 {
        Err(ExiError::DeviantsNotSupported)
    } else {
        Ok(value)
    }
}

pub fn decode_exi_type_i64(stream: &mut ExiBitstream) -> (r: Result<i64, ExiError>)
    requires
        old(stream).wf(),
    ensures
        ExiBitstream::decoded(
            *old(stream),
            *final(stream),
            r,
            dec_typed(old(stream).bits(), old(stream).pos(), |q: int| dec_i64(old(stream).bits(), q)),
        ),
{
    let value;
    if decoder_nbit_uint(stream, 1)? == 0 {
        value = decoder_i64(stream)?;
    } else {
        return Err(ExiError::UnsupportedSubEvent);
    }
    if decoder_nbit_uint(stream, 1)? != 0 {
        Err(ExiError::DeviantsNotSupported)
    } else {
        Ok(value)
    }
}

pub fn decode_exi_type_u8(stream: &mut ExiBitstream) -> (r: Result<u8, ExiError>)
    requires
        old(stream).wf(),
    ensures
        ExiBitstream::decoded(
            *old(stream),
            *final(stream),
            r,
            dec_typed(old(stream).bits(), old(stream).pos(), |q: int| dec_u8(old(stream).bits(), q)),
        ),
{
    let value;
    if decoder_nbit_uint(stream, 1)? == 0 {
        value = decoder_u8(stream)?;
    } else {
        return Err(ExiError::UnsupportedSubEvent);
    }
    if decoder_nbit_uint(stream, 1)? != 0 {
        Err(ExiError::DeviantsNotSupported)
    } else {
        Ok(value)
    }
}

pub fn decode_exi_type_u16(stream: &mut ExiBitstream) -> (r: Result<u16, ExiError>)
    requires
        old(stream).wf(),
    ensures
        ExiBitstream::decoded(
            *old(stream),
            *final(stream),
            r,
            dec_typed(old(stream).bits(), old(stream).pos(), |q: int| dec_u16(old(stream).bits(), q)),
        ),
{
    let value;
    if decoder_nbit_uint(stream, 1)? == 0 {
        value = decoder_u16(stream)?;
    } else {
        return Err(ExiError::UnsupportedSubEvent);
    }
    if decoder_nbit_uint(stream, 1)? != 0 {
        Err(ExiError::DeviantsNotSupported)
    } else {
        Ok(value)
    }
}

pub fn decode_exi_type_u32(stream: &mut ExiBitstream) -> (r: Result<u32, ExiError>)
    requires
        old(stream).wf(),
    ensures
        ExiBitstream::decoded(
            *old(stream),
            *final(stream),
            r,
            dec_typed(old(stream).bits(), old(stream).pos(), |q: int| dec_u32(old(stream).bits(), q)),
        ),
{
    let value;
    if decoder_nbit_uint(stream, 1)? == 0 {
        value = decoder_u32(stream)?;
    } else {
        return Err(ExiError::UnsupportedSubEvent);
    }
    if decoder_nbit_uint(stream, 1)? != 0 {
        Err(ExiError::DeviantsNotSupported)
    } else {
        Ok(value)
    }
}

pub fn decode_exi_type_u64(stream: &mut ExiBitstream) -> (r: Result<u64, ExiError>)
    requires
        old(stream).wf(),
    ensures
        ExiBitstream::decoded(
            *old(stream),
            *final(stream),
            r,
            dec_typed(old(stream).bits(), old(stream).pos(), |q: int| dec_u64(old(stream).bits(), q)),
        ),
{
    let value;
    if decoder_nbit_uint(stream, 1)? == 0 {
        value = decoder_u64(stream)?;
    } else {
        return Err(ExiError::UnsupportedSubEvent);
    }
    if decoder_nbit_uint(stream, 1)? != 0 {
        Err(ExiError::DeviantsNotSupported)
    } else {
        Ok(value)
    }
}

} // verus!
