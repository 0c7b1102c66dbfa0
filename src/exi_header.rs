//! The simple one-byte EXI header: no cookie, no options.
use crate::bits::u32_bits;
use crate::exi_basetypes_decoder::Decoding;
use crate::exi_bitstream::{emit, lemma_read_field_fits, read_field, ExiBitstream};
use crate::exi_error_codes::ExiError;
use vstd::prelude::*;

verus! {

broadcast use lemma_read_field_fits;

pub const EXI_SIMPLE_HEADER_BIT_SIZE: usize = 8;

pub const EXI_SIMPLE_HEADER_VALUE: u32 = 0x80;

/// The cookie `$EXI` starts with this byte.
pub const EXI_HEADER_COOKIE_BYTE: u32 = 0x24;

/// The header byte's flag for an options header.
pub const EXI_HEADER_OPTIONS_FLAG: u32 = 0x20;

/// The header on the wire.
pub open spec fn header_bits() -> Seq<bool> {
    u32_bits(EXI_SIMPLE_HEADER_VALUE, 8)
}

/// A header byte is accepted unless it starts a cookie or announces options.
pub open spec fn dec_header(bs: Seq<bool>, p: int) -> Decoding<()> {
    match read_field(bs, p, 8) {
        Err(e) => Err(e),
        Ok((v, q)) => if v == EXI_HEADER_COOKIE_BYTE {
            Err(ExiError::HeaderCookieNotSupported)
        } else if (v / 32) % 2 == 1 {
            Err(ExiError::HeaderOptionsNotSupported)
        } else {
            Ok(((), q))
        },
    }
}

pub fn exi_header_write(stream: &mut ExiBitstream) -> (r: Result<(), ExiError>)
    requires
        old(stream).wf(),
    ensures
        ExiBitstream::emitted(*old(stream), *final(stream), r, emit(header_bits())),
{
    stream.write_bits(EXI_SIMPLE_HEADER_BIT_SIZE, EXI_SIMPLE_HEADER_VALUE)
}

/// Reads the header byte as it is.
pub fn exi_header_read(stream: &mut ExiBitstream) -> (r: Result<u32, ExiError>)
    requires
        old(stream).wf(),
    ensures
        ExiBitstream::decoded(
            *old(stream),
            *final(stream),
            r,
            match read_field(old(stream).bits(), old(stream).pos(), 8) {
                Ok((v, q)) => Ok((v as u32, q)),
                Err(e) => Err(e),
            },
        ),
{
    stream.read_bits(EXI_SIMPLE_HEADER_BIT_SIZE)
}

/// Reads the header byte and rejects a cookie or an options header.
pub fn exi_header_read_and_check(stream: &mut ExiBitstream) -> (r: Result<(), ExiError>)
    requires
        old(stream).wf(),
    ensures
        ExiBitstream::decoded(*old(stream), *final(stream), r, dec_header(old(stream).bits(), old(stream).pos())),
{
    let header = exi_header_read(stream)?;
    assert((header & 0x20u32 != 0) == ((header / 32) % 2 == 1)) by (bit_vector);
    if header == EXI_HEADER_COOKIE_BYTE {
        Err(ExiError::HeaderCookieNotSupported)
    } else if (header & EXI_HEADER_OPTIONS_FLAG) != 0 {
        Err(ExiError::HeaderOptionsNotSupported)
    } else {
        Ok(())
    }
}

} // verus!
