//! Readers of the EXI base types, each against a decoding of the bits at the cursor.
use crate::bits::u32_bits;
use crate::exi_basetypes::{
    lemma_septets_canonical, lemma_septets_of, septets_of, septets_value, ExiUnsigned,
    EXI_BASETYPES_MAX_OCTETS_SUPPORTED, EXI_BASETYPES_UINT16_MAX_OCTETS,
    EXI_BASETYPES_UINT32_MAX_OCTETS, EXI_BASETYPES_UINT8_MAX_OCTETS,
};
use crate::exi_basetypes_encoder::{ascii_bytes, lemma_octets_bits_len, octets_bits, uint_bits};
use crate::exi_bitstream::{
    bits_at, lemma_bits_at_join, lemma_bits_at_split, lemma_field_bits, lemma_read_at,
    lemma_read_field_fits, read_field, ExiBitstream,
};
use crate::exi_error_codes::ExiError;
use vstd::prelude::*;

verus! {

/// A decoding: the value and the bit position after it, or the failure.
pub type Decoding<T> = Result<(T, int), ExiError>;

/// The octets of an unsigned integer from `p` on, continuing after `acc`: up to the first
/// octet whose high bit is clear, ten at most.
pub open spec fn dec_octets_from(bs: Seq<bool>, p: int, acc: Seq<u8>) -> Decoding<Seq<u8>>
    decreases EXI_BASETYPES_MAX_OCTETS_SUPPORTED - acc.len(),
{
    if acc.len() >= EXI_BASETYPES_MAX_OCTETS_SUPPORTED {
        Err(ExiError::SupportedMaxOctetsOverrun)
    } else {
        match read_field(bs, p, 8) {
            Err(e) => Err(e),
            Ok((v, q)) => if v < 128 {
                Ok((acc.push(v as u8), q))
            } else {
                dec_octets_from(bs, q, acc.push(v as u8))
            },
        }
    }
}

pub open spec fn dec_unsigned_octets(bs: Seq<bool>, p: int) -> Decoding<Seq<u8>> {
    dec_octets_from(bs, p, Seq::empty())
}

/// An unsigned integer of at most `max_octets` octets, with its exact value.
pub open spec fn dec_uint(bs: Seq<bool>, p: int, max_octets: nat) -> Decoding<nat> {
    match dec_unsigned_octets(bs, p) {
        Err(e) => Err(e),
        Ok((o, q)) => if o.len() > max_octets {
            Err(ExiError::OctetCountLargerThanTypeSupports)
        } else {
            Ok((septets_value(o), q))
        },
    }
}

pub open spec fn dec_bool(bs: Seq<bool>, p: int) -> Decoding<bool> {
    match read_field(bs, p, 1) {
        Err(e) => Err(e),
        Ok((v, q)) => Ok((v != 0, q)),
    }
}

/// The unsigned integer of a width of `w` bits that takes at most `max_octets` octets:
/// bits above the width are dropped.
pub open spec fn dec_uint_width(bs: Seq<bool>, p: int, max_octets: nat, w: nat) -> Decoding<nat> {
    match dec_uint(bs, p, max_octets) {
        Err(e) => Err(e),
        Ok((v, q)) => Ok((v % vstd::arithmetic::power2::pow2(w), q)),
    }
}

/// A sign bit, then a magnitude of `w` bits; the magnitude is read as a signed value of that
/// width and negated when the sign is set, `min` (the width's least value) staying as it is.
pub open spec fn dec_signed(bs: Seq<bool>, p: int, max_octets: nat, w: nat, min: int) -> Decoding<int> {
    match dec_bool(bs, p) {
        Err(e) => Err(e),
        Ok((sign, q)) => match dec_uint_width(bs, q, max_octets, w) {
            Err(e) => Err(e),
            Ok((m, q2)) => {
                let half = vstd::arithmetic::power2::pow2((w - 1) as nat);
                let v = if m >= half {
                    m - 2 * half
                } else {
                    m as int
                };
                Ok((if sign && v != min { -v } else { v }, q2))
            },
        },
    }
}

/// `n` more ASCII characters, one octet each, after those in `acc`.
pub open spec fn dec_chars_from(bs: Seq<bool>, p: int, n: nat, acc: Seq<char>) -> Decoding<Seq<char>>
    decreases n,
{
    if n == 0 {
        Ok((acc, p))
    } else {
        match read_field(bs, p, 8) {
            Err(e) => Err(e),
            Ok((v, q)) => if v >= 128 {
                Err(ExiError::UnsupportedCharacterValue)
            } else {
                dec_chars_from(bs, q, (n - 1) as nat, acc.push((v as u8) as char))
            },
        }
    }
}

/// `len` characters for a buffer of `size`, which must also hold a terminator.
pub open spec fn dec_characters(bs: Seq<bool>, p: int, len: nat, size: nat) -> Decoding<Seq<char>> {
    if len + 1 > size {
        Err(ExiError::CharacterBufferTooSmall)
    } else {
        dec_chars_from(bs, p, len, Seq::empty())
    }
}

/// `n` more raw octets after those in `acc`.
pub open spec fn dec_bytes_from(bs: Seq<bool>, p: int, n: nat, acc: Seq<u8>) -> Decoding<Seq<u8>>
    decreases n,
{
    if n == 0 {
        Ok((acc, p))
    } else {
        match read_field(bs, p, 8) {
            Err(e) => Err(e),
            Ok((v, q)) => dec_bytes_from(bs, q, (n - 1) as nat, acc.push(v as u8)),
        }
    }
}

/// The first octet's bits come first.
pub proof fn lemma_octets_bits_cons(o: Seq<u8>)
    requires
        o.len() >= 1,
    ensures
        octets_bits(o) == u32_bits(o[0] as u32, 8) + octets_bits(o.drop_first()),
    decreases o.len(),
{
    if o.len() == 1 {
        assert(o.drop_last() =~= Seq::<u8>::empty());
        assert(o.drop_first() =~= Seq::<u8>::empty());
        assert(octets_bits(o) =~= u32_bits(o[0] as u32, 8) + octets_bits(o.drop_first()));
    } else {
        lemma_octets_bits_cons(o.drop_last());
        assert(o.drop_last().drop_first() =~= o.drop_first().drop_last());
        assert(octets_bits(o) =~= u32_bits(o[0] as u32, 8) + octets_bits(o.drop_first()));
    }
}

/// Octets shaped as an unsigned integer (all but the last flagged) read back as they were
/// written.
pub proof fn lemma_dec_octets_at(bs: Seq<bool>, q: int, o: Seq<u8>, acc: Seq<u8>)
    requires
        o.len() >= 1,
        forall|i: int| 0 <= i < o.len() - 1 ==> #[trigger] o[i] >= 128,
        o.last() < 128,
        acc.len() + o.len() <= EXI_BASETYPES_MAX_OCTETS_SUPPORTED,
        bits_at(bs, q, octets_bits(o)),
    ensures
        dec_octets_from(bs, q, acc) == Ok::<(Seq<u8>, int), ExiError>((acc + o, q + 8 * o.len())),
    decreases o.len(),
{
    lemma_octets_bits_cons(o);
    lemma_bits_at_split(bs, q, u32_bits(o[0] as u32, 8), octets_bits(o.drop_first()));
    vstd::arithmetic::power2::lemma2_to64();
    lemma_read_at(bs, q, o[0] as u32, 8);
    if o.len() == 1 {
        assert(acc.push(o[0]) =~= acc + o);
    } else {
        let t = o.drop_first();
        assert forall|i: int| 0 <= i < t.len() - 1 implies #[trigger] t[i] >= 128 by {
            assert(t[i] == o[i + 1]);
        }
        lemma_dec_octets_at(bs, q + 8, t, acc.push(o[0]));
        assert(acc.push(o[0]) + t =~= acc + o);
    }
}

/// An unsigned integer reads back as it was written.
pub proof fn lemma_dec_uint_at(bs: Seq<bool>, q: int, v: nat, max_octets: nat)
    requires
        septets_of(v).len() <= max_octets,
        septets_of(v).len() <= EXI_BASETYPES_MAX_OCTETS_SUPPORTED,
        bits_at(bs, q, uint_bits(v)),
    ensures
        dec_uint(bs, q, max_octets) == Ok::<(nat, int), ExiError>((v, q + uint_bits(v).len())),
{
    let o = septets_of(v);
    lemma_septets_of(v);
    lemma_octets_bits_len(o);
    lemma_dec_octets_at(bs, q, o, Seq::empty());
    assert(Seq::<u8>::empty() + o =~= o);
}

/// ASCII characters read back as they were written.
pub proof fn lemma_dec_chars_at(bs: Seq<bool>, q: int, cs: Seq<char>, acc: Seq<char>)
    requires
        vstd::utf8::is_ascii_chars(cs),
        bits_at(bs, q, octets_bits(ascii_bytes(cs))),
    ensures
        dec_chars_from(bs, q, cs.len(), acc) == Ok::<(Seq<char>, int), ExiError>(
            (acc + cs, q + 8 * cs.len()),
        ),
    decreases cs.len(),
{
    if cs.len() == 0 {
        assert(acc + cs =~= acc);
    } else {
        let o = ascii_bytes(cs);
        lemma_octets_bits_cons(o);
        lemma_bits_at_split(bs, q, u32_bits(o[0] as u32, 8), octets_bits(o.drop_first()));
        vstd::arithmetic::power2::lemma2_to64();
        assert('\0' <= cs[0] <= '\u{7f}');
        assert(o[0] < 128);
        lemma_read_at(bs, q, o[0] as u32, 8);
        assert(o.drop_first() =~= ascii_bytes(cs.drop_first()));
        let t = cs.drop_first();
        assert forall|i: int| 0 <= i < t.len() implies '\0' <= #[trigger] t[i] <= '\u{7f}' by {
            assert(t[i] == cs[i + 1]);
        }
        lemma_dec_chars_at(bs, q + 8, t, acc.push(cs[0]));
        assert(acc.push(cs[0]) + t =~= acc + cs);
    }
}

/// The octets of an unsigned integer that decodes stand in the stream as they were read,
/// all but the last flagged.
pub proof fn lemma_octets_of_dec(bs: Seq<bool>, q: int, acc: Seq<u8>)
    requires
        dec_octets_from(bs, q, acc) is Ok,
    ensures
        ({
            let (all, q2) = dec_octets_from(bs, q, acc)->Ok_0;
            let o = all.skip(acc.len() as int);
            &&& all.len() > acc.len()
            &&& all.take(acc.len() as int) == acc
            &&& forall|i: int| 0 <= i < o.len() - 1 ==> #[trigger] o[i] >= 128
            &&& o.last() < 128
            &&& bits_at(bs, q, octets_bits(o))
            &&& q2 == q + 8 * o.len()
        }),
    decreases EXI_BASETYPES_MAX_OCTETS_SUPPORTED - acc.len(),
{
    broadcast use lemma_read_field_fits;

    lemma_field_bits(bs, q, 8);
    let v = read_field(bs, q, 8)->Ok_0.0;
    let b = v as u8;
    assert(b as u32 == v as u32);
    let (all, q2) = dec_octets_from(bs, q, acc)->Ok_0;
    if v < 128 {
        let o = all.skip(acc.len() as int);
        assert(o =~= seq![b]);
        assert(all.take(acc.len() as int) =~= acc);
        assert(octets_bits(o) =~= u32_bits(b as u32, 8)) by {
            assert(o.drop_last() =~= Seq::<u8>::empty());
            assert(octets_bits(Seq::<u8>::empty()) == Seq::<bool>::empty());
            assert(Seq::<bool>::empty() + u32_bits(b as u32, 8) =~= u32_bits(b as u32, 8));
        }
    } else {
        let acc2 = acc.push(b);
        lemma_octets_of_dec(bs, q + 8, acc2);
        let o = all.skip(acc.len() as int);
        let o2 = all.skip(acc2.len() as int);
        assert(all.take(acc2.len() as int).take(acc.len() as int) =~= all.take(acc.len() as int));
        assert(acc2.take(acc.len() as int) =~= acc);
        assert(all.take(acc2.len() as int)[acc.len() as int] == all[acc.len() as int]);
        assert(acc2[acc.len() as int] == b);
        assert(o[0] == b);
        assert(o.drop_first() =~= o2);
        lemma_octets_bits_cons(o);
        lemma_bits_at_join(bs, q, u32_bits(b as u32, 8), octets_bits(o2));
        assert forall|i: int| 0 <= i < o.len() - 1 implies #[trigger] o[i] >= 128 by {
            if i > 0 {
                assert(o[i] == o2[i - 1]);
            }
        }
    }
}

/// An unsigned integer in canonical form (no superfluous zero digit) and within `w` bits.
pub open spec fn canonical_uint_at(bs: Seq<bool>, q: int, w: nat) -> bool {
    match dec_unsigned_octets(bs, q) {
        Ok((o, _)) => (o.len() == 1 || o.last() != 0) && septets_value(o)
            < vstd::arithmetic::power2::pow2(w),
        Err(_) => true,
    }
}

/// A canonical unsigned integer that decodes stands in the stream as its encoding.
pub proof fn lemma_uint_of_dec(bs: Seq<bool>, q: int, max_octets: nat, w: nat)
    requires
        dec_uint(bs, q, max_octets) is Ok,
        canonical_uint_at(bs, q, w),
    ensures
        ({
            let (v, q2) = dec_uint(bs, q, max_octets)->Ok_0;
            &&& v < vstd::arithmetic::power2::pow2(w)
            &&& bits_at(bs, q, uint_bits(v))
            &&& q2 == q + uint_bits(v).len()
        }),
{
    lemma_octets_of_dec(bs, q, Seq::empty());
    let (o, q2) = dec_unsigned_octets(bs, q)->Ok_0;
    assert(o.skip(0) =~= o);
    lemma_septets_canonical(o);
    lemma_octets_bits_len(o);
}

/// ASCII characters that decode stand in the stream as their encoding.
pub proof fn lemma_chars_of_dec(bs: Seq<bool>, q: int, n: nat, acc: Seq<char>)
    requires
        0 <= q <= bs.len(),
        dec_chars_from(bs, q, n, acc) is Ok,
    ensures
        ({
            let (all, q2) = dec_chars_from(bs, q, n, acc)->Ok_0;
            let cs = all.skip(acc.len() as int);
            &&& all.len() == acc.len() + n
            &&& all.take(acc.len() as int) == acc
            &&& vstd::utf8::is_ascii_chars(cs)
            &&& bits_at(bs, q, octets_bits(ascii_bytes(cs)))
            &&& q2 == q + 8 * n
        }),
    decreases n,
{
    broadcast use lemma_read_field_fits;

    let (all, q2) = dec_chars_from(bs, q, n, acc)->Ok_0;
    if n == 0 {
        assert(all.skip(acc.len() as int) =~= Seq::<char>::empty());
        assert(all.take(acc.len() as int) =~= acc);
        assert(ascii_bytes(Seq::<char>::empty()) =~= Seq::<u8>::empty());
        assert(octets_bits(Seq::<u8>::empty()) == Seq::<bool>::empty());
        assert(bs.subrange(q, q) =~= Seq::<bool>::empty());
    } else {
        lemma_field_bits(bs, q, 8);
        let v = read_field(bs, q, 8)->Ok_0.0;
        let b = v as u8;
        let c = b as char;
        let acc2 = acc.push(c);
        lemma_chars_of_dec(bs, q + 8, (n - 1) as nat, acc2);
        let cs = all.skip(acc.len() as int);
        let cs2 = all.skip(acc2.len() as int);
        assert(all.take(acc2.len() as int).take(acc.len() as int) =~= all.take(acc.len() as int));
        assert(acc2.take(acc.len() as int) =~= acc);
        assert(all.take(acc2.len() as int)[acc.len() as int] == all[acc.len() as int]);
        assert(acc2[acc.len() as int] == c);
        assert(cs[0] == c);
        assert(cs.drop_first() =~= cs2);
        assert((c as u8) == b);
        let o = ascii_bytes(cs);
        assert(o[0] == b);
        assert(o.drop_first() =~= ascii_bytes(cs2));
        lemma_octets_bits_cons(o);
        assert(b as u32 == v as u32);
        lemma_bits_at_join(bs, q, u32_bits(b as u32, 8), octets_bits(ascii_bytes(cs2)));
        assert forall|i: int| 0 <= i < cs.len() implies '\0' <= #[trigger] cs[i] <= '\u{7f}' by {
            if i > 0 {
                assert(cs[i] == cs2[i - 1]);
            }
        }
        assert(all.len() == acc.len() + n);
        assert(all.take(acc.len() as int) == acc);
        assert(vstd::utf8::is_ascii_chars(cs));
        assert(bits_at(bs, q, octets_bits(ascii_bytes(cs))));
        assert(q2 == q + 8 * n);
    }
}

/// The continuation flag of an unsigned integer's octet.
const MSB: u8 = 128;

/// Relies on `String::push`: the character is appended at the end.
#[verifier::external_body]
fn push_char(s: &mut String, c: char)
    ensures
        final(s)@ == old(s)@.push(c),
{
    s.push(c);
}

/// Reads the octets of an unsigned integer.
pub fn read_unsigned(stream: &mut ExiBitstream) -> (r: Result<ExiUnsigned, ExiError>)
    requires
        old(stream).wf(),
    ensures
        final(stream).wf(),
        final(stream).same_frame(old(stream)),
        final(stream).data@ == old(stream).data@,
        match dec_unsigned_octets(old(stream).bits(), old(stream).pos()) {
            Ok((o, q)) => r is Ok && r->Ok_0.wf() && r->Ok_0.septets() == o && final(stream).pos()
                == q,
            Err(e) => r == Err::<ExiUnsigned, ExiError>(e),
        },
{
    let ghost bs = stream.bits();
    let ghost p0 = stream.pos();
    let mut octets = [0u8; EXI_BASETYPES_MAX_OCTETS_SUPPORTED];
    let mut octets_count: usize = 0;
    assert(octets@.take(0) =~= Seq::<u8>::empty());
    while octets_count < EXI_BASETYPES_MAX_OCTETS_SUPPORTED
        invariant
            stream.wf(),
            stream.same_frame(old(stream)),
            stream.data@ == old(stream).data@,
            bs == old(stream).bits(),
            p0 == old(stream).pos(),
            octets_count <= EXI_BASETYPES_MAX_OCTETS_SUPPORTED,
            dec_unsigned_octets(bs, p0) == dec_octets_from(
                bs,
                stream.pos(),
                octets@.take(octets_count as int),
            ),
        decreases EXI_BASETYPES_MAX_OCTETS_SUPPORTED - octets_count,
    {
        let current_octet = stream.read_octet()?;
        let ghost acc = octets@.take(octets_count as int);
        octets[octets_count] = current_octet;
        octets_count += 1;
        proof {
            assert(octets@.take(octets_count as int) =~= acc.push(current_octet));
            crate::bits::lemma_bits_value_bound(bs.subrange(stream.pos() - 8, stream.pos()));
            vstd::arithmetic::power2::lemma2_to64();
        }
        assert((current_octet & MSB == 0) == (current_octet < 128)) by (bit_vector);
        if current_octet & MSB == 0 {
            return Ok(ExiUnsigned::new(octets, octets_count));
        }
    }
    Err(ExiError::SupportedMaxOctetsOverrun)
}

pub fn decoder_bool(stream: &mut ExiBitstream) -> (r: Result<bool, ExiError>)
    requires
        old(stream).wf(),
    ensures
        ExiBitstream::decoded(*old(stream), *final(stream), r, dec_bool(old(stream).bits(), old(stream).pos())),
{
    let value = stream.read_bits(1)?;
    proof {
        crate::bits::lemma_bits_value_bound(old(stream).bits().subrange(old(stream).pos(), old(stream).pos() + 1));
        vstd::arithmetic::power2::lemma2_to64();
    }
    if value == 0 {
        Ok(false)
    } else {
        Ok(true)
    }
}

/// Reads `bytes_len` raw octets into the front of `bytes`; fails when that is more than
/// `bytes_size` or than `bytes` holds.
pub fn decoder_bytes(stream: &mut ExiBitstream, bytes_len: usize, bytes: &mut [u8], bytes_size: usize) -> (r: Result<(), ExiError>)
    requires
        old(stream).wf(),
    ensures
        final(stream).wf(),
        final(stream).same_frame(old(stream)),
        final(stream).data@ == old(stream).data@,
        final(bytes)@.len() == old(bytes)@.len(),
        bytes_len > bytes_size || bytes_len > old(bytes)@.len() ==> r == Err::<(), ExiError>(
            ExiError::ByteBufferTooSmall,
        ),
        bytes_len <= bytes_size && bytes_len <= old(bytes)@.len() ==> match dec_bytes_from(
            old(stream).bits(),
            old(stream).pos(),
            bytes_len as nat,
            Seq::empty(),
        ) {
            Ok((o, q)) => r is Ok && final(stream).pos() == q && final(bytes)@ == o + old(
                bytes,
            )@.skip(bytes_len as int),
            Err(e) => r == Err::<(), ExiError>(e),
        },
{
    if bytes_len > bytes_size || bytes_len > bytes.len() {
        return Err(ExiError::ByteBufferTooSmall);
    }
    let ghost bs = stream.bits();
    let ghost p0 = stream.pos();
    let mut n: usize = 0;
    assert(bytes@.take(0) =~= Seq::<u8>::empty());
    while n < bytes_len
        invariant
            stream.wf(),
            stream.same_frame(old(stream)),
            stream.data@ == old(stream).data@,
            bs == old(stream).bits(),
            p0 == old(stream).pos(),
            n <= bytes_len <= bytes@.len(),
            bytes@.len() == old(bytes)@.len(),
            bytes_len <= bytes_size,
            dec_bytes_from(bs, p0, bytes_len as nat, Seq::empty()) == dec_bytes_from(
                bs,
                stream.pos(),
                (bytes_len - n) as nat,
                bytes@.take(n as int),
            ),
            bytes@.skip(n as int) == old(bytes)@.skip(n as int),
        decreases bytes_len - n,
    {
        let ghost before = bytes@;
        let octet = stream.read_octet()?;
        bytes[n] = octet;
        proof {
            assert(bytes@.take(n + 1) =~= before.take(n as int).push(octet));
            assert(bytes@.skip(n + 1) =~= before.skip(n as int).skip(1));
            assert(old(bytes)@.skip(n + 1) =~= old(bytes)@.skip(n as int).skip(1));
        }
        n += 1;
    }
    proof {
        assert(bytes@ =~= bytes@.take(n as int) + bytes@.skip(n as int));
    }
    Ok(())
}

/// Reads `bit_count` bits as an unsigned integer.
pub fn decoder_nbit_uint(stream: &mut ExiBitstream, bit_count: usize) -> (r: Result<u32, ExiError>)
    requires
        old(stream).wf(),
    ensures
        ExiBitstream::decoded(
            *old(stream),
            *final(stream),
            r,
            match read_field(old(stream).bits(), old(stream).pos(), bit_count as nat) {
                Ok((v, q)) => Ok((v as u32, q)),
                Err(e) => Err(e),
            },
        ),
{
    stream.read_bits(bit_count)
}

pub fn decoder_u8(stream: &mut ExiBitstream) -> (r: Result<u8, ExiError>)
    requires
        old(stream).wf(),
    ensures
        ExiBitstream::decoded(
            *old(stream),
            *final(stream),
            r,
            match dec_uint_width(old(stream).bits(), old(stream).pos(), 2, 8) {
                Ok((v, q)) => Ok((v as u8, q)),
                Err(e) => Err(e),
            },
        ),
{
    let exi_unsigned = read_unsigned(stream)?;
    let value = exi_unsigned.convert32_from(EXI_BASETYPES_UINT8_MAX_OCTETS)?;
    proof {
        lemma_mod_of_mod(septets_value(exi_unsigned.septets()), 8);
        vstd::arithmetic::power2::lemma2_to64();
    }
    Ok((value % 256) as u8)
}

pub fn decoder_u16(stream: &mut ExiBitstream) -> (r: Result<u16, ExiError>)
    requires
        old(stream).wf(),
    ensures
        ExiBitstream::decoded(
            *old(stream),
            *final(stream),
            r,
            match dec_uint_width(old(stream).bits(), old(stream).pos(), 3, 16) {
                Ok((v, q)) => Ok((v as u16, q)),
                Err(e) => Err(e),
            },
        ),
{
    let exi_unsigned = read_unsigned(stream)?;
    let value = exi_unsigned.convert32_from(EXI_BASETYPES_UINT16_MAX_OCTETS)?;
    proof {
        lemma_mod_of_mod(septets_value(exi_unsigned.septets()), 16);
        vstd::arithmetic::power2::lemma2_to64();
    }
    Ok((value % 0x1_0000) as u16)
}

pub fn decoder_u32(stream: &mut ExiBitstream) -> (r: Result<u32, ExiError>)
    requires
        old(stream).wf(),
    ensures
        ExiBitstream::decoded(
            *old(stream),
            *final(stream),
            r,
            match dec_uint_width(old(stream).bits(), old(stream).pos(), 5, 32) {
                Ok((v, q)) => Ok((v as u32, q)),
                Err(e) => Err(e),
            },
        ),
{
    let exi_unsigned = read_unsigned(stream)?;
    proof {
        vstd::arithmetic::power2::lemma2_to64();
    }
    exi_unsigned.convert32_from(EXI_BASETYPES_UINT32_MAX_OCTETS)
}

pub fn decoder_u64(stream: &mut ExiBitstream) -> (r: Result<u64, ExiError>)
    requires
        old(stream).wf(),
    ensures
        ExiBitstream::decoded(
            *old(stream),
            *final(stream),
            r,
            match dec_uint_width(old(stream).bits(), old(stream).pos(), 10, 64) {
                Ok((v, q)) => Ok((v as u64, q)),
                Err(e) => Err(e),
            },
        ),
{
    let exi_unsigned = read_unsigned(stream)?;
    proof {
        vstd::arithmetic::power2::lemma2_to64();
    }
    exi_unsigned.convert64_from()
}

/// Keeping the low `w` bits of the low 32 bits is keeping the low `w` bits.
proof fn lemma_mod_of_mod(v: nat, w: nat)
    requires
        w == 8 || w == 16,
    ensures
        (v % 0x1_0000_0000) % vstd::arithmetic::power2::pow2(w) == v % vstd::arithmetic::power2::pow2(w),
{
    vstd::arithmetic::power2::lemma2_to64();
    if w == 8 {
        assert(0x1_0000_0000 == 256 * 0x100_0000);
        vstd::arithmetic::div_mod::lemma_mod_mod(v as int, 256, 0x100_0000);
    } else {
        assert(0x1_0000_0000 == 0x1_0000 * 0x1_0000);
        vstd::arithmetic::div_mod::lemma_mod_mod(v as int, 0x1_0000, 0x1_0000);
    }
}

pub fn decoder_i8(stream: &mut ExiBitstream) -> (r: Result<i8, ExiError>)
    requires
        old(stream).wf(),
    ensures
        ExiBitstream::decoded(
            *old(stream),
            *final(stream),
            r,
            match dec_signed(old(stream).bits(), old(stream).pos(), 2, 8, i8::MIN as int) {
                Ok((v, q)) => Ok((v as i8, q)),
                Err(e) => Err(e),
            },
        ),
{
    let sign = decoder_bool(stream)?;
    let value = decoder_u8(stream)?;
    proof {
        vstd::arithmetic::power2::lemma2_to64();
    }
    let v: i8 = if value >= 128 {
        (value as i16 - 256) as i8
    } else {
        value as i8
    };
    if sign && v != i8::MIN {
        Ok(-v)
    } else {
        Ok(v)
    }
}

pub fn decoder_i16(stream: &mut ExiBitstream) -> (r: Result<i16, ExiError>)
    requires
        old(stream).wf(),
    ensures
        ExiBitstream::decoded(
            *old(stream),
            *final(stream),
            r,
            match dec_signed(old(stream).bits(), old(stream).pos(), 3, 16, i16::MIN as int) {
                Ok((v, q)) => Ok((v as i16, q)),
                Err(e) => Err(e),
            },
        ),
{
    let sign = decoder_bool(stream)?;
    let value = decoder_u16(stream)?;
    proof {
        vstd::arithmetic::power2::lemma2_to64();
    }
    let v: i16 = if value >= 0x8000 {
        (value as i32 - 0x1_0000) as i16
    } else {
        value as i16
    };
    if sign && v != i16::MIN {
        Ok(-v)
    } else {
        Ok(v)
    }
}

pub fn decoder_i32(stream: &mut ExiBitstream) -> (r: Result<i32, ExiError>)
    requires
        old(stream).wf(),
    ensures
        ExiBitstream::decoded(
            *old(stream),
            *final(stream),
            r,
            match dec_signed(old(stream).bits(), old(stream).pos(), 5, 32, i32::MIN as int) {
                Ok((v, q)) => Ok((v as i32, q)),
                Err(e) => Err(e),
            },
        ),
{
    let sign = decoder_bool(stream)?;
    let value = decoder_u32(stream)?;
    proof {
        vstd::arithmetic::power2::lemma2_to64();
    }
    let v: i32 = if value >= 0x8000_0000 {
        (value as i64 - 0x1_0000_0000) as i32
    } else {
        value as i32
    };
    if sign && v != i32::MIN {
        Ok(-v)
    } else {
        Ok(v)
    }
}

pub fn decoder_i64(stream: &mut ExiBitstream) -> (r: Result<i64, ExiError>)
    requires
        old(stream).wf(),
    ensures
        ExiBitstream::decoded(
            *old(stream),
            *final(stream),
            r,
            match dec_signed(old(stream).bits(), old(stream).pos(), 10, 64, i64::MIN as int) {
                Ok((v, q)) => Ok((v as i64, q)),
                Err(e) => Err(e),
            },
        ),
{
    let sign = decoder_bool(stream)?;
    let value = decoder_u64(stream)?;
    proof {
        vstd::arithmetic::power2::lemma2_to64();
        vstd::arithmetic::power2::lemma2_to64_rest();
    }
    let v: i64 = if value >= 0x8000_0000_0000_0000 {
        (value as i128 - 0x1_0000_0000_0000_0000) as i64
    } else {
        value as i64
    };
    if sign && v != i64::MIN {
        Ok(-v)
    } else {
        Ok(v)
    }
}

/// Reads `characters_len` ASCII characters; `characters_size` is the size of the buffer they
/// are meant for, terminator included.
pub fn decoder_characters(stream: &mut ExiBitstream, characters_len: usize, characters_size: usize) -> (r: Result<String, ExiError>)
    requires
        old(stream).wf(),
    ensures
        final(stream).wf(),
        final(stream).same_frame(old(stream)),
        final(stream).data@ == old(stream).data@,
        match dec_characters(old(stream).bits(), old(stream).pos(), characters_len as nat, characters_size as nat) {
            Ok((cs, q)) => r is Ok && r->Ok_0@ == cs && final(stream).pos() == q,
            Err(e) => r == Err::<String, ExiError>(e),
        },
{
    if characters_len >= characters_size {
        return Err(ExiError::CharacterBufferTooSmall);
    }
    let ghost bs = stream.bits();
    let ghost p0 = stream.pos();
    let mut string = String::new();
    assert(string@ =~= Seq::<char>::empty());
    let mut n: usize = 0;
    while n < characters_len
        invariant
            stream.wf(),
            stream.same_frame(old(stream)),
            stream.data@ == old(stream).data@,
            bs == old(stream).bits(),
            p0 == old(stream).pos(),
            n <= characters_len < characters_size,
            dec_chars_from(bs, p0, characters_len as nat, Seq::empty()) == dec_chars_from(
                bs,
                stream.pos(),
                (characters_len - n) as nat,
                string@,
            ),
        decreases characters_len - n,
    {
        let current_char = stream.read_octet()?;
        proof {
            crate::bits::lemma_bits_value_bound(bs.subrange(stream.pos() - 8, stream.pos()));
            vstd::arithmetic::power2::lemma2_to64();
        }
        if current_char >= 0x80 {
            return Err(ExiError::UnsupportedCharacterValue);
        }
        push_char(&mut string, current_char as char);
        n += 1;
    }
    Ok(string)
}

} // verus!
