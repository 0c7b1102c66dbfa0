//! A bit-granular cursor over a bounded byte buffer.
use crate::bits::{
    clean_from, lemma_put_bits_append, bits_of, bits_value, lemma_bits_value_bound, lemma_byte_pos_split, lemma_div_mod8, put_bit, put_bits,
    stream_bit, u32_bits,
};
use crate::exi_error_codes::ExiError;
use vstd::arithmetic::power2::{lemma2_to64, lemma_pow2_strictly_increases, lemma_pow2_unfold, pow2};
use vstd::prelude::*;

verus! {

pub const EXI_BITSTREAM_MAX_BIT_COUNT: u8 = 8;

/// A byte buffer read and written one bit at a time, most significant bit first.
///
/// The cursor is `(byte_pos, bit_count)`: `bit_count` bits of byte `byte_pos` are used. A full
/// byte (`bit_count == 8`) is left in place until the next access moves on to the next byte.
#[derive(Debug, PartialEq)]
pub struct ExiBitstream {
    pub data: Vec<u8>,
    /// Bytes of `data` that the stream may use.
    pub data_size: usize,
    pub bit_count: u8,
    pub byte_pos: usize,
    /// When set, `reset` returns to `data_offset` and lengths are counted from there.
    pub reset_to_offset: bool,
    pub data_offset: usize,
}

/// The `n`-bit field at bit position `p` of `bs`, with the position after it.
pub open spec fn read_field(bs: Seq<bool>, p: int, n: nat) -> Result<(nat, int), ExiError> {
    if n > 32 {
        Err(ExiError::BitCountLargerThanTypeSize)
    } else if 0 <= p && p + n <= bs.len() {
        Ok((bits_value(bs.subrange(p, p + n)), p + n))
    } else {
        Err(ExiError::BitstreamOverflow)
    }
}

/// A field that reads successfully fits its width and ends `n` bits on.
pub broadcast proof fn lemma_read_field_fits(bs: Seq<bool>, p: int, n: nat)
    ensures
        #[trigger] read_field(bs, p, n) is Ok ==> {
            let (v, q) = read_field(bs, p, n)->Ok_0;
            &&& q == p + n
            &&& v < pow2(n)
            &&& v < 0x1_0000_0000
            &&& n == 1 ==> v < 2
            &&& n == 2 ==> v < 4
            &&& n == 5 ==> v < 32
            &&& n == 8 ==> v < 256
        },
{
    if read_field(bs, p, n) is Ok {
        lemma_bits_value_bound(bs.subrange(p, p + n));
        lemma2_to64();
        if n < 32 {
            lemma_pow2_strictly_increases(n, 32);
        }
    }
}

/// The bits `w` stand in `bs` from position `q` on.
pub open spec fn bits_at(bs: Seq<bool>, q: int, w: Seq<bool>) -> bool {
    0 <= q && q + w.len() <= bs.len() && bs.subrange(q, q + w.len()) == w
}

pub proof fn lemma_bits_at_split(bs: Seq<bool>, q: int, a: Seq<bool>, b: Seq<bool>)
    requires
        bits_at(bs, q, a + b),
    ensures
        bits_at(bs, q, a),
        bits_at(bs, q + a.len(), b),
{
    let whole = bs.subrange(q, q + (a + b).len());
    assert(whole == a + b);
    assert(bs.subrange(q, q + a.len()) =~= whole.subrange(0, a.len() as int));
    assert(whole.subrange(0, a.len() as int) =~= a);
    assert(bs.subrange(q + a.len(), q + a.len() + b.len()) =~= whole.subrange(
        a.len() as int,
        whole.len() as int,
    ));
    assert(whole.subrange(a.len() as int, whole.len() as int) =~= b);
}

pub proof fn lemma_bits_at_join(bs: Seq<bool>, q: int, a: Seq<bool>, b: Seq<bool>)
    requires
        bits_at(bs, q, a),
        bits_at(bs, q + a.len(), b),
    ensures
        bits_at(bs, q, a + b),
{
    assert(bs.subrange(q, q + (a + b).len()) =~= bs.subrange(q, q + a.len()) + bs.subrange(
        q + a.len(),
        q + a.len() + b.len(),
    ));
}

/// A field that reads successfully stands in the stream as the bits of its value.
pub proof fn lemma_field_bits(bs: Seq<bool>, q: int, n: nat)
    requires
        read_field(bs, q, n) is Ok,
    ensures
        read_field(bs, q, n)->Ok_0.0 < 0x1_0000_0000,
        bits_at(bs, q, u32_bits(read_field(bs, q, n)->Ok_0.0 as u32, n)),
        read_field(bs, q, n)->Ok_0.1 == q + n,
{
    crate::bits::lemma_bits_value_u32_bits(bs.subrange(q, q + n));
}

/// A field written as the `n` bits of `v` reads back as `v`.
pub proof fn lemma_read_at(bs: Seq<bool>, q: int, v: u32, n: nat)
    requires
        n <= 32,
        (v as nat) < pow2(n),
        bits_at(bs, q, u32_bits(v, n)),
    ensures
        read_field(bs, q, n) == Ok::<(nat, int), ExiError>((v as nat, q + n)),
{
    crate::bits::lemma_u32_bits_value(v, n);
    vstd::arithmetic::div_mod::lemma_small_mod(v as nat, pow2(n));
}

/// What an encoder produces: the bits it writes, and the failure (if any) that stops it
/// once those bits are written.
pub type Emission = (Seq<bool>, Option<ExiError>);

/// `a`, then `b` unless `a` failed.
pub open spec fn then(a: Emission, b: Emission) -> Emission {
    if a.1 is Some {
        a
    } else {
        (a.0 + b.0, b.1)
    }
}

pub open spec fn emit(w: Seq<bool>) -> Emission {
    (w, None)
}

pub open spec fn fail(e: ExiError) -> Emission {
    (Seq::empty(), Some(e))
}

/// The steps from `k` on, one after the other, stopping at the first that fails.
pub open spec fn emit_from(steps: Seq<Emission>, k: int) -> Emission
    decreases steps.len() - k,
{
    if k < 0 || k >= steps.len() {
        emit(Seq::empty())
    } else {
        then(steps[k], emit_from(steps, k + 1))
    }
}

/// The bits of the steps from `k` on, one after the other.
pub open spec fn bits_from(steps: Seq<Emission>, k: int) -> Seq<bool>
    decreases steps.len() - k,
{
    if k < 0 || k >= steps.len() {
        Seq::empty()
    } else {
        steps[k].0 + bits_from(steps, k + 1)
    }
}

/// No step fails.
pub open spec fn steps_succeed(steps: Seq<Emission>) -> bool {
    forall|k: int| 0 <= k < steps.len() ==> (#[trigger] steps[k]).1 is None
}

pub proof fn lemma_emit_from_succeeds(steps: Seq<Emission>, k: int)
    requires
        steps_succeed(steps),
        0 <= k,
    ensures
        emit_from(steps, k) == (bits_from(steps, k), None::<ExiError>),
    decreases steps.len() - k,
{
    if k < steps.len() {
        lemma_emit_from_succeeds(steps, k + 1);
    }
}

/// The bits of step `k` stand first among those of the steps from `k` on.
pub proof fn lemma_peel(bs: Seq<bool>, q: int, steps: Seq<Emission>, k: int)
    requires
        0 <= k < steps.len(),
        bits_at(bs, q, bits_from(steps, k)),
    ensures
        bits_at(bs, q, steps[k].0),
        bits_at(bs, q + steps[k].0.len(), bits_from(steps, k + 1)),
{
    lemma_bits_at_split(bs, q, steps[k].0, bits_from(steps, k + 1));
}

/// The bits of step `k`, then those of the steps after it, are the bits from `k` on.
pub proof fn lemma_glue(bs: Seq<bool>, q: int, steps: Seq<Emission>, k: int)
    requires
        0 <= k < steps.len(),
        bits_at(bs, q, steps[k].0),
        bits_at(bs, q + steps[k].0.len(), bits_from(steps, k + 1)),
    ensures
        bits_at(bs, q, bits_from(steps, k)),
{
    lemma_bits_at_join(bs, q, steps[k].0, bits_from(steps, k + 1));
}

impl ExiBitstream {
    pub open spec fn wf(&self) -> bool {
        &&& self.bit_count <= 8
        &&& self.data_size <= self.data@.len()
        &&& self.byte_pos <= self.data_size
        &&& self.bit_count > 0 ==> self.byte_pos < self.data_size
        &&& self.reset_to_offset ==> self.data_offset <= self.byte_pos
    }

    /// The cursor as a bit position.
    pub open spec fn pos(&self) -> int {
        8 * self.byte_pos + self.bit_count
    }

    /// The number of usable bits.
    pub open spec fn limit(&self) -> int {
        8 * self.data_size
    }

    /// The usable bits of the buffer.
    pub open spec fn bits(&self) -> Seq<bool> {
        bits_of(self.data@, self.data_size as nat)
    }

    /// The bit position that `reset` returns to.
    pub open spec fn origin(&self) -> int {
        if self.reset_to_offset {
            8 * self.data_offset
        } else {
            0
        }
    }

    /// Everything but the contents and the cursor is the same.
    pub open spec fn same_frame(&self, other: &Self) -> bool {
        &&& self.data@.len() == other.data@.len()
        &&& self.data_size == other.data_size
        &&& self.reset_to_offset == other.reset_to_offset
        &&& self.data_offset == other.data_offset
    }

    /// `new` is the stream after an encoder that produced `out` ran on `old`: it overflows
    /// exactly when the bits do not fit; otherwise they stand at the cursor, the cursor moved
    /// past them, and the result is the encoder's own failure or success.
    pub open spec fn emitted(old: Self, new: Self, r: Result<(), ExiError>, out: Emission) -> bool {
        &&& new.wf()
        &&& new.same_frame(&old)
        &&& if old.pos() + out.0.len() > old.limit() {
            r == Err::<(), ExiError>(ExiError::BitstreamOverflow)
        } else {
            &&& new.data@ == put_bits(old.data@, old.pos(), out.0)
            &&& new.pos() == old.pos() + out.0.len()
            &&& r == match out.1 {
                Some(e) => Err::<(), ExiError>(e),
                None => Ok(()),
            }
        }
    }

    /// `new` is the stream after a reader on `old` that returned `r` where the decoding of
    /// the bits at the cursor gives `dec`: reading never changes the buffer.
    pub open spec fn decoded<T>(old: Self, new: Self, r: Result<T, ExiError>, dec: Result<(T, int), ExiError>) -> bool {
        &&& new.wf()
        &&& new.same_frame(&old)
        &&& new.data@ == old.data@
        &&& match dec {
            Ok((v, q)) => r == Ok::<T, ExiError>(v) && new.pos() == q,
            Err(e) => r == Err::<T, ExiError>(e),
        }
    }

    /// Starting a run of steps: nothing is written yet.
    pub proof fn lemma_emitted_start(s0: Self, steps: Seq<Emission>)
        requires
            s0.wf(),
        ensures
            Self::emitted(s0, s0, Ok(()), emit(Seq::empty())),
            then(emit(Seq::empty()), emit_from(steps, 0)) == emit_from(steps, 0),
    {
        let f = emit_from(steps, 0);
        assert(Seq::<bool>::empty() + f.0 =~= f.0);
        assert(then(emit(Seq::empty()), f) =~= f);
    }

    /// One more step of a run: when it succeeds the bits so far grow by its bits; when it
    /// fails the whole run has failed the same way.
    pub proof fn lemma_emitted_step(
        s0: Self,
        cur: Self,
        next: Self,
        acc: Seq<bool>,
        steps: Seq<Emission>,
        k: int,
        r: Result<(), ExiError>,
    )
        requires
            s0.wf(),
            0 <= k < steps.len(),
            Self::emitted(s0, cur, Ok(()), emit(acc)),
            Self::emitted(cur, next, r, steps[k]),
        ensures
            r is Ok ==> steps[k].1 is None && Self::emitted(s0, next, Ok(()), emit(acc + steps[k].0))
                && then(emit(acc), emit_from(steps, k)) == then(
                emit(acc + steps[k].0),
                emit_from(steps, k + 1),
            ),
            r is Err ==> Self::emitted(s0, next, r, then(emit(acc), emit_from(steps, k))),
    {
        let st = steps[k];
        let rest = emit_from(steps, k + 1);
        if s0.pos() + acc.len() + st.0.len() <= s0.limit() {
            lemma_put_bits_append(s0.data@, s0.pos(), acc, st.0);
        }
        if st.1 is None {
            assert(acc + (st.0 + rest.0) =~= (acc + st.0) + rest.0);
        }
    }

    /// Ending a run: all steps succeeded.
    pub proof fn lemma_emitted_end(s0: Self, cur: Self, acc: Seq<bool>, steps: Seq<Emission>)
        requires
            Self::emitted(s0, cur, Ok(()), emit(acc)),
        ensures
            Self::emitted(s0, cur, Ok(()), then(emit(acc), emit_from(steps, steps.len() as int))),
    {
        assert(acc + Seq::<bool>::empty() =~= acc);
    }

    /// A stream over the first `data_size` bytes of `data` whose cursor and origin are at
    /// byte `data_offset`.
    pub fn new(data: Vec<u8>, data_size: usize, data_offset: usize) -> (r: Self)
        requires
            data_offset <= data_size <= data@.len(),
        ensures
            r.wf(),
            r.data@ == data@,
            r.data_size == data_size,
            r.bit_count == 0,
            r.byte_pos == data_offset,
            r.reset_to_offset,
            r.data_offset == data_offset,
            r.pos() == r.origin(),
    {
        Self { data, data_size, bit_count: 0, byte_pos: data_offset, reset_to_offset: true, data_offset }
    }

    /// Returns the cursor to the origin.
    pub fn reset(&mut self)
        requires
            old(self).wf(),
        ensures
            final(self).wf(),
            final(self).same_frame(old(self)),
            final(self).data@ == old(self).data@,
            final(self).bit_count == 0,
            final(self).pos() == old(self).origin(),
    {
        if self.reset_to_offset {
            self.byte_pos = self.data_offset;
        } else {
            self.byte_pos = 0;
        }
        self.bit_count = 0;
    }

    /// Bytes used since the origin, a partly used byte counting as one.
    pub fn get_length(&self) -> (r: usize)
        requires
            self.wf(),
        ensures
            r == (self.pos() - self.origin() + 7) / 8,
    {
        let mut length: usize = self.byte_pos;
        if self.reset_to_offset && self.data_offset > 0 {
            length -= self.data_offset;
        }
        if self.bit_count > 0 {
            length += 1;
        }
        proof {
            let o = if self.reset_to_offset { self.data_offset as int } else { 0 };
            let k = self.bit_count as int;
            let b = self.byte_pos - o;
            assert(self.pos() - self.origin() + 7 == 8 * b + (k + 7));
            if k == 0 {
                lemma_byte_pos_split(b, 7);
            } else if k == 8 {
                lemma_byte_pos_split(b + 1, 7);
            } else {
                lemma_byte_pos_split(b + 1, k - 1);
            }
        }
        length
    }

    /// Moves past a full byte before the next access.
    pub fn has_overflow(&mut self) -> (r: Result<(), ExiError>)
        ensures
            final(self).data == old(self).data,
            final(self).same_frame(old(self)),
            old(self).bit_count == EXI_BITSTREAM_MAX_BIT_COUNT && old(self).byte_pos
                < old(self).data_size ==> r is Ok && final(self).byte_pos == old(self).byte_pos + 1
                && final(self).bit_count == 0,
            old(self).bit_count == EXI_BITSTREAM_MAX_BIT_COUNT && old(self).byte_pos
                >= old(self).data_size ==> r == Err::<(), ExiError>(ExiError::BitstreamOverflow)
                && *final(self) == *old(self),
            old(self).bit_count != EXI_BITSTREAM_MAX_BIT_COUNT ==> r is Ok && *final(self) == *old(
                self,
            ),
    {
        if self.bit_count == EXI_BITSTREAM_MAX_BIT_COUNT {
            if self.byte_pos < self.data_size {
                self.byte_pos += 1;
                self.bit_count = 0;
            } else {
                return Err(ExiError::BitstreamOverflow);
            }
        }
        Ok(())
    }

    /// Writes one bit at the cursor; a byte is cleared when its first bit is written.
    pub fn write_bit(&mut self, bit: bool) -> (r: Result<(), ExiError>)
        requires
            old(self).wf(),
        ensures
            final(self).wf(),
            final(self).same_frame(old(self)),
            old(self).pos() < old(self).limit() ==> r is Ok && final(self).pos() == old(self).pos()
                + 1 && final(self).data@ == put_bit(old(self).data@, old(self).pos(), bit),
            old(self).pos() >= old(self).limit() ==> r == Err::<(), ExiError>(
                ExiError::BitstreamOverflow,
            ) && final(self).pos() == old(self).pos() && final(self).data@ == old(self).data@,
    {
        self.has_overflow()?;
        if self.byte_pos < self.data_size {
            let shift: u8 = EXI_BITSTREAM_MAX_BIT_COUNT - (self.bit_count + 1);
            let mut byte: u8 = if self.bit_count == 0 {
                0
            } else {
                self.data[self.byte_pos]
            };
            if bit {
                byte = byte | (1u8 << shift);
            }
            self.data.set(self.byte_pos, byte);
            proof {
                lemma_byte_pos_split(self.byte_pos as int, self.bit_count as int);
            }
            self.bit_count += 1;
            Ok(())
        } else {
            Err(ExiError::BitstreamOverflow)
        }
    }

    /// Reads the bit at the cursor.
    pub fn read_bit(&mut self) -> (r: Result<bool, ExiError>)
        requires
            old(self).wf(),
        ensures
            final(self).wf(),
            final(self).same_frame(old(self)),
            final(self).data@ == old(self).data@,
            old(self).pos() < old(self).limit() ==> r == Ok::<bool, ExiError>(
                stream_bit(old(self).data@, old(self).pos()),
            ) && final(self).pos() == old(self).pos() + 1,
            old(self).pos() >= old(self).limit() ==> r == Err::<bool, ExiError>(
                ExiError::BitstreamOverflow,
            ) && final(self).pos() == old(self).pos(),
    {
        self.has_overflow()?;
        if self.byte_pos < self.data_size {
            let shift: u8 = EXI_BITSTREAM_MAX_BIT_COUNT - (self.bit_count + 1);
            let current_bit = (self.data[self.byte_pos] >> shift) & 1u8;
            proof {
                lemma_byte_pos_split(self.byte_pos as int, self.bit_count as int);
            }
            self.bit_count += 1;
            Ok(current_bit == 1)
        } else {
            Err(ExiError::BitstreamOverflow)
        }
    }

    /// Writes the `bit_count` lowest bits of `value`, most significant first.
    pub fn write_bits(&mut self, bit_count: usize, value: u32) -> (r: Result<(), ExiError>)
        requires
            old(self).wf(),
        ensures
            bit_count > 32 ==> r == Err::<(), ExiError>(ExiError::BitCountLargerThanTypeSize)
                && *final(self) == *old(self),
            bit_count <= 32 ==> Self::emitted(
                *old(self),
                *final(self),
                r,
                emit(u32_bits(value, bit_count as nat)),
            ),
    {
        if bit_count > 32 {
            return Err(ExiError::BitCountLargerThanTypeSize);
        }
        let ghost w = u32_bits(value, bit_count as nat);
        let ghost d0 = self.data@;
        let ghost p0 = self.pos();
        let mut n: usize = 0;
        while n < bit_count
            invariant
                self.wf(),
                self.same_frame(old(self)),
                n <= bit_count <= 32,
                p0 == old(self).pos(),
                d0 == old(self).data@,
                w == u32_bits(value, bit_count as nat),
                self.pos() == p0 + n,
                self.data@ == put_bits(d0, p0, w.take(n as int)),
            decreases bit_count - n,
        {
            let bit = (value >> ((bit_count - 1 - n) as u32)) & 1u32 == 1u32;
            proof {
                assert(w.take(n + 1).drop_last() =~= w.take(n as int));
            }
            self.write_bit(bit)?;
            n += 1;
        }
        proof {
            assert(w.take(n as int) =~= w);
        }
        Ok(())
    }

    /// Writes a whole byte.
    pub fn write_octet(&mut self, value: u8) -> (r: Result<(), ExiError>)
        requires
            old(self).wf(),
        ensures
            Self::emitted(*old(self), *final(self), r, emit(u32_bits(value as u32, 8))),
    {
        self.write_bits(8, value as u32)
    }

    /// Reads `bit_count` bits as an unsigned integer, most significant first.
    pub fn read_bits(&mut self, bit_count: usize) -> (r: Result<u32, ExiError>)
        requires
            old(self).wf(),
        ensures
            Self::decoded(
                *old(self),
                *final(self),
                r,
                match read_field(old(self).bits(), old(self).pos(), bit_count as nat) {
                    Ok((v, q)) => Ok((v as u32, q)),
                    Err(e) => Err(e),
                },
            ),
    {
        let ghost bs = self.bits();
        let ghost p0 = self.pos();
        let mut value: u32 = 0;
        if bit_count > 32 {
            return Err(ExiError::BitCountLargerThanTypeSize);
        }
        proof {
            lemma2_to64();
        }
        let mut n: usize = 0;
        while n < bit_count
            invariant
                self.wf(),
                self.same_frame(old(self)),
                self.data@ == old(self).data@,
                n <= bit_count <= 32,
                p0 == old(self).pos(),
                bs == old(self).bits(),
                self.pos() == p0 + n,
                p0 + n <= self.limit(),
                value as nat == bits_value(bs.subrange(p0, p0 + n)),
                (value as nat) < pow2(n as nat),
            decreases bit_count - n,
        {
            let bit = self.read_bit()?;
            proof {
                lemma_div_mod8(p0 + n);
                let s = bs.subrange(p0, p0 + n + 1);
                assert(s.drop_last() =~= bs.subrange(p0, p0 + n));
                assert(s.last() == bit);
                lemma_pow2_unfold((n + 1) as nat);
                lemma_pow2_strictly_increases(n as nat, 32);
                lemma2_to64();
            }
            let b: u32 = if bit {
                1
            } else {
                0
            };
            assert((value << 1) | b == 2 * value + b) by (bit_vector)
                requires
                    value < 0x8000_0000u32,
                    b <= 1,
            ;
            value = (value << 1) | b;
            n += 1;
        }
        proof {
            lemma2_to64();
            if n < 32 {
                lemma_pow2_strictly_increases(n as nat, 32);
            }
        }
        Ok(value)
    }

    /// Reads a whole byte.
    pub fn read_octet(&mut self) -> (r: Result<u8, ExiError>)
        requires
            old(self).wf(),
        ensures
            Self::decoded(
                *old(self),
                *final(self),
                r,
                match read_field(old(self).bits(), old(self).pos(), 8) {
                    Ok((v, q)) => Ok((v as u8, q)),
                    Err(e) => Err(e),
                },
            ),
    {
        let value = self.read_bits(8)?;
        proof {
            let s = old(self).bits().subrange(old(self).pos(), old(self).pos() + 8);
            lemma_bits_value_bound(s);
            lemma2_to64();
        }
        Ok(value as u8)
    }
}

/// The bits that writes of `(width, value)` pairs put down, one after the other.
pub open spec fn writes_bits(ws: Seq<(nat, u32)>) -> Seq<bool>
    decreases ws.len(),
{
    if ws.len() == 0 {
        Seq::empty()
    } else {
        writes_bits(ws.drop_last()) + u32_bits(ws.last().1, ws.last().0)
    }
}

/// The sum of the widths of the writes.
pub open spec fn widths_sum(ws: Seq<(nat, u32)>) -> nat
    decreases ws.len(),
{
    if ws.len() == 0 {
        0
    } else {
        widths_sum(ws.drop_last()) + ws.last().0
    }
}

pub proof fn lemma_writes_bits_len(ws: Seq<(nat, u32)>)
    ensures
        writes_bits(ws).len() == widths_sum(ws),
    decreases ws.len(),
{
    if ws.len() > 0 {
        lemma_writes_bits_len(ws.drop_last());
    }
}

proof fn lemma_writes_bits_prefix(ws: Seq<(nat, u32)>, j: int)
    requires
        0 <= j <= ws.len(),
    ensures
        writes_bits(ws) == writes_bits(ws.take(j)) + writes_bits(ws.skip(j)),
    decreases ws.len(),
{
    if j == ws.len() {
        assert(ws.take(j) =~= ws);
        assert(ws.skip(j).len() == 0);
        assert(writes_bits(ws) + Seq::<bool>::empty() =~= writes_bits(ws));
    } else {
        lemma_writes_bits_prefix(ws.drop_last(), j);
        assert(ws.drop_last().take(j) =~= ws.take(j));
        assert(ws.skip(j).drop_last() =~= ws.drop_last().skip(j));
        assert(ws.skip(j).last() == ws.last());
        assert(writes_bits(ws) =~= writes_bits(ws.take(j)) + writes_bits(ws.skip(j)));
    }
}

/// Reads after writes return what was written: bits written by `write_bits` calls of
/// `(width, value)` pairs from a clean position `p` (such as the origin a stream is reset to),
/// each value fitting its width, are read back by `read_bits` calls of the same widths from
/// `p`, each call returning its value and moving on by its width.
pub proof fn lemma_reads_after_writes(data: Seq<u8>, size: nat, p: int, ws: Seq<(nat, u32)>)
    requires
        0 <= p,
        clean_from(data, p),
        size <= data.len(),
        p + widths_sum(ws) <= 8 * size,
        forall|i: int| 0 <= i < ws.len() ==> (#[trigger] ws[i]).0 <= 32 && (ws[i].1 as nat) < pow2(ws[i].0),
    ensures
        forall|i: int|
            0 <= i < ws.len() ==> #[trigger] read_field(
                bits_of(put_bits(data, p, writes_bits(ws)), size),
                p + widths_sum(ws.take(i)),
                ws[i].0,
            ) == Ok::<(nat, int), ExiError>((ws[i].1 as nat, p + widths_sum(ws.take(i)) + ws[i].0)),
{
    let w = writes_bits(ws);
    lemma_writes_bits_len(ws);
    if w.len() > 0 {
        lemma_div_mod8(p + w.len() - 1);
    }
    crate::bits::lemma_put_bits(data, p, w);
    let nd = put_bits(data, p, w);
    let bs = bits_of(nd, size);
    assert(bs.subrange(p, p + w.len()) =~= w) by {
        assert forall|i: int| 0 <= i < w.len() implies #[trigger] bs.subrange(p, p + w.len())[i] == w[i] by {
            assert(bs[p + i] == stream_bit(nd, p + i));
        }
    }
    assert forall|i: int| 0 <= i < ws.len() implies #[trigger] read_field(
        bs,
        p + widths_sum(ws.take(i)),
        ws[i].0,
    ) == Ok::<(nat, int), ExiError>((ws[i].1 as nat, p + widths_sum(ws.take(i)) + ws[i].0)) by {
        lemma_writes_bits_prefix(ws, i + 1);
        assert(ws.take(i + 1).drop_last() =~= ws.take(i));
        assert(ws.take(i + 1).last() == ws[i]);
        lemma_writes_bits_len(ws.take(i));
        let a = writes_bits(ws.take(i));
        let b = u32_bits(ws[i].1, ws[i].0);
        let c = writes_bits(ws.skip(i + 1));
        assert(w == (a + b) + c);
        lemma_bits_at_split(bs, p, a + b, c);
        lemma_bits_at_split(bs, p, a, b);
        lemma_read_at(bs, p + a.len(), ws[i].1, ws[i].0);
    }
}

/// The length of what was written counts its bits: after writes of `(width, value)` pairs
/// on a stream whose cursor stood at its origin, `get_length` is the sum of the widths over
/// 8, rounded up.
pub proof fn lemma_length_counts_written_bits(s0: ExiBitstream, s1: ExiBitstream, ws: Seq<(nat, u32)>)
    requires
        s0.wf(),
        s0.pos() == s0.origin(),
        ExiBitstream::emitted(s0, s1, Ok(()), emit(writes_bits(ws))),
    ensures
        (s1.pos() - s1.origin() + 7) / 8 == (widths_sum(ws) + 7) / 8,
{
    lemma_writes_bits_len(ws);
}

} // verus!
