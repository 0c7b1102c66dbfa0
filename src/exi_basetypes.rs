//! EXI unsigned integers: little-endian septets, the high bit of each octet flagging that
//! another one follows.
use crate::exi_error_codes::ExiError;
use vstd::arithmetic::power2::{lemma2_to64, lemma_pow2_adds, lemma_pow2_strictly_increases, pow2};
use vstd::prelude::*;

verus! {

pub const EXI_BASETYPES_MAX_OCTETS_SUPPORTED: usize = 10;

pub const EXI_BASETYPES_OCTET_SEQ_FLAG_MASK: u32 = 0x80;

pub const EXI_BASETYPES_OCTET_SEQ_VALUE_MASK: u32 = 0x7F;

pub const EXI_BASETYPES_UINT8_MAX_OCTETS: usize = 2;

pub const EXI_BASETYPES_UINT16_MAX_OCTETS: usize = 3;

pub const EXI_BASETYPES_UINT32_MAX_OCTETS: usize = 5;

pub const EXI_BASETYPES_UINT64_MAX_OCTETS: usize = 10;

/// The canonical octets of `v`: seven bits each, least significant first, every octet but the
/// last with its high bit set.
pub open spec fn septets_of(v: nat) -> Seq<u8>
    decreases v,
{
    if v < 128 {
        seq![v as u8]
    } else {
        seq![(v % 128 + 128) as u8] + septets_of(v / 128)
    }
}

/// The value that octets carry, seven bits each, least significant first.
pub open spec fn septets_value(o: Seq<u8>) -> nat
    decreases o.len(),
{
    if o.len() == 0 {
        0
    } else {
        (o[0] as nat % 128) + 128 * septets_value(o.drop_first())
    }
}

/// A fixed buffer of up to ten septet octets.
#[derive(Debug, PartialEq)]
pub struct ExiUnsigned {
    pub octets: [u8; EXI_BASETYPES_MAX_OCTETS_SUPPORTED],
    pub octets_count: usize,
}

pub proof fn lemma_septets_value_bound(o: Seq<u8>)
    ensures
        septets_value(o) < pow2(7 * o.len()),
    decreases o.len(),
{
    if o.len() == 0 {
        lemma2_to64();
    } else {
        lemma_septets_value_bound(o.drop_first());
        lemma_pow2_adds(7, 7 * (o.len() - 1) as nat);
        lemma2_to64();
        assert(7 * (o.len() - 1) as nat + 7 == 7 * o.len());
    }
}

/// The canonical octets of `v` carry `v`, and there are as many as it takes seven-bit digits
/// to write `v` (one for zero).
pub proof fn lemma_septets_of(v: nat)
    ensures
        septets_value(septets_of(v)) == v,
        septets_of(v).len() >= 1,
        v < pow2(7 * septets_of(v).len()),
        septets_of(v).len() == 1 || v >= pow2((7 * (septets_of(v).len() - 1)) as nat),
        forall|i: int| 0 <= i < septets_of(v).len() - 1 ==> #[trigger] septets_of(v)[i] >= 128,
        septets_of(v).last() < 128,
    decreases v,
{
    lemma2_to64();
    if v < 128 {
        assert(septets_of(v).drop_first().len() == 0);
        assert(septets_value(septets_of(v).drop_first()) == 0);
    } else {
        let o = septets_of(v);
        lemma_septets_of(v / 128);
        assert(o.drop_first() =~= septets_of(v / 128));
        assert(o[0] as nat % 128 == v % 128);
        vstd::arithmetic::div_mod::lemma_fundamental_div_mod(v as int, 128);
        let k = septets_of(v / 128).len();
        lemma_pow2_adds(7, 7 * k);
        assert(7 * k + 7 == 7 * o.len());
        if k > 1 {
            lemma_pow2_adds(7, (7 * (k - 1)) as nat);
            assert((7 * (k - 1)) as nat + 7 == 7 * (o.len() - 1));
        } else {
            assert(7 * (o.len() - 1) == 7);
        }
    }
}

/// A value below `2^(7k)` takes at most `k` octets.
pub proof fn lemma_septets_len_bound(v: nat, k: nat)
    requires
        k >= 1,
        v < pow2(7 * k),
    ensures
        septets_of(v).len() <= k,
{
    lemma_septets_of(v);
    let n = septets_of(v).len();
    if n > k {
        lemma_pow2_strictly_increases(7 * k, (7 * (n - 1)) as nat);
        if 7 * k == (7 * (n - 1)) as nat {
        }
        assert(pow2(7 * k) <= pow2((7 * (n - 1)) as nat)) by {
            if 7 * k < (7 * (n - 1)) as nat {
                lemma_pow2_strictly_increases(7 * k, (7 * (n - 1)) as nat);
            }
        }
    }
}

/// Octets flagged as in `septets_of`, each below 256, with no superfluous trailing zero
/// digit, are the canonical octets of their value.
pub proof fn lemma_septets_canonical(o: Seq<u8>)
    requires
        o.len() >= 1,
        forall|i: int| 0 <= i < o.len() - 1 ==> #[trigger] o[i] >= 128,
        o.last() < 128,
        o.len() == 1 || o.last() != 0,
    ensures
        septets_of(septets_value(o)) == o,
    decreases o.len(),
{
    if o.len() == 1 {
        assert(o.drop_first().len() == 0);
        assert(septets_of(septets_value(o)) =~= o);
    } else {
        let t = o.drop_first();
        assert forall|i: int| 0 <= i < t.len() - 1 implies #[trigger] t[i] >= 128 by {
            assert(t[i] == o[i + 1]);
        }
        lemma_septets_canonical(t);
        let tv = septets_value(t);
        if t.len() == 1 {
            assert(tv == t[0] as nat % 128);
        } else {
            lemma_septets_value_nonzero(t);
        }
        let v = septets_value(o);
        assert(v / 128 == tv && v % 128 == o[0] as nat % 128) by {
            vstd::arithmetic::div_mod::lemma_fundamental_div_mod_converse(
                v as int,
                128,
                tv as int,
                (o[0] as nat % 128) as int,
            );
        }
        assert(o[0] == (o[0] as nat % 128 + 128) as u8);
        assert(septets_of(v) =~= o);
    }
}

proof fn lemma_septets_value_nonzero(o: Seq<u8>)
    requires
        o.len() >= 1,
        o.last() != 0,
        o.last() < 128,
    ensures
        septets_value(o) > 0,
    decreases o.len(),
{
    if o.len() > 1 {
        lemma_septets_value_nonzero(o.drop_first());
    }
}

impl ExiUnsigned {
    pub open spec fn wf(&self) -> bool {
        self.octets_count <= EXI_BASETYPES_MAX_OCTETS_SUPPORTED
    }

    /// The octets in use.
    pub open spec fn septets(&self) -> Seq<u8> {
        self.octets@.subrange(0, self.octets_count as int)
    }

    pub fn new(octets: [u8; EXI_BASETYPES_MAX_OCTETS_SUPPORTED], octets_count: usize) -> (r: Self)
        ensures
            r.octets == octets,
            r.octets_count == octets_count,
    {
        Self { octets, octets_count }
    }

    pub fn octets(&self) -> (r: &[u8])
        ensures
            r@ == self.octets@,
    {
        self.octets.as_slice()
    }

    pub fn octets_count(&self) -> (r: &usize)
        ensures
            *r == self.octets_count,
    {
        &self.octets_count
    }

    /// Fills the buffer with the canonical octets of `value`.
    fn fill_septets(&mut self, value: u64)
        ensures
            final(self).wf(),
            final(self).septets() == septets_of(value as nat),
            final(self).octets@.subrange(
                final(self).octets_count as int,
                EXI_BASETYPES_MAX_OCTETS_SUPPORTED as int,
            ) == old(self).octets@.subrange(
                final(self).octets_count as int,
                EXI_BASETYPES_MAX_OCTETS_SUPPORTED as int,
            ),
    {
        proof {
            lemma2_to64();
            lemma_pow2_strictly_increases(64, 70);
            lemma_septets_len_bound(value as nat, 10);
        }
        self.octets_count = 0;
        let mut dummy: u64 = value;
        loop
            invariant_except_break
                self.octets_count + septets_of(dummy as nat).len() == septets_of(value as nat).len(),
                septets_of(value as nat).len() <= EXI_BASETYPES_MAX_OCTETS_SUPPORTED,
                self.septets() + septets_of(dummy as nat) == septets_of(value as nat),
            invariant
                self.octets_count <= EXI_BASETYPES_MAX_OCTETS_SUPPORTED,
                forall|i: int|
                    self.octets_count <= i < 10 ==> #[trigger] self.octets@[i] == old(
                        self,
                    ).octets@[i],
            ensures
                self.septets() == septets_of(value as nat),
            decreases dummy,
        {
            let n = self.octets_count;
            proof {
                lemma_septets_of(dummy as nat);
            }
            let masked: u64 = dummy & (EXI_BASETYPES_OCTET_SEQ_VALUE_MASK as u64);
            let rest: u64 = dummy >> 7;
            assert(masked == dummy % 128 && rest == dummy / 128) by (bit_vector)
                requires
                    masked == dummy & 0x7Fu64,
                    rest == dummy >> 7,
            ;
            let low: u8 = masked as u8;
            let ghost before = self.septets();
            if rest == 0 {
                self.octets[n] = low;
                self.octets_count = n + 1;
                proof {
                    assert(septets_of(dummy as nat) == seq![low]);
                    assert(self.septets() =~= before + seq![low]);
                }
                break ;
            }
            let flagged: u8 = low | (EXI_BASETYPES_OCTET_SEQ_FLAG_MASK as u8);
            assert(flagged == low + 128) by (bit_vector)
                requires
                    low < 128,
                    flagged == low | 0x80u8,
            ;
            self.octets[n] = flagged;
            self.octets_count = n + 1;
            proof {
                assert(septets_of(dummy as nat) == seq![flagged] + septets_of(rest as nat));
                assert(self.septets() =~= before + seq![flagged]);
                assert(self.septets() + septets_of(rest as nat) =~= before + septets_of(
                    dummy as nat,
                ));
            }
            dummy = rest;
        }
        assert(self.octets@.subrange(self.octets_count as int, 10) =~= old(self).octets@.subrange(
            self.octets_count as int,
            10,
        ));
    }

    /// Encodes `value`; fails when that takes more than `max_octets` octets.
    pub fn convert32_to(&mut self, value: u32, max_octets: usize) -> (r: Result<(), ExiError>)
        ensures
            final(self).wf(),
            final(self).septets() == septets_of(value as nat),
            final(self).octets@.subrange(
                final(self).octets_count as int,
                EXI_BASETYPES_MAX_OCTETS_SUPPORTED as int,
            ) == old(self).octets@.subrange(
                final(self).octets_count as int,
                EXI_BASETYPES_MAX_OCTETS_SUPPORTED as int,
            ),
            r == if septets_of(value as nat).len() <= max_octets {
                Ok::<(), ExiError>(())
            } else {
                Err(ExiError::OctetCountLargerThanTypeSupports)
            },
    {
        self.fill_septets(value as u64);
        if self.octets_count <= max_octets {
            Ok(())
        } else {
            Err(ExiError::OctetCountLargerThanTypeSupports)
        }
    }

    /// Encodes `value`; a 64-bit value always fits in ten octets.
    pub fn convert64_to(&mut self, value: u64) -> (r: Result<(), ExiError>)
        ensures
            final(self).wf(),
            final(self).septets() == septets_of(value as nat),
            final(self).octets@.subrange(
                final(self).octets_count as int,
                EXI_BASETYPES_MAX_OCTETS_SUPPORTED as int,
            ) == old(self).octets@.subrange(
                final(self).octets_count as int,
                EXI_BASETYPES_MAX_OCTETS_SUPPORTED as int,
            ),
            r is Ok,
    {
        self.fill_septets(value);
        if self.octets_count <= EXI_BASETYPES_UINT64_MAX_OCTETS {
            Ok(())
        } else {
            Err(ExiError::OctetCountLargerThanTypeSupports)
        }
    }

    /// The value of the octets, modulo `2^32`; fails when there are more than `max_octets`.
    pub fn convert32_from(&self, max_octets: usize) -> (r: Result<u32, ExiError>)
        requires
            self.wf(),
        ensures
            r == if self.octets_count <= max_octets {
                Ok::<u32, ExiError>((septets_value(self.septets()) % 0x1_0000_0000) as u32)
            } else {
                Err(ExiError::OctetCountLargerThanTypeSupports)
            },
    {
        if self.octets_count > max_octets {
            return Err(ExiError::OctetCountLargerThanTypeSupports);
        }
        let value = self.septets_sum();
        Ok((value % 0x1_0000_0000) as u32)
    }

    /// The value of the octets, modulo `2^64`.
    pub fn convert64_from(&self) -> (r: Result<u64, ExiError>)
        requires
            self.wf(),
        ensures
            r == Ok::<u64, ExiError>((septets_value(self.septets()) % 0x1_0000_0000_0000_0000) as u64),
    {
        if self.octets_count > EXI_BASETYPES_UINT64_MAX_OCTETS {
            return Err(ExiError::OctetCountLargerThanTypeSupports);
        }
        let value = self.septets_sum();
        Ok((value % 0x1_0000_0000_0000_0000) as u64)
    }

    /// The exact value of the octets in use.
    fn septets_sum(&self) -> (r: u128)
        requires
            self.wf(),
        ensures
            r == septets_value(self.septets()),
    {
        let count = self.octets_count;
        let mut value: u128 = 0;
        let mut n: usize = count;
        proof {
            lemma2_to64();
        }
        while n > 0
            invariant
                n <= count <= EXI_BASETYPES_MAX_OCTETS_SUPPORTED,
                count == self.octets_count,
                value == septets_value(self.octets@.subrange(n as int, count as int)),
            decreases n,
        {
            n -= 1;
            let ghost s = self.octets@.subrange(n as int, count as int);
            proof {
                assert(s.drop_first() =~= self.octets@.subrange(n + 1, count as int));
                lemma_septets_value_bound(s.drop_first());
                lemma2_to64();
                let e: nat = 7 * s.drop_first().len();
                assert(e <= 63);
                lemma_pow2_strictly_increases(e, 64);
            }
            let digit: u128 = (self.octets[n] as u128) % 128;
            value = value * 128 + digit;
        }
        proof {
            assert(self.septets() =~= self.octets@.subrange(0, count as int));
        }
        value
    }
}

/// The octet limit of an unsigned integer of `w` bits.
pub open spec fn max_octets_of_width(w: nat) -> nat {
    if w == 8 {
        EXI_BASETYPES_UINT8_MAX_OCTETS as nat
    } else if w == 16 {
        EXI_BASETYPES_UINT16_MAX_OCTETS as nat
    } else if w == 32 {
        EXI_BASETYPES_UINT32_MAX_OCTETS as nat
    } else {
        EXI_BASETYPES_UINT64_MAX_OCTETS as nat
    }
}

/// An unsigned integer that fits in `w` bits (8, 16, 32 or 64) survives encoding and
/// decoding: `convert32_to`/`convert64_to` write `septets_of(v)`, which stays within the
/// width's octet limit, and `convert32_from`/`convert64_from` read back `v`. The encoding
/// takes the fewest seven-bit digits: one for any `v` below 128 (zero included), otherwise
/// `k` with `2^(7(k-1)) <= v < 2^(7k)`, that is `ceil(bits(v) / 7)`.
pub proof fn lemma_unsigned_round_trip(v: nat, w: nat)
    requires
        w == 8 || w == 16 || w == 32 || w == 64,
        v < pow2(w),
    ensures
        septets_of(v).len() <= max_octets_of_width(w),
        septets_value(septets_of(v)) == v,
        septets_value(septets_of(v)) % pow2(w) == v,
        septets_of(v).len() >= 1,
        v < 128 ==> septets_of(v).len() == 1,
        v < pow2(7 * septets_of(v).len()),
        septets_of(v).len() == 1 || pow2((7 * (septets_of(v).len() - 1)) as nat) <= v,
{
    lemma_septets_of(v);
    lemma2_to64();
    vstd::arithmetic::div_mod::lemma_small_mod(v, pow2(w));
    let k = max_octets_of_width(w);
    lemma_pow2_strictly_increases(w, 7 * k);
    lemma_septets_len_bound(v, k);
    if v < 128 {
        assert(septets_of(v).len() == 1);
    }
}

} // verus!
