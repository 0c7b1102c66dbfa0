//! The mathematical model of a byte buffer as a sequence of bits, most significant bit first.
use vstd::arithmetic::div_mod::*;
use vstd::arithmetic::power2::*;
use vstd::prelude::*;

verus! {

/// Bit `k` of the byte `b`, counting from the most significant bit (`k == 0`).
pub open spec fn byte_bit(b: u8, k: int) -> bool {
    (b >> ((7 - k) as u8)) & 1u8 == 1u8
}

/// Bit `i` of the buffer `d`: bytes are laid out one after the other, each MSB first.
pub open spec fn stream_bit(d: Seq<u8>, i: int) -> bool {
    byte_bit(d[i / 8], i % 8)
}

/// The first `n_bytes` bytes of `d` as a bit sequence.
pub open spec fn bits_of(d: Seq<u8>, n_bytes: nat) -> Seq<bool> {
    Seq::new(8 * n_bytes, |i: int| stream_bit(d, i))
}

/// The byte `x` with bit `k` (MSB first) set when `b` holds; bits are only ever set.
pub open spec fn set_bit(x: u8, k: int, b: bool) -> u8 {
    if b {
        x | (1u8 << ((7 - k) as u8))
    } else {
        x
    }
}

/// The buffer after writing bit `b` at bit position `p`: a byte entered at its first bit is
/// cleared first.
pub open spec fn put_bit(d: Seq<u8>, p: int, b: bool) -> Seq<u8> {
    d.update(p / 8, set_bit(if p % 8 == 0 { 0u8 } else { d[p / 8] }, p % 8, b))
}

/// The buffer after writing the bits `w` one by one from bit position `p` on.
pub open spec fn put_bits(d: Seq<u8>, p: int, w: Seq<bool>) -> Seq<u8>
    decreases w.len(),
{
    if w.len() == 0 {
        d
    } else {
        put_bit(put_bits(d, p, w.drop_last()), p + w.len() - 1, w.last())
    }
}

/// The unsigned integer that the bits `s` spell out, most significant bit first.
pub open spec fn bits_value(s: Seq<bool>) -> nat
    decreases s.len(),
{
    if s.len() == 0 {
        0
    } else {
        2 * bits_value(s.drop_last()) + if s.last() {
            1nat
        } else {
            0nat
        }
    }
}

/// The `n` lowest bits of `v`, most significant first.
pub open spec fn u32_bits(v: u32, n: nat) -> Seq<bool> {
    Seq::new(n, |k: int| (v >> ((n - 1 - k) as u32)) & 1u32 == 1u32)
}

/// Writing from bit position `p` does not need to clear anything: either `p` starts a
/// byte, or the rest of its byte is still zero.
pub open spec fn clean_from(d: Seq<u8>, p: int) -> bool {
    p % 8 == 0 || forall|j: int| p <= j < p - p % 8 + 8 ==> !#[trigger] stream_bit(d, j)
}

pub proof fn lemma_div_mod8(i: int)
    requires
        0 <= i,
    ensures
        i == 8 * (i / 8) + i % 8,
        0 <= i % 8 < 8,
        0 <= i / 8,
{
    lemma_fundamental_div_mod(i, 8);
}

pub proof fn lemma_byte_pos_split(b: int, k: int)
    requires
        0 <= b,
        0 <= k < 8,
    ensures
        (8 * b + k) / 8 == b,
        (8 * b + k) % 8 == k,
{
    lemma_fundamental_div_mod_converse(8 * b + k, 8, b, k);
}

proof fn lemma_set_bit_byte(x: u8, k: u8, j: u8, b: bool)
    requires
        k < 8,
        j < 8,
    ensures
        byte_bit(set_bit(x, k as int, b), k as int) == (b || byte_bit(x, k as int)),
        j != k ==> byte_bit(set_bit(x, k as int, b), j as int) == byte_bit(x, j as int),
        !byte_bit(0u8, j as int),
{
    let sk: u8 = (7 - k) as u8;
    let sj: u8 = (7 - j) as u8;
    assert(((x | (1u8 << sk)) >> sk) & 1u8 == 1u8) by (bit_vector)
        requires
            sk < 8,
    ;
    assert(sj != sk ==> ((x | (1u8 << sk)) >> sj) & 1u8 == (x >> sj) & 1u8) by (bit_vector)
        requires
            sk < 8,
            sj < 8,
    ;
    assert((0u8 >> sj) & 1u8 == 0u8) by (bit_vector);
}

/// Writing one bit at a clean position sets that bit, keeps every earlier bit and leaves the
/// next position clean.
pub proof fn lemma_put_bit(d: Seq<u8>, p: int, b: bool)
    requires
        0 <= p,
        p / 8 < d.len(),
        clean_from(d, p),
    ensures
        put_bit(d, p, b).len() == d.len(),
        stream_bit(put_bit(d, p, b), p) == b,
        forall|i: int| 0 <= i < p ==> #[trigger] stream_bit(put_bit(d, p, b), i) == stream_bit(d, i),
        clean_from(put_bit(d, p, b), p + 1),
        forall|q: int| 0 <= q < d.len() && q != p / 8 ==> #[trigger] put_bit(d, p, b)[q] == d[q],
{
    let nd = put_bit(d, p, b);
    let x = if p % 8 == 0 { 0u8 } else { d[p / 8] };
    lemma_div_mod8(p);
    let k = p % 8;
    lemma_set_bit_byte(x, k as u8, k as u8, b);
    if k != 0 {
        assert(!stream_bit(d, p));
    }
    assert forall|i: int| 0 <= i < p implies #[trigger] stream_bit(nd, i) == stream_bit(d, i) by {
        lemma_div_mod8(i);
        if i / 8 == p / 8 {
            lemma_set_bit_byte(x, k as u8, (i % 8) as u8, b);
        }
    }
    if (p + 1) % 8 != 0 {
        assert((p + 1) / 8 == p / 8 && (p + 1) % 8 == k + 1) by {
            lemma_byte_pos_split(p / 8, k + 1);
        }
        assert forall|j: int| p + 1 <= j < (p + 1) - (p + 1) % 8 + 8 implies !#[trigger] stream_bit(
            nd,
            j,
        ) by {
            lemma_byte_pos_split(p / 8, j - 8 * (p / 8));
            lemma_set_bit_byte(x, k as u8, (j % 8) as u8, b);
            if k != 0 {
                assert(!stream_bit(d, j));
            }
        }
    }
}

/// Writing a run of bits at a clean position puts exactly those bits there, keeps every
/// earlier bit and every byte past the last one touched.
pub proof fn lemma_put_bits(d: Seq<u8>, p: int, w: Seq<bool>)
    requires
        0 <= p,
        w.len() > 0 ==> (p + w.len() - 1) / 8 < d.len(),
        clean_from(d, p),
    ensures
        put_bits(d, p, w).len() == d.len(),
        forall|i: int| 0 <= i < w.len() ==> #[trigger] stream_bit(put_bits(d, p, w), p + i) == w[i],
        forall|i: int| 0 <= i < p ==> #[trigger] stream_bit(put_bits(d, p, w), i) == stream_bit(d, i),
        clean_from(put_bits(d, p, w), p + w.len()),
    decreases w.len(),
{
    if w.len() > 0 {
        let w0 = w.drop_last();
        let q = p + w.len() - 1;
        lemma_div_mod8(p + w0.len());
        if w0.len() > 0 {
            assert((p + w0.len() - 1) / 8 <= q / 8) by {
                lemma_div_mod8(p + w0.len() - 1);
            }
        }
        lemma_put_bits(d, p, w0);
        let d0 = put_bits(d, p, w0);
        lemma_put_bit(d0, q, w.last());
        assert forall|i: int| 0 <= i < w.len() implies #[trigger] stream_bit(
            put_bits(d, p, w),
            p + i,
        ) == w[i] by {
            if i < w0.len() {
                assert(stream_bit(d0, p + i) == w0[i]);
            }
        }
    }
}

/// Writing `a` and then `b` right after it is writing `a + b`.
pub proof fn lemma_put_bits_append(d: Seq<u8>, p: int, a: Seq<bool>, b: Seq<bool>)
    ensures
        put_bits(put_bits(d, p, a), p + a.len(), b) == put_bits(d, p, a + b),
    decreases b.len(),
{
    if b.len() == 0 {
        assert(a + b =~= a);
    } else {
        lemma_put_bits_append(d, p, a, b.drop_last());
        assert((a + b).drop_last() =~= a + b.drop_last());
    }
}

pub proof fn lemma_bits_value_bound(s: Seq<bool>)
    ensures
        bits_value(s) < pow2(s.len()),
    decreases s.len(),
{
    if s.len() > 0 {
        lemma_bits_value_bound(s.drop_last());
        lemma_pow2_unfold(s.len());
    } else {
        lemma_pow2_pos(0);
        assert(pow2(0) == 1) by {
            lemma2_to64();
        }
    }
}

/// The bits of `v` spell out `v` modulo `2^n`.
pub proof fn lemma_u32_bits_value(v: u32, n: nat)
    requires
        n <= 32,
    ensures
        bits_value(u32_bits(v, n)) == (v as nat) % pow2(n),
    decreases n,
{
    if n == 0 {
        assert(pow2(0) == 1) by {
            lemma2_to64();
        }
    } else {
        let w = u32_bits(v, n);
        let h: u32 = v >> 1;
        assert(w.drop_last() =~= u32_bits(h, (n - 1) as nat)) by {
            assert forall|k: int| 0 <= k < n - 1 implies #[trigger] w.drop_last()[k] == u32_bits(
                h,
                (n - 1) as nat,
            )[k] by {
                let s: u32 = (n - 2 - k) as u32;
                assert((v >> ((s + 1) as u32)) == ((v >> 1) >> s)) by (bit_vector)
                    requires
                        s < 31,
                ;
            }
        }
        lemma_u32_bits_value(h, (n - 1) as nat);
        assert(h as nat == v as nat / 2 && ((v >> 0u32) & 1u32 == 1u32) == (v as nat % 2 == 1)) by {
            assert(v >> 1 == v / 2) by (bit_vector);
            assert((v >> 0u32) & 1u32 == v % 2) by (bit_vector);
        }
        lemma_pow2_unfold(n);
        lemma_pow2_pos((n - 1) as nat);
        lemma_mod_breakdown(v as int, 2, pow2((n - 1) as nat) as int);
    }
}

/// A run of at most 32 bits is the bits of its own value.
pub proof fn lemma_bits_value_u32_bits(s: Seq<bool>)
    requires
        s.len() <= 32,
    ensures
        bits_value(s) < 0x1_0000_0000,
        u32_bits(bits_value(s) as u32, s.len()) == s,
    decreases s.len(),
{
    lemma_bits_value_bound(s);
    lemma2_to64();
    if s.len() < 32 {
        lemma_pow2_strictly_increases(s.len(), 32);
    }
    let n = s.len();
    if n == 0 {
        assert(u32_bits(bits_value(s) as u32, 0) =~= s);
    } else {
        let t = s.drop_last();
        lemma_bits_value_u32_bits(t);
        let x: u32 = bits_value(t) as u32;
        let b: u32 = if s.last() { 1 } else { 0 };
        lemma_bits_value_bound(t);
        if n - 1 < 31 {
            lemma_pow2_strictly_increases((n - 1) as nat, 31);
        }
        assert(x < 0x8000_0000u32);
        let v: u32 = bits_value(s) as u32;
        assert(v == 2 * x + b);
        assert((v >> 1u32) == x && ((v >> 0u32) & 1u32 == 1u32) == (b == 1)) by (bit_vector)
            requires
                x < 0x8000_0000u32,
                b <= 1,
                v == 2 * x + b,
        ;
        assert forall|k: int| 0 <= k < n implies #[trigger] u32_bits(v, n)[k] == s[k] by {
            if k < n - 1 {
                let sh: u32 = (n - 2 - k) as u32;
                assert((v >> ((sh + 1) as u32)) == ((v >> 1) >> sh)) by (bit_vector)
                    requires
                        sh < 31,
                ;
                assert(u32_bits(x, (n - 1) as nat)[k] == t[k]);
            }
        }
        assert(u32_bits(v, n) =~= s);
    }
}

} // verus!
