//! Laws of the handshake codec, stated over the grammars' encodings and decodings.
use crate::app_hand_datatypes::{
    DocumentModel, ProtocolEntryModel, ResponseModel, APP_HAND_APPPROTOCOLTYPE_5_ARRAY_SIZE,
    APP_HAND_PROTOCOL_NAMESPACE_CHARACTER_SIZE,
};
use crate::app_hand_grammar::{
    code_from, dec_doc, dec_entry, dec_namespace_element, dec_nbit_element, dec_req,
    dec_req_list, dec_res, dec_u32_element, doc_step, doc_steps, enc_doc, enc_entry, enc_req,
    enc_res, entry_step, entry_steps, expect_zero, req_step, req_steps, res_step, res_steps,
};
use crate::bits::{bits_of, clean_from, lemma_div_mod8, lemma_put_bits, put_bits, stream_bit, u32_bits};
use crate::exi_basetypes::lemma_septets_len_bound;
use crate::exi_basetypes_decoder::{
    canonical_uint_at, dec_characters, dec_chars_from, dec_uint, lemma_chars_of_dec,
    lemma_dec_chars_at, lemma_dec_uint_at, lemma_uint_of_dec,
};
use crate::exi_basetypes_encoder::{ascii_bytes, lemma_octets_bits_len, octets_bits, uint_bits};
use crate::exi_bitstream::{
    bits_at, bits_from, emit, emit_from, fail, lemma_emit_from_succeeds, lemma_field_bits,
    lemma_glue, lemma_peel, lemma_read_at, read_field, steps_succeed, then, Emission,
};
use crate::exi_error_codes::ExiError;
use crate::exi_header::{header_bits, EXI_SIMPLE_HEADER_VALUE};
use crate::exi_types_decoder::dec_u16;
use vstd::arithmetic::power2::{lemma2_to64, lemma_pow2_strictly_increases};
use vstd::prelude::*;
use vstd::utf8::is_ascii_chars;

verus! {

/// An entry that the grammar can carry: an ASCII namespace of fewer than 100 characters
/// and a priority from 1 to 32.
pub open spec fn valid_entry(e: ProtocolEntryModel) -> bool {
    &&& is_ascii_chars(e.namespace)
    &&& e.namespace.len() < APP_HAND_PROTOCOL_NAMESPACE_CHARACTER_SIZE
    &&& 1 <= e.priority <= 32
}

/// A document that the grammars can carry: a request of one to five valid entries, or any
/// response.
pub open spec fn valid_doc(d: DocumentModel) -> bool {
    match d {
        DocumentModel::Req(es) => {
            &&& 1 <= es.len() <= APP_HAND_APPPROTOCOLTYPE_5_ARRAY_SIZE
            &&& forall|i: int| 0 <= i < es.len() ==> valid_entry(#[trigger] es[i])
        },
        DocumentModel::Res(_) => true,
    }
}

proof fn lemma_entry_encodes(e: ProtocolEntryModel)
    requires
        valid_entry(e),
    ensures
        steps_succeed(entry_steps(e)),
        enc_entry(e) == (bits_from(entry_steps(e), 0), None::<ExiError>),
{
    assert forall|k: int| 0 <= k < entry_steps(e).len() implies (#[trigger] entry_steps(e)[k]).1 is None by {
        assert(entry_steps(e)[k] == entry_step(e, k));
    }
    lemma_emit_from_succeeds(entry_steps(e), 0);
}

/// The bits of steps `k` to `k + 3` (a start element, a canonical-type selector, an
/// unsigned integer, an end element) read back as a 32-bit element.
proof fn lemma_u32_element_at(bs: Seq<bool>, q: int, steps: Seq<Emission>, k: int, v: u32)
    requires
        0 <= k,
        k + 3 < steps.len(),
        steps[k].0 == u32_bits(0, 1),
        steps[k + 1].0 == u32_bits(0, 1),
        steps[k + 2].0 == uint_bits(v as nat),
        steps[k + 3].0 == u32_bits(0, 1),
        bits_at(bs, q, bits_from(steps, k)),
    ensures
        dec_u32_element(bs, q) == Ok::<(u32, int), ExiError>(
            (v, q + bits_from(steps, k).len() - bits_from(steps, k + 4).len()),
        ),
        bits_at(bs, q + bits_from(steps, k).len() - bits_from(steps, k + 4).len(), bits_from(steps, k + 4)),
{
    reveal(dec_u32_element);
    lemma2_to64();
    let q0 = q;
    lemma_peel(bs, q0, steps, k);
    let q1 = q0 + steps[k].0.len();
    lemma_peel(bs, q1, steps, k + 1);
    let q2 = q1 + steps[k + 1].0.len();
    lemma_peel(bs, q2, steps, k + 2);
    let q3 = q2 + steps[k + 2].0.len();
    lemma_peel(bs, q3, steps, k + 3);
    lemma_read_at(bs, q0, 0, 1);
    lemma_read_at(bs, q1, 0, 1);
    lemma_read_at(bs, q3, 0, 1);
    lemma_pow2_strictly_increases(32, 35);
    lemma_septets_len_bound(v as nat, 5);
    lemma_dec_uint_at(bs, q2, v as nat, 5);
}

/// The bits of steps `k` to `k + 3` (a start element, a canonical-type selector, an `n`-bit
/// value, an end element) read back as an `n`-bit element.
proof fn lemma_nbit_element_at(bs: Seq<bool>, q: int, steps: Seq<Emission>, k: int, v: u32, n: nat)
    requires
        0 <= k,
        k + 3 < steps.len(),
        n <= 32,
        (v as nat) < vstd::arithmetic::power2::pow2(n),
        steps[k].0 == u32_bits(0, 1),
        steps[k + 1].0 == u32_bits(0, 1),
        steps[k + 2].0 == u32_bits(v, n),
        steps[k + 3].0 == u32_bits(0, 1),
        bits_at(bs, q, bits_from(steps, k)),
    ensures
        dec_nbit_element(bs, q, n) == Ok::<(nat, int), ExiError>(
            (v as nat, q + bits_from(steps, k).len() - bits_from(steps, k + 4).len()),
        ),
        bits_at(bs, q + bits_from(steps, k).len() - bits_from(steps, k + 4).len(), bits_from(steps, k + 4)),
{
    reveal(dec_nbit_element);
    lemma2_to64();
    let q0 = q;
    lemma_peel(bs, q0, steps, k);
    let q1 = q0 + steps[k].0.len();
    lemma_peel(bs, q1, steps, k + 1);
    let q2 = q1 + steps[k + 1].0.len();
    lemma_peel(bs, q2, steps, k + 2);
    let q3 = q2 + steps[k + 2].0.len();
    lemma_peel(bs, q3, steps, k + 3);
    lemma_read_at(bs, q0, 0, 1);
    lemma_read_at(bs, q1, 0, 1);
    lemma_read_at(bs, q2, v, n);
    lemma_read_at(bs, q3, 0, 1);
}

/// The bits of the first five steps of an entry read back as its namespace element.
proof fn lemma_namespace_element_at(bs: Seq<bool>, q: int, e: ProtocolEntryModel)
    requires
        valid_entry(e),
        bits_at(bs, q, bits_from(entry_steps(e), 0)),
    ensures
        dec_namespace_element(bs, q) == Ok::<(Seq<char>, int), ExiError>(
            (
                e.namespace,
                q + bits_from(entry_steps(e), 0).len() - bits_from(entry_steps(e), 5).len(),
            ),
        ),
        bits_at(
            bs,
            q + bits_from(entry_steps(e), 0).len() - bits_from(entry_steps(e), 5).len(),
            bits_from(entry_steps(e), 5),
        ),
{
    reveal(dec_namespace_element);
    lemma2_to64();
    let steps = entry_steps(e);
    let ns = e.namespace;
    let q0 = q;
    lemma_peel(bs, q0, steps, 0);
    let q1 = q0 + steps[0].0.len();
    lemma_peel(bs, q1, steps, 1);
    let q2 = q1 + steps[1].0.len();
    lemma_peel(bs, q2, steps, 2);
    let q3 = q2 + steps[2].0.len();
    lemma_peel(bs, q3, steps, 3);
    let q4 = q3 + steps[3].0.len();
    lemma_peel(bs, q4, steps, 4);
    lemma_read_at(bs, q0, 0, 1);
    lemma_read_at(bs, q1, 0, 1);
    lemma_read_at(bs, q4, 0, 1);
    lemma_pow2_strictly_increases(16, 21);
    vstd::arithmetic::power2::lemma2_to64_rest();
    lemma_septets_len_bound((ns.len() + 2) as nat, 3);
    vstd::arithmetic::div_mod::lemma_small_mod((ns.len() + 2) as nat, 0x1_0000);
    assert(steps[2].0 == uint_bits((ns.len() + 2) as nat));
    lemma_dec_uint_at(bs, q2, (ns.len() + 2) as nat, 3);
    assert(steps[3].0 == octets_bits(ascii_bytes(ns)));
    crate::exi_basetypes_encoder::lemma_octets_bits_len(ascii_bytes(ns));
    lemma_dec_chars_at(bs, q3, ns, Seq::empty());
    assert(Seq::<char>::empty() + ns =~= ns);
    let q5 = q4 + steps[4].0.len();
    assert(expect_zero(bs, q0, 1, ExiError::UnknownEventCode) == Ok::<((), int), ExiError>(((), q1)));
    assert(expect_zero(bs, q1, 1, ExiError::UnsupportedSubEvent) == Ok::<((), int), ExiError>(((), q2)));
    assert(dec_u16(bs, q2) == Ok::<(u16, int), ExiError>(((ns.len() + 2) as u16, q3)));
    assert(dec_characters(bs, q3, ns.len(), APP_HAND_PROTOCOL_NAMESPACE_CHARACTER_SIZE as nat) == Ok::<(Seq<char>, int), ExiError>((ns, q4)));
    assert(expect_zero(bs, q4, 1, ExiError::DeviantsNotSupported) == Ok::<((), int), ExiError>(((), q5)));
}

proof fn lemma_dec_entry_at(bs: Seq<bool>, q: int, e: ProtocolEntryModel)
    requires
        valid_entry(e),
        bits_at(bs, q, bits_from(entry_steps(e), 0)),
    ensures
        dec_entry(bs, q) == Ok::<(ProtocolEntryModel, int), ExiError>(
            (e, q + bits_from(entry_steps(e), 0).len()),
        ),
{
    reveal(dec_entry);
    lemma2_to64();
    let steps = entry_steps(e);
    let total = bits_from(steps, 0).len();
    lemma_namespace_element_at(bs, q, e);
    let q5 = q + total - bits_from(steps, 5).len();
    assert(steps[5] == entry_step(e, 5) && steps[6] == entry_step(e, 6) && steps[7] == entry_step(e, 7) && steps[8] == entry_step(e, 8));
    lemma_u32_element_at(bs, q5, steps, 5, e.version_number_major);
    let q9 = q + total - bits_from(steps, 9).len();
    assert(steps[9] == entry_step(e, 9) && steps[10] == entry_step(e, 10) && steps[11] == entry_step(e, 11) && steps[12] == entry_step(e, 12));
    lemma_u32_element_at(bs, q9, steps, 9, e.version_number_minor);
    let q13 = q + total - bits_from(steps, 13).len();
    assert(steps[13] == entry_step(e, 13) && steps[14] == entry_step(e, 14) && steps[15] == entry_step(e, 15) && steps[16] == entry_step(e, 16));
    lemma_nbit_element_at(bs, q13, steps, 13, e.schema_id as u32, 8);
    let q17 = q + total - bits_from(steps, 17).len();
    assert(steps[17] == entry_step(e, 17) && steps[18] == entry_step(e, 18) && steps[19] == entry_step(e, 19) && steps[20] == entry_step(e, 20));
    lemma_nbit_element_at(bs, q17, steps, 17, (e.priority - 1) as u32, 5);
    let q21 = q + total - bits_from(steps, 21).len();
    lemma_peel(bs, q21, steps, 21);
    assert(steps[21] == entry_step(e, 21));
    lemma_read_at(bs, q21, 0, 1);
    assert(bits_from(steps, 22).len() == 0);
}

proof fn lemma_req_encodes(es: Seq<ProtocolEntryModel>)
    requires
        valid_doc(DocumentModel::Req(es)),
    ensures
        steps_succeed(req_steps(es)),
        enc_req(es) == (bits_from(req_steps(es), 0), None::<ExiError>),
{
    assert forall|j: int| 0 <= j < req_steps(es).len() implies (#[trigger] req_steps(es)[j]).1 is None by {
        assert(req_steps(es)[j] == req_step(es, j));
        if j != 0 && j != 2 * es.len() && j % 2 == 1 {
            lemma_entry_encodes(es[(j - 1) / 2]);
        }
    }
    lemma_emit_from_succeeds(req_steps(es), 0);
}

/// The bits of the request's steps from entry `i` on read back as the rest of its list.
proof fn lemma_dec_req_list_at(bs: Seq<bool>, q: int, es: Seq<ProtocolEntryModel>, i: int)
    requires
        valid_doc(DocumentModel::Req(es)),
        1 <= i <= es.len(),
        bits_at(bs, q, bits_from(req_steps(es), 2 * i)),
    ensures
        dec_req_list(bs, q, es.subrange(0, i)) == Ok::<(Seq<ProtocolEntryModel>, int), ExiError>(
            (es, q + bits_from(req_steps(es), 2 * i).len()),
        ),
    decreases es.len() - i,
{
    lemma2_to64();
    let steps = req_steps(es);
    assert(steps[2 * i] == req_step(es, 2 * i));
    lemma_peel(bs, q, steps, 2 * i);
    if i == es.len() {
        assert(bits_from(steps, 2 * i + 1).len() == 0);
        assert(es.subrange(0, i) =~= es);
        if es.len() == APP_HAND_APPPROTOCOLTYPE_5_ARRAY_SIZE {
            lemma_read_at(bs, q, 0, 1);
        } else {
            lemma_read_at(bs, q, 1, 2);
        }
    } else {
        lemma_read_at(bs, q, 0, 2);
        let q1 = q + 2;
        assert(steps[2 * i + 1] == req_step(es, 2 * i + 1));
        assert((2 * i + 1 - 1) / 2 == i);
        lemma_peel(bs, q1, steps, 2 * i + 1);
        lemma_entry_encodes(es[i]);
        lemma_dec_entry_at(bs, q1, es[i]);
        let q2 = q1 + steps[2 * i + 1].0.len();
        assert(es.subrange(0, i).push(es[i]) =~= es.subrange(0, i + 1));
        lemma_dec_req_list_at(bs, q2, es, i + 1);
    }
}

proof fn lemma_dec_req_at(bs: Seq<bool>, q: int, es: Seq<ProtocolEntryModel>)
    requires
        valid_doc(DocumentModel::Req(es)),
        bits_at(bs, q, bits_from(req_steps(es), 0)),
    ensures
        dec_req(bs, q) == Ok::<(Seq<ProtocolEntryModel>, int), ExiError>(
            (es, q + bits_from(req_steps(es), 0).len()),
        ),
{
    lemma2_to64();
    let steps = req_steps(es);
    assert(steps[0] == req_step(es, 0));
    lemma_peel(bs, q, steps, 0);
    lemma_read_at(bs, q, 0, 1);
    let q1 = q + 1;
    assert(steps[1] == req_step(es, 1));
    lemma_peel(bs, q1, steps, 1);
    lemma_entry_encodes(es[0]);
    lemma_dec_entry_at(bs, q1, es[0]);
    let q2 = q1 + steps[1].0.len();
    assert(seq![es[0]] =~= es.subrange(0, 1));
    lemma_dec_req_list_at(bs, q2, es, 1);
}

proof fn lemma_res_encodes(r: ResponseModel)
    ensures
        steps_succeed(res_steps(r)),
        enc_res(r) == (bits_from(res_steps(r), 0), None::<ExiError>),
{
    assert forall|k: int| 0 <= k < res_steps(r).len() implies (#[trigger] res_steps(r)[k]).1 is None by {
        assert(res_steps(r)[k] == res_step(r, k));
    }
    lemma_emit_from_succeeds(res_steps(r), 0);
}

proof fn lemma_dec_res_at(bs: Seq<bool>, q: int, r: ResponseModel)
    requires
        bits_at(bs, q, bits_from(res_steps(r), 0)),
    ensures
        dec_res(bs, q) == Ok::<(ResponseModel, int), ExiError>(
            (r, q + bits_from(res_steps(r), 0).len()),
        ),
{
    lemma2_to64();
    let steps = res_steps(r);
    let n = steps.len() as int;
    assert forall|k: int| 0 <= k < n implies #[trigger] steps[k] == res_step(r, k) by {}
    let q0 = q;
    lemma_peel(bs, q0, steps, 0);
    let q1 = q0 + steps[0].0.len();
    lemma_peel(bs, q1, steps, 1);
    let q2 = q1 + steps[1].0.len();
    lemma_peel(bs, q2, steps, 2);
    let q3 = q2 + steps[2].0.len();
    lemma_peel(bs, q3, steps, 3);
    let q4 = q3 + steps[3].0.len();
    lemma_peel(bs, q4, steps, 4);
    let q5 = q4 + steps[4].0.len();
    lemma_read_at(bs, q0, 0, 1);
    lemma_read_at(bs, q1, 0, 1);
    lemma_read_at(bs, q2, r.response_code.code() as u32, 2);
    lemma_read_at(bs, q3, 0, 1);
    assert(code_from(r.response_code.code()) == r.response_code);
    match r.schema_id {
        Some(s) => {
            lemma_read_at(bs, q4, 0, 2);
            lemma_peel(bs, q5, steps, 5);
            let q6 = q5 + steps[5].0.len();
            lemma_peel(bs, q6, steps, 6);
            let q7 = q6 + steps[6].0.len();
            lemma_peel(bs, q7, steps, 7);
            let q8 = q7 + steps[7].0.len();
            lemma_peel(bs, q8, steps, 8);
            lemma_read_at(bs, q5, 0, 1);
            lemma_read_at(bs, q6, s as u32, 8);
            lemma_read_at(bs, q7, 0, 1);
            lemma_read_at(bs, q8, 0, 1);
            assert(bits_from(steps, 9).len() == 0);
        },
        None => {
            lemma_read_at(bs, q4, 1, 2);
            assert(bits_from(steps, 5).len() == 0);
        },
    }
}

proof fn lemma_doc_encodes(d: DocumentModel)
    requires
        valid_doc(d),
    ensures
        steps_succeed(doc_steps(d)),
        enc_doc(d) == (bits_from(doc_steps(d), 0), None::<ExiError>),
{
    match d {
        DocumentModel::Req(es) => lemma_req_encodes(es),
        DocumentModel::Res(r) => lemma_res_encodes(r),
    }
    assert forall|k: int| 0 <= k < doc_steps(d).len() implies (#[trigger] doc_steps(d)[k]).1 is None by {
        assert(doc_steps(d)[k] == doc_step(d, k));
    }
    lemma_emit_from_succeeds(doc_steps(d), 0);
}

proof fn lemma_dec_doc_at(bs: Seq<bool>, q: int, d: DocumentModel)
    requires
        valid_doc(d),
        bits_at(bs, q, bits_from(doc_steps(d), 0)),
    ensures
        dec_doc(bs, q) == Ok::<(DocumentModel, int), ExiError>((d, q + bits_from(doc_steps(d), 0).len())),
{
    lemma2_to64();
    let steps = doc_steps(d);
    assert(steps[0] == doc_step(d, 0) && steps[1] == doc_step(d, 1) && steps[2] == doc_step(d, 2));
    lemma_peel(bs, q, steps, 0);
    let q1 = q + 8;
    lemma_read_at(bs, q, EXI_SIMPLE_HEADER_VALUE, 8);
    lemma_peel(bs, q1, steps, 1);
    let q2 = q1 + 2;
    lemma_peel(bs, q2, steps, 2);
    assert(bits_from(steps, 3).len() == 0);
    match d {
        DocumentModel::Req(es) => {
            lemma_read_at(bs, q1, 0, 2);
            lemma_req_encodes(es);
            lemma_dec_req_at(bs, q2, es);
        },
        DocumentModel::Res(r) => {
            lemma_read_at(bs, q1, 1, 2);
            lemma_res_encodes(r);
            lemma_dec_res_at(bs, q2, r);
        },
    }
}

/// Decoding what was encoded gives the document back: for every document the grammars can
/// carry, written by `encode_exi_document` at a clean position `p` of a buffer (a position
/// that starts a byte, such as a fresh stream's origin) with room for it, the decoding at `p`
/// of the buffer's first `size` bytes is that document, ending where the encoding ended.
pub proof fn lemma_decode_of_encode(data: Seq<u8>, size: nat, p: int, d: DocumentModel)
    requires
        valid_doc(d),
        0 <= p,
        clean_from(data, p),
        size <= data.len(),
        p + enc_doc(d).0.len() <= 8 * size,
    ensures
        enc_doc(d).1 is None,
        dec_doc(bits_of(put_bits(data, p, enc_doc(d).0), size), p) == Ok::<(DocumentModel, int), ExiError>(
            (d, p + enc_doc(d).0.len()),
        ),
{
    lemma_doc_encodes(d);
    let w = enc_doc(d).0;
    if w.len() > 0 {
        lemma_div_mod8(p + w.len() - 1);
    }
    lemma_put_bits(data, p, w);
    let nd = put_bits(data, p, w);
    let bs = bits_of(nd, size);
    assert(bs.subrange(p, p + w.len()) =~= w) by {
        assert forall|i: int| 0 <= i < w.len() implies #[trigger] bs.subrange(p, p + w.len())[i] == w[i] by {
            assert(bs[p + i] == stream_bit(nd, p + i));
        }
    }
    lemma_dec_doc_at(bs, p, d);
}

/// A sixth entry is refused on encode: a request of more than five entries encodes as the
/// header and the request's root event, then fails with `ArrayOutOfBounds` (or overflows
/// first, if those ten bits do not fit).
pub proof fn lemma_sixth_entry_refused(es: Seq<ProtocolEntryModel>)
    requires
        es.len() > APP_HAND_APPPROTOCOLTYPE_5_ARRAY_SIZE,
    ensures
        enc_doc(DocumentModel::Req(es)) == (header_bits() + u32_bits(0, 2), Some(ExiError::ArrayOutOfBounds)),
{
    let d = DocumentModel::Req(es);
    let steps = doc_steps(d);
    assert(steps[0] == doc_step(d, 0) && steps[1] == doc_step(d, 1) && steps[2] == doc_step(d, 2));
    assert(emit_from(steps, 3) == emit(Seq::<bool>::empty()));
    assert(steps[2] == fail(ExiError::ArrayOutOfBounds));
    assert(emit_from(steps, 2) == fail(ExiError::ArrayOutOfBounds));
    let e1 = emit_from(steps, 1);
    assert(e1 == then(emit(u32_bits(0, 2)), fail(ExiError::ArrayOutOfBounds)));
    assert(e1.0 =~= u32_bits(0, 2));
    assert(emit_from(steps, 0) == then(emit(header_bits()), e1));
}

/// No unsigned integer of the entry at `p` has a superfluous zero digit or exceeds its
/// width.
pub open spec fn canonical_entry_at(bs: Seq<bool>, p: int) -> bool {
    &&& canonical_uint_at(bs, p + 2, 16)
    &&& match dec_namespace_element(bs, p) {
        Ok((_, p1)) => {
            &&& canonical_uint_at(bs, p1 + 2, 32)
            &&& match dec_u32_element(bs, p1) {
                Ok((_, p2)) => canonical_uint_at(bs, p2 + 2, 32),
                Err(_) => true,
            }
        },
        Err(_) => true,
    }
}

proof fn lemma_u32_element_of_dec(bs: Seq<bool>, q: int, steps: Seq<Emission>, k: int, v: u32)
    requires
        0 <= k,
        k + 3 < steps.len(),
        steps[k].0 == u32_bits(0, 1),
        steps[k + 1].0 == u32_bits(0, 1),
        steps[k + 2].0 == uint_bits(v as nat),
        steps[k + 3].0 == u32_bits(0, 1),
        dec_u32_element(bs, q) is Ok,
        dec_u32_element(bs, q)->Ok_0.0 == v,
        canonical_uint_at(bs, q + 2, 32),
        bits_at(bs, dec_u32_element(bs, q)->Ok_0.1, bits_from(steps, k + 4)),
    ensures
        bits_at(bs, q, bits_from(steps, k)),
        q + bits_from(steps, k).len() == dec_u32_element(bs, q)->Ok_0.1 + bits_from(steps, k + 4).len(),
{
    reveal(dec_u32_element);
    lemma2_to64();
    lemma_field_bits(bs, q, 1);
    lemma_field_bits(bs, q + 1, 1);
    lemma_uint_of_dec(bs, q + 2, 5, 32);
    let (w, q3) = dec_uint(bs, q + 2, 5)->Ok_0;
    vstd::arithmetic::div_mod::lemma_small_mod(w, 0x1_0000_0000);
    lemma_field_bits(bs, q3, 1);
    lemma_glue(bs, q3, steps, k + 3);
    lemma_glue(bs, q + 2, steps, k + 2);
    lemma_glue(bs, q + 1, steps, k + 1);
    lemma_glue(bs, q, steps, k);
}

proof fn lemma_nbit_element_of_dec(bs: Seq<bool>, q: int, steps: Seq<Emission>, k: int, v: u32, n: nat)
    requires
        0 <= k,
        k + 3 < steps.len(),
        1 <= n <= 32,
        steps[k].0 == u32_bits(0, 1),
        steps[k + 1].0 == u32_bits(0, 1),
        steps[k + 2].0 == u32_bits(v, n),
        steps[k + 3].0 == u32_bits(0, 1),
        dec_nbit_element(bs, q, n) is Ok,
        dec_nbit_element(bs, q, n)->Ok_0.0 == v as nat,
        bits_at(bs, dec_nbit_element(bs, q, n)->Ok_0.1, bits_from(steps, k + 4)),
    ensures
        bits_at(bs, q, bits_from(steps, k)),
        q + bits_from(steps, k).len() == dec_nbit_element(bs, q, n)->Ok_0.1 + bits_from(steps, k + 4).len(),
{
    reveal(dec_nbit_element);
    lemma_field_bits(bs, q, 1);
    lemma_field_bits(bs, q + 1, 1);
    lemma_field_bits(bs, q + 2, n);
    lemma_field_bits(bs, q + 2 + n, 1);
    lemma_glue(bs, q + 2 + n, steps, k + 3);
    lemma_glue(bs, q + 2, steps, k + 2);
    lemma_glue(bs, q + 1, steps, k + 1);
    lemma_glue(bs, q, steps, k);
}

proof fn lemma_namespace_element_of_dec(bs: Seq<bool>, q: int, e: ProtocolEntryModel)
    requires
        dec_namespace_element(bs, q) is Ok,
        dec_namespace_element(bs, q)->Ok_0.0 == e.namespace,
        canonical_uint_at(bs, q + 2, 16),
        bits_at(bs, dec_namespace_element(bs, q)->Ok_0.1, bits_from(entry_steps(e), 5)),
    ensures
        is_ascii_chars(e.namespace),
        e.namespace.len() < APP_HAND_PROTOCOL_NAMESPACE_CHARACTER_SIZE,
        bits_at(bs, q, bits_from(entry_steps(e), 0)),
        q + bits_from(entry_steps(e), 0).len() == dec_namespace_element(bs, q)->Ok_0.1 + bits_from(
            entry_steps(e),
            5,
        ).len(),
{
    reveal(dec_namespace_element);
    lemma2_to64();
    let steps = entry_steps(e);
    assert(steps[0] == entry_step(e, 0) && steps[1] == entry_step(e, 1) && steps[2] == entry_step(e, 2));
    assert(steps[3] == entry_step(e, 3) && steps[4] == entry_step(e, 4));
    lemma_field_bits(bs, q, 1);
    lemma_field_bits(bs, q + 1, 1);
    lemma_uint_of_dec(bs, q + 2, 3, 16);
    let (len, q3) = dec_uint(bs, q + 2, 3)->Ok_0;
    vstd::arithmetic::div_mod::lemma_small_mod(len, 0x1_0000);
    lemma_chars_of_dec(bs, q3, (len - 2) as nat, Seq::empty());
    let (cs, q4) = dec_chars_from(bs, q3, (len - 2) as nat, Seq::empty())->Ok_0;
    assert(cs.skip(0) =~= cs);
    assert(cs == e.namespace);
    lemma_octets_bits_len(ascii_bytes(cs));
    lemma_field_bits(bs, q4, 1);
    lemma_glue(bs, q4, steps, 4);
    lemma_glue(bs, q3, steps, 3);
    lemma_glue(bs, q + 2, steps, 2);
    lemma_glue(bs, q + 1, steps, 1);
    lemma_glue(bs, q, steps, 0);
}

/// A canonical entry that decodes stands in the stream as its encoding.
proof fn lemma_entry_of_dec(bs: Seq<bool>, q: int)
    requires
        dec_entry(bs, q) is Ok,
        canonical_entry_at(bs, q),
    ensures
        valid_entry(dec_entry(bs, q)->Ok_0.0),
        bits_at(bs, q, bits_from(entry_steps(dec_entry(bs, q)->Ok_0.0), 0)),
        dec_entry(bs, q)->Ok_0.1 == q + bits_from(entry_steps(dec_entry(bs, q)->Ok_0.0), 0).len(),
{
    reveal(dec_entry);
    lemma2_to64();
    let (e, q_end) = dec_entry(bs, q)->Ok_0;
    let steps = entry_steps(e);
    let (ns, q5) = dec_namespace_element(bs, q)->Ok_0;
    let (major, q9) = dec_u32_element(bs, q5)->Ok_0;
    let (minor, q13) = dec_u32_element(bs, q9)->Ok_0;
    let (schema_id, q17) = dec_nbit_element(bs, q13, 8)->Ok_0;
    let (priority, q21) = dec_nbit_element(bs, q17, 5)->Ok_0;
    assert(schema_id < 256 && priority < 32) by {
        reveal(dec_nbit_element);
        lemma_field_bits(bs, q13 + 2, 8);
        lemma_field_bits(bs, q17 + 2, 5);
        crate::bits::lemma_bits_value_bound(bs.subrange(q13 + 2, q13 + 10));
        crate::bits::lemma_bits_value_bound(bs.subrange(q17 + 2, q17 + 7));
    }
    assert(forall|k: int| 0 <= k < 22 ==> #[trigger] steps[k] == entry_step(e, k));
    lemma_field_bits(bs, q21, 1);
    assert(bs.subrange(q_end, q_end) =~= Seq::<bool>::empty());
    assert(bits_from(steps, 22) == Seq::<bool>::empty());
    lemma_glue(bs, q21, steps, 21);
    lemma_nbit_element_of_dec(bs, q17, steps, 17, (e.priority - 1) as u32, 5);
    lemma_nbit_element_of_dec(bs, q13, steps, 13, e.schema_id as u32, 8);
    lemma_u32_element_of_dec(bs, q9, steps, 9, minor);
    lemma_u32_element_of_dec(bs, q5, steps, 5, major);
    lemma_namespace_element_of_dec(bs, q, e);
}

/// No unsigned integer of the entries of a request list from `p` on, after `count` entries,
/// is non-canonical.
pub open spec fn canonical_req_list_at(bs: Seq<bool>, p: int, count: nat) -> bool
    decreases APP_HAND_APPPROTOCOLTYPE_5_ARRAY_SIZE - count,
{
    if count >= APP_HAND_APPPROTOCOLTYPE_5_ARRAY_SIZE {
        true
    } else {
        match read_field(bs, p, 2) {
            Ok((v, q)) => v != 0 || (canonical_entry_at(bs, q) && match dec_entry(bs, q) {
                Ok((_, q2)) => canonical_req_list_at(bs, q2, count + 1),
                Err(_) => true,
            }),
            Err(_) => true,
        }
    }
}

/// No unsigned integer of the request at `p` is non-canonical.
pub open spec fn canonical_req_at(bs: Seq<bool>, p: int) -> bool {
    &&& canonical_entry_at(bs, p + 1)
    &&& match dec_entry(bs, p + 1) {
        Ok((_, q)) => canonical_req_list_at(bs, q, 1),
        Err(_) => true,
    }
}

/// The document at `p` is as the encoder writes it wherever the decoder has a choice: its
/// header byte is the simple header 0x80, and no unsigned integer has a superfluous zero
/// digit or exceeds its width.
pub open spec fn canonical_doc_at(bs: Seq<bool>, p: int) -> bool {
    &&& read_field(bs, p, 8) == Ok::<(nat, int), ExiError>((EXI_SIMPLE_HEADER_VALUE as nat, p + 8))
    &&& read_field(bs, p + 8, 2) == Ok::<(nat, int), ExiError>((0, p + 10)) ==> canonical_req_at(
        bs,
        p + 10,
    )
}

proof fn lemma_req_list_of_dec(bs: Seq<bool>, q: int, acc: Seq<ProtocolEntryModel>)
    requires
        1 <= acc.len() <= APP_HAND_APPPROTOCOLTYPE_5_ARRAY_SIZE,
        forall|i: int| 0 <= i < acc.len() ==> valid_entry(#[trigger] acc[i]),
        dec_req_list(bs, q, acc) is Ok,
        canonical_req_list_at(bs, q, acc.len()),
    ensures
        ({
            let (es, q_end) = dec_req_list(bs, q, acc)->Ok_0;
            &&& acc.len() <= es.len() <= APP_HAND_APPPROTOCOLTYPE_5_ARRAY_SIZE
            &&& es.take(acc.len() as int) == acc
            &&& forall|i: int| 0 <= i < es.len() ==> valid_entry(#[trigger] es[i])
            &&& bits_at(bs, q, bits_from(req_steps(es), 2 * acc.len() as int))
            &&& q_end == q + bits_from(req_steps(es), 2 * acc.len() as int).len()
        }),
    decreases APP_HAND_APPPROTOCOLTYPE_5_ARRAY_SIZE - acc.len(),
{
    lemma2_to64();
    let (es, q_end) = dec_req_list(bs, q, acc)->Ok_0;
    let n = acc.len() as int;
    if acc.len() >= APP_HAND_APPPROTOCOLTYPE_5_ARRAY_SIZE {
        assert(es == acc);
        assert(es.take(n) =~= acc);
        let steps = req_steps(es);
        assert(steps[2 * n] == req_step(es, 2 * n));
        lemma_field_bits(bs, q, 1);
        assert(bs.subrange(q + 1, q + 1) =~= Seq::<bool>::empty());
        assert(bits_from(steps, 2 * n + 1) == Seq::<bool>::empty());
        lemma_glue(bs, q, steps, 2 * n);
    } else {
        lemma_field_bits(bs, q, 2);
        let v = read_field(bs, q, 2)->Ok_0.0;
        if v == 1 {
            assert(es == acc);
            assert(es.take(n) =~= acc);
            let steps = req_steps(es);
            assert(steps[2 * n] == req_step(es, 2 * n));
            assert(bs.subrange(q + 2, q + 2) =~= Seq::<bool>::empty());
            assert(bits_from(steps, 2 * n + 1) == Seq::<bool>::empty());
            lemma_glue(bs, q, steps, 2 * n);
        } else {
            assert(v == 0);
            lemma_entry_of_dec(bs, q + 2);
            let (e, q2) = dec_entry(bs, q + 2)->Ok_0;
            let acc2 = acc.push(e);
            assert forall|i: int| 0 <= i < acc2.len() implies valid_entry(#[trigger] acc2[i]) by {
                if i < n {
                    assert(acc2[i] == acc[i]);
                }
            }
            lemma_req_list_of_dec(bs, q2, acc2);
            assert(es.take(n + 1) == acc2);
            assert(es.take(n + 1).take(n) =~= es.take(n));
            assert(acc2.take(n) =~= acc);
            assert(es.take(n + 1)[n] == es[n]);
            assert(es[n] == e);
            let steps = req_steps(es);
            assert(steps[2 * n] == req_step(es, 2 * n));
            assert(steps[2 * n + 1] == req_step(es, 2 * n + 1));
            assert((2 * n + 1 - 1) / 2 == n);
            lemma_entry_encodes(e);
            assert(2 * (n + 1) == 2 * n + 2);
            lemma_glue(bs, q + 2, steps, 2 * n + 1);
            lemma_glue(bs, q, steps, 2 * n);
        }
    }
}

proof fn lemma_req_of_dec(bs: Seq<bool>, q: int)
    requires
        dec_req(bs, q) is Ok,
        canonical_req_at(bs, q),
    ensures
        valid_doc(DocumentModel::Req(dec_req(bs, q)->Ok_0.0)),
        bits_at(bs, q, bits_from(req_steps(dec_req(bs, q)->Ok_0.0), 0)),
        dec_req(bs, q)->Ok_0.1 == q + bits_from(req_steps(dec_req(bs, q)->Ok_0.0), 0).len(),
{
    lemma2_to64();
    let (es, q_end) = dec_req(bs, q)->Ok_0;
    lemma_field_bits(bs, q, 1);
    lemma_entry_of_dec(bs, q + 1);
    let (e, q2) = dec_entry(bs, q + 1)->Ok_0;
    let acc = seq![e];
    assert(forall|i: int| 0 <= i < acc.len() ==> valid_entry(#[trigger] acc[i]));
    lemma_req_list_of_dec(bs, q2, acc);
    assert(es.take(1)[0] == es[0]);
    assert(es[0] == e);
    let steps = req_steps(es);
    assert(steps[0] == req_step(es, 0));
    assert(steps[1] == req_step(es, 1));
    lemma_entry_encodes(e);
    lemma_glue(bs, q + 1, steps, 1);
    lemma_glue(bs, q, steps, 0);
}

proof fn lemma_res_of_dec(bs: Seq<bool>, q: int)
    requires
        dec_res(bs, q) is Ok,
    ensures
        bits_at(bs, q, bits_from(res_steps(dec_res(bs, q)->Ok_0.0), 0)),
        dec_res(bs, q)->Ok_0.1 == q + bits_from(res_steps(dec_res(bs, q)->Ok_0.0), 0).len(),
{
    lemma2_to64();
    let (r, q_end) = dec_res(bs, q)->Ok_0;
    let steps = res_steps(r);
    assert(forall|k: int| 0 <= k < steps.len() ==> #[trigger] steps[k] == res_step(r, k));
    lemma_field_bits(bs, q, 1);
    lemma_field_bits(bs, q + 1, 1);
    lemma_field_bits(bs, q + 2, 2);
    lemma_field_bits(bs, q + 4, 1);
    lemma_field_bits(bs, q + 5, 2);
    let code = read_field(bs, q + 2, 2)->Ok_0.0;
    assert(r.response_code.code() == code);
    match r.schema_id {
        Some(s) => {
            lemma_field_bits(bs, q + 7, 1);
            lemma_field_bits(bs, q + 8, 8);
            crate::exi_bitstream::lemma_read_field_fits(bs, q + 8, 8);
            assert(s as u32 == read_field(bs, q + 8, 8)->Ok_0.0 as u32);
            lemma_field_bits(bs, q + 16, 1);
            lemma_field_bits(bs, q + 17, 1);
            assert(bs.subrange(q + 18, q + 18) =~= Seq::<bool>::empty());
            assert(bits_from(steps, 9) == Seq::<bool>::empty());
            lemma_glue(bs, q + 17, steps, 8);
            lemma_glue(bs, q + 16, steps, 7);
            lemma_glue(bs, q + 8, steps, 6);
            lemma_glue(bs, q + 7, steps, 5);
        },
        None => {
            assert(bs.subrange(q + 7, q + 7) =~= Seq::<bool>::empty());
            assert(bits_from(steps, 5) == Seq::<bool>::empty());
        },
    }
    lemma_glue(bs, q + 5, steps, 4);
    lemma_glue(bs, q + 4, steps, 3);
    lemma_glue(bs, q + 2, steps, 2);
    lemma_glue(bs, q + 1, steps, 1);
    lemma_glue(bs, q, steps, 0);
}

/// Encoding what was decoded gives the same bits back: when the document at `p` decodes,
/// ending at `q`, and is written as the encoder writes it (see `canonical_doc_at`), its
/// encoding is exactly the bits from `p` to `q`. Written at a byte boundary, those are the
/// same bytes, up to the padding of the last one.
pub proof fn lemma_encode_of_decode(bs: Seq<bool>, p: int)
    requires
        dec_doc(bs, p) is Ok,
        canonical_doc_at(bs, p),
    ensures
        valid_doc(dec_doc(bs, p)->Ok_0.0),
        enc_doc(dec_doc(bs, p)->Ok_0.0) == (bs.subrange(p, dec_doc(bs, p)->Ok_0.1), None::<ExiError>),
{
    lemma2_to64();
    let (d, q) = dec_doc(bs, p)->Ok_0;
    let steps = doc_steps(d);
    assert(steps[0] == doc_step(d, 0) && steps[1] == doc_step(d, 1) && steps[2] == doc_step(d, 2));
    lemma_field_bits(bs, p, 8);
    lemma_field_bits(bs, p + 8, 2);
    match d {
        DocumentModel::Req(es) => {
            lemma_req_of_dec(bs, p + 10);
            lemma_req_encodes(es);
        },
        DocumentModel::Res(r) => {
            lemma_res_of_dec(bs, p + 10);
            lemma_res_encodes(r);
        },
    }
    assert(bs.subrange(q, q) =~= Seq::<bool>::empty());
    assert(bits_from(steps, 3) == Seq::<bool>::empty());
    lemma_glue(bs, p + 10, steps, 2);
    lemma_glue(bs, p + 8, steps, 1);
    lemma_glue(bs, p, steps, 0);
    lemma_doc_encodes(d);
}

} // verus!
