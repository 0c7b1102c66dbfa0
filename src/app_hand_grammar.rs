//! The SupportedAppProtocol grammars: what the encoders write and what the decoders read,
//! as functions on bit sequences.
use crate::app_hand_datatypes::{
    DocumentModel, ProtocolEntryModel, ResponseCode, ResponseModel,
    APP_HAND_APPPROTOCOLTYPE_5_ARRAY_SIZE, APP_HAND_PROTOCOL_NAMESPACE_CHARACTER_SIZE,
};
use crate::bits::u32_bits;
use crate::exi_basetypes_encoder::{enc_characters, uint_bits};
use crate::exi_basetypes_decoder::{dec_characters, Decoding};
use crate::exi_bitstream::{emit, emit_from, fail, read_field, then, Emission};
use crate::exi_types_decoder::{dec_typed, dec_u16, dec_u32};
use crate::exi_error_codes::ExiError;
use crate::exi_header::{dec_header, header_bits};
use vstd::prelude::*;

verus! {

/// The length field of a namespace: its number of characters plus 2 (no string table hit),
/// as an unsigned 16-bit value.
pub open spec fn namespace_len_field(ns: Seq<char>) -> nat {
    (ns.len() + 2) % 0x1_0000
}

/// Step `k` of the `AppProtocolType` grammar (states 0 to 5).
pub open spec fn entry_step(e: ProtocolEntryModel, k: int) -> Emission {
    if k == 2 {
        emit(uint_bits(namespace_len_field(e.namespace)))
    } else if k == 3 {
        enc_characters(e.namespace, APP_HAND_PROTOCOL_NAMESPACE_CHARACTER_SIZE as nat)
    } else if k == 7 {
        emit(uint_bits(e.version_number_major as nat))
    } else if k == 11 {
        emit(uint_bits(e.version_number_minor as nat))
    } else if k == 15 {
        emit(u32_bits(e.schema_id as u32, 8))
    } else if k == 19 {
        emit(u32_bits((e.priority - 1) as u32, 5))
    } else {
        // start and end elements, and the subtype selectors: all one 0 bit
        emit(u32_bits(0, 1))
    }
}

pub open spec fn entry_steps(e: ProtocolEntryModel) -> Seq<Emission> {
    Seq::new(22, |k: int| entry_step(e, k))
}

/// An `AppProtocolType` on the wire.
pub open spec fn enc_entry(e: ProtocolEntryModel) -> Emission {
    emit_from(entry_steps(e), 0)
}

/// Step `j` of the request grammar for entries `es` (states 7 to 11, then 5): the first
/// entry, each further entry after a 2-bit 0, and the end of the list.
pub open spec fn req_step(es: Seq<ProtocolEntryModel>, j: int) -> Emission {
    if j == 0 {
        emit(u32_bits(0, 1))
    } else if j == 2 * es.len() {
        if es.len() == APP_HAND_APPPROTOCOLTYPE_5_ARRAY_SIZE {
            emit(u32_bits(0, 1))
        } else {
            emit(u32_bits(1, 2))
        }
    } else if j % 2 == 1 {
        enc_entry(es[(j - 1) / 2])
    } else {
        emit(u32_bits(0, 2))
    }
}

pub open spec fn req_steps(es: Seq<ProtocolEntryModel>) -> Seq<Emission> {
    Seq::new(2 * es.len() + 1, |j: int| req_step(es, j))
}

/// A `SupportedAppProtocolReq` on the wire: one to five entries.
pub open spec fn enc_req(es: Seq<ProtocolEntryModel>) -> Emission {
    if es.len() == 0 {
        fail(ExiError::UnknownEventCode)
    } else if es.len() > APP_HAND_APPPROTOCOLTYPE_5_ARRAY_SIZE {
        fail(ExiError::ArrayOutOfBounds)
    } else {
        emit_from(req_steps(es), 0)
    }
}

/// Step `k` of the response grammar (states 12, 13, 5).
pub open spec fn res_step(r: ResponseModel, k: int) -> Emission {
    if k == 2 {
        emit(u32_bits(r.response_code.code() as u32, 2))
    } else if k == 4 {
        emit(u32_bits(if r.schema_id is Some { 0 } else { 1 }, 2))
    } else if k == 6 {
        emit(u32_bits(r.schema_id->Some_0 as u32, 8))
    } else {
        emit(u32_bits(0, 1))
    }
}

pub open spec fn res_steps(r: ResponseModel) -> Seq<Emission> {
    Seq::new(if r.schema_id is Some { 9 } else { 5 }, |k: int| res_step(r, k))
}

/// A `SupportedAppProtocolRes` on the wire.
pub open spec fn enc_res(r: ResponseModel) -> Emission {
    emit_from(res_steps(r), 0)
}

pub open spec fn doc_step(d: DocumentModel, k: int) -> Emission {
    if k == 0 {
        emit(header_bits())
    } else if k == 1 {
        emit(u32_bits(if d is Req { 0 } else { 1 }, 2))
    } else {
        match d {
            DocumentModel::Req(es) => enc_req(es),
            DocumentModel::Res(r) => enc_res(r),
        }
    }
}

pub open spec fn doc_steps(d: DocumentModel) -> Seq<Emission> {
    Seq::new(3, |k: int| doc_step(d, k))
}

/// A handshake document on the wire: the header, the 2-bit root event, the message.
pub open spec fn enc_doc(d: DocumentModel) -> Emission {
    emit_from(doc_steps(d), 0)
}

/// An `n`-bit code that must be 0; any other value fails with `err`.
pub open spec fn expect_zero(bs: Seq<bool>, p: int, n: nat, err: ExiError) -> Decoding<()> {
    match read_field(bs, p, n) {
        Err(e) => Err(e),
        Ok((v, q)) => if v != 0 {
            Err(err)
        } else {
            Ok(((), q))
        },
    }
}

/// State 0: the ProtocolNamespace element, whose length field counts 2 more than its
/// characters.
#[verifier::opaque]
pub open spec fn dec_namespace_element(bs: Seq<bool>, p: int) -> Decoding<Seq<char>> {
    match expect_zero(bs, p, 1, ExiError::UnknownEventCode) {
        Err(e) => Err(e),
        Ok((_, p1)) => match expect_zero(bs, p1, 1, ExiError::UnsupportedSubEvent) {
            Err(e) => Err(e),
            Ok((_, p2)) => match dec_u16(bs, p2) {
                Err(e) => Err(e),
                Ok((len, p3)) => if len < 2 {
                    Err(ExiError::StringvaluesNotSupported)
                } else {
                    match dec_characters(
                        bs,
                        p3,
                        (len - 2) as nat,
                        APP_HAND_PROTOCOL_NAMESPACE_CHARACTER_SIZE as nat,
                    ) {
                        Err(e) => Err(e),
                        Ok((ns, p4)) => match expect_zero(bs, p4, 1, ExiError::DeviantsNotSupported) {
                            Err(e) => Err(e),
                            Ok((_, p5)) => Ok((ns, p5)),
                        },
                    }
                },
            },
        },
    }
}

/// States 1 and 2: an element holding a typed unsigned 32-bit value.
#[verifier::opaque]
pub open spec fn dec_u32_element(bs: Seq<bool>, p: int) -> Decoding<u32> {
    match expect_zero(bs, p, 1, ExiError::UnknownEventCode) {
        Err(e) => Err(e),
        Ok((_, p1)) => dec_typed(bs, p1, |q: int| dec_u32(bs, q)),
    }
}

/// States 3 and 4: an element holding an `n`-bit value.
#[verifier::opaque]
pub open spec fn dec_nbit_element(bs: Seq<bool>, p: int, n: nat) -> Decoding<nat> {
    match expect_zero(bs, p, 1, ExiError::UnknownEventCode) {
        Err(e) => Err(e),
        Ok((_, p1)) => match expect_zero(bs, p1, 1, ExiError::UnsupportedSubEvent) {
            Err(e) => Err(e),
            Ok((_, p2)) => match read_field(bs, p2, n) {
                Err(e) => Err(e),
                Ok((v, p3)) => match expect_zero(bs, p3, 1, ExiError::DeviantsNotSupported) {
                    Err(e) => Err(e),
                    Ok((_, p4)) => Ok((v, p4)),
                },
            },
        },
    }
}

/// An `AppProtocolType` read from the wire (states 0 to 5).
#[verifier::opaque]
pub open spec fn dec_entry(bs: Seq<bool>, p: int) -> Decoding<ProtocolEntryModel> {
    match dec_namespace_element(bs, p) {
        Err(e) => Err(e),
        Ok((ns, p1)) => match dec_u32_element(bs, p1) {
            Err(e) => Err(e),
            Ok((major, p2)) => match dec_u32_element(bs, p2) {
                Err(e) => Err(e),
                Ok((minor, p3)) => match dec_nbit_element(bs, p3, 8) {
                    Err(e) => Err(e),
                    Ok((schema_id, p4)) => match dec_nbit_element(bs, p4, 5) {
                        Err(e) => Err(e),
                        Ok((priority, p5)) => match expect_zero(
                            bs,
                            p5,
                            1,
                            ExiError::UnknownEventCode,
                        ) {
                            Err(e) => Err(e),
                            Ok((_, p6)) => Ok(
                                (
                                    ProtocolEntryModel {
                                        namespace: ns,
                                        version_number_major: major,
                                        version_number_minor: minor,
                                        schema_id: schema_id as u8,
                                        priority: (priority + 1) as u8,
                                    },
                                    p6,
                                ),
                            ),
                        },
                    },
                },
            },
        },
    }
}

/// The rest of a request after the entries `acc` (states 8 to 11, and 5 after a fifth
/// entry).
pub open spec fn dec_req_list(bs: Seq<bool>, p: int, acc: Seq<ProtocolEntryModel>) -> Decoding<Seq<ProtocolEntryModel>>
    decreases APP_HAND_APPPROTOCOLTYPE_5_ARRAY_SIZE - acc.len(),
{
    if acc.len() >= APP_HAND_APPPROTOCOLTYPE_5_ARRAY_SIZE {
        match expect_zero(bs, p, 1, ExiError::UnknownEventCode) {
            Err(e) => Err(e),
            Ok((_, q)) => Ok((acc, q)),
        }
    } else {
        match read_field(bs, p, 2) {
            Err(e) => Err(e),
            Ok((v, q)) => if v == 0 {
                match dec_entry(bs, q) {
                    Err(e) => Err(e),
                    Ok((e, q2)) => dec_req_list(bs, q2, acc.push(e)),
                }
            } else if v == 1 {
                Ok((acc, q))
            } else {
                Err(ExiError::UnknownEventCode)
            },
        }
    }
}

/// A `SupportedAppProtocolReq` read from the wire (state 7 and on).
pub open spec fn dec_req(bs: Seq<bool>, p: int) -> Decoding<Seq<ProtocolEntryModel>> {
    match expect_zero(bs, p, 1, ExiError::UnknownEventCode) {
        Err(e) => Err(e),
        Ok((_, q)) => match dec_entry(bs, q) {
            Err(e) => Err(e),
            Ok((e, q2)) => dec_req_list(bs, q2, seq![e]),
        },
    }
}

/// The response code with wire value `v`.
pub open spec fn code_from(v: nat) -> ResponseCode {
    if v == 0 {
        ResponseCode::OkSuccessfulNegotiation
    } else if v == 1 {
        ResponseCode::OkSuccessfulNegotiationWithMinorDeviation
    } else {
        ResponseCode::FailedNoNegotiation
    }
}

/// State 13 onwards: the optional schema id and the end of the response.
pub open spec fn dec_res_schema(bs: Seq<bool>, p: int) -> Decoding<Option<u8>> {
    match read_field(bs, p, 2) {
        Err(e) => Err(e),
        Ok((v, p1)) => if v == 0 {
            match expect_zero(bs, p1, 1, ExiError::UnsupportedSubEvent) {
                Err(e) => Err(e),
                Ok((_, p2)) => match read_field(bs, p2, 8) {
                    Err(e) => Err(e),
                    Ok((s, p3)) => match expect_zero(bs, p3, 1, ExiError::DeviantsNotSupported) {
                        Err(e) => Err(e),
                        Ok((_, p4)) => match expect_zero(bs, p4, 1, ExiError::UnknownEventCode) {
                            Err(e) => Err(e),
                            Ok((_, p5)) => Ok((Some(s as u8), p5)),
                        },
                    },
                },
            }
        } else if v == 1 {
            Ok((None, p1))
        } else {
            Err(ExiError::UnknownEventCode)
        },
    }
}

/// A `SupportedAppProtocolRes` read from the wire (states 12, 13, 5); a response code above
/// 2 is no event the grammar knows.
pub open spec fn dec_res(bs: Seq<bool>, p: int) -> Decoding<ResponseModel> {
    match expect_zero(bs, p, 1, ExiError::UnknownEventCode) {
        Err(e) => Err(e),
        Ok((_, p1)) => match expect_zero(bs, p1, 1, ExiError::UnsupportedSubEvent) {
            Err(e) => Err(e),
            Ok((_, p2)) => match read_field(bs, p2, 2) {
                Err(e) => Err(e),
                Ok((code, p3)) => if code > 2 {
                    Err(ExiError::UnknownEventCode)
                } else {
                    match expect_zero(bs, p3, 1, ExiError::DeviantsNotSupported) {
                        Err(e) => Err(e),
                        Ok((_, p4)) => match dec_res_schema(bs, p4) {
                            Err(e) => Err(e),
                            Ok((schema_id, p5)) => Ok(
                                (ResponseModel { response_code: code_from(code), schema_id }, p5),
                            ),
                        },
                    }
                },
            },
        },
    }
}

/// A handshake document read from the wire.
pub open spec fn dec_doc(bs: Seq<bool>, p: int) -> Decoding<DocumentModel> {
    match dec_header(bs, p) {
        Err(e) => Err(e),
        Ok((_, p1)) => match read_field(bs, p1, 2) {
            Err(e) => Err(e),
            Ok((v, p2)) => if v == 0 {
                match dec_req(bs, p2) {
                    Err(e) => Err(e),
                    Ok((es, p3)) => Ok((DocumentModel::Req(es), p3)),
                }
            } else if v == 1 {
                match dec_res(bs, p2) {
                    Err(e) => Err(e),
                    Ok((r, p3)) => Ok((DocumentModel::Res(r), p3)),
                }
            } else {
                Err(ExiError::UnsupportedSubEvent)
            },
        },
    }
}

} // verus!
