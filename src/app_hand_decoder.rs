//! Readers of handshake documents.
use crate::app_hand_datatypes::{
    AppHandAppProtocolType, AppHandSupportedAppProtocolReq, AppHandSupportedAppProtocolRes,
    AppProtocolExiDocument, ProtocolEntryModel, ResponseCode, APP_HAND_APPPROTOCOLTYPE_5_ARRAY_SIZE,
    APP_HAND_PROTOCOL_NAMESPACE_CHARACTER_SIZE,
};
use crate::app_hand_grammar::{
    code_from, dec_doc, dec_entry, dec_namespace_element, dec_nbit_element, dec_req,
    dec_req_list, dec_res, dec_res_schema, dec_u32_element, expect_zero,
};
use crate::exi_basetypes_decoder::{decoder_characters, decoder_nbit_uint, decoder_u16};
use crate::exi_bitstream::{lemma_read_field_fits, ExiBitstream};
use crate::exi_error_codes::ExiError;
use crate::exi_header::exi_header_read_and_check;
use crate::exi_types_decoder::decode_exi_type_u32;
use vstd::prelude::*;

verus! {

broadcast use lemma_read_field_fits;

/// State 0: the namespace.
fn decode_namespace_element(stream: &mut ExiBitstream) -> (r: Result<String, ExiError>)
    requires
        old(stream).wf(),
    ensures
        final(stream).wf(),
        final(stream).same_frame(old(stream)),
        final(stream).data@ == old(stream).data@,
        match dec_namespace_element(old(stream).bits(), old(stream).pos()) {
            Ok((ns, q)) => r is Ok && r->Ok_0@ == ns && final(stream).pos() == q,
            Err(e) => r == Err::<String, ExiError>(e),
        },
{
    proof {
        reveal(dec_namespace_element);
    }
    // Start(ProtocolNamespace)
    if decoder_nbit_uint(stream, 1)? != 0 {
        return Err(ExiError::UnknownEventCode);
    }
    // Start(ProtocolNamespace, anyURI)
    if decoder_nbit_uint(stream, 1)? != 0 {
        return Err(ExiError::UnsupportedSubEvent);
    }
    let characters_len = decoder_u16(stream)?;
    if characters_len < 2 {
        return Err(ExiError::StringvaluesNotSupported);
    }
    let protocol_namespace = decoder_characters(
        stream,
        (characters_len - 2) as usize,
        APP_HAND_PROTOCOL_NAMESPACE_CHARACTER_SIZE as usize,
    )?;
    // EE
    if decoder_nbit_uint(stream, 1)? != 0 {
        return Err(ExiError::DeviantsNotSupported);
    }
    Ok(protocol_namespace)
}

/// States 1 and 2: a version number.
fn decode_u32_element(stream: &mut ExiBitstream) -> (r: Result<u32, ExiError>)
    requires
        old(stream).wf(),
    ensures
        ExiBitstream::decoded(*old(stream), *final(stream), r, dec_u32_element(old(stream).bits(), old(stream).pos())),
{
    proof {
        reveal(dec_u32_element);
    }
    if decoder_nbit_uint(stream, 1)? != 0 {
        return Err(ExiError::UnknownEventCode);
    }
    decode_exi_type_u32(stream)
}

/// States 3 and 4: a schema id or a priority, as `bit_count` raw bits.
fn decode_nbit_element(stream: &mut ExiBitstream, bit_count: usize) -> (r: Result<u32, ExiError>)
    requires
        old(stream).wf(),
        bit_count <= 8,
    ensures
        ExiBitstream::decoded(
            *old(stream),
            *final(stream),
            r,
            match dec_nbit_element(old(stream).bits(), old(stream).pos(), bit_count as nat) {
                Ok((v, q)) => Ok((v as u32, q)),
                Err(e) => Err(e),
            },
        ),
        dec_nbit_element(old(stream).bits(), old(stream).pos(), bit_count as nat) is Ok ==> dec_nbit_element(
            old(stream).bits(),
            old(stream).pos(),
            bit_count as nat,
        )->Ok_0.0 < vstd::arithmetic::power2::pow2(bit_count as nat),
{
    proof {
        reveal(dec_nbit_element);
    }
    if decoder_nbit_uint(stream, 1)? != 0 {
        return Err(ExiError::UnknownEventCode);
    }
    if decoder_nbit_uint(stream, 1)? != 0 {
        return Err(ExiError::UnsupportedSubEvent);
    }
    let value = decoder_nbit_uint(stream, bit_count)?;
    if decoder_nbit_uint(stream, 1)? != 0 {
        return Err(ExiError::DeviantsNotSupported);
    }
    Ok(value)
}

/// Reads one `AppProtocolType` (states 0 to 5 of its grammar).
fn decode_app_protocol_type(stream: &mut ExiBitstream) -> (r: Result<AppHandAppProtocolType, ExiError>)
    requires
        old(stream).wf(),
    ensures
        final(stream).wf(),
        final(stream).same_frame(old(stream)),
        final(stream).data@ == old(stream).data@,
        match dec_entry(old(stream).bits(), old(stream).pos()) {
            Ok((e, q)) => r is Ok && r->Ok_0@ == e && final(stream).pos() == q,
            Err(e) => r == Err::<AppHandAppProtocolType, ExiError>(e),
        },
{
    let ghost bs = stream.bits();
    proof {
        reveal(dec_entry);
    }
    // state 0
    let protocol_namespace = decode_namespace_element(stream)?;
    // states 1 and 2
    let version_number_major = decode_u32_element(stream)?;
    let version_number_minor = decode_u32_element(stream)?;
    // state 3
    let schema_id = decode_nbit_element(stream, 8)?;
    // state 4
    let priority = decode_nbit_element(stream, 5)?;
    // state 5: EE
    if decoder_nbit_uint(stream, 1)? != 0 {
        return Err(ExiError::UnknownEventCode);
    }
    proof {
        vstd::arithmetic::power2::lemma2_to64();
    }
    Ok(
        AppHandAppProtocolType::new(
            protocol_namespace,
            version_number_major,
            version_number_minor,
            schema_id as u8,
            priority as u8 + 1,
        ),
    )
}

/// Reads a request: a first entry (state 7), further entries each after a 2-bit 0 (states 8
/// to 11) until a 2-bit 1 ends the list, or a 1-bit end element after a fifth (state 5).
fn decode_supported_app_protocol_req(stream: &mut ExiBitstream) -> (r: Result<AppHandSupportedAppProtocolReq, ExiError>)
    requires
        old(stream).wf(),
    ensures
        final(stream).wf(),
        final(stream).same_frame(old(stream)),
        final(stream).data@ == old(stream).data@,
        match dec_req(old(stream).bits(), old(stream).pos()) {
            Ok((es, q)) => r is Ok && r->Ok_0@ == es && final(stream).pos() == q,
            Err(e) => r == Err::<AppHandSupportedAppProtocolReq, ExiError>(e),
        },
{
    let ghost bs = stream.bits();
    let ghost p0 = stream.pos();
    let mut app_hand_request: Vec<AppHandAppProtocolType> = Vec::new();
    // state 7
    if decoder_nbit_uint(stream, 1)? != 0 {
        return Err(ExiError::UnknownEventCode);
    }
    let first = decode_app_protocol_type(stream)?;
    app_hand_request.push(first);
    proof {
        assert(app_hand_request@.map_values(|e: AppHandAppProtocolType| e@) =~= seq![first@]);
    }
    loop
        invariant
            stream.wf(),
            stream.same_frame(old(stream)),
            stream.data@ == old(stream).data@,
            bs == old(stream).bits(),
            p0 == old(stream).pos(),
            1 <= app_hand_request@.len() <= APP_HAND_APPPROTOCOLTYPE_5_ARRAY_SIZE,
            dec_req(bs, p0) == dec_req_list(
                bs,
                stream.pos(),
                app_hand_request@.map_values(|e: AppHandAppProtocolType| e@),
            ),
        decreases APP_HAND_APPPROTOCOLTYPE_5_ARRAY_SIZE - app_hand_request@.len(),
    {
        if app_hand_request.len() == APP_HAND_APPPROTOCOLTYPE_5_ARRAY_SIZE as usize {
            // state 5: EE
            if decoder_nbit_uint(stream, 1)? != 0 {
                return Err(ExiError::UnknownEventCode);
            }
            return Ok(AppHandSupportedAppProtocolReq::new(app_hand_request));
        }
        // states 8 to 11
        let event_code = decoder_nbit_uint(stream, 2)?;
        if event_code == 0 {
            let entry = decode_app_protocol_type(stream)?;
            let ghost before = app_hand_request@;
            app_hand_request.push(entry);
            proof {
                assert(app_hand_request@.map_values(|e: AppHandAppProtocolType| e@) =~= before.map_values(
                    |e: AppHandAppProtocolType| e@,
                ).push(entry@));
            }
        } else if event_code == 1 {
            // EE
            return Ok(AppHandSupportedAppProtocolReq::new(app_hand_request));
        } else {
            return Err(ExiError::UnknownEventCode);
        }
    }
}

/// Reads a response: the response code (state 12), the optional schema id (state 13) and
/// the end element (state 5).
fn decode_supported_app_protocol_res(stream: &mut ExiBitstream) -> (r: Result<AppHandSupportedAppProtocolRes, ExiError>)
    requires
        old(stream).wf(),
    ensures
        final(stream).wf(),
        final(stream).same_frame(old(stream)),
        final(stream).data@ == old(stream).data@,
        match dec_res(old(stream).bits(), old(stream).pos()) {
            Ok((res, q)) => r is Ok && r->Ok_0@ == res && final(stream).pos() == q,
            Err(e) => r == Err::<AppHandSupportedAppProtocolRes, ExiError>(e),
        },
{
    // state 12: Start(ResponseCode)
    if decoder_nbit_uint(stream, 1)? != 0 {
        return Err(ExiError::UnknownEventCode);
    }
    // Start(responseCodeType)
    if decoder_nbit_uint(stream, 1)? != 0 {
        return Err(ExiError::UnsupportedSubEvent);
    }
    let value = decoder_nbit_uint(stream, 2)?;
    let response_code = match ResponseCode::try_from(value) {
        Ok(code) => code,
        Err(()) => {
            return Err(ExiError::UnknownEventCode);
        },
    };
    // EE
    if decoder_nbit_uint(stream, 1)? != 0 {
        return Err(ExiError::DeviantsNotSupported);
    }
    proof {
        assert(response_code == code_from(value as nat));
    }
    // state 13
    let schema_id;
    let event_code = decoder_nbit_uint(stream, 2)?;
    if event_code == 0 {
        // Start(SchemaID)
        if decoder_nbit_uint(stream, 1)? != 0 {
            return Err(ExiError::UnsupportedSubEvent);
        }
        let value = decoder_nbit_uint(stream, 8)?;
        // EE
        if decoder_nbit_uint(stream, 1)? != 0 {
            return Err(ExiError::DeviantsNotSupported);
        }
        // state 5: EE
        if decoder_nbit_uint(stream, 1)? != 0 {
            return Err(ExiError::UnknownEventCode);
        }
        schema_id = Some(value as u8);
    } else if event_code == 1 {
        // EE
        schema_id = None;
    } else {
        return Err(ExiError::UnknownEventCode);
    }
    Ok(AppHandSupportedAppProtocolRes::new(response_code, schema_id))
}

/// Reads a document: checks the header, then reads the 2-bit root event (0: request, 1:
/// response) and the message.
pub fn decode_exi_document(stream: &mut ExiBitstream) -> (r: Result<AppProtocolExiDocument, ExiError>)
    requires
        old(stream).wf(),
    ensures
        final(stream).wf(),
        final(stream).same_frame(old(stream)),
        final(stream).data@ == old(stream).data@,
        match dec_doc(old(stream).bits(), old(stream).pos()) {
            Ok((d, q)) => r is Ok && r->Ok_0@ == d && final(stream).pos() == q,
            Err(e) => r == Err::<AppProtocolExiDocument, ExiError>(e),
        },
{
    exi_header_read_and_check(stream)?;
    let event_code = decoder_nbit_uint(stream, 2)?;
    if event_code == 0 {
        let request = decode_supported_app_protocol_req(stream)?;
        Ok(AppProtocolExiDocument::SupportedAppProtocolReq(request))
    } else if event_code == 1 {
        let response = decode_supported_app_protocol_res(stream)?;
        Ok(AppProtocolExiDocument::SupportedAppProtocolRes(response))
    } else {
        Err(ExiError::UnsupportedSubEvent)
    }
}

} // verus!
