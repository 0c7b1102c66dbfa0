//! Writers of handshake documents.
use crate::app_hand_datatypes::{
    AppHandAppProtocolType, AppHandSupportedAppProtocolReq, AppHandSupportedAppProtocolRes,
    AppProtocolExiDocument, ProtocolEntryModel, APP_HAND_APPPROTOCOLTYPE_5_ARRAY_SIZE,
    APP_HAND_PROTOCOL_NAMESPACE_CHARACTER_SIZE,
};
use crate::app_hand_grammar::{
    doc_steps, enc_doc, enc_entry, enc_req, enc_res, entry_steps, namespace_len_field, req_steps,
    res_steps,
};
use crate::exi_basetypes_encoder::{encoder_characters, encoder_nbit_uint, encoder_u16, encoder_u32};
use crate::exi_bitstream::{emit, emit_from, then, ExiBitstream};
use crate::exi_error_codes::ExiError;
use crate::exi_header::exi_header_write;
use vstd::prelude::*;
use vstd::string::StrSliceExecFns;

verus! {

/// Writes one `AppProtocolType` (states 0 to 5 of its grammar).
fn encode_app_protocol_type(stream: &mut ExiBitstream, app_protocol_type: &AppHandAppProtocolType) -> (r: Result<(), ExiError>)
    requires
        old(stream).wf(),
    ensures
        ExiBitstream::emitted(*old(stream), *final(stream), r, enc_entry(app_protocol_type@)),
{
    let ghost steps = entry_steps(app_protocol_type@);
    let ghost s0 = *stream;
    let ghost mut cur = *stream;
    let ghost mut acc: Seq<bool> = Seq::empty();
    proof {
        ExiBitstream::lemma_emitted_start(s0, steps);
    }
    let namespace = app_protocol_type.namespace();
    let len = namespace.as_str().unicode_len();
    let low: u16 = (len % 0x1_0000) as u16;
    let len_field: u16 = if low <= 0xFFFD {
        low + 2
    } else {
        low - 0xFFFE
    };
    proof {
        let l = len as int;
        vstd::arithmetic::div_mod::lemma_fundamental_div_mod(l, 0x1_0000);
        let q = l / 0x1_0000;
        if low <= 0xFFFD {
            vstd::arithmetic::div_mod::lemma_fundamental_div_mod_converse(l + 2, 0x1_0000, q, low + 2);
        } else {
            vstd::arithmetic::div_mod::lemma_fundamental_div_mod_converse(
                l + 2,
                0x1_0000,
                q + 1,
                low - 0xFFFE,
            );
        }
    }
    // state 0: Start(ProtocolNamespace)
    let r = encoder_nbit_uint(stream, 1, 0);
    proof {
        ExiBitstream::lemma_emitted_step(s0, cur, *stream, acc, steps, 0, r);
        if r is Ok {
            acc = acc + steps[0].0;
        }
        cur = *stream;
    }
    r?;
    // Start(anyURI)
    let r = encoder_nbit_uint(stream, 1, 0);
    proof {
        ExiBitstream::lemma_emitted_step(s0, cur, *stream, acc, steps, 1, r);
        if r is Ok {
            acc = acc + steps[1].0;
        }
        cur = *stream;
    }
    r?;
    // the string is not in the table, so its length is sent plus 2
    let r = encoder_u16(stream, len_field);
    proof {
        ExiBitstream::lemma_emitted_step(s0, cur, *stream, acc, steps, 2, r);
        if r is Ok {
            acc = acc + steps[2].0;
        }
        cur = *stream;
    }
    r?;
    let r = encoder_characters(stream, namespace.as_str(), APP_HAND_PROTOCOL_NAMESPACE_CHARACTER_SIZE as usize);
    proof {
        ExiBitstream::lemma_emitted_step(s0, cur, *stream, acc, steps, 3, r);
        if r is Ok {
            acc = acc + steps[3].0;
        }
        cur = *stream;
    }
    r?;
    // EE
    let r = encoder_nbit_uint(stream, 1, 0);
    proof {
        ExiBitstream::lemma_emitted_step(s0, cur, *stream, acc, steps, 4, r);
        if r is Ok {
            acc = acc + steps[4].0;
        }
        cur = *stream;
    }
    r?;
    // state 1: Start(VersionNumberMajor)
    let r = encoder_nbit_uint(stream, 1, 0);
    proof {
        ExiBitstream::lemma_emitted_step(s0, cur, *stream, acc, steps, 5, r);
        if r is Ok {
            acc = acc + steps[5].0;
        }
        cur = *stream;
    }
    r?;
    // Start(unsignedInt)
    let r = encoder_nbit_uint(stream, 1, 0);
    proof {
        ExiBitstream::lemma_emitted_step(s0, cur, *stream, acc, steps, 6, r);
        if r is Ok {
            acc = acc + steps[6].0;
        }
        cur = *stream;
    }
    r?;
    let r = encoder_u32(stream, app_protocol_type.version_number_major());
    proof {
        ExiBitstream::lemma_emitted_step(s0, cur, *stream, acc, steps, 7, r);
        if r is Ok {
            acc = acc + steps[7].0;
        }
        cur = *stream;
    }
    r?;
    // EE
    let r = encoder_nbit_uint(stream, 1, 0);
    proof {
        ExiBitstream::lemma_emitted_step(s0, cur, *stream, acc, steps, 8, r);
        if r is Ok {
            acc = acc + steps[8].0;
        }
        cur = *stream;
    }
    r?;
    // state 2: Start(VersionNumberMinor)
    let r = encoder_nbit_uint(stream, 1, 0);
    proof {
        ExiBitstream::lemma_emitted_step(s0, cur, *stream, acc, steps, 9, r);
        if r is Ok {
            acc = acc + steps[9].0;
        }
        cur = *stream;
    }
    r?;
    // Start(unsignedInt)
    let r = encoder_nbit_uint(stream, 1, 0);
    proof {
        ExiBitstream::lemma_emitted_step(s0, cur, *stream, acc, steps, 10, r);
        if r is Ok {
            acc = acc + steps[10].0;
        }
        cur = *stream;
    }
    r?;
    let r = encoder_u32(stream, app_protocol_type.version_number_minor());
    proof {
        ExiBitstream::lemma_emitted_step(s0, cur, *stream, acc, steps, 11, r);
        if r is Ok {
            acc = acc + steps[11].0;
        }
        cur = *stream;
    }
    r?;
    // EE
    let r = encoder_nbit_uint(stream, 1, 0);
    proof {
        ExiBitstream::lemma_emitted_step(s0, cur, *stream, acc, steps, 12, r);
        if r is Ok {
            acc = acc + steps[12].0;
        }
        cur = *stream;
    }
    r?;
    // state 3: Start(SchemaID)
    let r = encoder_nbit_uint(stream, 1, 0);
    proof {
        ExiBitstream::lemma_emitted_step(s0, cur, *stream, acc, steps, 13, r);
        if r is Ok {
            acc = acc + steps[13].0;
        }
        cur = *stream;
    }
    r?;
    // Start(unsignedByte)
    let r = encoder_nbit_uint(stream, 1, 0);
    proof {
        ExiBitstream::lemma_emitted_step(s0, cur, *stream, acc, steps, 14, r);
        if r is Ok {
            acc = acc + steps[14].0;
        }
        cur = *stream;
    }
    r?;
    let r = encoder_nbit_uint(stream, 8, app_protocol_type.schema_id() as u32);
    proof {
        ExiBitstream::lemma_emitted_step(s0, cur, *stream, acc, steps, 15, r);
        if r is Ok {
            acc = acc + steps[15].0;
        }
        cur = *stream;
    }
    r?;
    // EE
    let r = encoder_nbit_uint(stream, 1, 0);
    proof {
        ExiBitstream::lemma_emitted_step(s0, cur, *stream, acc, steps, 16, r);
        if r is Ok {
            acc = acc + steps[16].0;
        }
        cur = *stream;
    }
    r?;
    // state 4: Start(Priority)
    let r = encoder_nbit_uint(stream, 1, 0);
    proof {
        ExiBitstream::lemma_emitted_step(s0, cur, *stream, acc, steps, 17, r);
        if r is Ok {
            acc = acc + steps[17].0;
        }
        cur = *stream;
    }
    r?;
    // Start(unsignedByte), sent as priority - 1 in 5 bits
    let r = encoder_nbit_uint(stream, 1, 0);
    proof {
        ExiBitstream::lemma_emitted_step(s0, cur, *stream, acc, steps, 18, r);
        if r is Ok {
            acc = acc + steps[18].0;
        }
        cur = *stream;
    }
    r?;
    let r = encoder_nbit_uint(stream, 5, (app_protocol_type.priority() - 1) as u32);
    proof {
        ExiBitstream::lemma_emitted_step(s0, cur, *stream, acc, steps, 19, r);
        if r is Ok {
            acc = acc + steps[19].0;
        }
        cur = *stream;
    }
    r?;
    // EE
    let r = encoder_nbit_uint(stream, 1, 0);
    proof {
        ExiBitstream::lemma_emitted_step(s0, cur, *stream, acc, steps, 20, r);
        if r is Ok {
            acc = acc + steps[20].0;
        }
        cur = *stream;
    }
    r?;
    // state 5: End(AppProtocol)
    let r = encoder_nbit_uint(stream, 1, 0);
    proof {
        ExiBitstream::lemma_emitted_step(s0, cur, *stream, acc, steps, 21, r);
        if r is Ok {
            acc = acc + steps[21].0;
        }
        cur = *stream;
    }
    r?;
    proof {
        ExiBitstream::lemma_emitted_end(s0, cur, acc, steps);
    }
    Ok(())
}

/// Writes a request: the first entry (state 7), each further entry after a 2-bit 0 (states 8
/// to 11), and the end of the list: a 2-bit 1, or after a fifth entry the 1-bit end element
/// of state 5.
fn encode_supported_app_protocol_req(stream: &mut ExiBitstream, request: &AppHandSupportedAppProtocolReq) -> (r: Result<(), ExiError>)
    requires
        old(stream).wf(),
    ensures
        ExiBitstream::emitted(*old(stream), *final(stream), r, enc_req(request@)),
{
    let entries = request.app_protocol();
    let count = entries.len();
    if count == 0 {
        return Err(ExiError::UnknownEventCode);
    }
    if count > APP_HAND_APPPROTOCOLTYPE_5_ARRAY_SIZE as usize {
        return Err(ExiError::ArrayOutOfBounds);
    }
    let ghost es = request@;
    let ghost steps = req_steps(es);
    let ghost s0 = *stream;
    let ghost mut cur = *stream;
    let ghost mut acc: Seq<bool> = Seq::empty();
    proof {
        ExiBitstream::lemma_emitted_start(s0, steps);
        assert(entries@[0]@ == es[0]);
    }
    // state 7: Start(AppProtocol)
    let r = encoder_nbit_uint(stream, 1, 0);
    proof {
        ExiBitstream::lemma_emitted_step(s0, cur, *stream, acc, steps, 0, r);
        if r is Ok {
            acc = acc + steps[0].0;
        }
        cur = *stream;
    }
    r?;
    let r = encode_app_protocol_type(stream, &entries[0]);
    proof {
        ExiBitstream::lemma_emitted_step(s0, cur, *stream, acc, steps, 1, r);
        if r is Ok {
            acc = acc + steps[1].0;
        }
        cur = *stream;
    }
    r?;
    let mut index: usize = 1;
    while index < count
        invariant
            s0 == *old(stream),
            s0.wf(),
            es == request@,
            entries@.map_values(|e: AppHandAppProtocolType| e@) == es,
            count == entries@.len(),
            1 <= count <= 5,
            steps == req_steps(es),
            1 <= index <= count,
            cur == *stream,
            ExiBitstream::emitted(s0, cur, Ok(()), emit(acc)),
            then(emit(acc), emit_from(steps, 2 * index)) == emit_from(steps, 0),
        decreases count - index,
    {
        proof {
            assert(entries@[index as int]@ == es[index as int]);
            assert((2 * index + 1 - 1) / 2 == index);
        }
        // states 8 to 11: another AppProtocol
        let r = encoder_nbit_uint(stream, 2, 0);
        proof {
            ExiBitstream::lemma_emitted_step(s0, cur, *stream, acc, steps, 2 * index as int, r);
            if r is Ok {
                acc = acc + steps[2 * index as int].0;
            }
            cur = *stream;
        }
        r?;
        let r = encode_app_protocol_type(stream, &entries[index]);
        proof {
            ExiBitstream::lemma_emitted_step(s0, cur, *stream, acc, steps, 2 * index as int + 1, r);
            if r is Ok {
                acc = acc + steps[2 * index as int + 1].0;
            }
            cur = *stream;
        }
        r?;
        index += 1;
    }
    if count == APP_HAND_APPPROTOCOLTYPE_5_ARRAY_SIZE as usize {
        // state 5: EE
        let r = encoder_nbit_uint(stream, 1, 0);
        proof {
            ExiBitstream::lemma_emitted_step(s0, cur, *stream, acc, steps, 2 * index as int, r);
            if r is Ok {
                acc = acc + steps[2 * index as int].0;
            }
            cur = *stream;
        }
        r?;
    } else {
        // EE of the list
        let r = encoder_nbit_uint(stream, 2, 1);
        proof {
            ExiBitstream::lemma_emitted_step(s0, cur, *stream, acc, steps, 2 * index as int, r);
            if r is Ok {
                acc = acc + steps[2 * index as int].0;
            }
            cur = *stream;
        }
        r?;
    }
    proof {
        ExiBitstream::lemma_emitted_end(s0, cur, acc, steps);
    }
    Ok(())
}

/// Writes a response: the response code (state 12), the schema id if there is one
/// (state 13), and the end element (state 5).
fn encode_supported_app_protocol_res(stream: &mut ExiBitstream, response: &AppHandSupportedAppProtocolRes) -> (r: Result<(), ExiError>)
    requires
        old(stream).wf(),
    ensures
        ExiBitstream::emitted(*old(stream), *final(stream), r, enc_res(response@)),
{
    let ghost steps = res_steps(response@);
    let ghost s0 = *stream;
    let ghost mut cur = *stream;
    let ghost mut acc: Seq<bool> = Seq::empty();
    proof {
        ExiBitstream::lemma_emitted_start(s0, steps);
    }
    // state 12: Start(ResponseCode)
    let r = encoder_nbit_uint(stream, 1, 0);
    proof {
        ExiBitstream::lemma_emitted_step(s0, cur, *stream, acc, steps, 0, r);
        if r is Ok {
            acc = acc + steps[0].0;
        }
        cur = *stream;
    }
    r?;
    // Start(responseCodeType)
    let r = encoder_nbit_uint(stream, 1, 0);
    proof {
        ExiBitstream::lemma_emitted_step(s0, cur, *stream, acc, steps, 1, r);
        if r is Ok {
            acc = acc + steps[1].0;
        }
        cur = *stream;
    }
    r?;
    let r = encoder_nbit_uint(stream, 2, response.response_code() as u32);
    proof {
        ExiBitstream::lemma_emitted_step(s0, cur, *stream, acc, steps, 2, r);
        if r is Ok {
            acc = acc + steps[2].0;
        }
        cur = *stream;
    }
    r?;
    // EE
    let r = encoder_nbit_uint(stream, 1, 0);
    proof {
        ExiBitstream::lemma_emitted_step(s0, cur, *stream, acc, steps, 3, r);
        if r is Ok {
            acc = acc + steps[3].0;
        }
        cur = *stream;
    }
    r?;
    // state 13
    match response.schema_id() {
        Some(schema_id) => {
            // Start(SchemaID)
            let r = encoder_nbit_uint(stream, 2, 0);
            proof {
                ExiBitstream::lemma_emitted_step(s0, cur, *stream, acc, steps, 4, r);
                if r is Ok {
                    acc = acc + steps[4].0;
                }
                cur = *stream;
            }
            r?;
            // Start(unsignedByte)
            let r = encoder_nbit_uint(stream, 1, 0);
            proof {
                ExiBitstream::lemma_emitted_step(s0, cur, *stream, acc, steps, 5, r);
                if r is Ok {
                    acc = acc + steps[5].0;
                }
                cur = *stream;
            }
            r?;
            let r = encoder_nbit_uint(stream, 8, schema_id as u32);
            proof {
                ExiBitstream::lemma_emitted_step(s0, cur, *stream, acc, steps, 6, r);
                if r is Ok {
                    acc = acc + steps[6].0;
                }
                cur = *stream;
            }
            r?;
            // EE
            let r = encoder_nbit_uint(stream, 1, 0);
            proof {
                ExiBitstream::lemma_emitted_step(s0, cur, *stream, acc, steps, 7, r);
                if r is Ok {
                    acc = acc + steps[7].0;
                }
                cur = *stream;
            }
            r?;
            // state 5: EE
            let r = encoder_nbit_uint(stream, 1, 0);
            proof {
                ExiBitstream::lemma_emitted_step(s0, cur, *stream, acc, steps, 8, r);
                if r is Ok {
                    acc = acc + steps[8].0;
                }
                cur = *stream;
            }
            r?;
        },
        None => {
            // EE
            let r = encoder_nbit_uint(stream, 2, 1);
            proof {
                ExiBitstream::lemma_emitted_step(s0, cur, *stream, acc, steps, 4, r);
                if r is Ok {
                    acc = acc + steps[4].0;
                }
                cur = *stream;
            }
            r?;
        },
    }
    proof {
        ExiBitstream::lemma_emitted_end(s0, cur, acc, steps);
    }
    Ok(())
}

/// Writes a document: the header, the 2-bit root event (0: request, 1: response), and the
/// message.
pub fn encode_exi_document(stream: &mut ExiBitstream, exi_doc: AppProtocolExiDocument) -> (r: Result<(), ExiError>)
    requires
        old(stream).wf(),
    ensures
        ExiBitstream::emitted(*old(stream), *final(stream), r, enc_doc(exi_doc@)),
{
    let ghost steps = doc_steps(exi_doc@);
    let ghost s0 = *stream;
    let ghost mut cur = *stream;
    let ghost mut acc: Seq<bool> = Seq::empty();
    proof {
        ExiBitstream::lemma_emitted_start(s0, steps);
    }
    let r = exi_header_write(stream);
    proof {
        ExiBitstream::lemma_emitted_step(s0, cur, *stream, acc, steps, 0, r);
        if r is Ok {
            acc = acc + steps[0].0;
        }
        cur = *stream;
    }
    r?;
    match exi_doc {
        AppProtocolExiDocument::SupportedAppProtocolReq(request) => {
            let r = encoder_nbit_uint(stream, 2, 0);
            proof {
                ExiBitstream::lemma_emitted_step(s0, cur, *stream, acc, steps, 1, r);
                if r is Ok {
                    acc = acc + steps[1].0;
                }
                cur = *stream;
            }
            r?;
            let r = encode_supported_app_protocol_req(stream, &request);
            proof {
                ExiBitstream::lemma_emitted_step(s0, cur, *stream, acc, steps, 2, r);
                if r is Ok {
                    acc = acc + steps[2].0;
                }
                cur = *stream;
            }
            r?;
        },
        AppProtocolExiDocument::SupportedAppProtocolRes(response) => {
            let r = encoder_nbit_uint(stream, 2, 1);
            proof {
                ExiBitstream::lemma_emitted_step(s0, cur, *stream, acc, steps, 1, r);
                if r is Ok {
                    acc = acc + steps[1].0;
                }
                cur = *stream;
            }
            r?;
            let r = encode_supported_app_protocol_res(stream, &response);
            proof {
                ExiBitstream::lemma_emitted_step(s0, cur, *stream, acc, steps, 2, r);
                if r is Ok {
                    acc = acc + steps[2].0;
                }
                cur = *stream;
            }
            r?;
        },
    }
    proof {
        ExiBitstream::lemma_emitted_end(s0, cur, acc, steps);
    }
    Ok(())
}

} // verus!
