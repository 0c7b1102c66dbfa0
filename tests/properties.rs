use rustv2g::app_hand_datatypes::{
    AppHandAppProtocolType, AppHandSupportedAppProtocolReq, AppHandSupportedAppProtocolRes,
    AppProtocolExiDocument, ResponseCode,
};
use rustv2g::app_hand_decoder::decode_exi_document;
use rustv2g::app_hand_encoder::encode_exi_document;
use rustv2g::exi_basetypes::{
    ExiUnsigned, EXI_BASETYPES_MAX_OCTETS_SUPPORTED, EXI_BASETYPES_UINT16_MAX_OCTETS,
    EXI_BASETYPES_UINT32_MAX_OCTETS, EXI_BASETYPES_UINT8_MAX_OCTETS,
};
use rustv2g::exi_basetypes_decoder::{decoder_characters, decoder_i8, decoder_u16};
use rustv2g::exi_basetypes_encoder::{encoder_characters, encoder_i8};
use rustv2g::exi_bitstream::ExiBitstream;
use rustv2g::exi_error_codes::ExiError;
use rustv2g::exi_header::exi_header_read_and_check;
use rustv2g::exi_types_decoder::{
    decode_exi_type_hex_binary, decode_exi_type_i16, decode_exi_type_i32, decode_exi_type_i64,
    decode_exi_type_i8, decode_exi_type_u16, decode_exi_type_u32, decode_exi_type_u64,
    decode_exi_type_u8,
};

const DIN: &str = "urn:din:70121:2012:MsgDef";
const ISO: &str = "urn:iso:15118:2:2013:MsgDef";

const REQ_1: [u8; 34] = [
    0x80, 0x00, 0xDB, 0xAB, 0x93, 0x71, 0xD3, 0x23, 0x4B, 0x71, 0xD1, 0xB9, 0x81, 0x89, 0x91,
    0x89, 0xD1, 0x91, 0x81, 0x89, 0x91, 0xD2, 0x6B, 0x9B, 0x3A, 0x23, 0x2B, 0x30, 0x02, 0x00,
    0x00, 0x04, 0x00, 0x40,
];

fn entry(ns: &str, major: u32, minor: u32, schema_id: u8, priority: u8) -> AppHandAppProtocolType {
    AppHandAppProtocolType::new(ns.to_owned(), major, minor, schema_id, priority)
}

fn request(entries: Vec<AppHandAppProtocolType>) -> AppProtocolExiDocument {
    AppProtocolExiDocument::SupportedAppProtocolReq(AppHandSupportedAppProtocolReq::new(entries))
}

fn response(code: ResponseCode, schema_id: Option<u8>) -> AppProtocolExiDocument {
    AppProtocolExiDocument::SupportedAppProtocolRes(AppHandSupportedAppProtocolRes::new(code, schema_id))
}

fn encode(doc: AppProtocolExiDocument) -> (Result<(), ExiError>, ExiBitstream) {
    let vector = vec![0; 1024];
    let len = vector.len();
    let mut stream = ExiBitstream::new(vector, len, 0);
    let r = encode_exi_document(&mut stream, doc);
    (r, stream)
}

fn decode(bytes: &[u8]) -> Result<AppProtocolExiDocument, ExiError> {
    let vector = bytes.to_vec();
    let len = vector.len();
    let mut stream = ExiBitstream::new(vector, len, 0);
    decode_exi_document(&mut stream)
}

#[test]
fn round_trip_request_with_five_entries() {
    let make = || {
        request(vec![
            entry(DIN, 2, 0, 1, 1),
            entry(ISO, 2, 0, 2, 2),
            entry("urn:a", 300, 70000, 255, 32),
            entry("", 0, u32::MAX, 0, 17),
            entry("x", 1, 1, 9, 5),
        ])
    };
    let (r, mut stream) = encode(make());
    assert_eq!(r, Ok(()));
    stream.reset();
    assert_eq!(decode_exi_document(&mut stream), Ok(make()));
}

#[test]
fn round_trip_responses() {
    for (code, schema_id) in [
        (ResponseCode::OkSuccessfulNegotiation, Some(0)),
        (ResponseCode::OkSuccessfulNegotiationWithMinorDeviation, Some(7)),
        (ResponseCode::FailedNoNegotiation, None),
        (ResponseCode::OkSuccessfulNegotiation, Some(255)),
    ] {
        let (r, mut stream) = encode(response(code.clone(), schema_id));
        assert_eq!(r, Ok(()));
        stream.reset();
        assert_eq!(decode_exi_document(&mut stream), Ok(response(code, schema_id)));
    }
}

#[test]
fn decode_then_encode_gives_the_same_bytes() {
    let doc = decode(&REQ_1).unwrap();
    let (r, stream) = encode(doc);
    assert_eq!(r, Ok(()));
    assert_eq!(&stream.data[..REQ_1.len()], &REQ_1[..]);
    assert!(stream.data[REQ_1.len()..].iter().all(|b| *b == 0));
}

#[test]
fn length_counts_written_bits_rounded_up() {
    let vector = vec![0; 16];
    let mut stream = ExiBitstream::new(vector, 16, 0);
    assert_eq!(stream.get_length(), 0);
    assert_eq!(stream.write_bits(1, 1), Ok(()));
    assert_eq!(stream.get_length(), 1);
    assert_eq!(stream.write_bits(7, 0), Ok(()));
    assert_eq!(stream.get_length(), 1);
    assert_eq!(stream.write_bits(9, 0x1FF), Ok(()));
    assert_eq!(stream.get_length(), 3);
    assert_eq!(stream.write_bits(32, 0xDEAD_BEEF), Ok(()));
    assert_eq!(stream.get_length(), 7);
}

#[test]
fn length_counts_from_the_offset() {
    let vector = vec![0; 16];
    let mut stream = ExiBitstream::new(vector, 16, 3);
    assert_eq!(stream.write_bits(12, 0xABC), Ok(()));
    assert_eq!(stream.get_length(), 2);
    stream.reset();
    assert_eq!(stream.byte_pos, 3);
    assert_eq!(stream.read_bits(12), Ok(0xABC));
}

#[test]
fn reads_after_reset_return_what_was_written() {
    let vector = vec![0xFF; 32];
    let mut stream = ExiBitstream::new(vector, 32, 0);
    let writes: [(usize, u32); 6] = [(1, 1), (3, 5), (32, 0x1234_5678), (0, 0), (7, 0x55), (13, 0x1ABC)];
    for (n, v) in writes {
        assert_eq!(stream.write_bits(n, v), Ok(()));
    }
    assert_eq!(stream.write_octet(0xA5), Ok(()));
    stream.reset();
    for (n, v) in writes {
        assert_eq!(stream.read_bits(n), Ok(v));
    }
    assert_eq!(stream.read_octet(), Ok(0xA5));
}

fn septets_round_trip(value: u64, expected_len: usize) {
    let mut u = ExiUnsigned::new([0; EXI_BASETYPES_MAX_OCTETS_SUPPORTED], 0);
    assert_eq!(u.convert64_to(value), Ok(()));
    assert_eq!(*u.octets_count(), expected_len);
    assert_eq!(u.convert64_from(), Ok(value));
}

#[test]
fn unsigned_round_trip_and_length() {
    septets_round_trip(0, 1);
    septets_round_trip(1, 1);
    septets_round_trip(127, 1);
    septets_round_trip(128, 2);
    septets_round_trip(16383, 2);
    septets_round_trip(16384, 3);
    septets_round_trip(u32::MAX as u64, 5);
    septets_round_trip(1 << 63, 10);
    septets_round_trip(u64::MAX, 10);
}

#[test]
fn unsigned_32_bit_round_trip() {
    for (value, max) in [
        (255u32, EXI_BASETYPES_UINT8_MAX_OCTETS),
        (65535, EXI_BASETYPES_UINT16_MAX_OCTETS),
        (u32::MAX, EXI_BASETYPES_UINT32_MAX_OCTETS),
    ] {
        let mut u = ExiUnsigned::new([0; EXI_BASETYPES_MAX_OCTETS_SUPPORTED], 0);
        assert_eq!(u.convert32_to(value, max), Ok(()));
        assert_eq!(u.convert32_from(max), Ok(value));
    }
}

#[test]
fn unsigned_too_many_octets_for_the_width() {
    let mut u = ExiUnsigned::new([0; EXI_BASETYPES_MAX_OCTETS_SUPPORTED], 0);
    assert_eq!(
        u.convert32_to(0x20_0000, EXI_BASETYPES_UINT16_MAX_OCTETS),
        Err(ExiError::OctetCountLargerThanTypeSupports)
    );
    assert_eq!(*u.octets_count(), 4);
    assert_eq!(
        u.convert32_from(EXI_BASETYPES_UINT16_MAX_OCTETS),
        Err(ExiError::OctetCountLargerThanTypeSupports)
    );
}

#[test]
fn writing_33_bits_is_refused() {
    let mut stream = ExiBitstream::new(vec![0; 8], 8, 0);
    assert_eq!(stream.write_bits(33, 1), Err(ExiError::BitCountLargerThanTypeSize));
    assert_eq!(stream.byte_pos, 0);
    assert_eq!(stream.bit_count, 0);
    assert_eq!(stream.read_bits(33), Err(ExiError::BitCountLargerThanTypeSize));
}

#[test]
fn writing_past_capacity_overflows_on_the_offending_bit() {
    let mut stream = ExiBitstream::new(vec![0; 2], 2, 0);
    assert_eq!(stream.write_bits(15, 0x7FFF), Ok(()));
    assert_eq!(stream.write_bit(true), Ok(()));
    assert_eq!(stream.write_bit(true), Err(ExiError::BitstreamOverflow));
    assert_eq!(stream.data, vec![0xFF, 0xFF]);
    let mut stream = ExiBitstream::new(vec![0; 4], 2, 0);
    assert_eq!(stream.write_bits(17, 0), Err(ExiError::BitstreamOverflow));
    let mut stream = ExiBitstream::new(vec![0x80; 1], 1, 0);
    assert_eq!(stream.read_octet(), Ok(0x80));
    assert_eq!(stream.read_bit(), Err(ExiError::BitstreamOverflow));
}

#[test]
fn u16_with_four_septets_is_refused() {
    let mut stream = ExiBitstream::new(vec![0x80, 0x80, 0x80, 0x01], 4, 0);
    assert_eq!(decoder_u16(&mut stream), Err(ExiError::OctetCountLargerThanTypeSupports));
}

#[test]
fn unsigned_with_eleven_octets_is_refused() {
    let mut stream = ExiBitstream::new(vec![0xFF; 12], 12, 0);
    assert_eq!(decoder_u16(&mut stream), Err(ExiError::SupportedMaxOctetsOverrun));
}

#[test]
fn sixth_entry_is_refused_on_encode() {
    let entries = (0..6).map(|i| entry(DIN, 2, 0, i as u8, 1)).collect();
    let (r, _) = encode(request(entries));
    assert_eq!(r, Err(ExiError::ArrayOutOfBounds));
}

#[test]
fn empty_request_is_refused_on_encode() {
    let (r, _) = encode(request(vec![]));
    assert_eq!(r, Err(ExiError::UnknownEventCode));
}

#[test]
fn non_ascii_namespace_character_is_refused_on_decode() {
    let mut bytes = REQ_1;
    // the first namespace character starts at bit 21 of the stream
    bytes[2] |= 0x04;
    assert_eq!(decode(&bytes), Err(ExiError::UnsupportedCharacterValue));
    let mut stream = ExiBitstream::new(vec![0x41, 0xC1], 2, 0);
    assert_eq!(decoder_characters(&mut stream, 2, 10), Err(ExiError::UnsupportedCharacterValue));
}

#[test]
fn non_ascii_namespace_is_refused_on_encode() {
    let (r, _) = encode(request(vec![entry("urn:é", 1, 0, 1, 1)]));
    assert_eq!(r, Err(ExiError::UnsupportedCharacterValue));
    let mut stream = ExiBitstream::new(vec![0; 16], 16, 0);
    assert_eq!(encoder_characters(&mut stream, "é", 10), Err(ExiError::UnsupportedCharacterValue));
}

#[test]
fn long_namespace_is_refused() {
    let long = "a".repeat(100);
    let (r, _) = encode(request(vec![entry(&long, 1, 0, 1, 1)]));
    assert_eq!(r, Err(ExiError::CharacterBufferTooSmall));
    let mut stream = ExiBitstream::new(vec![0x41; 16], 16, 0);
    assert_eq!(decoder_characters(&mut stream, 10, 10), Err(ExiError::CharacterBufferTooSmall));
    let ok = "b".repeat(99);
    let (r, mut stream) = encode(request(vec![entry(&ok, 1, 0, 1, 1)]));
    assert_eq!(r, Ok(()));
    stream.reset();
    assert_eq!(decode_exi_document(&mut stream), Ok(request(vec![entry(&ok, 1, 0, 1, 1)])));
}

#[test]
fn cookie_header_is_refused() {
    let mut stream = ExiBitstream::new(vec![0x24, 0x45, 0x58, 0x49], 4, 0);
    assert_eq!(exi_header_read_and_check(&mut stream), Err(ExiError::HeaderCookieNotSupported));
    assert_eq!(decode(&[0x24, 0, 0, 0]), Err(ExiError::HeaderCookieNotSupported));
}

#[test]
fn options_header_is_refused() {
    assert_eq!(decode(&[0xA0, 0, 0, 0]), Err(ExiError::HeaderOptionsNotSupported));
}

#[test]
fn response_prefix_in_large_buffer() {
    let (r, stream) = encode(response(ResponseCode::OkSuccessfulNegotiation, Some(0)));
    assert_eq!(r, Ok(()));
    assert_eq!(&stream.data[..4], &[0x80, 0x40, 0x00, 0x00]);
    assert!(stream.data[4..].iter().all(|b| *b == 0));
    assert_eq!(stream.get_length(), 4);
}

#[test]
fn header_reads_back_after_reset() {
    let (r, mut stream) = encode(response(ResponseCode::FailedNoNegotiation, None));
    assert_eq!(r, Ok(()));
    stream.reset();
    assert_eq!(stream.read_bits(8), Ok(0x80));
}

#[test]
fn response_with_minor_deviation_vector() {
    let doc = || response(ResponseCode::OkSuccessfulNegotiationWithMinorDeviation, Some(7));
    let (r, stream) = encode(doc());
    assert_eq!(r, Ok(()));
    assert_eq!(&stream.data[..4], &[0x80, 0x44, 0x01, 0xC0]);
    assert_eq!(decode(&[0x80, 0x44, 0x01, 0xC0]), Ok(doc()));
}

#[test]
fn failed_response_vector() {
    let doc = || response(ResponseCode::FailedNoNegotiation, None);
    let (r, stream) = encode(doc());
    assert_eq!(r, Ok(()));
    assert_eq!(&stream.data[..3], &[0x80, 0x48, 0x80]);
    assert_eq!(decode(&[0x80, 0x48, 0x80]), Ok(doc()));
}

#[test]
fn unknown_root_event_is_refused() {
    assert_eq!(decode(&[0x80, 0x80, 0, 0]), Err(ExiError::UnsupportedSubEvent));
}

#[test]
fn missing_first_entry_is_refused() {
    assert_eq!(decode(&[0x80, 0x20, 0, 0]), Err(ExiError::UnknownEventCode));
}

#[test]
fn short_namespace_length_is_refused() {
    // header, request, first entry, start element, canonical type, length 1
    assert_eq!(decode(&[0x80, 0x00, 0x08, 0, 0]), Err(ExiError::StringvaluesNotSupported));
}

#[test]
fn unknown_response_code_is_refused() {
    // header, response, start element, canonical type, code 3
    assert_eq!(decode(&[0x80, 0x4C, 0, 0]), Err(ExiError::UnknownEventCode));
}

#[test]
fn deviant_response_code_is_refused() {
    assert_eq!(decode(&[0x80, 0x42, 0, 0]), Err(ExiError::DeviantsNotSupported));
}

#[test]
fn truncated_stream_overflows() {
    assert_eq!(decode(&REQ_1[..20]), Err(ExiError::BitstreamOverflow));
    let vector = vec![0; 10];
    let mut stream = ExiBitstream::new(vector, 10, 0);
    let doc = request(vec![entry(DIN, 2, 0, 1, 1)]);
    assert_eq!(encode_exi_document(&mut stream, doc), Err(ExiError::BitstreamOverflow));
}

#[test]
fn typed_values_reject_subtypes_and_deviants() {
    let mut stream = ExiBitstream::new(vec![0x80, 0, 0], 3, 0);
    assert_eq!(decode_exi_type_u32(&mut stream), Err(ExiError::UnsupportedSubEvent));
    // selector 0, value 5, deviant bit 1
    let mut stream = ExiBitstream::new(vec![0x02, 0xC0, 0], 3, 0);
    assert_eq!(decode_exi_type_u32(&mut stream), Err(ExiError::DeviantsNotSupported));
    let mut stream = ExiBitstream::new(vec![0x02, 0x80, 0], 3, 0);
    assert_eq!(decode_exi_type_u32(&mut stream), Ok(5));
}

#[test]
fn hex_binary_reads_length_and_octets() {
    // selector 0, length 2, octets AB CD, deviant 0
    let mut stream = ExiBitstream::new(vec![0x01, 0x55, 0xE6, 0x80, 0], 5, 0);
    let mut len: u16 = 0;
    let mut buffer = [0u8; 4];
    assert_eq!(decode_exi_type_hex_binary(&mut stream, &mut len, &mut buffer, 4), Ok(()));
    assert_eq!(len, 2);
    assert_eq!(buffer, [0xAB, 0xCD, 0, 0]);
    let mut stream = ExiBitstream::new(vec![0x01, 0x55, 0xE6, 0x80, 0], 5, 0);
    assert_eq!(
        decode_exi_type_hex_binary(&mut stream, &mut len, &mut buffer, 1),
        Err(ExiError::ByteBufferTooSmall)
    );
}

#[test]
fn signed_round_trip() {
    for v in [-127i8, -1, 0, 1, 127] {
        let mut stream = ExiBitstream::new(vec![0; 8], 8, 0);
        assert_eq!(encoder_i8(&mut stream, v), Ok(()));
        stream.reset();
        assert_eq!(decoder_i8(&mut stream), Ok(v));
    }
}

#[test]
fn error_codes() {
    assert_eq!(ExiError::NoError.code(), 0);
    assert_eq!(ExiError::BitstreamOverflow.code(), -1);
    assert_eq!(ExiError::HeaderCookieNotSupported.code(), -20);
    assert_eq!(ExiError::ArrayOutOfBounds.code(), -110);
    assert_eq!(ExiError::UnknownEventCode.code(), -150);
    assert_eq!(ExiError::UnsupportedCharacterValue.code(), -212);
}

#[test]
fn response_code_values() {
    assert_eq!(ResponseCode::try_from(0), Ok(ResponseCode::OkSuccessfulNegotiation));
    assert_eq!(ResponseCode::try_from(1), Ok(ResponseCode::OkSuccessfulNegotiationWithMinorDeviation));
    assert_eq!(ResponseCode::try_from(2), Ok(ResponseCode::FailedNoNegotiation));
    assert_eq!(ResponseCode::try_from(3), Err(()));
    let res = AppHandSupportedAppProtocolRes::new(ResponseCode::FailedNoNegotiation, None);
    assert_eq!(res.response_code(), 2);
    assert_eq!(res.schema_id(), None);
}

#[test]
fn entry_getters() {
    let e = entry(ISO, 2, 1, 10, 3);
    assert_eq!(e.namespace(), ISO);
    assert_eq!(e.version_number_major(), 2);
    assert_eq!(e.version_number_minor(), 1);
    assert_eq!(e.schema_id(), 10);
    assert_eq!(e.priority(), 3);
    let req = AppHandSupportedAppProtocolReq::new(vec![e]);
    assert_eq!(req.app_protocol().len(), 1);
}

#[test]
fn typed_integers_of_every_width() {
    // selector 0, value 0x2B (one octet), deviant 0
    let bytes = vec![0x15, 0x80, 0];
    assert_eq!(decode_exi_type_u8(&mut ExiBitstream::new(bytes.clone(), 3, 0)), Ok(0x2B));
    assert_eq!(decode_exi_type_u16(&mut ExiBitstream::new(bytes.clone(), 3, 0)), Ok(0x2B));
    assert_eq!(decode_exi_type_u64(&mut ExiBitstream::new(bytes.clone(), 3, 0)), Ok(0x2B));
    // selector 0, sign 1, magnitude 0x2B, deviant 0
    let bytes = vec![0x4A, 0xC0, 0];
    assert_eq!(decode_exi_type_i8(&mut ExiBitstream::new(bytes.clone(), 3, 0)), Ok(-43));
    assert_eq!(decode_exi_type_i16(&mut ExiBitstream::new(bytes.clone(), 3, 0)), Ok(-43));
    assert_eq!(decode_exi_type_i32(&mut ExiBitstream::new(bytes.clone(), 3, 0)), Ok(-43));
    assert_eq!(decode_exi_type_i64(&mut ExiBitstream::new(bytes, 3, 0)), Ok(-43));
}

#[test]
fn unsigned_octets_getters() {
    let mut u = ExiUnsigned::new([0; EXI_BASETYPES_MAX_OCTETS_SUPPORTED], 0);
    assert_eq!(u.convert32_to(300, EXI_BASETYPES_UINT16_MAX_OCTETS), Ok(()));
    assert_eq!(*u.octets_count(), 2);
    assert_eq!(&u.octets()[..2], &[0xAC, 0x02]);
}

#[test]
fn other_simple_header_bytes_are_accepted_and_re_encoded_as_0x80() {
    let doc = decode(&[0x81, 0x40, 0x00, 0x00]).unwrap();
    assert_eq!(doc, response(ResponseCode::OkSuccessfulNegotiation, Some(0)));
    let (r, stream) = encode(doc);
    assert_eq!(r, Ok(()));
    assert_eq!(&stream.data[..4], &[0x80, 0x40, 0x00, 0x00]);
}
