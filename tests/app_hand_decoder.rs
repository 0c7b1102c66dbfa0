use rustv2g::app_hand_datatypes::{
    AppHandAppProtocolType, AppHandSupportedAppProtocolReq, AppHandSupportedAppProtocolRes,
    AppProtocolExiDocument, ResponseCode,
};
use rustv2g::app_hand_decoder::decode_exi_document;
use rustv2g::exi_bitstream::ExiBitstream;

#[test]
fn test_decode_app_protocol_req_1() {
    let vector = vec![
        128, 0, 219, 171, 147, 113, 211, 35, 75, 113, 209, 185, 129, 137, 145, 137, 209, 145,
        129, 137, 145, 210, 107, 155, 58, 35, 43, 48, 2, 0, 0, 4, 0, 64,
    ];

    let vector_len = vector.len();
    let mut exi_stream = ExiBitstream::new(vector, vector_len, 0);

    let decode_response = decode_exi_document(&mut exi_stream);

    let app_protocol_type = vec![AppHandAppProtocolType::new(
        "urn:din:70121:2012:MsgDef".to_owned(),
        2,
        0,
        1,
        1,
    )];

    let expected = AppProtocolExiDocument::SupportedAppProtocolReq(
        AppHandSupportedAppProtocolReq::new(app_protocol_type),
    );
    assert_eq!(decode_response, Ok(expected));
}

#[test]
fn test_decode_app_protocol_req_2() {
    let vector = vec![
        128, 0, 219, 171, 147, 113, 211, 35, 75, 113, 209, 185, 129, 137, 145, 137, 209, 145,
        129, 137, 145, 210, 107, 155, 58, 35, 43, 48, 2, 0, 0, 4, 4, 1, 215, 87, 38, 227, 166,
        151, 54, 243, 163, 19, 83, 19, 19, 131, 163, 35, 163, 35, 3, 19, 51, 164, 215, 54, 116,
        70, 86, 96, 4, 0, 0, 0, 0, 128,
    ];

    let vector_len = vector.len();
    let mut exi_stream = ExiBitstream::new(vector, vector_len, 0);

    let decode_response = decode_exi_document(&mut exi_stream);

    let app_protocol_type = vec![
        AppHandAppProtocolType::new("urn:din:70121:2012:MsgDef".to_owned(), 2, 0, 1, 2),
        AppHandAppProtocolType::new("urn:iso:15118:2:2013:MsgDef".to_owned(), 2, 0, 0, 1),
    ];

    let expected = AppProtocolExiDocument::SupportedAppProtocolReq(
        AppHandSupportedAppProtocolReq::new(app_protocol_type),
    );
    assert_eq!(decode_response, Ok(expected));
}

#[test]
fn app_hand_decoder_test_app_protocol_res() {
    let mut vector = vec![0; 1024];
    // Exi: 80400000
    vector[0] = 0x80;
    vector[1] = 0x40;
    vector[2] = 0x00;
    vector[3] = 0x00;
    let vector_len = vector.len();
    let mut exi_stream = ExiBitstream::new(vector, vector_len, 0);

    let decode_response = decode_exi_document(&mut exi_stream);

    let expected = AppProtocolExiDocument::SupportedAppProtocolRes(
        AppHandSupportedAppProtocolRes::new(ResponseCode::OkSuccessfulNegotiation, Some(0)),
    );
    assert_eq!(decode_response, Ok(expected));
}
