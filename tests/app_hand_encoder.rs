use rustv2g::app_hand_datatypes::{
    AppHandAppProtocolType, AppHandSupportedAppProtocolReq, AppHandSupportedAppProtocolRes,
    AppProtocolExiDocument, ResponseCode,
};
use rustv2g::app_hand_encoder::encode_exi_document;
use rustv2g::exi_bitstream::ExiBitstream;

#[test]
fn test_app_protocol_req() {
    let vector = vec![0; 1024];
    let vector_len = vector.len();
    let mut exi_stream = ExiBitstream::new(vector, vector_len, 0);

    let app_protocol_type = vec![AppHandAppProtocolType::new(
        "urn:din:70121:2012:MsgDef".to_owned(),
        2,
        0,
        1,
        1,
    )];
    let request = AppHandSupportedAppProtocolReq::new(app_protocol_type);

    let exi_doc = AppProtocolExiDocument::SupportedAppProtocolReq(request);

    assert_eq!(encode_exi_document(&mut exi_stream, exi_doc).is_ok(), true);
    exi_stream.reset();

    // Exi: 8000dbab9371d3234b71d1b981899189d191818991d26b9b3a232b30020000040040
    let exi_bytes = vec![
        128, 0, 219, 171, 147, 113, 211, 35, 75, 113, 209, 185, 129, 137, 145, 137, 209, 145,
        129, 137, 145, 210, 107, 155, 58, 35, 43, 48, 2, 0, 0, 4, 0, 64,
    ];

    for exi in exi_bytes {
        assert_eq!(exi_stream.read_octet(), Ok(exi));
    }
}

#[test]
fn test_app_protocol_req_2() {
    let vector = vec![0; 1024];
    let vector_len = vector.len();
    let mut exi_stream = ExiBitstream::new(vector, vector_len, 0);

    let app_protocol_type = vec![
        AppHandAppProtocolType::new("urn:din:70121:2012:MsgDef".to_owned(), 2, 0, 1, 2),
        AppHandAppProtocolType::new("urn:iso:15118:2:2013:MsgDef".to_owned(), 2, 0, 0, 1),
    ];
    let request = AppHandSupportedAppProtocolReq::new(app_protocol_type);

    let exi_doc = AppProtocolExiDocument::SupportedAppProtocolReq(request);

    assert_eq!(encode_exi_document(&mut exi_stream, exi_doc).is_ok(), true);
    exi_stream.reset();

    // Exi: 8000dbab9371d3234b71d1b981899189d191818991d26b9b3a232b30020000040401d75726e3a69736f3a31353131383a323a323031333a4d73674465660040000000080
    let exi_bytes = vec![
        128, 0, 219, 171, 147, 113, 211, 35, 75, 113, 209, 185, 129, 137, 145, 137, 209, 145,
        129, 137, 145, 210, 107, 155, 58, 35, 43, 48, 2, 0, 0, 4, 4, 1, 215, 87, 38, 227, 166,
        151, 54, 243, 163, 19, 83, 19, 19, 131, 163, 35, 163, 35, 3, 19, 51, 164, 215, 54, 116,
        70, 86, 96, 4, 0, 0, 0, 0, 128,
    ];

    for exi in exi_bytes {
        assert_eq!(exi_stream.read_octet(), Ok(exi));
    }
}

#[test]
fn app_hand_encoder_test_app_protocol_res() {
    let vector = vec![0; 1024];
    let vector_len = vector.len();
    let mut exi_stream = ExiBitstream::new(vector, vector_len, 0);

    let exi_doc = AppProtocolExiDocument::SupportedAppProtocolRes(
        AppHandSupportedAppProtocolRes::new(ResponseCode::OkSuccessfulNegotiation, Some(0)),
    );

    assert_eq!(encode_exi_document(&mut exi_stream, exi_doc).is_ok(), true);
    exi_stream.reset();

    // Exi: 80400000
    assert_eq!(exi_stream.read_octet(), Ok(0x80));
    assert_eq!(exi_stream.read_octet(), Ok(0x40));
    assert_eq!(exi_stream.read_octet(), Ok(0x00));
    assert_eq!(exi_stream.read_octet(), Ok(0x00));
}
