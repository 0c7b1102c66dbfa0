use rustv2g::exi_basetypes::{
    ExiUnsigned, EXI_BASETYPES_MAX_OCTETS_SUPPORTED, EXI_BASETYPES_UINT16_MAX_OCTETS,
};
use rustv2g::exi_basetypes_encoder::{
    encoder_bool, encoder_bytes, encoder_i16, encoder_i32, encoder_i64, encoder_i8, encoder_u16,
    encoder_u32, encoder_u64, encoder_u8, write_unsigned,
};
use rustv2g::exi_bitstream::ExiBitstream;

#[test]
fn local_write_unsigned() {
    let vector = vec![0; 1024];
    let vector_len = vector.len();
    let mut exi_stream = ExiBitstream::new(vector, vector_len, 0);
    let mut exi_unsigned = ExiUnsigned::new([0; EXI_BASETYPES_MAX_OCTETS_SUPPORTED], 0);

    assert_eq!(exi_unsigned.convert32_to(0x5678, EXI_BASETYPES_UINT16_MAX_OCTETS).is_ok(), true);
    assert_eq!(write_unsigned(&mut exi_stream, &exi_unsigned).is_ok(), true);

    exi_stream.reset();

    assert_eq!(exi_stream.read_octet(), Ok(0b11111000));
    assert_eq!(exi_stream.read_octet(), Ok(0b10101100));
    assert_eq!(exi_stream.read_octet(), Ok(0b00000001));
}

#[test]
fn test_encoder_bool() {
    let vector = vec![0; 1024];
    let vector_len = vector.len();
    let mut exi_stream = ExiBitstream::new(vector, vector_len, 0);
    
    assert_eq!(encoder_bool(&mut exi_stream, true).is_ok(), true);
    exi_stream.reset();
    let value = exi_stream.read_bits(1).unwrap();
    assert_eq!(true, value != 0);
}

#[test]
fn test_encoder_bytes() {
    let vector = vec![0; 1024];
    let vector_len = vector.len();
    let mut exi_stream = ExiBitstream::new(vector, vector_len, 0);
    
    let bytes = vec![1,2,3,4,5];
    assert_eq!(encoder_bytes(&mut exi_stream, bytes.len(), &bytes, 5).is_ok(), true);
    
    exi_stream.reset();

    let mut expected = Vec::new();
    for _ in 0..5 {
        expected.push(exi_stream.read_octet().unwrap())
    }
    assert_eq!(expected, bytes);
}

#[test]
fn test_encoder_u8() {
    let vector = vec![0; 1024];
    let vector_len = vector.len();
    let mut exi_stream = ExiBitstream::new(vector, vector_len, 0);
    
    assert_eq!(encoder_u8(&mut exi_stream, 0x56).is_ok(), true);

    exi_stream.reset();
    assert_eq!(exi_stream.read_octet(), Ok(0x56));
}

#[test]
fn test_encoder_u16() {
    let vector = vec![0; 1024];
    let vector_len = vector.len();
    let mut exi_stream = ExiBitstream::new(vector, vector_len, 0);
    
    assert_eq!(encoder_u16(&mut exi_stream, 0x5678).is_ok(), true);

    exi_stream.reset();
    assert_eq!(exi_stream.read_octet(), Ok(0b11111000));
    assert_eq!(exi_stream.read_octet(), Ok(0b10101100));
    assert_eq!(exi_stream.read_octet(), Ok(0b00000001));
}

#[test]
fn test_encoder_u32() {
    let vector = vec![0; 1024];
    let vector_len = vector.len();
    let mut exi_stream = ExiBitstream::new(vector, vector_len, 0);
    
    assert_eq!(encoder_u32(&mut exi_stream, 0x5678).is_ok(), true);

    exi_stream.reset();
    assert_eq!(exi_stream.read_octet(), Ok(0b11111000));
    assert_eq!(exi_stream.read_octet(), Ok(0b10101100));
    assert_eq!(exi_stream.read_octet(), Ok(0b00000001));
}

#[test]
fn test_encoder_u64() {
    let vector = vec![0; 1024];
    let vector_len = vector.len();
    let mut exi_stream = ExiBitstream::new(vector, vector_len, 0);
    
    assert_eq!(encoder_u64(&mut exi_stream, 0x5678).is_ok(), true);

    exi_stream.reset();
    assert_eq!(exi_stream.read_octet(), Ok(0b11111000));
    assert_eq!(exi_stream.read_octet(), Ok(0b10101100));
    assert_eq!(exi_stream.read_octet(), Ok(0b00000001));
}

#[test]
fn test_encoder_i8_positive() {
    let vector = vec![0; 1024];
    let vector_len = vector.len();
    let mut exi_stream = ExiBitstream::new(vector, vector_len, 0);
    
    assert_eq!(encoder_i8(&mut exi_stream, 30).is_ok(), true);

    exi_stream.reset();
    assert_eq!(exi_stream.read_bits(1), Ok(0));
    assert_eq!(exi_stream.read_octet(), Ok(30));
}

#[test]
fn test_encoder_i8_negative() {
    let vector = vec![0; 1024];
    let vector_len = vector.len();
    let mut exi_stream = ExiBitstream::new(vector, vector_len, 0);
    
    assert_eq!(encoder_i8(&mut exi_stream, -30).is_ok(), true);

    exi_stream.reset();
    assert_eq!(exi_stream.read_bits(1), Ok(1));
    assert_eq!(exi_stream.read_octet(), Ok(30));
}

#[test]
fn test_encoder_i16_positive() {
    let vector = vec![0; 1024];
    let vector_len = vector.len();
    let mut exi_stream = ExiBitstream::new(vector, vector_len, 0);
    
    assert_eq!(encoder_i16(&mut exi_stream, 555).is_ok(), true);

    exi_stream.reset();
    assert_eq!(exi_stream.read_bits(1), Ok(0));
    assert_eq!(exi_stream.read_octet(), Ok(0xAB));
    assert_eq!(exi_stream.read_octet(), Ok(0x04));
}

#[test]
fn test_encoder_i16_negative() {
    let vector = vec![0; 1024];
    let vector_len = vector.len();
    let mut exi_stream = ExiBitstream::new(vector, vector_len, 0);
    
    assert_eq!(encoder_i16(&mut exi_stream, -555).is_ok(), true);

    exi_stream.reset();
    assert_eq!(exi_stream.read_bits(1), Ok(1));
    assert_eq!(exi_stream.read_octet(), Ok(0xAB));
    assert_eq!(exi_stream.read_octet(), Ok(0x04));
}

#[test]
fn test_encoder_i32_positive() {
    let vector = vec![0; 1024];
    let vector_len = vector.len();
    let mut exi_stream = ExiBitstream::new(vector, vector_len, 0);
    
    assert_eq!(encoder_i32(&mut exi_stream, 22136).is_ok(), true);

    exi_stream.reset();
    assert_eq!(exi_stream.read_bits(1), Ok(0));
    assert_eq!(exi_stream.read_octet(), Ok(0xF8));
    assert_eq!(exi_stream.read_octet(), Ok(0xAC));
    assert_eq!(exi_stream.read_octet(), Ok(0x01));
}

#[test]
fn test_encoder_i32_negative() {
    let vector = vec![0; 1024];
    let vector_len = vector.len();
    let mut exi_stream = ExiBitstream::new(vector, vector_len, 0);
    
    assert_eq!(encoder_i32(&mut exi_stream, -22136).is_ok(), true);

    exi_stream.reset();
    assert_eq!(exi_stream.read_bits(1), Ok(1));
    assert_eq!(exi_stream.read_octet(), Ok(0xF8));
    assert_eq!(exi_stream.read_octet(), Ok(0xAC));
    assert_eq!(exi_stream.read_octet(), Ok(0x01));
}

#[test]
fn test_encoder_i64_positive() {
    let vector = vec![0; 1024];
    let vector_len = vector.len();
    let mut exi_stream = ExiBitstream::new(vector, vector_len, 0);
    
    assert_eq!(encoder_i64(&mut exi_stream, 22136).is_ok(), true);

    exi_stream.reset();
    assert_eq!(exi_stream.read_bits(1), Ok(0));
    assert_eq!(exi_stream.read_octet(), Ok(0xF8));
    assert_eq!(exi_stream.read_octet(), Ok(0xAC));
    assert_eq!(exi_stream.read_octet(), Ok(0x01));
}

#[test]
fn test_encoder_i64_negative() {
    let vector = vec![0; 1024];
    let vector_len = vector.len();
    let mut exi_stream = ExiBitstream::new(vector, vector_len, 0);
    
    assert_eq!(encoder_i64(&mut exi_stream, -22136).is_ok(), true);

    exi_stream.reset();
    assert_eq!(exi_stream.read_bits(1), Ok(1));
    assert_eq!(exi_stream.read_octet(), Ok(0xF8));
    assert_eq!(exi_stream.read_octet(), Ok(0xAC));
    assert_eq!(exi_stream.read_octet(), Ok(0x01));
}
