use rustv2g::exi_basetypes_decoder::{
    decoder_bool, decoder_bytes, decoder_characters, decoder_i16, decoder_i32, decoder_i64,
    decoder_i8, decoder_u16, decoder_u32, decoder_u64, decoder_u8, read_unsigned,
};
use rustv2g::exi_bitstream::ExiBitstream;

#[test]
fn local_read_unsigned_u8() {
    let mut vector = vec![0; 1024];
    vector[0] = 0x6B;

    let vector_len = vector.len();
    let mut exi_stream = ExiBitstream::new(vector, vector_len, 0);

    let exi_unsigned = read_unsigned(&mut exi_stream).unwrap();
    assert_eq!(exi_unsigned.octets()[0], 0x6B);
}

#[test]
fn local_read_unsigned_u16() {
    let mut vector = vec![0; 1024];
    vector[0] = 0xAB;
    vector[1] = 0x05;

    let vector_len = vector.len();
    let mut exi_stream = ExiBitstream::new(vector, vector_len, 0);

    let exi_unsigned = read_unsigned(&mut exi_stream).unwrap();
    assert_eq!(exi_unsigned.octets()[0], 0xAB);
    assert_eq!(exi_unsigned.octets()[1], 0x05);
}

#[test]
fn test_decoder_bool() {
    let mut vector = vec![0; 1024];
    vector[0] = 0x80;

    let vector_len = vector.len();
    let mut exi_stream = ExiBitstream::new(vector, vector_len, 0);

    assert_eq!(decoder_bool(&mut exi_stream), Ok(true));
}

#[test]
fn test_decoder_bytes() {
    let mut vector = vec![0; 1024];
    vector[0] = 0x80;
    vector[1] = 0x56;
    vector[2] = 0x5f;
    vector[3] = 0xfa;

    let vector_len = vector.len();
    let mut exi_stream = ExiBitstream::new(vector, vector_len, 0);

    let mut vector = vec![0; 4];
    assert_eq!(decoder_bytes(&mut exi_stream, 4, &mut vector, 5), Ok(()));
    assert_eq!(vector, vec![0x80, 0x56, 0x5f, 0xfa]);
}

#[test]
fn test_decoder_u8() {
    let mut vector = vec![0; 1024];
    vector[0] = 0xAB;
    vector[1] = 0x01;

    let vector_len = vector.len();
    let mut exi_stream = ExiBitstream::new(vector, vector_len, 0);
    assert_eq!(decoder_u8(&mut exi_stream), Ok(0xAB));
}

#[test]
fn test_decoder_u16() {
    let mut vector = vec![0; 1024];
    vector[0] = 0xAB;
    vector[1] = 0x05;

    let vector_len = vector.len();
    let mut exi_stream = ExiBitstream::new(vector, vector_len, 0);
    assert_eq!(decoder_u16(&mut exi_stream), Ok(0x2AB));
}

#[test]
fn test_decoder_u32() {
    let mut vector = vec![0; 1024];
    vector[0] = 0xAB;
    vector[1] = 0x05;

    let vector_len = vector.len();
    let mut exi_stream = ExiBitstream::new(vector, vector_len, 0);
    assert_eq!(decoder_u32(&mut exi_stream), Ok(0x2AB));
}

#[test]
fn test_decoder_u64() {
    let mut vector = vec![0; 1024];
    vector[0] = 0xAB;
    vector[1] = 0x05;

    let vector_len = vector.len();
    let mut exi_stream = ExiBitstream::new(vector, vector_len, 0);
    assert_eq!(decoder_u64(&mut exi_stream), Ok(0x2AB));
}

#[test]
fn test_decoder_i8_positive() {
    let mut vector = vec![0; 1024];
    vector[0] = 0x15;
    vector[1] = 0x80;

    let vector_len = vector.len();
    let mut exi_stream = ExiBitstream::new(vector, vector_len, 0);
    assert_eq!(decoder_i8(&mut exi_stream), Ok(0x2B));
}

#[test]
fn test_decoder_i8_negative() {
    let mut vector = vec![0; 1024];
    vector[0] = 0x95;
    vector[1] = 0x80;

    let vector_len = vector.len();
    let mut exi_stream = ExiBitstream::new(vector, vector_len, 0);
    assert_eq!(decoder_i8(&mut exi_stream), Ok(-43));
}

#[test]
fn test_decoder_i16_positive() {
    let mut vector = vec![0; 1024];
    vector[0] = 0b01010101;
    vector[1] = 0b10000010;
    vector[2] = 0b10000000;

    let vector_len = vector.len();
    let mut exi_stream = ExiBitstream::new(vector, vector_len, 0);
    assert_eq!(decoder_i16(&mut exi_stream), Ok(683));
}

#[test]
fn test_decoder_i16_negative() {
    let mut vector = vec![0; 1024];
    vector[0] = 0b11010101;
    vector[1] = 0b10000010;
    vector[2] = 0b10000000;

    let vector_len = vector.len();
    let mut exi_stream = ExiBitstream::new(vector, vector_len, 0);
    assert_eq!(decoder_i16(&mut exi_stream), Ok(-683));
}

#[test]
fn test_decoder_i32_positive() {
    let mut vector = vec![0; 1024];
    vector[0] = 0b01010101;
    vector[1] = 0b10000010;
    vector[2] = 0b10000000;

    let vector_len = vector.len();
    let mut exi_stream = ExiBitstream::new(vector, vector_len, 0);
    assert_eq!(decoder_i32(&mut exi_stream), Ok(683));
}

#[test]
fn test_decoder_i32_negative() {
    let mut vector = vec![0; 1024];
    vector[0] = 0b11010101;
    vector[1] = 0b10000010;
    vector[2] = 0b10000000;

    let vector_len = vector.len();
    let mut exi_stream = ExiBitstream::new(vector, vector_len, 0);
    assert_eq!(decoder_i32(&mut exi_stream), Ok(-683));
}

#[test]
fn test_decoder_i64_positive() {
    let mut vector = vec![0; 1024];
    vector[0] = 0b01010101;
    vector[1] = 0b10000010;
    vector[2] = 0b10000000;

    let vector_len = vector.len();
    let mut exi_stream = ExiBitstream::new(vector, vector_len, 0);
    assert_eq!(decoder_i64(&mut exi_stream), Ok(683));
}

#[test]
fn test_decoder_i64_negative() {
    let mut vector = vec![0; 1024];
    vector[0] = 0b11010101;
    vector[1] = 0b10000010;
    vector[2] = 0b10000000;

    let vector_len = vector.len();
    let mut exi_stream = ExiBitstream::new(vector, vector_len, 0);
    assert_eq!(decoder_i64(&mut exi_stream), Ok(-683));
}

#[test]
fn test_decoder_characters() {
    let mut vector = vec![0; 1024];
    let string = String::from("Hello");
    let mut index = 0;
    for &n in string.as_bytes() {
        vector[index] = n;
        index += 1;
    }

    let vector_len = vector.len();
    let mut exi_stream = ExiBitstream::new(vector, vector_len, 0);
    assert_eq!(decoder_characters(&mut exi_stream, 5, 10), Ok(string));
}
