use rustv2g::exi_bitstream::ExiBitstream;
use rustv2g::exi_header::{
    exi_header_read, exi_header_read_and_check, exi_header_write, EXI_SIMPLE_HEADER_BIT_SIZE,
    EXI_SIMPLE_HEADER_VALUE,
};

#[test]
fn header_write() {
    let vector = vec![0; 1024];
    let vector_len = vector.len();
    let mut exi_stream = ExiBitstream::new(vector, vector_len, 0);

    assert_eq!(exi_header_write(&mut exi_stream).is_ok(), true);

    exi_stream.reset();

    assert_eq!(exi_stream.read_octet(), Ok(EXI_SIMPLE_HEADER_VALUE as u8));
}
#[test]
fn header_read() {
    let vector = vec![0; 1024];
    let vector_len = vector.len();
    let mut exi_stream = ExiBitstream::new(vector, vector_len, 0);

    assert_eq!(exi_stream.write_bits(EXI_SIMPLE_HEADER_BIT_SIZE, EXI_SIMPLE_HEADER_VALUE).is_ok(), true);

    exi_stream.reset();

    let value = exi_header_read(&mut exi_stream);
    assert_eq!(value, Ok(EXI_SIMPLE_HEADER_VALUE));
}
#[test]
fn header_read_check() {
    let vector = vec![0; 1024];
    let vector_len = vector.len();
    let mut exi_stream = ExiBitstream::new(vector, vector_len, 0);

    assert_eq!(exi_stream.write_bits(EXI_SIMPLE_HEADER_BIT_SIZE, EXI_SIMPLE_HEADER_VALUE).is_ok(), true);

    exi_stream.reset();

    assert_eq!(exi_header_read_and_check(&mut exi_stream).is_ok(), true);
}
