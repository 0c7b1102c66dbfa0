use rustv2g::exi_bitstream::ExiBitstream;
use rustv2g::exi_error_codes::ExiError;

#[test]
fn create_bitstream() {
    let vector = vec![0;2048];
    let vector_len = vector.len();

    let exi_stream = ExiBitstream::new(vector, vector_len, 0);

    let expected = ExiBitstream {
        data: vec![0;2048],
        data_size: 2048,
        bit_count: 0,
        byte_pos: 0,
        reset_to_offset: true,
        data_offset: 0
    };
    assert_eq!(exi_stream, expected);
}
#[test]
fn internal_has_overflow_good_case() {
    let mut existream = ExiBitstream {
        data: vec![0;3],
        data_size: 3,
        bit_count: 8,
        byte_pos: 0,
        reset_to_offset: false,
        data_offset: 0
    };

    let error = existream.has_overflow();

    assert_eq!(existream.bit_count, 0);
    assert_eq!(existream.byte_pos, 1);
    assert_eq!(error.is_ok(), true);
}
#[test]
fn internal_has_overflow_bad_case() {
    let mut existream = ExiBitstream {
        data: vec![0;3],
        data_size: 3,
        bit_count: 8,
        byte_pos: 4,
        reset_to_offset: false,
        data_offset: 0
    };
    assert_eq!(existream.has_overflow(), Err(ExiError::BitstreamOverflow));
}
#[test]
fn internal_write_bit() {
    let vector = vec![0; 1024];
    let vector_len = vector.len();
    let mut exi_stream = ExiBitstream::new(vector, vector_len, 0);

    let error = exi_stream.write_bit(true);
    assert_eq!(error.is_ok(), true);
    let error = exi_stream.write_bit(true);
    assert_eq!(error.is_ok(), true);
    let error = exi_stream.write_bit(false);
    assert_eq!(error.is_ok(), true);
    let error = exi_stream.write_bit(true);
    assert_eq!(error.is_ok(), true);
    assert_eq!(0xD0, exi_stream.data[0]);
}
#[test]
fn write_bits() {
    let vector = vec![0; 1024];
    let vector_len = vector.len();
    let mut exi_stream = ExiBitstream::new(vector, vector_len, 0);

    let error = exi_stream.write_bits(4, 10);
    assert_eq!(error.is_ok(), true);
    assert_eq!(160, exi_stream.data[0]);

    let error = exi_stream.write_bits(4, 10);
    assert_eq!(error.is_ok(), true);
    assert_eq!(0xAA, exi_stream.data[0]);
}
#[test]
fn write_bits_bit_count_error(){
    let vector = vec![0; 1024];
    let vector_len = vector.len();
    let mut exi_stream = ExiBitstream::new(vector, vector_len, 0);

    let error = exi_stream.write_bits(64, 10);
    assert_eq!(error, Err(ExiError::BitCountLargerThanTypeSize));
}
#[test]
fn reset() {
    let vector = vec![0; 1024];
    let vector_len = vector.len();
    let data_offset = 0;
    let mut exi_stream = ExiBitstream::new(vector, vector_len, data_offset);

    let error = exi_stream.write_bits(16, 0xFFFF);
    assert_eq!(error.is_ok(), true);
    assert_eq!(0xFF, exi_stream.data[0]);
    assert_eq!(0xFF, exi_stream.data[1]);
    assert_eq!(exi_stream.byte_pos, 1);

    exi_stream.reset();

    assert_eq!(exi_stream.byte_pos, data_offset);
    assert_eq!(exi_stream.bit_count, 0);

}
#[test]
fn get_length() {
    let vector = vec![0; 1024];
    let vector_len = vector.len();
    let data_offset = 0;
    let mut exi_stream = ExiBitstream::new(vector, vector_len, data_offset);

    let error = exi_stream.write_bits(12, 0xFFF);
    assert_eq!(error.is_ok(), true);
    assert_eq!(exi_stream.get_length(), 2);
}
#[test]
fn internal_read_bit() {
    let mut vector = vec![0; 1024];
    vector[0] = 0xF0;
    let vector_len = vector.len();
    let mut exi_stream = ExiBitstream::new(vector, vector_len, 0);

    assert_eq!(exi_stream.read_bit(), Ok(true));
    assert_eq!(exi_stream.read_bit(), Ok(true));
}
#[test]
fn read_bits() {
    let mut vector = vec![0; 1024];
    vector[0] = 0xAA;
    let vector_len = vector.len();
    let mut exi_stream = ExiBitstream::new(vector, vector_len, 0);

    assert_eq!(exi_stream.read_bits(8), Ok(0xAA));
}
