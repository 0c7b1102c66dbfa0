use rustv2g::exi_basetypes::{
    ExiUnsigned, EXI_BASETYPES_MAX_OCTETS_SUPPORTED, EXI_BASETYPES_UINT16_MAX_OCTETS,
    EXI_BASETYPES_UINT32_MAX_OCTETS, EXI_BASETYPES_UINT8_MAX_OCTETS,
};

#[test]
fn u8_convert32_to() {
    let mut exi_unsigned = ExiUnsigned {
        octets: [0; EXI_BASETYPES_MAX_OCTETS_SUPPORTED],
        octets_count: 0,
    };

    assert_eq!(exi_unsigned.convert32_to(0x02, EXI_BASETYPES_UINT8_MAX_OCTETS).is_ok(), true);
    assert_eq!(exi_unsigned.octets_count, 1);
    assert_eq!(exi_unsigned.octets[0], 0x02);
}

#[test]
fn u16_convert32_to() {
    let mut exi_unsigned = ExiUnsigned {
        octets: [0; EXI_BASETYPES_MAX_OCTETS_SUPPORTED],
        octets_count: 0,
    };

    assert_eq!(exi_unsigned.convert32_to(0x5678, EXI_BASETYPES_UINT16_MAX_OCTETS).is_ok(), true);
    assert_eq!(exi_unsigned.octets_count, 3);
    assert_eq!(exi_unsigned.octets[0], 0b11111000);
    assert_eq!(exi_unsigned.octets[1], 0b10101100);
    assert_eq!(exi_unsigned.octets[2], 0b00000001);
}

#[test]
fn u32_convert32_to() {
    let mut exi_unsigned = ExiUnsigned {
        octets: [0; EXI_BASETYPES_MAX_OCTETS_SUPPORTED],
        octets_count: 0,
    };

    assert_eq!(exi_unsigned.convert32_to(0x105678, EXI_BASETYPES_UINT32_MAX_OCTETS).is_ok(), true);
    assert_eq!(exi_unsigned.octets_count, 3);
    assert_eq!(exi_unsigned.octets[0], 0b11111000);
    assert_eq!(exi_unsigned.octets[1], 0b10101100);
    assert_eq!(exi_unsigned.octets[2], 0b01000001);
}

#[test]
fn convert64_to() {
    let mut exi_unsigned = ExiUnsigned {
        octets: [0; EXI_BASETYPES_MAX_OCTETS_SUPPORTED],
        octets_count: 0,
    };

    assert_eq!(exi_unsigned.convert64_to(0x105678).is_ok(), true);
    assert_eq!(exi_unsigned.octets_count, 3);
    assert_eq!(exi_unsigned.octets[0], 0b11111000);
    assert_eq!(exi_unsigned.octets[1], 0b10101100);
    assert_eq!(exi_unsigned.octets[2], 0b01000001);
}

#[test]
fn convert32_from() {
    let mut exi_unsigned = ExiUnsigned {
        octets: [0; EXI_BASETYPES_MAX_OCTETS_SUPPORTED],
        octets_count: 0,
    };

    assert_eq!(exi_unsigned.convert32_to(0x5678, EXI_BASETYPES_UINT16_MAX_OCTETS).is_ok(), true);
    assert_eq!(exi_unsigned.convert32_from(EXI_BASETYPES_UINT16_MAX_OCTETS), Ok(0x5678));
}

#[test]
fn convert64_from() {
    let mut exi_unsigned = ExiUnsigned {
        octets: [0; EXI_BASETYPES_MAX_OCTETS_SUPPORTED],
        octets_count: 0,
    };
    assert_eq!(exi_unsigned.convert64_to(0x105678).is_ok(), true);
    assert_eq!(exi_unsigned.convert64_from(), Ok(0x105678));
}
