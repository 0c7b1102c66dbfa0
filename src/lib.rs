//! Bit-exact EXI codec for the ISO 15118 / DIN 70121 SupportedAppProtocol handshake.
//!
//! Layers, from the bottom up: a bit stream over a bounded byte buffer, the EXI base types
//! (n-bit integers, septet-packed unsigned integers, signed integers, characters, bytes),
//! the typed-value framing, the simple EXI header, and the two handshake grammars.
pub mod bits;
pub mod exi_error_codes;
pub mod exi_bitstream;
pub mod exi_basetypes;
pub mod exi_basetypes_encoder;
pub mod exi_basetypes_decoder;
pub mod exi_types_decoder;
pub mod exi_header;
pub mod app_hand_datatypes;
pub mod app_hand_grammar;
pub mod app_hand_encoder;
pub mod app_hand_decoder;
pub mod app_hand_laws;
