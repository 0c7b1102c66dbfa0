use vstd::prelude::*;

verus! {

/// The closed set of failures of the codec; every fallible operation returns one of them.
#[derive(Debug, Clone, Copy, PartialEq, Eq, Structural)]
pub enum ExiError {
    NoError,
    // stream processing
    BitstreamOverflow,
    // stream header
    HeaderCookieNotSupported,
    HeaderOptionsNotSupported,
    // stream read
    SupportedMaxOctetsOverrun,
    OctetCountLargerThanTypeSupports,
    // decoder
    UnknownEventForDecoding,
    DecoderNotImplemented,
    // encoder
    UnknownEventForEncoding,
    EncoderNotImplemented,
    // common errors
    BitCountLargerThanTypeSize,
    ByteCountLargerThanTypeSize,
    ArrayOutOfBounds,
    CharacterBufferTooSmall,
    ByteBufferTooSmall,
    // grammar errors
    UnknownGrammarId,
    // event errors
    UnknownEventCode,
    UnsupportedSubEvent,
    // document errors
    DeviantsNotSupported,
    // datatype errors
    StringvaluesNotSupported,
    UnsupportedIntegerValueType,
    UnsupportedDatetimeType,
    UnsupportedCharacterValue,
    // internal errors
    NotImplementedYet,
}

impl ExiError {
    /// The numeric code of the error kind: 0 for no error, then negative codes grouped by
    /// family (stream, header, base type, decoder, encoder, buffers, grammar, event,
    /// document, datatype, internal).
    pub open spec fn spec_code(self) -> int {
        match self {
            ExiError::NoError => 0,
            ExiError::BitstreamOverflow => -1,
            ExiError::HeaderCookieNotSupported => -20,
            ExiError::HeaderOptionsNotSupported => -21,
            ExiError::SupportedMaxOctetsOverrun => -30,
            ExiError::OctetCountLargerThanTypeSupports => -31,
            ExiError::UnknownEventForDecoding => -50,
            ExiError::DecoderNotImplemented => -69,
            ExiError::UnknownEventForEncoding => -70,
            ExiError::EncoderNotImplemented => -89,
            ExiError::BitCountLargerThanTypeSize => -100,
            ExiError::ByteCountLargerThanTypeSize => -101,
            ExiError::ArrayOutOfBounds => -110,
            ExiError::CharacterBufferTooSmall => -111,
            ExiError::ByteBufferTooSmall => -112,
            ExiError::UnknownGrammarId => -130,
            ExiError::UnknownEventCode => -150,
            ExiError::UnsupportedSubEvent => -151,
            ExiError::DeviantsNotSupported => -170,
            ExiError::StringvaluesNotSupported => -200,
            ExiError::UnsupportedIntegerValueType => -210,
            ExiError::UnsupportedDatetimeType => -211,
            ExiError::UnsupportedCharacterValue => -212,
            ExiError::NotImplementedYet => -299,
        }
    }

    pub fn code(&self) -> (r: i32)
        ensures
            r == self.spec_code(),
    {
        match self {
            ExiError::NoError => 0,
            ExiError::BitstreamOverflow => -1,
            ExiError::HeaderCookieNotSupported => -20,
            ExiError::HeaderOptionsNotSupported => -21,
            ExiError::SupportedMaxOctetsOverrun => -30,
            ExiError::OctetCountLargerThanTypeSupports => -31,
            ExiError::UnknownEventForDecoding => -50,
            ExiError::DecoderNotImplemented => -69,
            ExiError::UnknownEventForEncoding => -70,
            ExiError::EncoderNotImplemented => -89,
            ExiError::BitCountLargerThanTypeSize => -100,
            ExiError::ByteCountLargerThanTypeSize => -101,
            ExiError::ArrayOutOfBounds => -110,
            ExiError::CharacterBufferTooSmall => -111,
            ExiError::ByteBufferTooSmall => -112,
            ExiError::UnknownGrammarId => -130,
            ExiError::UnknownEventCode => -150,
            ExiError::UnsupportedSubEvent => -151,
            ExiError::DeviantsNotSupported => -170,
            ExiError::StringvaluesNotSupported => -200,
            ExiError::UnsupportedIntegerValueType => -210,
            ExiError::UnsupportedDatetimeType => -211,
            ExiError::UnsupportedCharacterValue => -212,
            ExiError::NotImplementedYet => -299,
        }
    }
}

} // verus!
