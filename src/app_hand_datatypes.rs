//! The SupportedAppProtocol messages and their mathematical models.
use vstd::prelude::*;

verus! {

pub const APP_HAND_PROTOCOL_NAMESPACE_CHARACTER_SIZE: u8 = 100;

pub const APP_HAND_APPPROTOCOLTYPE_5_ARRAY_SIZE: u8 = 5;

/// The outcome of a negotiation, on the wire as a two-bit value.
#[derive(Debug, Clone, Copy, PartialEq, Eq, Structural)]
pub enum ResponseCode {
    OkSuccessfulNegotiation,
    OkSuccessfulNegotiationWithMinorDeviation,
    FailedNoNegotiation,
}

impl ResponseCode {
    /// The wire value of the code.
    pub open spec fn code(self) -> nat {
        match self {
            ResponseCode::OkSuccessfulNegotiation => 0,
            ResponseCode::OkSuccessfulNegotiationWithMinorDeviation => 1,
            ResponseCode::FailedNoNegotiation => 2,
        }
    }

    /// The code whose wire value is `value`; there is none above 2.
    pub fn try_from(value: u32) -> (r: Result<ResponseCode, ()>)
        ensures
            value <= 2 ==> r is Ok && r->Ok_0.code() == value,
            value > 2 ==> r is Err,
    {
        match value {
            0 => Ok(ResponseCode::OkSuccessfulNegotiation),
            1 => Ok(ResponseCode::OkSuccessfulNegotiationWithMinorDeviation),
            2 => Ok(ResponseCode::FailedNoNegotiation),
            _ => Err(()),
        }
    }
}

/// What an `AppHandAppProtocolType` holds.
pub struct ProtocolEntryModel {
    pub namespace: Seq<char>,
    pub version_number_major: u32,
    pub version_number_minor: u32,
    pub schema_id: u8,
    pub priority: u8,
}

/// What an `AppHandSupportedAppProtocolRes` holds.
pub struct ResponseModel {
    pub response_code: ResponseCode,
    pub schema_id: Option<u8>,
}

/// What an `AppProtocolExiDocument` holds.
pub enum DocumentModel {
    Req(Seq<ProtocolEntryModel>),
    Res(ResponseModel),
}

/// One application protocol that the vehicle offers; its priority is 1 (highest) to 32.
#[derive(Debug, PartialEq)]
pub struct AppHandAppProtocolType {
    protocol_namespace: String,
    version_number_major: u32,
    version_number_minor: u32,
    schema_id: u8,
    priority: u8,
}

impl View for AppHandAppProtocolType {
    type V = ProtocolEntryModel;

    closed spec fn view(&self) -> ProtocolEntryModel {
        ProtocolEntryModel {
            namespace: self.protocol_namespace@,
            version_number_major: self.version_number_major,
            version_number_minor: self.version_number_minor,
            schema_id: self.schema_id,
            priority: self.priority,
        }
    }
}

impl AppHandAppProtocolType {
    #[verifier::type_invariant]
    spec fn priority_in_range(&self) -> bool {
        1 <= self.priority <= 32
    }

    pub fn new(
        protocol_namespace: String,
        version_number_major: u32,
        version_number_minor: u32,
        schema_id: u8,
        priority: u8,
    ) -> (r: Self)
        requires
            1 <= priority <= 32,
        ensures
            r@ == (ProtocolEntryModel {
                namespace: protocol_namespace@,
                version_number_major,
                version_number_minor,
                schema_id,
                priority,
            }),
    {
        Self {
            protocol_namespace,
            version_number_major,
            version_number_minor,
            schema_id,
            priority,
        }
    }

    pub fn namespace(&self) -> (r: String)
        ensures
            r@ == self@.namespace,
    {
        self.protocol_namespace.clone()
    }

    pub fn version_number_major(&self) -> (r: u32)
        ensures
            r == self@.version_number_major,
    {
        self.version_number_major
    }

    pub fn version_number_minor(&self) -> (r: u32)
        ensures
            r == self@.version_number_minor,
    {
        self.version_number_minor
    }

    pub fn schema_id(&self) -> (r: u8)
        ensures
            r == self@.schema_id,
    {
        self.schema_id
    }

    pub fn priority(&self) -> (r: u8)
        ensures
            r == self@.priority,
            1 <= r <= 32,
    {
        proof {
            use_type_invariant(self);
        }
        self.priority
    }
}

/// The request: the protocols the vehicle offers.
#[derive(Debug, PartialEq)]
pub struct AppHandSupportedAppProtocolReq {
    app_protocol: Vec<AppHandAppProtocolType>,
}

impl View for AppHandSupportedAppProtocolReq {
    type V = Seq<ProtocolEntryModel>;

    closed spec fn view(&self) -> Seq<ProtocolEntryModel> {
        self.app_protocol@.map_values(|e: AppHandAppProtocolType| e@)
    }
}

impl AppHandSupportedAppProtocolReq {
    pub fn new(app_protocol: Vec<AppHandAppProtocolType>) -> (r: Self)
        ensures
            r@ == app_protocol@.map_values(|e: AppHandAppProtocolType| e@),
    {
        Self { app_protocol }
    }

    pub fn app_protocol(&self) -> (r: &Vec<AppHandAppProtocolType>)
        ensures
            r@.map_values(|e: AppHandAppProtocolType| e@) == self@,
    {
        &self.app_protocol
    }
}

/// The response: the outcome, and the chosen protocol's schema id unless it failed.
#[derive(Debug, PartialEq)]
pub struct AppHandSupportedAppProtocolRes {
    response_code: ResponseCode,
    schema_id: Option<u8>,
}

impl View for AppHandSupportedAppProtocolRes {
    type V = ResponseModel;

    closed spec fn view(&self) -> ResponseModel {
        ResponseModel { response_code: self.response_code, schema_id: self.schema_id }
    }
}

impl AppHandSupportedAppProtocolRes {
    pub fn new(response_code: ResponseCode, schema_id: Option<u8>) -> (r: Self)
        ensures
            r@ == (ResponseModel { response_code, schema_id }),
    {
        Self { response_code, schema_id }
    }

    /// The wire value of the response code.
    pub fn response_code(&self) -> (r: u8)
        ensures
            r == self@.response_code.code(),
    {
        match self.response_code {
            ResponseCode::OkSuccessfulNegotiation => 0,
            ResponseCode::OkSuccessfulNegotiationWithMinorDeviation => 1,
            ResponseCode::FailedNoNegotiation => 2,
        }
    }

    pub fn schema_id(&self) -> (r: Option<u8>)
        ensures
            r == self@.schema_id,
    {
        self.schema_id
    }
}

/// A handshake document: a request or a response.
#[derive(Debug, PartialEq)]
pub enum AppProtocolExiDocument {
    SupportedAppProtocolReq(AppHandSupportedAppProtocolReq),
    SupportedAppProtocolRes(AppHandSupportedAppProtocolRes),
}

impl View for AppProtocolExiDocument {
    type V = DocumentModel;

    open spec fn view(&self) -> DocumentModel {
        match self {
            AppProtocolExiDocument::SupportedAppProtocolReq(r) => DocumentModel::Req(r@),
            AppProtocolExiDocument::SupportedAppProtocolRes(r) => DocumentModel::Res(r@),
        }
    }
}

} // verus!
