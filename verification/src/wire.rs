//! The request/response shapes of the registry and math services, and
//! the status codes their handlers answer with. The concrete byte
//! encoding is the transport's business; the library works on these
//! plain values.

use vstd::prelude::*;

verus! {

/// Status answered by a service handler, mirroring the standard RPC
/// status codes the system uses.
#[derive(Debug)]
pub enum SvcError {
    /// A required field was empty, an operand was rejected.
    InvalidArgument,
    /// `GetService` on an id that is not registered; carries the id so
    /// the transport can name it in its message.
    NotFound { group: String, name: String },
    /// A consistency failure or a wrapped evaluator error.
    Internal,
}

#[derive(Debug)]
pub struct RegisterServiceResponse {
    pub ip: String,
    pub port: u32,
}

#[derive(Debug)]
pub struct GetServiceResponse {
    pub group: String,
    pub name: String,
    pub ip: String,
    pub port: u32,
}

/// Mathematical model of one listed service: the id and its endpoint.
pub struct SvcInfo {
    pub group: Seq<char>,
    pub name: Seq<char>,
    pub ip: Seq<char>,
    pub port: u32,
}

impl View for GetServiceResponse {
    type V = SvcInfo;

    open spec fn view(&self) -> SvcInfo {
        SvcInfo {
            group: self.group@,
            name: self.name@,
            ip: self.ip@,
            port: self.port,
        }
    }
}

#[derive(Debug)]
pub struct ListServiceResponse {
    pub services: Vec<GetServiceResponse>,
}

#[derive(Debug)]
pub struct BinaryOpRequest {
    pub num1: i64,
    pub num2: i64,
}

#[derive(Debug)]
pub struct MathResponse {
    pub result: i64,
}

} // verus!
