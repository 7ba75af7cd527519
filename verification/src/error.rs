use vstd::prelude::*;

verus! {

/// Failure taxonomy shared by the authentication engine, the registry and the
/// connection actor.  Authentication-related variants map to "unauthorized",
/// authorization and token-gate failures to "forbidden", malformed input to
/// "bad request", and everything else to "internal error".
#[derive(Debug, Clone, PartialEq, Eq)]
pub enum AppError {
    AuthenticationFailed(String),
    AuthorizationFailed(String),
    InvalidSignature,
    InvalidNonce,
    TokenGateFailed(String),
    DatabaseError(String),
    BlockchainError(String),
    WebSocketError(String),
    SerializationError(String),
    InvalidRequest(String),
    BadRequest(String),
    InternalError(String),
}

impl AppError {
    /// The HTTP status class an endpoint reports for this error.
    pub fn status_code(&self) -> (code: u16)
        ensures
            code == self.spec_status_code(),
    {
        match self {
            AppError::AuthenticationFailed(_) => 401,
            AppError::AuthorizationFailed(_) => 403,
            AppError::InvalidSignature => 401,
            AppError::InvalidNonce => 401,
            AppError::TokenGateFailed(_) => 403,
            AppError::InvalidRequest(_) => 400,
            AppError::BadRequest(_) => 400,
            _ => 500,
        }
    }

    pub open spec fn spec_status_code(&self) -> u16 {
        match self {
            AppError::AuthenticationFailed(_) => 401,
            AppError::AuthorizationFailed(_) => 403,
            AppError::InvalidSignature => 401,
            AppError::InvalidNonce => 401,
            AppError::TokenGateFailed(_) => 403,
            AppError::InvalidRequest(_) => 400,
            AppError::BadRequest(_) => 400,
            _ => 500,
        }
    }

    /// Human-readable rendering of the error, one line per variant.
    pub fn message(&self) -> (msg: String)
        ensures
            msg@ == self.spec_message(),
    {
        match self {
            AppError::AuthenticationFailed(s) => String::from_str("Authentication failed: ").concat(s.as_str()),
            AppError::AuthorizationFailed(s) => String::from_str("Authorization failed: ").concat(s.as_str()),
            AppError::InvalidSignature => String::from_str("Invalid signature"),
            AppError::InvalidNonce => String::from_str("Invalid nonce"),
            AppError::TokenGateFailed(s) => String::from_str("Token gate check failed: ").concat(s.as_str()),
            AppError::DatabaseError(s) => String::from_str("Database error: ").concat(s.as_str()),
            AppError::BlockchainError(s) => String::from_str("Blockchain error: ").concat(s.as_str()),
            AppError::WebSocketError(s) => String::from_str("WebSocket error: ").concat(s.as_str()),
            AppError::SerializationError(s) => String::from_str("Serialization error: ").concat(s.as_str()),
            AppError::InvalidRequest(s) => String::from_str("Invalid request: ").concat(s.as_str()),
            AppError::BadRequest(s) => String::from_str("Bad request: ").concat(s.as_str()),
            AppError::InternalError(s) => String::from_str("Internal server error: ").concat(s.as_str()),
        }
    }

    pub open spec fn spec_message(&self) -> Seq<char> {
        match self {
            AppError::AuthenticationFailed(s) => "Authentication failed: "@ + s@,
            AppError::AuthorizationFailed(s) => "Authorization failed: "@ + s@,
            AppError::InvalidSignature => "Invalid signature"@,
            AppError::InvalidNonce => "Invalid nonce"@,
            AppError::TokenGateFailed(s) => "Token gate check failed: "@ + s@,
            AppError::DatabaseError(s) => "Database error: "@ + s@,
            AppError::BlockchainError(s) => "Blockchain error: "@ + s@,
            AppError::WebSocketError(s) => "WebSocket error: "@ + s@,
            AppError::SerializationError(s) => "Serialization error: "@ + s@,
            AppError::InvalidRequest(s) => "Invalid request: "@ + s@,
            AppError::BadRequest(s) => "Bad request: "@ + s@,
            AppError::InternalError(s) => "Internal server error: "@ + s@,
        }
    }

    /// The body text an endpoint reports for this error: the rendered
    /// message for the client-fault classes, and a fixed line for the
    /// internal class, whose detail is hidden from callers.
    pub fn response_message(&self) -> (msg: String)
        ensures
            msg@ == if self.spec_status_code() == 500 {
                "Internal server error"@
            } else {
                self.spec_message()
            },
    {
        match self {
            AppError::AuthenticationFailed(_) => self.message(),
            AppError::AuthorizationFailed(_) => self.message(),
            AppError::InvalidSignature => self.message(),
            AppError::InvalidNonce => self.message(),
            AppError::TokenGateFailed(_) => self.message(),
            AppError::InvalidRequest(_) => self.message(),
            AppError::BadRequest(_) => self.message(),
            _ => String::from_str("Internal server error"),
        }
    }

    /// Clones the error; the copy is spec-equal to the original.
    pub fn duplicate(&self) -> (r: Self)
        ensures
            r == *self,
    {
        match self {
            AppError::AuthenticationFailed(s) => AppError::AuthenticationFailed(s.clone()),
            AppError::AuthorizationFailed(s) => AppError::AuthorizationFailed(s.clone()),
            AppError::InvalidSignature => AppError::InvalidSignature,
            AppError::InvalidNonce => AppError::InvalidNonce,
            AppError::TokenGateFailed(s) => AppError::TokenGateFailed(s.clone()),
            AppError::DatabaseError(s) => AppError::DatabaseError(s.clone()),
            AppError::BlockchainError(s) => AppError::BlockchainError(s.clone()),
            AppError::WebSocketError(s) => AppError::WebSocketError(s.clone()),
            AppError::SerializationError(s) => AppError::SerializationError(s.clone()),
            AppError::InvalidRequest(s) => AppError::InvalidRequest(s.clone()),
            AppError::BadRequest(s) => AppError::BadRequest(s.clone()),
            AppError::InternalError(s) => AppError::InternalError(s.clone()),
        }
    }
}

pub type AppResult<T> = Result<T, AppError>;

} // verus!
