use vstd::prelude::*;

use crate::agentflow::model_error::Error as ModelError;
use crate::agentflow::web_error::{ClientError, Error as WebError};

verus! {

/// Every failure of the service.
#[derive(Debug, Clone, Copy)]
pub enum Error {
    WebError(WebError),
    ClientError(ClientError),
    ModelError(ModelError),
    ConfigMissingEnv(&'static str),
}

pub type Result<T> = core::result::Result<T, Error>;

/// HTTP 400 Bad Request.
pub const STATUS_BAD_REQUEST: u16 = 400;

/// HTTP 403 Forbidden.
pub const STATUS_FORBIDDEN: u16 = 403;

/// HTTP 500 Internal Server Error.
pub const STATUS_INTERNAL_SERVER_ERROR: u16 = 500;

/// The status code and client error that a failure is answered with: authentication
/// failures are forbidden, a delete of a missing ticket is a bad request, and
/// everything else is a service error.
pub open spec fn client_answer(e: Error) -> (u16, ClientError) {
    match e {
        Error::WebError(WebError::AuthFailNoAuthTokenCookie)
        | Error::WebError(WebError::AuthFailTokenWrongFormat)
        | Error::WebError(WebError::AuthFailCtxNotInRequestExt) => (403, ClientError::NO_AUTH),
        Error::ModelError(ModelError::TicketDeleteFailedIdNotFound { .. }) => (
            400,
            ClientError::INVALID_PARAMS,
        ),
        _ => (500, ClientError::SERVICE_ERROR),
    }
}

impl Error {
    /// The HTTP status code and the client error to answer this failure with.
    pub fn client_status_and_error(&self) -> (r: (u16, ClientError))
        ensures
            r == client_answer(*self),
            *self == Error::WebError(WebError::AuthFailNoAuthTokenCookie) || *self == Error::WebError(
                WebError::AuthFailTokenWrongFormat,
            ) || *self == Error::WebError(WebError::AuthFailCtxNotInRequestExt) ==> r == (
                403u16,
                ClientError::NO_AUTH,
            ),
    {
        match self {
            Error::WebError(WebError::AuthFailNoAuthTokenCookie)
            | Error::WebError(WebError::AuthFailTokenWrongFormat)
            | Error::WebError(WebError::AuthFailCtxNotInRequestExt) => {
                (STATUS_FORBIDDEN, ClientError::NO_AUTH)
            },
            Error::ModelError(ModelError::TicketDeleteFailedIdNotFound { .. }) => {
                (STATUS_BAD_REQUEST, ClientError::INVALID_PARAMS)
            },
            _ => (STATUS_INTERNAL_SERVER_ERROR, ClientError::SERVICE_ERROR),
        }
    }
}

/// Every authentication failure (no token cookie, a malformed token, no resolved
/// context in the request) is answered with 403 Forbidden and `NO_AUTH`, and no other
/// failure is.
pub proof fn lemma_auth_failures_forbidden(e: Error)
    ensures
        (client_answer(e) == (403u16, ClientError::NO_AUTH)) <==> (e == Error::WebError(
            WebError::AuthFailNoAuthTokenCookie,
        ) || e == Error::WebError(WebError::AuthFailTokenWrongFormat) || e == Error::WebError(
            WebError::AuthFailCtxNotInRequestExt,
        )),
{
}

impl From<WebError> for Error {
    fn from(e: WebError) -> (r: Self) {
        Error::WebError(e)
    }
}

impl vstd::std_specs::convert::FromSpecImpl<WebError> for Error {
    open spec fn obeys_from_spec() -> bool {
        true
    }

    open spec fn from_spec(e: WebError) -> Self {
        Error::WebError(e)
    }
}

impl From<ClientError> for Error {
    fn from(e: ClientError) -> (r: Self) {
        Error::ClientError(e)
    }
}

impl vstd::std_specs::convert::FromSpecImpl<ClientError> for Error {
    open spec fn obeys_from_spec() -> bool {
        true
    }

    open spec fn from_spec(e: ClientError) -> Self {
        Error::ClientError(e)
    }
}

impl From<ModelError> for Error {
    fn from(e: ModelError) -> (r: Self) {
        Error::ModelError(e)
    }
}

impl vstd::std_specs::convert::FromSpecImpl<ModelError> for Error {
    open spec fn obeys_from_spec() -> bool {
        true
    }

    open spec fn from_spec(e: ModelError) -> Self {
        Error::ModelError(e)
    }
}

} // verus!
