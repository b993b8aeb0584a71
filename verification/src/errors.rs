use vstd::prelude::*;

verus! {

/// The error taxonomy of the client.
///
/// `Unauthorized` reports that no usable credentials were found even after the
/// one login retry; `BadFormat` reports a response whose shape the client does
/// not understand; `HTTPError` and `IsahcError` carry the message of a failure
/// in building or sending a request; `ServerError` carries the request URL (if
/// known) and the message the service reported with a non-success status;
/// `LoginAborted` reports that an interactive credential prompt was cancelled.
#[derive(Debug, Clone)]
pub enum APIError {
    Unauthorized,
    BadFormat,
    HTTPError(String),
    IsahcError(String),
    ServerError(Option<String>, String),
    LoginAborted,
}

impl APIError {
    /// The human-readable message of the error, one line.
    pub fn message(&self) -> (r: String)
        ensures
            r@ == self.spec_message(),
    {
        match self {
            APIError::Unauthorized => String::from_str(
                "Unauthorized (Did your Kerberos ticket expire?: `kinit`)",
            ),
            APIError::BadFormat => String::from_str(
                "BadFormat (The server sent data we didn't understand)",
            ),
            APIError::ServerError(path, message) => {
                let mut r = String::from_str("ServerError for ");
                match path {
                    Some(uri) => { r.append(uri.as_str()); },
                    None => { r.append("<unknown>"); },
                }
                r.append(": ");
                r.append(message.as_str());
                r
            },
            APIError::HTTPError(err) => {
                let mut r = String::from_str("HTTPError: ");
                r.append(err.as_str());
                r
            },
            APIError::IsahcError(err) => {
                let mut r = String::from_str("IsahcError: ");
                r.append(err.as_str());
                r
            },
            APIError::LoginAborted => String::from_str("Login aborted"),
        }
    }

    /// What `message` returns, spelled over sequences of characters.
    pub open spec fn spec_message(&self) -> Seq<char> {
        match self {
            APIError::Unauthorized => "Unauthorized (Did your Kerberos ticket expire?: `kinit`)"@,
            APIError::BadFormat => "BadFormat (The server sent data we didn't understand)"@,
            APIError::ServerError(path, message) => "ServerError for "@ + (match path {
                Some(uri) => uri@,
                None => "<unknown>"@,
            }) + ": "@ + message@,
            APIError::HTTPError(err) => "HTTPError: "@ + err@,
            APIError::IsahcError(err) => "IsahcError: "@ + err@,
            APIError::LoginAborted => "Login aborted"@,
        }
    }
}

} // verus!
