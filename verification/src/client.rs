use vstd::prelude::*;
use vstd::utf8::encode_utf8;

use crate::codec::{encode_drop_request, spec_encode_drop};
use crate::errors::APIError;
use crate::numeric::{balance_of, parse_balance};

verus! {

/// The API client: the service's base URL and the cached bearer token.
///
/// The token is absent until the first successful acquisition and is then
/// reused, unchanged, by every later request of this client.
pub struct API {
    pub token: Option<String>,
    pub api_base_url: String,
}

/// The view of the cached token as an optional character sequence.
pub open spec fn opt_str_view(o: Option<String>) -> Option<Seq<char>> {
    match o {
        Some(s) => Some(s@),
        None => None,
    }
}

/// The listing URL: the base, the listing path, and the machine filter when
/// one machine is asked for.
pub open spec fn spec_listing_url(base: Seq<char>, machine: Option<Seq<char>>) -> Seq<char> {
    base + "/drinks"@ + (match machine {
        Some(m) => "?machine="@ + m,
        None => Seq::<char>::empty(),
    })
}

/// The drop URL under a base.
pub open spec fn spec_drop_url(base: Seq<char>) -> Seq<char> {
    base + "/drinks/drop"@
}

/// The credits URL for a user under a base.
pub open spec fn spec_credits_url(base: Seq<char>, uid: Seq<char>) -> Seq<char> {
    base + "/users/credits?uid="@ + uid
}

impl API {
    /// A client for the service at `api_base_url`, with no token yet.
    pub fn new(api_base_url: String) -> (api: API)
        ensures
            api.token is None,
            api.api_base_url == api_base_url,
    {
        API { token: None, api_base_url }
    }

    /// The listing URL, scoped to one machine when a filter is given.
    pub fn listing_url(&self, machine: Option<&str>) -> (r: String)
        ensures
            r@ == spec_listing_url(self.api_base_url@, match machine {
                Some(m) => Some(m@),
                None => None,
            }),
    {
        let mut r = self.api_base_url.clone();
        r.append("/drinks");
        match machine {
            Some(m) => {
                r.append("?machine=");
                r.append(m);
            },
            None => {
                proof {
                    assert(r@ =~= spec_listing_url(self.api_base_url@, None));
                }
            },
        }
        proof {
            if machine is Some {
                assert(r@ =~= spec_listing_url(
                    self.api_base_url@,
                    Some(machine.unwrap()@),
                ));
            }
        }
        r
    }

    /// The URL that drop orders are posted to.
    pub fn drop_url(&self) -> (r: String)
        ensures
            r@ == spec_drop_url(self.api_base_url@),
    {
        let mut r = self.api_base_url.clone();
        r.append("/drinks/drop");
        r
    }

    /// The URL that a user's credit balance is read from.
    pub fn credits_url(&self, uid: &str) -> (r: String)
        ensures
            r@ == spec_credits_url(self.api_base_url@, uid@),
    {
        let mut r = self.api_base_url.clone();
        r.append("/users/credits?uid=");
        r.append(uid);
        proof {
            assert(r@ =~= spec_credits_url(self.api_base_url@, uid@));
        }
        r
    }
}

impl Default for API {
    /// The client for the drink service's usual address.
    fn default() -> (api: API)
        ensures
            api.token is None,
            api.api_base_url@ == "https://drink.csh.rit.edu"@,
    {
        API::new(String::from_str("https://drink.csh.rit.edu"))
    }
}

/// The identity provider's authorization endpoint, asking for an implicit-flow
/// token for this client: fixed client id, redirect URI and scopes, and an
/// empty state and nonce.
pub fn auth_url() -> (r: String)
    ensures
        r@ == "https://sso.csh.rit.edu/auth/realms/csh/protocol/openid-connect/auth?client_id=clidrink&redirect_uri=drink%3A%2F%2Fcallback&response_type=token%20id_token&scope=openid%20profile%20drink_balance&state=&nonce="@,
{
    String::from_str(
        "https://sso.csh.rit.edu/auth/realms/csh/protocol/openid-connect/auth?client_id=clidrink&redirect_uri=drink%3A%2F%2Fcallback&response_type=token%20id_token&scope=openid%20profile%20drink_balance&state=&nonce=",
    )
}

/// The identity provider's user-info endpoint.
pub fn userinfo_url() -> (r: String)
    ensures
        r@ == "https://sso.csh.rit.edu/auth/realms/csh/protocol/openid-connect/userinfo"@,
{
    String::from_str("https://sso.csh.rit.edu/auth/realms/csh/protocol/openid-connect/userinfo")
}

/// The headers of an authenticated request: the token under `Authorization`,
/// the accepted content type, and, when a body is sent, its content type.
pub fn request_headers(token: String, has_body: bool) -> (h: Vec<(String, String)>)
    ensures
        h@.len() == (if has_body {
            3int
        } else {
            2int
        }),
        h@[0].0@ == "Authorization"@ && h@[0].1 == token,
        h@[1].0@ == "Accept"@ && h@[1].1@ == "application/json"@,
        has_body ==> h@[2].0@ == "Content-Type"@ && h@[2].1@ == "application/json"@,
{
    let mut h: Vec<(String, String)> = Vec::new();
    h.push((String::from_str("Authorization"), token));
    h.push((String::from_str("Accept"), String::from_str("application/json")));
    if has_body {
        h.push((String::from_str("Content-Type"), String::from_str("application/json")));
    }
    h
}

/// What reading a JSON document at a path of object keys yields: `None` when
/// the text is not JSON, a key of the path is missing, or the value reached is
/// not a string; else that string value.
pub uninterp spec fn json_str_at(text: Seq<char>, path: Seq<Seq<char>>) -> Option<Seq<char>>;

/// The views of a vector of strings.
pub open spec fn strings_view(v: Seq<String>) -> Seq<Seq<char>> {
    v.map_values(|s: String| s@)
}

/// Relies on `serde_json::from_str`, `Value::get` and `Value::as_str`:
/// parsing the text as JSON and walking the path of object keys to a string
/// value; the result is a function of the text and the path alone.
#[verifier::external_body]
fn json_string_at(text: &str, path: &Vec<String>) -> (r: Option<String>)
    ensures
        opt_str_view(r) == json_str_at(text@, strings_view(path@)),
{
    let parsed: serde_json::Value = match serde_json::from_str(text) {
        Ok(v) => v,
        Err(_) => return None,
    };
    let mut cur = &parsed;
    for key in path.iter() {
        match cur.get(key.as_str()) {
            Some(next) => cur = next,
            None => return None,
        }
    }
    cur.as_str().map(|s| s.to_string())
}

/// The message of a failed request: the body's `error` field, else its
/// `message` field, else the body text itself.
pub open spec fn spec_server_message(body: Seq<char>) -> Seq<char> {
    match json_str_at(body, seq!["error"@]) {
        Some(e) => e,
        None => match json_str_at(body, seq!["message"@]) {
            Some(m) => m,
            None => body,
        },
    }
}

/// Extracts the human-readable message of a failed request from its body.
pub fn server_error_message(body: &str) -> (r: String)
    ensures
        r@ == spec_server_message(body@),
{
    let mut path: Vec<String> = Vec::new();
    path.push(String::from_str("error"));
    proof {
        assert(strings_view(path@) =~= seq!["error"@]);
    }
    match json_string_at(body, &path) {
        Some(e) => e,
        None => {
            let mut path2: Vec<String> = Vec::new();
            path2.push(String::from_str("message"));
            proof {
                assert(strings_view(path2@) =~= seq!["message"@]);
            }
            match json_string_at(body, &path2) {
                Some(m) => m,
                None => String::from_str(body),
            }
        },
    }
}

/// Splits a response by its status: a success hands the body back for its
/// caller to read; anything else becomes a `ServerError` carrying the
/// request's URL, when known, and the message extracted from the body.
pub fn check_status(status: u16, url: Option<String>, body: String) -> (r: Result<String, APIError>)
    ensures
        status == 200 ==> r == Ok::<String, APIError>(body),
        status != 200 ==> (r matches Err(APIError::ServerError(u, m)) && u == url && m@
            == spec_server_message(body@)),
{
    if status == 200 {
        Ok(body)
    } else {
        let message = server_error_message(body.as_str());
        Err(APIError::ServerError(url, message))
    }
}

/// What a success body yields for a field that holds a balance string: the
/// balance value exactly when the field is there, follows the balance grammar
/// and fits a signed machine word.
pub open spec fn spec_balance_outcome(field: Option<Seq<char>>) -> Option<int> {
    match field {
        None => None,
        Some(b) => match balance_of(encode_utf8(b)) {
            Some(v) => if i64::MIN <= v <= i64::MAX {
                Some(v)
            } else {
                None
            },
            None => None,
        },
    }
}

/// Reads the balance reported by a drop response: on success the
/// `drinkBalance` field parsed as a signed integer, a missing field or a bad
/// number reported as `BadFormat`; on any other status the server's error.
pub fn drop_response_balance(status: u16, url: Option<String>, body: String) -> (r: Result<
    i64,
    APIError,
>)
    ensures
        status == 200 ==> match r {
            Ok(v) => spec_balance_outcome(json_str_at(body@, seq!["drinkBalance"@])) == Some(
                v as int,
            ),
            Err(e) => e is BadFormat && spec_balance_outcome(
                json_str_at(body@, seq!["drinkBalance"@]),
            ) is None,
        },
        status != 200 ==> (r matches Err(APIError::ServerError(u, m)) && u == url && m@
            == spec_server_message(body@)),
{
    let body = match check_status(status, url, body) {
        Ok(b) => b,
        Err(e) => {
            return Err(e);
        },
    };
    let mut path: Vec<String> = Vec::new();
    path.push(String::from_str("drinkBalance"));
    proof {
        assert(strings_view(path@) =~= seq!["drinkBalance"@]);
    }
    match json_string_at(body.as_str(), &path) {
        Some(b) => parse_balance(b.as_str()),
        None => Err(APIError::BadFormat),
    }
}

/// Reads the balance reported by the credits endpoint: the
/// `user.drinkBalance` field parsed as a signed integer; errors as in
/// `drop_response_balance`.
pub fn credits_response_balance(status: u16, url: Option<String>, body: String) -> (r: Result<
    i64,
    APIError,
>)
    ensures
        status == 200 ==> match r {
            Ok(v) => spec_balance_outcome(json_str_at(body@, seq!["user"@, "drinkBalance"@]))
                == Some(v as int),
            Err(e) => e is BadFormat && spec_balance_outcome(
                json_str_at(body@, seq!["user"@, "drinkBalance"@]),
            ) is None,
        },
        status != 200 ==> (r matches Err(APIError::ServerError(u, m)) && u == url && m@
            == spec_server_message(body@)),
{
    let body = match check_status(status, url, body) {
        Ok(b) => b,
        Err(e) => {
            return Err(e);
        },
    };
    let mut path: Vec<String> = Vec::new();
    path.push(String::from_str("user"));
    path.push(String::from_str("drinkBalance"));
    proof {
        assert(strings_view(path@) =~= seq!["user"@, "drinkBalance"@]);
    }
    match json_string_at(body.as_str(), &path) {
        Some(b) => parse_balance(b.as_str()),
        None => Err(APIError::BadFormat),
    }
}

/// Reads the caller's username from a user-info response: the
/// `preferred_username` field; a missing field is `BadFormat`, any other
/// status the server's error.
pub fn userinfo_response_username(status: u16, url: Option<String>, body: String) -> (r: Result<
    String,
    APIError,
>)
    ensures
        status == 200 ==> match r {
            Ok(u) => json_str_at(body@, seq!["preferred_username"@]) == Some(u@),
            Err(e) => e is BadFormat && json_str_at(body@, seq!["preferred_username"@]) is None,
        },
        status != 200 ==> (r matches Err(APIError::ServerError(u, m)) && u == url && m@
            == spec_server_message(body@)),
{
    let body = match check_status(status, url, body) {
        Ok(b) => b,
        Err(e) => {
            return Err(e);
        },
    };
    let mut path: Vec<String> = Vec::new();
    path.push(String::from_str("preferred_username"));
    proof {
        assert(strings_view(path@) =~= seq!["preferred_username"@]);
    }
    match json_string_at(body.as_str(), &path) {
        Some(u) => Ok(u),
        None => Err(APIError::BadFormat),
    }
}

/// A parsed command line: one of the four subcommands, as the presentation
/// layer hands them over.
#[allow(inconsistent_fields)]
pub enum Subcommands {
    Drop { machine: String, slot: u8 },
    List { machine: Option<String> },
    Credits,
    Token,
}

/// The first step a command asks of the transport.
pub enum Plan {
    PostDrop { url: String, body: Vec<u8> },
    GetListing { url: String },
    GetUserInfo { url: String },
    GetToken,
    Interactive,
}

/// Maps a parsed command line to the first request of its flow: a drop posts
/// the drop order, a listing gets the listing URL (scoped to one machine when
/// a filter is given), a credits check first resolves the user, a token
/// command runs the token flow alone, and no subcommand at all opens the
/// interactive screen.
pub fn process_command(api: &API, command: Option<Subcommands>) -> (p: Plan)
    ensures
        match command {
            Some(c) => match c {
                Subcommands::Drop { machine, slot } => p matches Plan::PostDrop { url, body }
                    && url@ == spec_drop_url(api.api_base_url@) && body@ == spec_encode_drop(
                    machine@,
                    slot,
                ),
                Subcommands::List { machine } => p matches Plan::GetListing { url } && url@
                    == spec_listing_url(api.api_base_url@, opt_str_view(machine)),
                Subcommands::Credits => p matches Plan::GetUserInfo { url } && url@
                    == "https://sso.csh.rit.edu/auth/realms/csh/protocol/openid-connect/userinfo"@,
                Subcommands::Token => p is GetToken,
            },
            None => p is Interactive,
        },
{
    match command {
        Some(Subcommands::Drop { machine, slot }) => Plan::PostDrop {
            url: api.drop_url(),
            body: encode_drop_request(machine.as_str(), slot),
        },
        Some(Subcommands::List { machine }) => Plan::GetListing {
            url: match machine {
                Some(m) => api.listing_url(Some(m.as_str())),
                None => api.listing_url(None),
            },
        },
        Some(Subcommands::Credits) => Plan::GetUserInfo { url: userinfo_url() },
        Some(Subcommands::Token) => Plan::GetToken,
        None => Plan::Interactive,
    }
}

} // verus!
