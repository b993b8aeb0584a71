use vstd::prelude::*;

use crate::client::{opt_str_view, API};
use crate::errors::APIError;

verus! {

// Token acquisition is a short flow driven from outside: a request to the
// identity provider is issued, its redirect `Location` header (or its
// absence) is handed back in, and when the caller turns out not to be
// authenticated yet, one login is run and the request is retried exactly
// once. The decisions of that flow live here; issuing requests and running
// the login are the caller's work.
/// What `url::Url::parse` followed by `Url::query_pairs` yields on a string:
/// `None` when the string is not a URL, else the percent-decoded key/value
/// pairs of its query, in order.
pub uninterp spec fn url_pairs(s: Seq<char>) -> Option<Seq<(Seq<char>, Seq<char>)>>;

/// The views of a vector of string pairs.
pub open spec fn pairs_view(v: Seq<(String, String)>) -> Seq<(Seq<char>, Seq<char>)> {
    v.map_values(|p: (String, String)| (p.0@, p.1@))
}

/// The view of an optional vector of string pairs.
pub open spec fn opt_pairs_view(r: Option<Vec<(String, String)>>) -> Option<
    Seq<(Seq<char>, Seq<char>)>,
> {
    match r {
        Some(v) => Some(pairs_view(v@)),
        None => None,
    }
}

/// Relies on `url::Url::parse` and `Url::query_pairs`: parsing the string as
/// a URL and splitting its query into percent-decoded key/value pairs; the
/// result is a function of the string alone.
#[verifier::external_body]
fn parse_url_query_pairs(s: &str) -> (r: Option<Vec<(String, String)>>)
    ensures
        opt_pairs_view(r) == url_pairs(s@),
{
    match url::Url::parse(s) {
        Ok(u) => Some(u.query_pairs().map(|(k, v)| (k.into_owned(), v.into_owned())).collect()),
        Err(_) => None,
    }
}

/// Relies on `str::replace`: every `#` becomes `?`, every other character
/// stays where it is.
#[verifier::external_body]
fn replace_hash(s: &str) -> (r: String)
    ensures
        r@ == s@.map_values(
            |c: char|
                if c == '#' {
                    '?'
                } else {
                    c
                },
        ),
{
    s.replace('#', "?")
}

/// The value of the first `access_token` pair, if any.
pub open spec fn spec_find_token(pairs: Seq<(Seq<char>, Seq<char>)>) -> Option<Seq<char>>
    decreases pairs.len(),
{
    if pairs.len() == 0 {
        None
    } else if pairs[0].0 == "access_token"@ {
        Some(pairs[0].1)
    } else {
        spec_find_token(pairs.drop_first())
    }
}

/// Picks the value of the first `access_token` pair out of parsed query
/// pairs.
pub fn find_access_token(pairs: &Vec<(String, String)>) -> (r: Option<String>)
    ensures
        match r {
            Some(t) => spec_find_token(pairs_view(pairs@)) == Some(t@),
            None => spec_find_token(pairs_view(pairs@)) is None,
        },
{
    let ghost pv = pairs_view(pairs@);
    proof {
        assert(pv.subrange(0, pv.len() as int) =~= pv);
    }
    let needle = String::from_str("access_token");
    let mut i: usize = 0;
    while i < pairs.len()
        invariant
            0 <= i <= pairs@.len(),
            pv == pairs_view(pairs@),
            pv.len() == pairs@.len(),
            needle@ == "access_token"@,
            spec_find_token(pv) == spec_find_token(pv.subrange(i as int, pv.len() as int)),
        decreases pairs@.len() - i,
    {
        let ghost rest = pv.subrange(i as int, pv.len() as int);
        if pairs[i].0 == needle {
            proof {
                assert(rest[0] == (pairs@[i as int].0@, pairs@[i as int].1@));
            }
            return Some(pairs[i].1.clone());
        }
        proof {
            assert(rest[0] == (pairs@[i as int].0@, pairs@[i as int].1@));
            assert(rest.drop_first() =~= pv.subrange(i as int + 1, pv.len() as int));
        }
        i = i + 1;
    }
    proof {
        assert(pv.subrange(i as int, pv.len() as int) =~= Seq::<(Seq<char>, Seq<char>)>::empty());
    }
    None
}

/// The token a redirect `Location` value carries: the fragment marker
/// rewritten to a query marker, the result parsed as a URL, and the first
/// `access_token` parameter taken, with `Bearer ` put before it; `None` when
/// any of that fails.
pub open spec fn spec_token_from_location(loc: Seq<char>) -> Option<Seq<char>> {
    match url_pairs(
        loc.map_values(
            |c: char|
                if c == '#' {
                    '?'
                } else {
                    c
                },
        ),
    ) {
        None => None,
        Some(pairs) => match spec_find_token(pairs) {
            None => None,
            Some(v) => Some("Bearer "@ + v),
        },
    }
}

/// Extracts the bearer token out of a redirect `Location` value; any failure
/// of the fragment parsing is `BadFormat`.
pub fn token_from_location(location: &str) -> (r: Result<String, APIError>)
    ensures
        match r {
            Ok(t) => spec_token_from_location(location@) == Some(t@),
            Err(e) => e is BadFormat && spec_token_from_location(location@) is None,
        },
{
    let rewritten = replace_hash(location);
    match parse_url_query_pairs(rewritten.as_str()) {
        None => Err(APIError::BadFormat),
        Some(pairs) => match find_access_token(&pairs) {
            None => Err(APIError::BadFormat),
            Some(v) => {
                let mut t = String::from_str("Bearer ");
                t.append(v.as_str());
                Ok(t)
            },
        },
    }
}

/// Where the token flow stands: a request should be issued (before or after
/// the one login), the login should be run, or the flow has finished.
pub enum TokenState {
    AwaitFirst,
    AwaitLogin,
    AwaitRetry,
    Done(String),
    Failed(APIError),
}

/// The mathematical shape of a flow state.
pub ghost enum FlowState {
    AwaitFirst,
    AwaitLogin,
    AwaitRetry,
    Done(Seq<char>),
    Failed(APIError),
}

impl View for TokenState {
    type V = FlowState;

    open spec fn view(&self) -> FlowState {
        match self {
            TokenState::AwaitFirst => FlowState::AwaitFirst,
            TokenState::AwaitLogin => FlowState::AwaitLogin,
            TokenState::AwaitRetry => FlowState::AwaitRetry,
            TokenState::Done(t) => FlowState::Done(t@),
            TokenState::Failed(e) => FlowState::Failed(*e),
        }
    }
}

/// A state that asks nothing more of the caller.
pub open spec fn flow_finished(st: FlowState) -> bool {
    st is Done || st is Failed
}

/// Where the flow starts: a cached token finishes it at once, with no
/// request issued; otherwise the first request is due.
pub open spec fn spec_flow_start(cached: Option<Seq<char>>) -> FlowState {
    match cached {
        Some(t) => FlowState::Done(t),
        None => FlowState::AwaitFirst,
    }
}

/// How a response moves the flow. A redirect that carries a token finishes
/// the flow. Before the login, anything else asks for the login; after it, a
/// missing `Location` header means the caller is simply not authenticated,
/// and a header without a usable token is a malformed response.
pub open spec fn spec_flow_response(st: FlowState, location: Option<Seq<char>>) -> FlowState {
    match location {
        Some(loc) => match spec_token_from_location(loc) {
            Some(t) => FlowState::Done(t),
            None => if st is AwaitFirst {
                FlowState::AwaitLogin
            } else {
                FlowState::Failed(APIError::BadFormat)
            },
        },
        None => if st is AwaitFirst {
            FlowState::AwaitLogin
        } else {
            FlowState::Failed(APIError::Unauthorized)
        },
    }
}

/// After the login, the one retried request is due.
pub open spec fn spec_flow_login_done(st: FlowState) -> FlowState {
    FlowState::AwaitRetry
}

impl API {
    /// Starts the token flow: the cached token, when there is one, finishes
    /// it at once; otherwise the caller owes the first request.
    pub fn token_flow_start(&self) -> (st: TokenState)
        ensures
            st@ == spec_flow_start(opt_str_view(self.token)),
    {
        match &self.token {
            Some(t) => TokenState::Done(t.clone()),
            None => TokenState::AwaitFirst,
        }
    }

    /// Feeds the redirect `Location` value of a response (or its absence)
    /// into the flow. A token that comes out is cached; on anything else the
    /// client is left unchanged.
    pub fn token_flow_response(&mut self, state: TokenState, location: Option<String>) -> (next:
        TokenState)
        requires
            state@ is AwaitFirst || state@ is AwaitRetry,
        ensures
            next@ == spec_flow_response(state@, opt_str_view(location)),
            next@ matches FlowState::Done(t) ==> opt_str_view(final(self).token) == Some::<
                Seq<char>,
            >(t),
            !(next@ is Done) ==> *final(self) == *old(self),
            final(self).api_base_url == old(self).api_base_url,
    {
        match location {
            Some(loc) => match token_from_location(loc.as_str()) {
                Ok(t) => {
                    self.token = Some(t.clone());
                    TokenState::Done(t)
                },
                Err(e) => match state {
                    TokenState::AwaitFirst => TokenState::AwaitLogin,
                    _ => TokenState::Failed(e),
                },
            },
            None => match state {
                TokenState::AwaitFirst => TokenState::AwaitLogin,
                _ => TokenState::Failed(APIError::Unauthorized),
            },
        }
    }

    /// Notes that the one login has been run; the retried request is due.
    pub fn token_flow_login_done(&self, state: TokenState) -> (next: TokenState)
        requires
            state@ is AwaitLogin,
        ensures
            next@ == spec_flow_login_done(state@),
    {
        TokenState::AwaitRetry
    }
}

/// Law: the flow never issues a third request. Whatever the two responses
/// hold, the first response either finishes the flow or asks for the one
/// login, and the response to the retried request always finishes it.
pub proof fn lemma_token_flow_bounded(loc1: Option<Seq<char>>, loc2: Option<Seq<char>>)
    ensures
        ({
            let s1 = spec_flow_response(FlowState::AwaitFirst, loc1);
            flow_finished(s1) || (s1 is AwaitLogin && flow_finished(
                spec_flow_response(spec_flow_login_done(s1), loc2),
            ))
        }),
{
}

/// Law: a response to the retried request always finishes the flow; no state
/// that asks for a request or a login can follow it.
pub proof fn lemma_no_third_request(loc: Option<Seq<char>>)
    ensures
        flow_finished(spec_flow_response(FlowState::AwaitRetry, loc)),
{
}

/// Law: a cached token finishes the flow at once, with the cached value and
/// no request issued.
pub proof fn lemma_cached_token_reused(t: Seq<char>)
    ensures
        spec_flow_start(Some(t)) == FlowState::Done(t),
{
}

/// The username the login uses, in priority order: an explicit override, the
/// operating system's answer, the fallback environment value.
pub fn resolve_username(
    explicit: Option<String>,
    os_user: Option<String>,
    env_user: Option<String>,
) -> (r: Option<String>)
    ensures
        r == (if explicit is Some {
            explicit
        } else if os_user is Some {
            os_user
        } else {
            env_user
        }),
{
    match explicit {
        Some(u) => Some(u),
        None => match os_user {
            Some(u) => Some(u),
            None => env_user,
        },
    }
}

/// The Kerberos principal the login asks a ticket for: the username under
/// the fixed realm.
pub fn principal_for(username: &str) -> (r: String)
    ensures
        r@ == username@ + "@CSH.RIT.EDU"@,
{
    let mut r = String::from_str(username);
    r.append("@CSH.RIT.EDU");
    r
}

} // verus!
