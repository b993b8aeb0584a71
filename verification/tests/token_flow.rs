use clink::client::API;
use clink::errors::APIError;
use clink::token::{principal_for, resolve_username, token_from_location, TokenState};

#[test]
fn token_extracted_and_cached() {
    let mut api = API::new("https://drink.csh.rit.edu".to_string());
    let st = api.token_flow_start();
    assert!(matches!(st, TokenState::AwaitFirst));
    let st = api.token_flow_response(
        st,
        Some("https://cb/callback#access_token=XYZ&token_type=Bearer".to_string()),
    );
    match st {
        TokenState::Done(t) => assert_eq!(t, "Bearer XYZ"),
        _ => panic!("expected the token"),
    }
    // A second call finds the cached token at once: no request is owed.
    match api.token_flow_start() {
        TokenState::Done(t) => assert_eq!(t, "Bearer XYZ"),
        _ => panic!("expected the cached token"),
    }
}

#[test]
fn missing_parameter_fails_after_login_retry() {
    let mut api = API::new("https://drink.csh.rit.edu".to_string());
    let loc = "https://cb/callback#token_type=Bearer";
    let st = api.token_flow_start();
    let st = api.token_flow_response(st, Some(loc.to_string()));
    assert!(matches!(st, TokenState::AwaitLogin));
    let st = api.token_flow_login_done(st);
    assert!(matches!(st, TokenState::AwaitRetry));
    let st = api.token_flow_response(st, Some(loc.to_string()));
    assert!(matches!(st, TokenState::Failed(APIError::BadFormat)));
}

#[test]
fn unauthenticated_path_runs_one_login_then_fails() {
    let mut api = API::new("https://drink.csh.rit.edu".to_string());
    let st = api.token_flow_start();
    // No Location header at all: exactly one login is asked for ...
    let st = api.token_flow_response(st, None);
    assert!(matches!(st, TokenState::AwaitLogin));
    // ... then exactly one retried request ...
    let st = api.token_flow_login_done(st);
    assert!(matches!(st, TokenState::AwaitRetry));
    // ... and a second miss ends the flow, with nothing further to drive.
    let st = api.token_flow_response(st, None);
    assert!(matches!(st, TokenState::Failed(APIError::Unauthorized)));
}

#[test]
fn location_with_token_parses() {
    let t = token_from_location("https://cb/callback#access_token=abc123&state=").unwrap();
    assert_eq!(t, "Bearer abc123");
}

#[test]
fn location_without_token_is_bad_format() {
    assert!(matches!(
        token_from_location("https://cb/callback#state=only"),
        Err(APIError::BadFormat)
    ));
    assert!(matches!(
        token_from_location("not a url at all"),
        Err(APIError::BadFormat)
    ));
}

#[test]
fn location_percent_decodes_token() {
    let t = token_from_location("https://cb/callback#access_token=a%2Bb").unwrap();
    assert_eq!(t, "Bearer a+b");
}

#[test]
fn username_priority_order() {
    let explicit = Some("one".to_string());
    let os_user = Some("two".to_string());
    let env_user = Some("three".to_string());
    assert_eq!(
        resolve_username(explicit.clone(), os_user.clone(), env_user.clone()),
        Some("one".to_string())
    );
    assert_eq!(
        resolve_username(None, os_user, env_user.clone()),
        Some("two".to_string())
    );
    assert_eq!(
        resolve_username(None, None, env_user),
        Some("three".to_string())
    );
    assert_eq!(resolve_username(None, None, None), None);
}

#[test]
fn principal_carries_the_realm() {
    assert_eq!(principal_for("mcmurphy"), "mcmurphy@CSH.RIT.EDU");
}
