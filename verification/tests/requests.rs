use clink::client::{
    auth_url, check_status, credits_response_balance, drop_response_balance, process_command,
    request_headers, userinfo_response_username, userinfo_url, Plan, Subcommands, API,
};
use clink::errors::APIError;

#[test]
fn listing_url_scoped_to_one_machine() {
    let api = API::new("https://drink.csh.rit.edu".to_string());
    assert_eq!(
        api.listing_url(Some("facts")),
        "https://drink.csh.rit.edu/drinks?machine=facts"
    );
}

#[test]
fn listing_url_without_filter() {
    let api = API::new("https://drink.csh.rit.edu".to_string());
    assert_eq!(api.listing_url(None), "https://drink.csh.rit.edu/drinks");
}

#[test]
fn drop_and_credits_urls() {
    let api = API::new("https://example.test".to_string());
    assert_eq!(api.drop_url(), "https://example.test/drinks/drop");
    assert_eq!(
        api.credits_url("mcmurphy"),
        "https://example.test/users/credits?uid=mcmurphy"
    );
}

#[test]
fn endpoint_constants() {
    assert!(auth_url().starts_with("https://sso.csh.rit.edu/"));
    assert!(auth_url().contains("client_id=clidrink"));
    assert!(auth_url().contains("response_type=token%20id_token"));
    assert_eq!(
        userinfo_url(),
        "https://sso.csh.rit.edu/auth/realms/csh/protocol/openid-connect/userinfo"
    );
}

#[test]
fn headers_carry_token_and_content_types() {
    let h = request_headers("Bearer XYZ".to_string(), true);
    assert_eq!(h.len(), 3);
    assert_eq!(h[0], ("Authorization".to_string(), "Bearer XYZ".to_string()));
    assert_eq!(h[1], ("Accept".to_string(), "application/json".to_string()));
    assert_eq!(
        h[2],
        ("Content-Type".to_string(), "application/json".to_string())
    );
    let h = request_headers("Bearer XYZ".to_string(), false);
    assert_eq!(h.len(), 2);
}

#[test]
fn success_hands_back_the_body() {
    let r = check_status(200, None, "{\"machines\":[]}".to_string());
    assert_eq!(r.unwrap(), "{\"machines\":[]}");
}

#[test]
fn failure_extracts_error_field() {
    let url = "https://drink.csh.rit.edu/drinks/drop".to_string();
    let r = check_status(400, Some(url.clone()), "{ \"error\": \"Slot empty\" }".to_string());
    match r {
        Err(APIError::ServerError(u, m)) => {
            assert_eq!(u, Some(url));
            assert_eq!(m, "Slot empty");
        }
        _ => panic!("expected a server error"),
    }
}

#[test]
fn failure_falls_back_to_message_field() {
    let r = check_status(500, None, "{ \"message\": \"down for maintenance\" }".to_string());
    match r {
        Err(APIError::ServerError(_, m)) => assert_eq!(m, "down for maintenance"),
        _ => panic!("expected a server error"),
    }
}

#[test]
fn failure_falls_back_to_raw_body() {
    let r = check_status(502, None, "bad gateway".to_string());
    match r {
        Err(APIError::ServerError(_, m)) => assert_eq!(m, "bad gateway"),
        _ => panic!("expected a server error"),
    }
}

#[test]
fn drop_success_reports_new_balance() {
    let r = drop_response_balance(200, None, "{ \"drinkBalance\": \"42\" }".to_string());
    assert_eq!(r.unwrap(), 42);
}

#[test]
fn drop_failure_carries_server_message() {
    let url = "https://drink.csh.rit.edu/drinks/drop".to_string();
    let r = drop_response_balance(
        400,
        Some(url.clone()),
        "{ \"error\": \"Slot empty\" }".to_string(),
    );
    match r {
        Err(APIError::ServerError(u, m)) => {
            assert_eq!(u, Some(url));
            assert_eq!(m, "Slot empty");
        }
        _ => panic!("expected a server error"),
    }
}

#[test]
fn drop_malformed_balance_is_bad_format() {
    let r = drop_response_balance(200, None, "{ \"drinkBalance\": \"soon\" }".to_string());
    assert!(matches!(r, Err(APIError::BadFormat)));
    let r = drop_response_balance(200, None, "{}".to_string());
    assert!(matches!(r, Err(APIError::BadFormat)));
}

#[test]
fn credits_balance_read_from_nested_field() {
    let body = "{ \"user\": { \"drinkBalance\": \"150\" } }".to_string();
    assert_eq!(credits_response_balance(200, None, body).unwrap(), 150);
    let body = "{ \"user\": { \"drinkBalance\": \"-5\" } }".to_string();
    assert_eq!(credits_response_balance(200, None, body).unwrap(), -5);
}

#[test]
fn credits_malformed_balance_is_bad_format() {
    let body = "{ \"user\": { \"drinkBalance\": \"plenty\" } }".to_string();
    assert!(matches!(
        credits_response_balance(200, None, body),
        Err(APIError::BadFormat)
    ));
}

#[test]
fn username_read_from_userinfo() {
    let body = "{ \"preferred_username\": \"mcmurphy\" }".to_string();
    assert_eq!(
        userinfo_response_username(200, None, body).unwrap(),
        "mcmurphy"
    );
    assert!(matches!(
        userinfo_response_username(200, None, "{}".to_string()),
        Err(APIError::BadFormat)
    ));
}

#[test]
fn drop_command_plans_the_post() {
    let api = API::new("https://drink.csh.rit.edu".to_string());
    let p = process_command(
        &api,
        Some(Subcommands::Drop {
            machine: "facts".to_string(),
            slot: 3,
        }),
    );
    match p {
        Plan::PostDrop { url, body } => {
            assert_eq!(url, "https://drink.csh.rit.edu/drinks/drop");
            assert_eq!(body, b"{\"machine\":\"facts\",\"slot\":3}".to_vec());
        }
        _ => panic!("expected a drop plan"),
    }
}

#[test]
fn list_command_plans_the_listing() {
    let api = API::new("https://drink.csh.rit.edu".to_string());
    let p = process_command(
        &api,
        Some(Subcommands::List {
            machine: Some("facts".to_string()),
        }),
    );
    match p {
        Plan::GetListing { url } => {
            assert_eq!(url, "https://drink.csh.rit.edu/drinks?machine=facts")
        }
        _ => panic!("expected a listing plan"),
    }
}

#[test]
fn other_commands_plan_their_first_step() {
    let api = API::new("https://drink.csh.rit.edu".to_string());
    assert!(matches!(
        process_command(&api, Some(Subcommands::Credits)),
        Plan::GetUserInfo { .. }
    ));
    assert!(matches!(
        process_command(&api, Some(Subcommands::Token)),
        Plan::GetToken
    ));
    assert!(matches!(process_command(&api, None), Plan::Interactive));
}

#[test]
fn error_messages_render() {
    assert_eq!(
        APIError::Unauthorized.message(),
        "Unauthorized (Did your Kerberos ticket expire?: `kinit`)"
    );
    assert_eq!(
        APIError::BadFormat.message(),
        "BadFormat (The server sent data we didn't understand)"
    );
    assert_eq!(
        APIError::ServerError(None, "m".to_string()).message(),
        "ServerError for <unknown>: m"
    );
    assert_eq!(
        APIError::ServerError(Some("u".to_string()), "m".to_string()).message(),
        "ServerError for u: m"
    );
    assert_eq!(
        APIError::HTTPError("e".to_string()).message(),
        "HTTPError: e"
    );
    assert_eq!(
        APIError::IsahcError("e".to_string()).message(),
        "IsahcError: e"
    );
    assert_eq!(APIError::LoginAborted.message(), "Login aborted");
}
