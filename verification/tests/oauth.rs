use git_switch::oauth::{
    device_code_body, poll_state, primary_email, read_token_answer, token_poll_body, urlencode,
    user_identity, DeviceFlowPoll, GhEmail, TokenAnswer, GITHUB_CLIENT_ID, SCOPE,
};

#[test]
fn urlencode_keeps_unreserved() {
    assert_eq!(urlencode("AZaz09-_.~"), "AZaz09-_.~");
    assert_eq!(urlencode(""), "");
}

#[test]
fn urlencode_escapes_the_rest() {
    assert_eq!(urlencode("read:user user:email repo"), "read%3Auser%20user%3Aemail%20repo");
    assert_eq!(urlencode("a/b+c=d&e"), "a%2Fb%2Bc%3Dd%26e");
    assert_eq!(urlencode("urn:ietf:params"), "urn%3Aietf%3Aparams");
}

#[test]
fn urlencode_escapes_each_utf8_byte_in_upper_hex() {
    assert_eq!(urlencode("é"), "%C3%A9");
    assert_eq!(urlencode("\u{7f}"), "%7F");
    assert_eq!(urlencode("\n"), "%0A");
}

#[test]
fn flow_start_body() {
    assert_eq!(
        device_code_body(GITHUB_CLIENT_ID),
        "client_id=Ov23liPCroas5Zmo9GxQ&scope=read%3Auser%20user%3Aemail%20repo"
    );
    assert_eq!(SCOPE, "read:user user:email repo");
}

#[test]
fn poll_body() {
    assert_eq!(
        token_poll_body("cid", "dev code/1"),
        "client_id=cid&device_code=dev%20code%2F1&grant_type=urn%3Aietf%3Aparams%3Aoauth%3Agrant-type%3Adevice_code"
    );
}

#[test]
fn error_codes_map_to_states() {
    assert_eq!(poll_state("authorization_pending"), DeviceFlowPoll::Pending);
    assert_eq!(poll_state("slow_down"), DeviceFlowPoll::SlowDown);
    assert_eq!(poll_state("expired_token"), DeviceFlowPoll::Expired);
    assert_eq!(poll_state("access_denied"), DeviceFlowPoll::Denied);
    assert_eq!(
        poll_state("incorrect_client_credentials"),
        DeviceFlowPoll::Error { message: "incorrect_client_credentials".to_string() }
    );
    assert_eq!(poll_state(""), DeviceFlowPoll::Error { message: String::new() });
}

#[test]
fn token_answer_error_wins_over_token() {
    assert_eq!(
        read_token_answer(Some("slow_down"), Some("tok".to_string())),
        Ok(TokenAnswer::Finished(DeviceFlowPoll::SlowDown))
    );
}

#[test]
fn token_answer_grants_token() {
    assert_eq!(
        read_token_answer(None, Some("gho_abc".to_string())),
        Ok(TokenAnswer::Granted("gho_abc".to_string()))
    );
}

#[test]
fn token_answer_without_token_is_error() {
    assert_eq!(
        read_token_answer(None, None),
        Err("Missing access_token in success response".to_string())
    );
}

#[test]
fn identity_falls_back_to_login() {
    assert_eq!(
        user_identity("octocat".to_string(), Some("The Octocat".to_string())),
        ("octocat".to_string(), Some("The Octocat".to_string()))
    );
    assert_eq!(
        user_identity("octocat".to_string(), None),
        ("octocat".to_string(), Some("octocat".to_string()))
    );
}

fn email(e: &str, primary: bool, verified: bool) -> GhEmail {
    GhEmail { email: e.to_string(), primary, verified }
}

#[test]
fn primary_verified_email_is_picked() {
    let emails = vec![
        email("a@x.com", false, true),
        email("b@x.com", true, false),
        email("c@x.com", true, true),
        email("d@x.com", true, true),
    ];
    assert_eq!(primary_email(&emails), Ok("c@x.com".to_string()));
}

#[test]
fn no_primary_verified_email() {
    let emails = vec![email("a@x.com", false, true), email("b@x.com", true, false)];
    assert_eq!(primary_email(&emails), Err("No primary verified email found".to_string()));
    assert_eq!(primary_email(&Vec::new()), Err("No primary verified email found".to_string()));
}

#[test]
fn encoding_uses_unreserved_and_upper_hex_only() {
    let out = urlencode("a b/é~");
    assert_eq!(out, "a%20b%2F%C3%A9~");
    assert!(out.chars().all(|c| c.is_ascii_alphanumeric() || "-_.~%".contains(c)));
    assert_ne!(urlencode("a b"), urlencode("a+b"));
}
