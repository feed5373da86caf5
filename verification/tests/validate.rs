use git_switch::accounts::Account;
use git_switch::git_config::{pin_credential, GitStep};
use git_switch::validate::{
    after_validation, basic_auth_header, bearer_auth_header, bitbucket_validation,
    github_validation, http_failure, provider_kind, unknown_provider, BitbucketHref,
    BitbucketLinks, BitbucketUser, GitHubUser, ProviderKind, ValidationResult,
};

fn some(s: &str) -> Option<String> {
    Some(s.to_string())
}

fn ok_result(url_username: Option<&str>) -> ValidationResult {
    ValidationResult {
        valid: true,
        display_name: some("Me"),
        avatar_url: None,
        url_username: url_username.map(|s| s.to_string()),
        error: None,
    }
}

fn account(provider: &str, url_username: Option<&str>) -> Account {
    Account {
        id: "id-9".to_string(),
        provider: provider.to_string(),
        label: "Work".to_string(),
        username: "me@corp.com".to_string(),
        email: "me@corp.com".to_string(),
        token: "secret".to_string(),
        url_username: url_username.map(|s| s.to_string()),
        ssh_key_path: None,
    }
}

#[test]
fn basic_auth_is_base64_of_user_colon_token() {
    assert_eq!(basic_auth_header("user", "pass"), "Basic dXNlcjpwYXNz");
    assert_eq!(basic_auth_header("", ""), "Basic Og==");
    assert_eq!(basic_auth_header("a", ""), "Basic YTo=");
    assert_eq!(basic_auth_header("me@corp.com", "tok"), "Basic bWVAY29ycC5jb206dG9r");
}

#[test]
fn bearer_auth() {
    assert_eq!(bearer_auth_header("ghp_x"), "Bearer ghp_x");
}

#[test]
fn http_failure_reports_status_and_body() {
    assert_eq!(
        http_failure(401, "Bad credentials"),
        ValidationResult {
            valid: false,
            display_name: None,
            avatar_url: None,
            url_username: None,
            error: some("HTTP 401 — Bad credentials"),
        }
    );
    assert_eq!(http_failure(0, "").error, some("HTTP 0 — "));
    assert_eq!(http_failure(65535, "x").error, some("HTTP 65535 — x"));
}

#[test]
fn unknown_provider_result() {
    assert_eq!(
        unknown_provider("gitlab"),
        ValidationResult {
            valid: false,
            display_name: None,
            avatar_url: None,
            url_username: None,
            error: some("Unknown provider: gitlab"),
        }
    );
}

#[test]
fn github_display_name_falls_back_to_login() {
    let r = github_validation(GitHubUser { login: some("octo"), name: some("Octo Cat"), avatar_url: some("https://a/1") });
    assert_eq!(
        r,
        ValidationResult { valid: true, display_name: some("Octo Cat"), avatar_url: some("https://a/1"), url_username: None, error: None }
    );
    let r = github_validation(GitHubUser { login: some("octo"), name: None, avatar_url: None });
    assert_eq!(r.display_name, some("octo"));
    let r = github_validation(GitHubUser { login: None, name: None, avatar_url: None });
    assert_eq!(r, ValidationResult { valid: true, display_name: None, avatar_url: None, url_username: None, error: None });
}

#[test]
fn bitbucket_handle_is_url_username() {
    let user = BitbucketUser {
        display_name: some("Scott"),
        username: some("scott_handle"),
        links: Some(BitbucketLinks { avatar: Some(BitbucketHref { href: some("https://bb/av") }) }),
    };
    assert_eq!(
        bitbucket_validation(user),
        ValidationResult {
            valid: true,
            display_name: some("Scott"),
            avatar_url: some("https://bb/av"),
            url_username: some("scott_handle"),
            error: None,
        }
    );
}

#[test]
fn bitbucket_missing_parts() {
    let user = BitbucketUser { display_name: None, username: some("h"), links: Some(BitbucketLinks { avatar: None }) };
    let r = bitbucket_validation(user);
    assert_eq!(r.display_name, some("h"));
    assert_eq!(r.avatar_url, None);
    assert_eq!(r.url_username, some("h"));
    let user = BitbucketUser { display_name: None, username: None, links: None };
    assert_eq!(
        bitbucket_validation(user),
        ValidationResult { valid: true, display_name: None, avatar_url: None, url_username: None, error: None }
    );
}

#[test]
fn provider_kinds() {
    assert_eq!(provider_kind("github"), ProviderKind::GitHub);
    assert_eq!(provider_kind("bitbucket"), ProviderKind::Bitbucket);
    assert_eq!(provider_kind("Github"), ProviderKind::Unknown);
    assert_eq!(provider_kind(""), ProviderKind::Unknown);
}

#[test]
fn invalid_result_leads_to_nothing() {
    let mut r = ok_result(Some("h"));
    r.valid = false;
    let f = after_validation(&account("bitbucket", None), &r);
    assert_eq!(f.steps, Vec::<GitStep>::new());
    assert_eq!(f.record_url_username, None);
}

#[test]
fn found_handle_is_pinned_and_recorded() {
    let a = account("bitbucket", Some("old_handle"));
    let f = after_validation(&a, &ok_result(Some("new_handle")));
    assert_eq!(f.steps, pin_credential("bitbucket", "me@corp.com", "secret", Some("new_handle")));
    assert_eq!(f.record_url_username, some("new_handle"));
}

#[test]
fn stored_handle_is_used_when_none_found() {
    let a = account("bitbucket", Some("stored"));
    let f = after_validation(&a, &ok_result(None));
    assert_eq!(f.steps, pin_credential("bitbucket", "me@corp.com", "secret", Some("stored")));
    assert_eq!(f.record_url_username, None);
}

#[test]
fn same_handle_is_not_recorded_again() {
    let a = account("bitbucket", Some("same"));
    let f = after_validation(&a, &ok_result(Some("same")));
    assert_eq!(f.steps, pin_credential("bitbucket", "me@corp.com", "secret", Some("same")));
    assert_eq!(f.record_url_username, None);
}

#[test]
fn validation_never_sets_identity() {
    let a = account("github", None);
    let f = after_validation(&a, &ok_result(None));
    assert!(!f.steps.is_empty());
    for step in &f.steps {
        if let GitStep::SetConfig { key, .. } = step {
            assert!(key != "user.name" && key != "user.email");
        }
    }
}
