use git_switch::accounts::Account;
use git_switch::git_config::{
    credential_helper_to_set, credential_payload, forget_account_credential, forget_credential, forget_default_credential,
    git_config_value, host_for, host_for_provider, needs_workspace_lookup, pin_credential,
    ssh_key_to_apply, switch_account_plan, url_rewrite_key, url_rewrite_present,
    url_rewrite_value, CredentialAction, GitStep, Platform,
};

fn cred(action: CredentialAction, host: &str, user: Option<&str>, pass: Option<&str>) -> GitStep {
    GitStep::Credential {
        action,
        host: host.to_string(),
        username: user.map(|s| s.to_string()),
        password: pass.map(|s| s.to_string()),
    }
}

fn account(provider: &str, url_username: Option<&str>, ssh: Option<&str>) -> Account {
    Account {
        id: "id-1".to_string(),
        provider: provider.to_string(),
        label: "Work Me".to_string(),
        username: "me@corp.com".to_string(),
        email: "me@corp.com".to_string(),
        token: "tok".to_string(),
        url_username: url_username.map(|s| s.to_string()),
        ssh_key_path: ssh.map(|s| s.to_string()),
    }
}

#[test]
fn hosts_of_providers() {
    assert_eq!(host_for_provider("github"), Some("github.com"));
    assert_eq!(host_for_provider("bitbucket"), Some("bitbucket.org"));
    assert_eq!(host_for_provider("GitHub"), None);
    assert_eq!(host_for("gitlab"), None);
    assert_eq!(host_for("github"), Some("github.com"));
}

#[test]
fn payload_lists_fields_and_ends_with_blank_line() {
    assert_eq!(credential_payload("github.com", None, None), "protocol=https\nhost=github.com\n\n");
    assert_eq!(
        credential_payload("github.com", Some("me"), Some("secret")),
        "protocol=https\nhost=github.com\nusername=me\npassword=secret\n\n"
    );
    assert_eq!(
        credential_payload("bitbucket.org", Some("me"), None),
        "protocol=https\nhost=bitbucket.org\nusername=me\n\n"
    );
}

#[test]
fn forgetting_credentials() {
    assert_eq!(
        forget_credential("github.com", "me"),
        cred(CredentialAction::Reject, "github.com", Some("me"), None)
    );
    assert_eq!(
        forget_default_credential("github.com"),
        vec![
            cred(CredentialAction::Reject, "github.com", None, None),
            cred(CredentialAction::Reject, "github.com", Some("PersonalAccessToken"), None),
        ]
    );
}

#[test]
fn pin_with_same_user() {
    let steps = pin_credential("github", "octo", "tok", None);
    assert_eq!(
        steps,
        vec![
            GitStep::EnsureCredentialHelper,
            cred(CredentialAction::Reject, "github.com", None, None),
            cred(CredentialAction::Reject, "github.com", Some("PersonalAccessToken"), None),
            cred(CredentialAction::Approve, "github.com", Some("octo"), Some("tok")),
            GitStep::SetConfig {
                key: "credential.https://github.com.username".to_string(),
                value: "octo".to_string(),
            },
            GitStep::AddUrlRewrite { host: "github.com".to_string(), username: "octo".to_string() },
        ]
    );
}

#[test]
fn pin_with_workspace_handle_forgets_email_login() {
    let steps = pin_credential("bitbucket", "me@corp.com", "pw", Some("me_ws"));
    assert_eq!(steps.len(), 7);
    assert_eq!(steps[3], cred(CredentialAction::Reject, "bitbucket.org", Some("me@corp.com"), None));
    assert_eq!(steps[4], cred(CredentialAction::Approve, "bitbucket.org", Some("me_ws"), Some("pw")));
    assert_eq!(
        steps[5],
        GitStep::SetConfig {
            key: "credential.https://bitbucket.org.username".to_string(),
            value: "me_ws".to_string(),
        }
    );
}

#[test]
fn pin_for_unknown_provider_does_nothing() {
    assert!(pin_credential("gitlab", "u", "t", None).is_empty());
}

#[test]
fn helper_choice() {
    assert_eq!(credential_helper_to_set(false, false, Platform::MacOs), Some("osxkeychain"));
    assert_eq!(credential_helper_to_set(false, false, Platform::Windows), Some("manager"));
    assert_eq!(credential_helper_to_set(false, false, Platform::Other), None);
    assert_eq!(credential_helper_to_set(true, false, Platform::MacOs), None);
    assert_eq!(credential_helper_to_set(false, true, Platform::Windows), None);
}

#[test]
fn url_rewrite_texts() {
    assert_eq!(url_rewrite_key("github.com"), "url.https://github.com/.insteadOf");
    assert_eq!(url_rewrite_value("octo", "github.com"), "https://octo@github.com/");
    assert!(url_rewrite_present("https://a@github.com/\n  https://octo@github.com/  \n", "https://octo@github.com/"));
    assert!(!url_rewrite_present("https://a@github.com/\n", "https://octo@github.com/"));
    assert!(!url_rewrite_present("", "https://octo@github.com/"));
}

#[test]
fn config_values() {
    assert_eq!(git_config_value(true, "  Jane Doe \n"), Some("Jane Doe".to_string()));
    assert_eq!(git_config_value(true, " \n"), None);
    assert_eq!(git_config_value(false, "Jane"), None);
}

#[test]
fn switch_sets_identity_then_pins() {
    let a = account("github", None, Some("~/.ssh/id_work"));
    let plan = switch_account_plan(&a, None);
    assert_eq!(
        plan.identity,
        vec![
            GitStep::SetConfig { key: "user.name".to_string(), value: "Work Me".to_string() },
            GitStep::SetConfig { key: "user.email".to_string(), value: "me@corp.com".to_string() },
        ]
    );
    assert_eq!(plan.credential, pin_credential("github", "me@corp.com", "tok", None));
    let key = plan.ssh_key.unwrap();
    assert_eq!(key.host, "github.com");
    assert_eq!(key.key_path, "~/.ssh/id_work");
}

#[test]
fn ssh_key_application() {
    assert!(ssh_key_to_apply("github", Some("")).is_none());
    assert!(ssh_key_to_apply("gitlab", Some("~/.ssh/k")).is_none());
    assert!(ssh_key_to_apply("github", None).is_none());
    assert_eq!(ssh_key_to_apply("bitbucket", Some("k")).unwrap().host, "bitbucket.org");
}

#[test]
fn workspace_lookup_only_for_bitbucket_without_handle() {
    assert!(needs_workspace_lookup(&account("bitbucket", None, None)));
    assert!(!needs_workspace_lookup(&account("bitbucket", Some("ws"), None)));
    assert!(!needs_workspace_lookup(&account("github", None, None)));
}

#[test]
fn removal_forgets_user_at_provider_host() {
    assert_eq!(
        forget_account_credential("bitbucket", "me@corp.com"),
        Some(cred(CredentialAction::Reject, "bitbucket.org", Some("me@corp.com"), None))
    );
    assert_eq!(forget_account_credential("gitlab", "me"), None);
}

#[test]
fn listed_rewrite_is_found() {
    let v = url_rewrite_value("team", "bitbucket.org");
    let listing = format!("https://other@bitbucket.org/\n{}\n", v);
    assert!(url_rewrite_present(&listing, &v));
    assert!(!url_rewrite_present("https://other@bitbucket.org/\n", &v));
}
