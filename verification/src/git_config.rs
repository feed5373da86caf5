//! Git identity and credential handling: which host a provider uses, the
//! descriptors handed to `git credential`, and the ordered `git` operations
//! that switching or pinning an account performs.
use vstd::prelude::*;
use crate::text::{
    chars_eq, chars_of, has_char, lemma_split_last_line, lemma_trim_strip_cr, lines_of,
    lines_view, split_lines, string_of, strip_cr, trim, trim_chars,
};

verus! {

/// `"github"`.
pub open spec fn github_word() -> Seq<char> {
    seq!['g', 'i', 't', 'h', 'u', 'b']
}

/// `"bitbucket"`.
pub open spec fn bitbucket_word() -> Seq<char> {
    seq!['b', 'i', 't', 'b', 'u', 'c', 'k', 'e', 't']
}

/// `"github.com"`.
pub open spec fn github_host() -> Seq<char> {
    seq!['g', 'i', 't', 'h', 'u', 'b', '.', 'c', 'o', 'm']
}

/// `"bitbucket.org"`.
pub open spec fn bitbucket_host() -> Seq<char> {
    seq!['b', 'i', 't', 'b', 'u', 'c', 'k', 'e', 't', '.', 'o', 'r', 'g']
}

/// The host that a provider's repositories live on.
pub open spec fn provider_host(provider: Seq<char>) -> Option<Seq<char>> {
    if provider == github_word() {
        Some(github_host())
    } else if provider == bitbucket_word() {
        Some(bitbucket_host())
    } else {
        None
    }
}

pub open spec fn static_opt_view(o: Option<&'static str>) -> Option<Seq<char>> {
    match o {
        Some(s) => Some(s@),
        None => None,
    }
}

/// `"github"` is at `github.com`, `"bitbucket"` at `bitbucket.org`; no other
/// provider has a host.
pub fn host_for_provider(provider: &str) -> (r: Option<&'static str>)
    ensures
        static_opt_view(r) == provider_host(provider@),
{
    let p = chars_of(provider);
    let gh = vec!['g', 'i', 't', 'h', 'u', 'b'];
    let bb = vec!['b', 'i', 't', 'b', 'u', 'c', 'k', 'e', 't'];
    assert(gh@ =~= github_word());
    assert(bb@ =~= bitbucket_word());
    if chars_eq(&p, &gh) {
        let h = "github.com";
        proof {
            reveal_strlit("github.com");
            assert(h@ =~= github_host());
        }
        Some(h)
    } else if chars_eq(&p, &bb) {
        let h = "bitbucket.org";
        proof {
            reveal_strlit("bitbucket.org");
            assert(h@ =~= bitbucket_host());
        }
        Some(h)
    } else {
        None
    }
}

/// The host of a provider, as `host_for_provider` gives it.
pub fn host_for(provider: &str) -> (r: Option<&'static str>)
    ensures
        static_opt_view(r) == provider_host(provider@),
{
    host_for_provider(provider)
}


/// The name and e-mail that commits currently go out as.
#[derive(Clone, Debug, PartialEq, Eq)]
pub struct GitUser {
    pub name: String,
    pub email: String,
}

/// What `git credential` is asked to do with a descriptor.
#[derive(Clone, Copy, Debug, PartialEq, Eq, Structural)]
pub enum CredentialAction {
    /// `git credential approve`: store the credential.
    Approve,
    /// `git credential reject`: forget the credential.
    Reject,
}

/// One `git` operation on the user's global configuration or credential store.
#[derive(Clone, Debug, PartialEq, Eq)]
#[allow(inconsistent_fields)]
pub enum GitStep {
    /// `git config --global <key> <value>`.
    SetConfig { key: String, value: String },
    /// `git credential <action>` with the descriptor of `credential_payload`.
    Credential {
        action: CredentialAction,
        host: String,
        username: Option<String>,
        password: Option<String>,
    },
    /// Configure an OS credential helper when none is configured (see
    /// `credential_helper_to_set`).
    EnsureCredentialHelper,
    /// Rewrite remotes that embed `username` for `host` to the plain URL,
    /// unless that rewrite is present (see `url_rewrite_key`,
    /// `url_rewrite_value` and `url_rewrite_present`).
    AddUrlRewrite { host: String, username: String },
}

/// A `GitStep` with its texts taken by their views.
#[allow(inconsistent_fields)]
pub enum StepView {
    SetConfig { key: Seq<char>, value: Seq<char> },
    Credential {
        action: CredentialAction,
        host: Seq<char>,
        username: Option<Seq<char>>,
        password: Option<Seq<char>>,
    },
    EnsureCredentialHelper,
    AddUrlRewrite { host: Seq<char>, username: Seq<char> },
}

pub open spec fn string_opt_view(o: Option<String>) -> Option<Seq<char>> {
    match o {
        Some(s) => Some(s@),
        None => None,
    }
}

pub open spec fn str_opt_view(o: Option<&str>) -> Option<Seq<char>> {
    match o {
        Some(s) => Some(s@),
        None => None,
    }
}

impl View for GitStep {
    type V = StepView;

    open spec fn view(&self) -> StepView {
        match self {
            GitStep::SetConfig { key, value } => StepView::SetConfig { key: key@, value: value@ },
            GitStep::Credential { action, host, username, password } => StepView::Credential {
                action: *action,
                host: host@,
                username: string_opt_view(*username),
                password: string_opt_view(*password),
            },
            GitStep::EnsureCredentialHelper => StepView::EnsureCredentialHelper,
            GitStep::AddUrlRewrite { host, username } => StepView::AddUrlRewrite {
                host: host@,
                username: username@,
            },
        }
    }
}

pub open spec fn steps_view(v: Seq<GitStep>) -> Seq<StepView> {
    v.map_values(|s: GitStep| s@)
}

/// The descriptor that `git credential` reads on its standard input.
pub open spec fn credential_descriptor(
    host: Seq<char>,
    username: Option<Seq<char>>,
    password: Option<Seq<char>>,
) -> Seq<char> {
    let user_part = match username {
        Some(u) => "username="@ + u + "\n"@,
        None => Seq::<char>::empty(),
    };
    let password_part = match password {
        Some(p) => "password="@ + p + "\n"@,
        None => Seq::<char>::empty(),
    };
    "protocol=https\nhost="@ + host + "\n"@ + user_part + password_part + "\n"@
}

/// The descriptor for `git credential <action>`: protocol and host, then the
/// username and the password where given, ended by an empty line.
pub fn credential_payload(host: &str, username: Option<&str>, password: Option<&str>) -> (r: String)
    ensures
        r@ == credential_descriptor(host@, str_opt_view(username), str_opt_view(password)),
{
    let mut payload = String::from_str("protocol=https\nhost=");
    payload.append(host);
    payload.append("\n");
    if let Some(u) = username {
        payload.append("username=");
        payload.append(u);
        payload.append("\n");
    }
    if let Some(p) = password {
        payload.append("password=");
        payload.append(p);
        payload.append("\n");
    }
    payload.append("\n");
    assert(payload@ =~= credential_descriptor(
        host@,
        str_opt_view(username),
        str_opt_view(password),
    ));
    payload
}

pub open spec fn credential_view(
    action: CredentialAction,
    host: Seq<char>,
    username: Option<Seq<char>>,
    password: Option<Seq<char>>,
) -> StepView {
    StepView::Credential { action, host, username, password }
}

/// Tells the credential helper to forget what it stores for the user at the host.
pub fn forget_credential(host: &str, username: &str) -> (r: GitStep)
    ensures
        r@ == credential_view(CredentialAction::Reject, host@, Some(username@), None),
{
    GitStep::Credential {
        action: CredentialAction::Reject,
        host: String::from_str(host),
        username: Some(String::from_str(username)),
        password: None,
    }
}

/// What removing an account asks of the credential helper: to forget the
/// account's user at its provider's host; nothing for a provider without a host.
pub fn forget_account_credential(provider: &str, username: &str) -> (r: Option<GitStep>)
    ensures
        match provider_host(provider@) {
            Some(h) => r matches Some(step) && step@ == credential_view(
                CredentialAction::Reject,
                h,
                Some(username@),
                None,
            ),
            None => r is None,
        },
{
    match host_for(provider) {
        Some(h) => Some(forget_credential(h, username)),
        None => None,
    }
}

/// The steps that clear the credentials a helper stores for a host without a
/// namespacing username: the one with no username, and the one under the
/// default username `PersonalAccessToken`.
pub open spec fn forget_default_steps(host: Seq<char>) -> Seq<StepView> {
    seq![
        credential_view(CredentialAction::Reject, host, None, None),
        credential_view(CredentialAction::Reject, host, Some("PersonalAccessToken"@), None),
    ]
}

pub fn forget_default_credential(host: &str) -> (r: Vec<GitStep>)
    ensures
        steps_view(r@) == forget_default_steps(host@),
{
    let mut v: Vec<GitStep> = Vec::new();
    v.push(
        GitStep::Credential {
            action: CredentialAction::Reject,
            host: String::from_str(host),
            username: None,
            password: None,
        },
    );
    v.push(
        GitStep::Credential {
            action: CredentialAction::Reject,
            host: String::from_str(host),
            username: Some(String::from_str("PersonalAccessToken")),
            password: None,
        },
    );
    assert(steps_view(v@) =~= forget_default_steps(host@));
    v
}

/// The key that pins the username git asks the helper for at a host:
/// `credential.https://<host>.username`.
pub open spec fn pin_key(host: Seq<char>) -> Seq<char> {
    "credential.https://"@ + host + ".username"@
}

/// The username a credential is stored under: the URL username where there
/// is one (an `@` in an e-mail would be URL-encoded), the login otherwise.
pub open spec fn credential_user(username: Seq<char>, url_username: Option<Seq<char>>) -> Seq<char> {
    match url_username {
        Some(u) => u,
        None => username,
    }
}

/// The steps that store the token and pin git to it for the provider's host.
pub open spec fn pin_steps(
    provider: Seq<char>,
    username: Seq<char>,
    token: Seq<char>,
    url_username: Option<Seq<char>>,
) -> Seq<StepView> {
    match provider_host(provider) {
        None => Seq::<StepView>::empty(),
        Some(host) => {
            let user = credential_user(username, url_username);
            let old_login: Seq<StepView> = if user != username {
                seq![credential_view(CredentialAction::Reject, host, Some(username), None)]
            } else {
                Seq::<StepView>::empty()
            };
            seq![StepView::EnsureCredentialHelper] + forget_default_steps(host) + old_login + seq![
                credential_view(CredentialAction::Approve, host, Some(user), Some(token)),
                StepView::SetConfig { key: pin_key(host), value: user },
                StepView::AddUrlRewrite { host, username: user },
            ]
        },
    }
}

/// The steps that clear stale credentials for the provider's host, store the
/// token under the credential username and pin git to that username, in this
/// order: ensure a helper, forget the default credentials, forget the one
/// under the login where the URL username differs, store, pin, and add the
/// URL rewrite. A provider with no host gives no step.
pub fn pin_credential(provider: &str, username: &str, token: &str, url_username: Option<&str>) -> (r:
    Vec<GitStep>)
    ensures
        steps_view(r@) == pin_steps(provider@, username@, token@, str_opt_view(url_username)),
{
    let host = match host_for_provider(provider) {
        Some(h) => h,
        None => {
            let v: Vec<GitStep> = Vec::new();
            assert(steps_view(v@) =~= Seq::<StepView>::empty());
            return v;
        },
    };
    let ghost h = host@;
    let mut steps: Vec<GitStep> = Vec::new();
    steps.push(GitStep::EnsureCredentialHelper);
    let mut defaults = forget_default_credential(host);
    steps.append(&mut defaults);
    let cred_user: &str = match url_username {
        Some(u) => u,
        None => username,
    };
    let user_c = chars_of(cred_user);
    let login_c = chars_of(username);
    if !chars_eq(&user_c, &login_c) {
        steps.push(forget_credential(host, username));
    }
    steps.push(
        GitStep::Credential {
            action: CredentialAction::Approve,
            host: String::from_str(host),
            username: Some(String::from_str(cred_user)),
            password: Some(String::from_str(token)),
        },
    );
    let mut key = String::from_str("credential.https://");
    key.append(host);
    key.append(".username");
    steps.push(GitStep::SetConfig { key, value: String::from_str(cred_user) });
    steps.push(
        GitStep::AddUrlRewrite { host: String::from_str(host), username: String::from_str(cred_user) },
    );
    assert(steps_view(steps@) =~= pin_steps(
        provider@,
        username@,
        token@,
        str_opt_view(url_username),
    ));
    steps
}


/// The operating system, as far as choosing a credential helper goes.
#[derive(Clone, Copy, Debug, PartialEq, Eq, Structural)]
pub enum Platform {
    MacOs,
    Windows,
    Other,
}

/// The credential helper to configure: none where one is configured
/// globally or system-wide, `osxkeychain` on macOS, `manager` on Windows,
/// and none elsewhere (too many helpers to choose from).
pub fn credential_helper_to_set(global_set: bool, system_set: bool, platform: Platform) -> (r:
    Option<&'static str>)
    ensures
        static_opt_view(r) == if global_set || system_set {
            None
        } else {
            match platform {
                Platform::MacOs => Some("osxkeychain"@),
                Platform::Windows => Some("manager"@),
                Platform::Other => None,
            }
        },
{
    if global_set || system_set {
        return None;
    }
    match platform {
        Platform::MacOs => Some("osxkeychain"),
        Platform::Windows => Some("manager"),
        Platform::Other => None,
    }
}

/// `url.https://<host>/.insteadOf`.
pub open spec fn rewrite_key(host: Seq<char>) -> Seq<char> {
    "url.https://"@ + host + "/.insteadOf"@
}

/// `https://<username>@<host>/`.
pub open spec fn rewrite_value(username: Seq<char>, host: Seq<char>) -> Seq<char> {
    "https://"@ + username + "@"@ + host + "/"@
}

/// The configuration key under which URL rewrites for the host are kept.
pub fn url_rewrite_key(host: &str) -> (r: String)
    ensures
        r@ == rewrite_key(host@),
{
    let mut k = String::from_str("url.https://");
    k.append(host);
    k.append("/.insteadOf");
    k
}

/// The remote URL prefix, with the username embedded, that is rewritten.
pub fn url_rewrite_value(username: &str, host: &str) -> (r: String)
    ensures
        r@ == rewrite_value(username@, host@),
{
    let mut v = String::from_str("https://");
    v.append(username);
    v.append("@");
    v.append(host);
    v.append("/");
    v
}

/// Some line of the listed rewrites equals the value, both trimmed.
pub open spec fn rewrite_listed(existing: Seq<char>, value: Seq<char>) -> bool {
    exists|i: int|
        0 <= i < split_lines(existing).len() && trim(#[trigger] split_lines(existing)[i]) == trim(
            value,
        )
}

/// Whether `git config --get-all` output already lists the rewrite value.
pub fn url_rewrite_present(existing: &str, value: &str) -> (r: bool)
    ensures
        r == rewrite_listed(existing@, value@),
{
    let text = chars_of(existing);
    let lines = lines_of(&text);
    let v = chars_of(value);
    let tv = trim_chars(&v);
    let ghost lv = lines_view(lines@);
    let mut i: usize = 0;
    while i < lines.len()
        invariant
            lv == lines_view(lines@),
            lv == split_lines(existing@),
            tv@ == trim(value@),
            i <= lines.len(),
            forall|j: int| 0 <= j < i ==> trim(#[trigger] lv[j]) != tv@,
        decreases lines.len() - i,
    {
        let t = trim_chars(&lines[i]);
        if chars_eq(&t, &tv) {
            assert(trim(lv[i as int]) == trim(value@));
            return true;
        }
        i = i + 1;
    }
    false
}

/// For a provider with a host, the token is stored, git is pinned, and
/// remotes are rewritten all for one and the same username: the URL username
/// where one is given (a Bitbucket workspace handle), the login otherwise.
/// These are the last three steps of pinning, in this order.
pub proof fn law_pin_uses_one_user(
    provider: Seq<char>,
    username: Seq<char>,
    token: Seq<char>,
    url_username: Option<Seq<char>>,
)
    requires
        provider_host(provider) is Some,
    ensures
        ({
            let host = provider_host(provider)->0;
            let user = match url_username {
                Some(u) => u,
                None => username,
            };
            let steps = pin_steps(provider, username, token, url_username);
            let n = steps.len();
            &&& n >= 3
            &&& steps[n - 3] == (StepView::Credential {
                action: CredentialAction::Approve,
                host,
                username: Some(user),
                password: Some(token),
            })
            &&& steps[n - 2] == (StepView::SetConfig {
                key: "credential.https://"@ + host + ".username"@,
                value: user,
            })
            &&& steps[n - 1] == (StepView::AddUrlRewrite { host, username: user })
        }),
{
}

/// Once git lists the rewrite value (`git config --get-all` prints each
/// value on a line of its own, after whatever it listed before), the check
/// finds it, so a second `AddUrlRewrite` step writes nothing. The value
/// holds no line feed; what was listed before may be anything.
pub proof fn law_listed_rewrite_is_present(before: Seq<char>, value: Seq<char>)
    requires
        before.len() == 0 || before.last() == '\n',
        !has_char(value, '\n'),
    ensures
        rewrite_listed(before + value + seq!['\n'], value),
{
    lemma_split_last_line(before, value);
    let sp = split_lines(before + value + seq!['\n']);
    let k = split_lines(before).len() as int;
    assert(sp[k] == strip_cr(value));
    lemma_trim_strip_cr(value);
    assert(trim(sp[k]) == trim(value));
}

/// The value `git config --get` printed: none where git failed or printed
/// only whitespace, the printed text trimmed otherwise.
pub open spec fn config_value(success: bool, stdout: Seq<char>) -> Option<Seq<char>> {
    if !success || trim(stdout).len() == 0 {
        None
    } else {
        Some(trim(stdout))
    }
}

pub fn git_config_value(success: bool, stdout: &str) -> (r: Option<String>)
    ensures
        string_opt_view(r) == config_value(success, stdout@),
{
    if !success {
        return None;
    }
    let t = trim_chars(&chars_of(stdout));
    if t.len() == 0 {
        None
    } else {
        Some(string_of(&t))
    }
}


/// The commit identity that switching sets: `user.name` to the account's
/// label and `user.email` to its e-mail.
pub open spec fn identity_steps(label: Seq<char>, email: Seq<char>) -> Seq<StepView> {
    seq![
        StepView::SetConfig { key: "user.name"@, value: label },
        StepView::SetConfig { key: "user.email"@, value: email },
    ]
}

/// An SSH key to set for a host in the SSH configuration.
#[derive(Clone, Debug, PartialEq, Eq)]
pub struct SshKeyUpdate {
    pub host: String,
    pub key_path: String,
}

/// What switching to an account does, in order.
#[derive(Clone, Debug, PartialEq, Eq)]
pub struct SwitchPlan {
    /// Set the commit identity; a failure ends the switch with its error.
    pub identity: Vec<GitStep>,
    /// Store and pin the credential; failures are ignored.
    pub credential: Vec<GitStep>,
    /// Point the host's SSH block at the account's key; a failure is only reported.
    pub ssh_key: Option<SshKeyUpdate>,
}

/// The SSH key to apply for a provider: a non-empty key, for a provider with a host.
pub open spec fn ssh_key_target(provider: Seq<char>, key: Option<Seq<char>>) -> Option<
    (Seq<char>, Seq<char>),
> {
    match (provider_host(provider), key) {
        (Some(h), Some(k)) => if k.len() > 0 {
            Some((h, k))
        } else {
            None
        },
        _ => None,
    }
}

pub open spec fn ssh_update_view(u: Option<SshKeyUpdate>) -> Option<(Seq<char>, Seq<char>)> {
    match u {
        Some(x) => Some((x.host@, x.key_path@)),
        None => None,
    }
}

/// The SSH key to apply for the provider's host, where there is a non-empty
/// key and the provider has a host.
pub fn ssh_key_to_apply(provider: &str, key_path: Option<&str>) -> (r: Option<SshKeyUpdate>)
    ensures
        ssh_update_view(r) == ssh_key_target(provider@, str_opt_view(key_path)),
{
    let key = match key_path {
        Some(k) => k,
        None => return None,
    };
    if key.is_empty() {
        return None;
    }
    match host_for_provider(provider) {
        Some(h) => Some(SshKeyUpdate { host: String::from_str(h), key_path: String::from_str(key) }),
        None => None,
    }
}

/// Whether switching must first look up the account's URL username: a
/// Bitbucket account that has none recorded.
pub fn needs_workspace_lookup(account: &crate::accounts::Account) -> (r: bool)
    ensures
        r == (account.provider@ == bitbucket_word() && account.url_username is None),
{
    let p = chars_of(account.provider.as_str());
    let bb = vec!['b', 'i', 't', 'b', 'u', 'c', 'k', 'e', 't'];
    assert(bb@ =~= bitbucket_word());
    chars_eq(&p, &bb) && account.url_username.is_none()
}

/// Switching to an account: set the commit identity to its label and
/// e-mail; then store its token and pin git to it for the provider's host,
/// with the given URL username; then, where the account has an SSH key and
/// the provider a host, point the host's SSH block at the key.
pub fn switch_account_plan(account: &crate::accounts::Account, url_username: Option<&str>) -> (r:
    SwitchPlan)
    ensures
        steps_view(r.identity@) == identity_steps(account.label@, account.email@),
        steps_view(r.credential@) == pin_steps(
            account.provider@,
            account.username@,
            account.token@,
            str_opt_view(url_username),
        ),
        ssh_update_view(r.ssh_key) == ssh_key_target(
            account.provider@,
            string_opt_view(account.ssh_key_path),
        ),
{
    let mut identity: Vec<GitStep> = Vec::new();
    identity.push(
        GitStep::SetConfig { key: String::from_str("user.name"), value: account.label.clone() },
    );
    identity.push(
        GitStep::SetConfig { key: String::from_str("user.email"), value: account.email.clone() },
    );
    assert(steps_view(identity@) =~= identity_steps(account.label@, account.email@));
    let credential = pin_credential(
        account.provider.as_str(),
        account.username.as_str(),
        account.token.as_str(),
        url_username,
    );
    let key: Option<&str> = match &account.ssh_key_path {
        Some(k) => Some(k.as_str()),
        None => None,
    };
    let ssh_key = ssh_key_to_apply(account.provider.as_str(), key);
    SwitchPlan { identity, credential, ssh_key }
}


/// The step sets the commit identity (`user.name` or `user.email`).
pub open spec fn sets_identity(step: StepView) -> bool {
    step matches StepView::SetConfig { key, .. } && (key == "user.name"@ || key == "user.email"@)
}

/// Pinning a credential never touches the commit identity: it is what lets
/// validating an account fix its credentials without changing who commits.
pub proof fn law_pin_keeps_identity(
    provider: Seq<char>,
    username: Seq<char>,
    token: Seq<char>,
    url_username: Option<Seq<char>>,
)
    ensures
        forall|i: int|
            0 <= i < pin_steps(provider, username, token, url_username).len() ==> !sets_identity(
                #[trigger] pin_steps(provider, username, token, url_username)[i],
            ),
{
    reveal_strlit("user.name");
    reveal_strlit("user.email");
    reveal_strlit("credential.https://");
    reveal_strlit(".username");
    let steps = pin_steps(provider, username, token, url_username);
    if let Some(host) = provider_host(provider) {
        let user = credential_user(username, url_username);
        let old_login: Seq<StepView> = if user != username {
            seq![credential_view(CredentialAction::Reject, host, Some(username), None)]
        } else {
            Seq::<StepView>::empty()
        };
        let head = seq![StepView::EnsureCredentialHelper] + forget_default_steps(host) + old_login;
        let tail = seq![
            credential_view(CredentialAction::Approve, host, Some(user), Some(token)),
            StepView::SetConfig { key: pin_key(host), value: user },
            StepView::AddUrlRewrite { host, username: user },
        ];
        assert(steps == head + tail);
        assert forall|i: int| 0 <= i < steps.len() implies !sets_identity(#[trigger] steps[i]) by {
            if i < head.len() {
                assert(steps[i] == head[i]);
                if i >= 1 + 2 {
                    assert(head[i] == old_login[i - 3]);
                } else if i >= 1 {
                    assert(head[i] == forget_default_steps(host)[i - 1]);
                }
            } else {
                assert(steps[i] == tail[i - head.len()]);
                assert(pin_key(host).len() >= 19);
            }
        }
    }
}

/// For a provider with a host, git is pinned to the very username that the
/// token was just stored under, after the stale credentials were cleared.
pub proof fn law_pin_targets_stored_credential(
    provider: Seq<char>,
    username: Seq<char>,
    token: Seq<char>,
    url_username: Option<Seq<char>>,
)
    requires
        provider_host(provider) is Some,
    ensures
        ({
            let host = provider_host(provider)->0;
            let user = credential_user(username, url_username);
            let steps = pin_steps(provider, username, token, url_username);
            let n = steps.len();
            &&& n >= 3
            &&& steps[n - 3] == credential_view(
                CredentialAction::Approve,
                host,
                Some(user),
                Some(token),
            )
            &&& steps[n - 2] == (StepView::SetConfig { key: pin_key(host), value: user })
            &&& steps[1] == credential_view(CredentialAction::Reject, host, None, None)
        }),
{
}

} // verus!
