//! Checking stored credentials against the providers' APIs: the request's
//! authorization, what the answers mean, and what a successful check of a
//! stored account leads to.
use vstd::prelude::*;
use vstd::string::StringSliceAdditionalSpecFns;
use vstd::utf8::encode_utf8;
use base64::Engine;
use crate::accounts::Account;
use crate::git_config::{
    law_pin_keeps_identity, pin_credential, pin_steps, sets_identity, steps_view, string_opt_view,
    GitStep, StepView,
};
use crate::text::push_char;

verus! {

/// The outcome of checking credentials, for the dialog.
#[derive(Clone, Debug, PartialEq, Eq)]
pub struct ValidationResult {
    pub valid: bool,
    pub display_name: Option<String>,
    pub avatar_url: Option<String>,
    /// The username that clone URLs embed (a Bitbucket workspace handle).
    pub url_username: Option<String>,
    pub error: Option<String>,
}

pub struct ValidationView {
    pub valid: bool,
    pub display_name: Option<Seq<char>>,
    pub avatar_url: Option<Seq<char>>,
    pub url_username: Option<Seq<char>>,
    pub error: Option<Seq<char>>,
}

impl View for ValidationResult {
    type V = ValidationView;

    open spec fn view(&self) -> ValidationView {
        ValidationView {
            valid: self.valid,
            display_name: string_opt_view(self.display_name),
            avatar_url: string_opt_view(self.avatar_url),
            url_username: string_opt_view(self.url_username),
            error: string_opt_view(self.error),
        }
    }
}

/// The part of GitHub's `/user` answer that is read.
#[derive(Clone, Debug, PartialEq, Eq)]
pub struct GitHubUser {
    pub login: Option<String>,
    pub name: Option<String>,
    pub avatar_url: Option<String>,
}

/// The part of Bitbucket's `/2.0/user` answer that is read.
#[derive(Clone, Debug, PartialEq, Eq)]
pub struct BitbucketUser {
    pub display_name: Option<String>,
    pub username: Option<String>,
    pub links: Option<BitbucketLinks>,
}

#[derive(Clone, Debug, PartialEq, Eq)]
pub struct BitbucketLinks {
    pub avatar: Option<BitbucketHref>,
}

#[derive(Clone, Debug, PartialEq, Eq)]
pub struct BitbucketHref {
    pub href: Option<String>,
}

/// The first of two optional texts that is present (`Option::or`).
pub open spec fn first_present(a: Option<Seq<char>>, b: Option<Seq<char>>) -> Option<Seq<char>> {
    match a {
        Some(x) => Some(x),
        None => b,
    }
}

/// A successful check of a GitHub token: the name shown is the profile name,
/// or the login where there is none.
pub fn github_validation(user: GitHubUser) -> (r: ValidationResult)
    ensures
        r@ == (ValidationView {
            valid: true,
            display_name: first_present(string_opt_view(user.name), string_opt_view(user.login)),
            avatar_url: string_opt_view(user.avatar_url),
            url_username: None,
            error: None,
        }),
{
    let display_name = match user.name {
        Some(n) => Some(n),
        None => user.login,
    };
    ValidationResult {
        valid: true,
        display_name,
        avatar_url: user.avatar_url,
        url_username: None,
        error: None,
    }
}

/// The avatar link of a Bitbucket answer, where every level of it is present.
pub open spec fn bitbucket_avatar(user: BitbucketUser) -> Option<Seq<char>> {
    match user.links {
        Some(l) => match l.avatar {
            Some(a) => string_opt_view(a.href),
            None => None,
        },
        None => None,
    }
}

/// A successful check of Bitbucket credentials: the workspace handle that
/// the API returns as `username` is the URL username; the name shown is the
/// display name, or that handle where there is none.
pub fn bitbucket_validation(user: BitbucketUser) -> (r: ValidationResult)
    ensures
        r@ == (ValidationView {
            valid: true,
            display_name: first_present(
                string_opt_view(user.display_name),
                string_opt_view(user.username),
            ),
            avatar_url: bitbucket_avatar(user),
            url_username: string_opt_view(user.username),
            error: None,
        }),
{
    let avatar = match user.links {
        Some(l) => match l.avatar {
            Some(a) => a.href,
            None => None,
        },
        None => None,
    };
    let url_username = match &user.username {
        Some(n) => Some(n.clone()),
        None => None,
    };
    let display_name = match user.display_name {
        Some(n) => Some(n),
        None => user.username,
    };
    ValidationResult { valid: true, display_name, avatar_url: avatar, url_username, error: None }
}

/// The decimal digits of a number.
pub open spec fn decimal(n: nat) -> Seq<char>
    decreases n,
{
    if n < 10 {
        seq![(48 + n) as char]
    } else {
        decimal(n / 10) + seq![(48 + n % 10) as char]
    }
}

fn push_decimal(out: &mut String, n: u16)
    ensures
        final(out)@ == old(out)@ + decimal(n as nat),
    decreases n,
{
    if n >= 10 {
        push_decimal(out, n / 10);
    }
    let d = (n % 10) as u8;
    push_char(out, (48 + d) as char);
    assert(final(out)@ =~= old(out)@ + decimal(n as nat));
}

/// `HTTP <status> — <body>`.
pub open spec fn http_error_text(status: u16, body: Seq<char>) -> Seq<char> {
    "HTTP "@ + decimal(status as nat) + " — "@ + body
}

/// The outcome where the provider answered with a failure status.
pub fn http_failure(status: u16, body: &str) -> (r: ValidationResult)
    ensures
        r@ == (ValidationView {
            valid: false,
            display_name: None,
            avatar_url: None,
            url_username: None,
            error: Some(http_error_text(status, body@)),
        }),
{
    let mut e = String::from_str("HTTP ");
    push_decimal(&mut e, status);
    e.append(" — ");
    e.append(body);
    ValidationResult {
        valid: false,
        display_name: None,
        avatar_url: None,
        url_username: None,
        error: Some(e),
    }
}

/// `Unknown provider: <provider>`.
pub open spec fn unknown_provider_text(provider: Seq<char>) -> Seq<char> {
    "Unknown provider: "@ + provider
}

/// The outcome for an account of a provider that cannot be checked.
pub fn unknown_provider(provider: &str) -> (r: ValidationResult)
    ensures
        r@ == (ValidationView {
            valid: false,
            display_name: None,
            avatar_url: None,
            url_username: None,
            error: Some(unknown_provider_text(provider@)),
        }),
{
    let mut e = String::from_str("Unknown provider: ");
    e.append(provider);
    ValidationResult {
        valid: false,
        display_name: None,
        avatar_url: None,
        url_username: None,
        error: Some(e),
    }
}

/// The standard base64 alphabet.
pub open spec fn b64_digit(n: int) -> char {
    if n < 26 {
        (65 + n) as char
    } else if n < 52 {
        (97 + n - 26) as char
    } else if n < 62 {
        (48 + n - 52) as char
    } else if n == 62 {
        '+'
    } else {
        '/'
    }
}

/// Base64 with the standard alphabet and `=` padding (RFC 4648, section 4).
pub open spec fn base64_encode(b: Seq<u8>) -> Seq<char>
    decreases b.len(),
{
    if b.len() == 0 {
        Seq::<char>::empty()
    } else if b.len() == 1 {
        seq![b64_digit(b[0] as int / 4), b64_digit((b[0] as int % 4) * 16), '=', '=']
    } else if b.len() == 2 {
        seq![
            b64_digit(b[0] as int / 4),
            b64_digit((b[0] as int % 4) * 16 + b[1] as int / 16),
            b64_digit((b[1] as int % 16) * 4),
            '=',
        ]
    } else {
        seq![
            b64_digit(b[0] as int / 4),
            b64_digit((b[0] as int % 4) * 16 + b[1] as int / 16),
            b64_digit((b[1] as int % 16) * 4 + b[2] as int / 64),
            b64_digit(b[2] as int % 64),
        ] + base64_encode(b.subrange(3, b.len() as int))
    }
}

/// The encoded length of `len` bytes, with padding, fits in a `usize`.
pub open spec fn base64_len_fits(len: nat) -> bool {
    len / 3 * 4 + (if len % 3 == 0 {
        0int
    } else {
        4
    }) <= usize::MAX
}

/// `base64::engine::general_purpose::STANDARD.encode`: the standard-alphabet,
/// padded base64 encoding of the bytes. The crate panics where the encoded
/// length overflows a `usize`.
#[verifier::external_body]
fn base64_standard(bytes: &[u8]) -> (r: String)
    requires
        base64_len_fits(bytes@.len()),
    ensures
        r@ == base64_encode(bytes@),
{
    base64::engine::general_purpose::STANDARD.encode(bytes)
}

/// `Basic <base64 of "username:token">`.
pub open spec fn basic_auth(username: Seq<char>, token: Seq<char>) -> Seq<char> {
    "Basic "@ + base64_encode(encode_utf8(username + ":"@ + token))
}

/// The `Authorization` header for Bitbucket's API: basic authentication with
/// the username and the app password.
pub fn basic_auth_header(username: &str, token: &str) -> (r: String)
    requires
        base64_len_fits(encode_utf8(username@ + ":"@ + token@).len()),
    ensures
        r@ == basic_auth(username@, token@),
{
    let mut credentials = String::from_str(username);
    credentials.append(":");
    credentials.append(token);
    let bytes = credentials.as_str().as_bytes();
    let encoded = base64_standard(bytes);
    let mut header = String::from_str("Basic ");
    header.append(encoded.as_str());
    header
}

/// `Bearer <token>`, the `Authorization` header for GitHub's API.
pub fn bearer_auth_header(token: &str) -> (r: String)
    ensures
        r@ == "Bearer "@ + token@,
{
    let mut header = String::from_str("Bearer ");
    header.append(token);
    header
}

/// The providers whose credentials can be checked.
#[derive(Clone, Copy, Debug, PartialEq, Eq, Structural)]
pub enum ProviderKind {
    GitHub,
    Bitbucket,
    Unknown,
}

pub open spec fn provider_kind_of(provider: Seq<char>) -> ProviderKind {
    if provider == crate::git_config::github_word() {
        ProviderKind::GitHub
    } else if provider == crate::git_config::bitbucket_word() {
        ProviderKind::Bitbucket
    } else {
        ProviderKind::Unknown
    }
}

/// Which API checks an account of the provider.
pub fn provider_kind(provider: &str) -> (r: ProviderKind)
    ensures
        r == provider_kind_of(provider@),
{
    let p = crate::text::chars_of(provider);
    let gh = vec!['g', 'i', 't', 'h', 'u', 'b'];
    let bb = vec!['b', 'i', 't', 'b', 'u', 'c', 'k', 'e', 't'];
    assert(gh@ =~= crate::git_config::github_word());
    assert(bb@ =~= crate::git_config::bitbucket_word());
    if crate::text::chars_eq(&p, &gh) {
        ProviderKind::GitHub
    } else if crate::text::chars_eq(&p, &bb) {
        ProviderKind::Bitbucket
    } else {
        ProviderKind::Unknown
    }
}

/// What a check of a stored account leads to.
#[derive(Clone, Debug, PartialEq, Eq)]
pub struct ValidationFollowUp {
    /// The `git` steps to run, errors ignored: the credential pinning.
    pub steps: Vec<GitStep>,
    /// The URL username to record on the account, where one is to be recorded.
    pub record_url_username: Option<String>,
}

/// After checking a stored account: where the credentials are valid, clear
/// stale credentials and pin git to this account (as switching does, without
/// touching the commit identity), with the URL username the check found or
/// else the stored one; and record a found URL username that differs from
/// the stored one. Where they are not valid, nothing.
pub fn after_validation(account: &Account, result: &ValidationResult) -> (r: ValidationFollowUp)
    ensures
        steps_view(r.steps@) == if result.valid {
            pin_steps(
                account.provider@,
                account.username@,
                account.token@,
                first_present(string_opt_view(result.url_username), string_opt_view(account.url_username)),
            )
        } else {
            Seq::<StepView>::empty()
        },
        string_opt_view(r.record_url_username) == if result.valid && result.url_username is Some
            && string_opt_view(result.url_username) != string_opt_view(account.url_username) {
            string_opt_view(result.url_username)
        } else {
            None
        },
{
    if !result.valid {
        let steps: Vec<GitStep> = Vec::new();
        assert(steps_view(steps@) =~= Seq::<StepView>::empty());
        return ValidationFollowUp { steps, record_url_username: None };
    }
    let effective: Option<&str> = match &result.url_username {
        Some(u) => Some(u.as_str()),
        None => match &account.url_username {
            Some(u) => Some(u.as_str()),
            None => None,
        },
    };
    let steps = pin_credential(
        account.provider.as_str(),
        account.username.as_str(),
        account.token.as_str(),
        effective,
    );
    let record = match &result.url_username {
        Some(found) => {
            let same = match &account.url_username {
                Some(stored) => *found == *stored,
                None => false,
            };
            if same {
                None
            } else {
                Some(found.clone())
            }
        },
        None => None,
    };
    ValidationFollowUp { steps, record_url_username: record }
}


/// Checking a stored account never changes the commit identity: where the
/// credentials are valid, whatever URL username the check found or the
/// account had, the steps set neither `user.name` nor `user.email` (where
/// they are not valid there are no steps at all).
pub proof fn law_validation_keeps_identity(
    provider: Seq<char>,
    username: Seq<char>,
    token: Seq<char>,
    found: Option<Seq<char>>,
    stored: Option<Seq<char>>,
)
    ensures
        forall|i: int|
            0 <= i < pin_steps(provider, username, token, first_present(found, stored)).len()
                ==> !sets_identity(
                #[trigger] pin_steps(provider, username, token, first_present(found, stored))[i],
            ),
{
    law_pin_keeps_identity(provider, username, token, first_present(found, stored));
}

} // verus!
