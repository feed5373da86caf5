//! GitHub's device flow for desktop apps: the form bodies sent to GitHub,
//! and what its answers mean for the sign-in dialog.
use vstd::prelude::*;
use vstd::string::StringSliceAdditionalSpecFns;
use vstd::utf8::encode_utf8;
use crate::text::push_char;
use crate::git_config::string_opt_view;

verus! {

/// The public client id of the OAuth app; device flow uses no secret.
pub const GITHUB_CLIENT_ID: &'static str = "Ov23liPCroas5Zmo9GxQ";

/// The scopes asked for: identity, e-mail, and `repo` so that the token also
/// serves `git push` and `git clone`.
pub const SCOPE: &'static str = "read:user user:email repo";

/// The `User-Agent` the app sends.
pub const USER_AGENT: &'static str = "git-switch-app";

/// The bytes that `application/x-www-form-urlencoded` leaves as they are.
pub open spec fn is_unreserved(b: u8) -> bool {
    ||| 65 <= b <= 90
    ||| 97 <= b <= 122
    ||| 48 <= b <= 57
    ||| b == 45
    ||| b == 95
    ||| b == 46
    ||| b == 126
}

/// An upper-case hexadecimal digit.
pub open spec fn hex_digit(n: u8) -> char {
    if n < 10 {
        (48 + n) as char
    } else {
        (55 + n) as char
    }
}

/// One byte encoded: itself where unreserved, `%` and two upper-case hex digits otherwise.
pub open spec fn encode_byte(b: u8) -> Seq<char> {
    if is_unreserved(b) {
        seq![b as char]
    } else {
        seq!['%', hex_digit(b / 16), hex_digit(b % 16)]
    }
}

/// The bytes percent-encoded one after the other.
pub open spec fn url_encoded(bytes: Seq<u8>) -> Seq<char>
    decreases bytes.len(),
{
    if bytes.len() == 0 {
        Seq::<char>::empty()
    } else {
        url_encoded(bytes.drop_last()) + encode_byte(bytes.last())
    }
}

fn hex_digit_exec(n: u8) -> (c: char)
    requires
        n < 16,
    ensures
        c == hex_digit(n),
{
    if n < 10 {
        (48 + n) as char
    } else {
        (55 + n) as char
    }
}

/// Percent-encodes the UTF-8 bytes of the text for a form body: letters,
/// digits and `-_.~` stay, every other byte becomes `%XX`.
pub fn urlencode(input: &str) -> (r: String)
    ensures
        r@ == url_encoded(encode_utf8(input@)),
{
    let bytes = input.as_bytes();
    let mut out = String::new();
    let mut i: usize = 0;
    assert(bytes@.subrange(0, 0) =~= Seq::<u8>::empty());
    while i < bytes.len()
        invariant
            bytes@ == encode_utf8(input@),
            i <= bytes@.len(),
            out@ == url_encoded(bytes@.subrange(0, i as int)),
        decreases bytes@.len() - i,
    {
        let b = bytes[i];
        proof {
            assert(bytes@.subrange(0, i + 1).drop_last() =~= bytes@.subrange(0, i as int));
            assert(bytes@.subrange(0, i + 1).last() == b);
        }
        if (65 <= b && b <= 90) || (97 <= b && b <= 122) || (48 <= b && b <= 57) || b == 45 || b
            == 95 || b == 46 || b == 126 {
            push_char(&mut out, b as char);
        } else {
            push_char(&mut out, '%');
            push_char(&mut out, hex_digit_exec(b / 16));
            push_char(&mut out, hex_digit_exec(b % 16));
        }
        assert(out@ =~= url_encoded(bytes@.subrange(0, i + 1)));
        i = i + 1;
    }
    assert(bytes@.subrange(0, i as int) =~= bytes@);
    out
}


/// The value of an upper-case hexadecimal digit.
pub open spec fn hex_value(c: char) -> int {
    let u = c as int;
    if 48 <= u <= 57 {
        u - 48
    } else {
        u - 55
    }
}

/// Percent-decoding: `%XX` gives the byte with that hexadecimal value, every
/// other character the byte of its code.
pub open spec fn percent_decode(s: Seq<char>) -> Seq<u8>
    decreases s.len(),
{
    if s.len() == 0 {
        Seq::<u8>::empty()
    } else if s[0] == '%' && s.len() >= 3 {
        seq![(hex_value(s[1]) * 16 + hex_value(s[2])) as u8] + percent_decode(
            s.subrange(3, s.len() as int),
        )
    } else {
        seq![s[0] as u8] + percent_decode(s.drop_first())
    }
}

proof fn lemma_url_encoded_cons(x: u8, bs: Seq<u8>)
    ensures
        url_encoded(seq![x] + bs) == encode_byte(x) + url_encoded(bs),
    decreases bs.len(),
{
    if bs.len() == 0 {
        assert(seq![x] + bs =~= seq![x]);
        assert(seq![x].drop_last() =~= Seq::<u8>::empty());
        assert(url_encoded(Seq::<u8>::empty()) =~= Seq::<char>::empty());
        assert(seq![x].last() == x);
        assert(url_encoded(seq![x]) == url_encoded(seq![x].drop_last()) + encode_byte(x));
        assert(url_encoded(seq![x]) =~= encode_byte(x));
        assert(url_encoded(bs) =~= Seq::<char>::empty());
        assert(encode_byte(x) + url_encoded(bs) =~= encode_byte(x));
    } else {
        lemma_url_encoded_cons(x, bs.drop_last());
        assert((seq![x] + bs).drop_last() =~= seq![x] + bs.drop_last());
        assert((seq![x] + bs).last() == bs.last());
        assert(url_encoded(seq![x] + bs) =~= encode_byte(x) + url_encoded(bs));
    }
}

proof fn lemma_decode_byte(x: u8, rest: Seq<char>)
    ensures
        percent_decode(encode_byte(x) + rest) == seq![x] + percent_decode(rest),
{
    let e = encode_byte(x) + rest;
    if is_unreserved(x) {
        assert(e[0] == x as char);
        assert((x as char) as u8 == x);
        assert(e.drop_first() =~= rest);
        assert(e[0] != '%');
    } else {
        let hi = x / 16;
        let lo = x % 16;
        assert(hex_value(hex_digit(hi)) == hi);
        assert(hex_value(hex_digit(lo)) == lo);
        assert(e[0] == '%' && e[1] == hex_digit(hi) && e[2] == hex_digit(lo));
        assert(e.subrange(3, e.len() as int) =~= rest);
        assert((hi * 16 + lo) as u8 == x);
    }
}

/// Percent-decoding the encoded bytes gives the bytes back: the encoding
/// loses nothing.
pub proof fn law_urlencode_decodes(bytes: Seq<u8>)
    ensures
        percent_decode(url_encoded(bytes)) == bytes,
    decreases bytes.len(),
{
    if bytes.len() == 0 {
        assert(url_encoded(bytes) =~= Seq::<char>::empty());
    } else {
        let x = bytes[0];
        let rest = bytes.drop_first();
        assert(bytes =~= seq![x] + rest);
        lemma_url_encoded_cons(x, rest);
        lemma_decode_byte(x, url_encoded(rest));
        law_urlencode_decodes(rest);
    }
}

/// A character that the encoding leaves as it is.
pub open spec fn is_unreserved_char(c: char) -> bool {
    ||| 'A' <= c <= 'Z'
    ||| 'a' <= c <= 'z'
    ||| '0' <= c <= '9'
    ||| c == '-'
    ||| c == '_'
    ||| c == '.'
    ||| c == '~'
}

/// An upper-case hexadecimal digit.
pub open spec fn is_upper_hex(c: char) -> bool {
    ('0' <= c <= '9') || ('A' <= c <= 'F')
}

/// The text is made of unreserved characters and `%` each followed by two
/// upper-case hexadecimal digits.
pub open spec fn is_form_encoded(s: Seq<char>) -> bool
    decreases s.len(),
{
    if s.len() == 0 {
        true
    } else if is_unreserved_char(s[0]) {
        is_form_encoded(s.drop_first())
    } else {
        s[0] == '%' && s.len() >= 3 && is_upper_hex(s[1]) && is_upper_hex(s[2]) && is_form_encoded(
            s.subrange(3, s.len() as int),
        )
    }
}

/// What the encoding writes is made of unreserved characters and `%XX`
/// escapes with upper-case hexadecimal digits.
pub proof fn law_urlencode_alphabet(bytes: Seq<u8>)
    ensures
        is_form_encoded(url_encoded(bytes)),
    decreases bytes.len(),
{
    if bytes.len() == 0 {
        assert(url_encoded(bytes) =~= Seq::<char>::empty());
    } else {
        let x = bytes[0];
        let rest = bytes.drop_first();
        assert(bytes =~= seq![x] + rest);
        lemma_url_encoded_cons(x, rest);
        law_urlencode_alphabet(rest);
        let t = url_encoded(rest);
        let e = encode_byte(x) + t;
        if is_unreserved(x) {
            assert(e[0] == x as char);
            assert(is_unreserved_char(x as char));
            assert(e.drop_first() =~= t);
        } else {
            assert(e[0] == '%');
            assert(!is_unreserved_char('%'));
            assert(is_upper_hex(hex_digit(x / 16)));
            assert(is_upper_hex(hex_digit(x % 16)));
            assert(e.subrange(3, e.len() as int) =~= t);
        }
    }
}

/// Different texts are encoded differently: the encoding loses nothing.
pub proof fn law_urlencode_injective(a: Seq<char>, b: Seq<char>)
    ensures
        url_encoded(encode_utf8(a)) == url_encoded(encode_utf8(b)) ==> a == b,
{
    law_urlencode_decodes(encode_utf8(a));
    law_urlencode_decodes(encode_utf8(b));
    vstd::utf8::encode_utf8_decode_utf8(a);
    vstd::utf8::encode_utf8_decode_utf8(b);
}

/// What GitHub answers to the start of the flow, for the dialog.
#[derive(Clone, Debug, PartialEq, Eq)]
pub struct DeviceFlowStart {
    pub device_code: String,
    pub user_code: String,
    pub verification_uri: String,
    pub expires_in: u64,
    pub interval: u64,
}

/// The state of the flow after one poll.
#[derive(Clone, Debug, PartialEq, Eq)]
pub enum DeviceFlowPoll {
    /// The user has not approved yet.
    Pending,
    /// Poll less often.
    SlowDown,
    /// The device code expired.
    Expired,
    /// The user denied access.
    Denied,
    /// Approved: the token and the identity it belongs to.
    Success { access_token: String, username: String, email: String, display_name: Option<String> },
    /// GitHub reported another error.
    Error { message: String },
}

pub enum PollView {
    Pending,
    SlowDown,
    Expired,
    Denied,
    Success {
        access_token: Seq<char>,
        username: Seq<char>,
        email: Seq<char>,
        display_name: Option<Seq<char>>,
    },
    Error { message: Seq<char> },
}

impl View for DeviceFlowPoll {
    type V = PollView;

    open spec fn view(&self) -> PollView {
        match self {
            DeviceFlowPoll::Pending => PollView::Pending,
            DeviceFlowPoll::SlowDown => PollView::SlowDown,
            DeviceFlowPoll::Expired => PollView::Expired,
            DeviceFlowPoll::Denied => PollView::Denied,
            DeviceFlowPoll::Success { access_token, username, email, display_name } =>
                PollView::Success {
                access_token: access_token@,
                username: username@,
                email: email@,
                display_name: string_opt_view(*display_name),
            },
            DeviceFlowPoll::Error { message } => PollView::Error { message: message@ },
        }
    }
}

/// The form field `name=<value percent-encoded>`.
pub open spec fn form_field(name: Seq<char>, value: Seq<char>) -> Seq<char> {
    name + url_encoded(encode_utf8(value))
}

/// `client_id=…&scope=…`, the body that starts the flow.
pub open spec fn device_code_form(client_id: Seq<char>) -> Seq<char> {
    form_field("client_id="@, client_id) + form_field("&scope="@, SCOPE@)
}

/// `client_id=…&device_code=…&grant_type=…`, the body of each poll.
pub open spec fn token_poll_form(client_id: Seq<char>, device_code: Seq<char>) -> Seq<char> {
    form_field("client_id="@, client_id) + form_field("&device_code="@, device_code) + form_field(
        "&grant_type="@,
        "urn:ietf:params:oauth:grant-type:device_code"@,
    )
}

/// The body that starts the flow, for `https://github.com/login/device/code`.
pub fn device_code_body(client_id: &str) -> (r: String)
    ensures
        r@ == device_code_form(client_id@),
{
    let mut body = String::from_str("client_id=");
    let id = urlencode(client_id);
    body.append(id.as_str());
    body.append("&scope=");
    let scope = urlencode(SCOPE);
    body.append(scope.as_str());
    body
}

/// The body of a poll, for `https://github.com/login/oauth/access_token`.
pub fn token_poll_body(client_id: &str, device_code: &str) -> (r: String)
    ensures
        r@ == token_poll_form(client_id@, device_code@),
{
    let mut body = String::from_str("client_id=");
    let id = urlencode(client_id);
    body.append(id.as_str());
    body.append("&device_code=");
    let code = urlencode(device_code);
    body.append(code.as_str());
    body.append("&grant_type=");
    let grant = urlencode("urn:ietf:params:oauth:grant-type:device_code");
    body.append(grant.as_str());
    body
}

/// The state that an error code of the token endpoint stands for.
pub open spec fn poll_state_for(error: Seq<char>) -> PollView {
    if error == "authorization_pending"@ {
        PollView::Pending
    } else if error == "slow_down"@ {
        PollView::SlowDown
    } else if error == "expired_token"@ {
        PollView::Expired
    } else if error == "access_denied"@ {
        PollView::Denied
    } else {
        PollView::Error { message: error }
    }
}

fn str_is(a: &str, b: &str) -> (r: bool)
    ensures
        r == (a@ == b@),
{
    crate::text::chars_eq(&crate::text::chars_of(a), &crate::text::chars_of(b))
}

/// The state of the flow for an error code of the token endpoint.
pub fn poll_state(error: &str) -> (r: DeviceFlowPoll)
    ensures
        r@ == poll_state_for(error@),
{
    if str_is(error, "authorization_pending") {
        DeviceFlowPoll::Pending
    } else if str_is(error, "slow_down") {
        DeviceFlowPoll::SlowDown
    } else if str_is(error, "expired_token") {
        DeviceFlowPoll::Expired
    } else if str_is(error, "access_denied") {
        DeviceFlowPoll::Denied
    } else {
        DeviceFlowPoll::Error { message: String::from_str(error) }
    }
}

/// What the token endpoint's answer means.
#[derive(Clone, Debug, PartialEq, Eq)]
pub enum TokenAnswer {
    /// The flow is in this state; nothing more to fetch.
    Finished(DeviceFlowPoll),
    /// A token was granted; the identity behind it is to be fetched.
    Granted(String),
}

/// `Missing access_token in success response`.
pub open spec fn missing_token_message() -> Seq<char> {
    "Missing access_token in success response"@
}

/// Reads the token endpoint's answer: an error code gives the state it
/// stands for, a token is granted, and an answer with neither is an error.
pub fn read_token_answer(error: Option<&str>, access_token: Option<String>) -> (r: Result<
    TokenAnswer,
    String,
>)
    ensures
        match error {
            Some(e) => r matches Ok(TokenAnswer::Finished(p)) && p@ == poll_state_for(e@),
            None => match access_token {
                Some(t) => r matches Ok(TokenAnswer::Granted(g)) && g@ == t@,
                None => r matches Err(m) && m@ == missing_token_message(),
            },
        },
{
    if let Some(e) = error {
        return Ok(TokenAnswer::Finished(poll_state(e)));
    }
    match access_token {
        Some(t) => Ok(TokenAnswer::Granted(t)),
        None => Err(String::from_str("Missing access_token in success response")),
    }
}

/// The login and the name shown for it: the profile name where set, the login otherwise.
pub fn user_identity(login: String, name: Option<String>) -> (r: (String, Option<String>))
    ensures
        r.0@ == login@,
        string_opt_view(r.1) == Some(
            match name {
                Some(n) => n@,
                None => login@,
            },
        ),
{
    let shown = match name {
        Some(n) => n,
        None => login.clone(),
    };
    (login, Some(shown))
}

/// An e-mail address of the GitHub user.
#[derive(Clone, Debug, PartialEq, Eq)]
pub struct GhEmail {
    pub email: String,
    pub primary: bool,
    pub verified: bool,
}

/// `No primary verified email found`.
pub open spec fn no_primary_message() -> Seq<char> {
    "No primary verified email found"@
}

/// The first address that is both primary and verified.
pub fn primary_email(emails: &Vec<GhEmail>) -> (r: Result<String, String>)
    ensures
        match r {
            Ok(e) => exists|i: int|
                0 <= i < emails@.len() && emails@[i].primary && emails@[i].verified && e@
                    == emails@[i].email@ && forall|j: int|
                    0 <= j < i ==> !(#[trigger] emails@[j].primary && emails@[j].verified),
            Err(m) => m@ == no_primary_message() && forall|j: int|
                0 <= j < emails@.len() ==> !(#[trigger] emails@[j].primary && emails@[j].verified),
        },
{
    let mut i: usize = 0;
    while i < emails.len()
        invariant
            i <= emails.len(),
            forall|j: int| 0 <= j < i ==> !(#[trigger] emails@[j].primary && emails@[j].verified),
        decreases emails.len() - i,
    {
        if emails[i].primary && emails[i].verified {
            return Ok(emails[i].email.clone());
        }
        i = i + 1;
    }
    Err(String::from_str("No primary verified email found"))
}

} // verus!
