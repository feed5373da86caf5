//! The managed accounts: their records, the masked form shown to the user,
//! the store they are kept in, and the OS keychain that holds their tokens.
use vstd::prelude::*;
use vstd::utf8::{decode_utf8, encode_utf8, is_char_boundary};
use vstd::string::StringSliceAdditionalSpecFns;
use crate::git_config::{string_opt_view, str_opt_view};

verus! {

broadcast use vstd::utf8::group_utf8_lib;

/// A managed account. The token lives in the OS keychain; `token` holds one
/// only while it is read for use, or in a record written by an older version
/// that kept tokens on disk.
#[derive(Clone, Debug, PartialEq, Eq)]
pub struct Account {
    pub id: String,
    /// `"github"` or `"bitbucket"`.
    pub provider: String,
    pub label: String,
    pub username: String,
    pub email: String,
    pub token: String,
    /// The username that clone URLs embed (a Bitbucket workspace handle),
    /// where it is known.
    pub url_username: Option<String>,
    /// The SSH key configured for the account, where there is one.
    pub ssh_key_path: Option<String>,
}

/// An account as shown to the user: the token masked.
#[derive(Clone, Debug, PartialEq, Eq)]
pub struct AccountSafe {
    pub id: String,
    pub provider: String,
    pub label: String,
    pub username: String,
    pub email: String,
    pub token: String,
}

/// An account as the user enters it.
#[derive(Clone, Debug, PartialEq, Eq)]
pub struct NewAccount {
    pub provider: String,
    pub label: String,
    pub username: String,
    pub email: String,
    pub token: String,
}

/// The accounts, in the order they were added.
#[derive(Clone, Debug, PartialEq, Eq)]
pub struct AccountStore {
    pub accounts: Vec<Account>,
}

pub struct AccountView {
    pub id: Seq<char>,
    pub provider: Seq<char>,
    pub label: Seq<char>,
    pub username: Seq<char>,
    pub email: Seq<char>,
    pub token: Seq<char>,
    pub url_username: Option<Seq<char>>,
    pub ssh_key_path: Option<Seq<char>>,
}

pub struct AccountSafeView {
    pub id: Seq<char>,
    pub provider: Seq<char>,
    pub label: Seq<char>,
    pub username: Seq<char>,
    pub email: Seq<char>,
    pub token: Seq<char>,
}

impl View for Account {
    type V = AccountView;

    open spec fn view(&self) -> AccountView {
        AccountView {
            id: self.id@,
            provider: self.provider@,
            label: self.label@,
            username: self.username@,
            email: self.email@,
            token: self.token@,
            url_username: string_opt_view(self.url_username),
            ssh_key_path: string_opt_view(self.ssh_key_path),
        }
    }
}

impl View for AccountSafe {
    type V = AccountSafeView;

    open spec fn view(&self) -> AccountSafeView {
        AccountSafeView {
            id: self.id@,
            provider: self.provider@,
            label: self.label@,
            username: self.username@,
            email: self.email@,
            token: self.token@,
        }
    }
}

pub open spec fn accounts_view(v: Seq<Account>) -> Seq<AccountView> {
    v.map_values(|a: Account| a@)
}

impl View for AccountStore {
    type V = Seq<AccountView>;

    open spec fn view(&self) -> Seq<AccountView> {
        accounts_view(self.accounts@)
    }
}

/// `"****"`.
pub open spec fn stars() -> Seq<char> {
    "****"@
}

/// The token's last four bytes fall on a character boundary, or it has at
/// most four bytes: the tokens that `mask_token` takes.
pub open spec fn maskable(token: Seq<char>) -> bool {
    let b = encode_utf8(token);
    b.len() <= 4 || is_char_boundary(b, b.len() - 4)
}

/// `"****"` followed by the token's last four bytes; `"****"` alone for a
/// token of at most four bytes.
pub open spec fn masked(token: Seq<char>) -> Seq<char> {
    let b = encode_utf8(token);
    if b.len() <= 4 {
        stars()
    } else {
        stars() + decode_utf8(b.subrange(b.len() - 4, b.len() as int))
    }
}

/// Masks a token for display, keeping its last four bytes.
pub fn mask_token(token: &str) -> (r: String)
    requires
        maskable(token@),
        encode_utf8(token@).len() <= usize::MAX,
    ensures
        r@ == masked(token@),
{
    let n = token.len();
    assert(n == encode_utf8(token@).len());
    proof {
        reveal_strlit("****");
    }
    if n <= 4 {
        return String::from_str("****");
    }
    let (_, last4) = token.split_at(n - 4);
    let mut r = String::from_str("****");
    r.append(last4);
    proof {
        assert(decode_utf8(encode_utf8(last4@)) == last4@);
    }
    r
}


// ---- the OS keychain ----

#[verifier::external_type_specification]
#[verifier::external_body]
pub struct ExKeyringEntry(keyring::Entry);

#[verifier::external_type_specification]
#[verifier::external_body]
pub struct ExKeyringError(keyring::Error);

/// `keyring::Entry::new`: the keychain entry for a service and user. The
/// default credential store of the platform decides whether it can be made;
/// nothing is stated of the outcome.
#[verifier::external_body]
fn keyring_entry(service: &str, user: &str) -> (r: Result<keyring::Entry, keyring::Error>) {
    keyring::Entry::new(service, user)
}

/// `keyring::Entry::set_password`: stores the password in the entry. The
/// keychain decides whether it succeeds; nothing is stated of the outcome.
#[verifier::external_body]
fn entry_set_password(entry: &keyring::Entry, password: &str) -> (r: Result<(), keyring::Error>) {
    entry.set_password(password)
}

/// `keyring::Entry::get_password`: the password stored in the entry. What
/// the keychain holds is not known here; nothing is stated of the outcome.
#[verifier::external_body]
fn entry_get_password(entry: &keyring::Entry) -> (r: Result<String, keyring::Error>) {
    entry.get_password()
}

/// `keyring::Entry::delete_credential`: removes the entry's credential from
/// the keychain. Nothing is stated of the outcome.
#[verifier::external_body]
fn entry_delete_credential(entry: &keyring::Entry) -> (r: Result<(), keyring::Error>) {
    entry.delete_credential()
}

/// The `Display` text of a `keyring::Error`, which depends on the platform
/// failure it carries; nothing is stated of it.
#[verifier::external_body]
fn keyring_error_text(e: &keyring::Error) -> (r: String) {
    e.to_string()
}

/// The text begins with the given prefix.
pub open spec fn begins_with(s: Seq<char>, prefix: Seq<char>) -> bool {
    prefix.len() <= s.len() && s.subrange(0, prefix.len() as int) == prefix
}

/// A message of a failed keychain write: it says which of the two keychain
/// calls failed, followed by the keychain's own text.
pub open spec fn keyring_failure(m: Seq<char>) -> bool {
    begins_with(m, "keyring entry failed: "@) || begins_with(m, "keyring set failed: "@)
}

/// The service under which every token is kept: `git-switch`.
pub open spec fn keyring_service() -> Seq<char> {
    "git-switch"@
}

/// A keychain entry: a service and a user (the account id).
#[derive(Clone, Debug, PartialEq, Eq)]
pub struct KeychainEntry {
    pub service: String,
    pub user: String,
}

/// The entry is the one that holds the token of the account with the id:
/// service `git-switch`, user the id.
pub open spec fn entry_of(e: KeychainEntry, id: Seq<char>) -> bool {
    e.service@ == keyring_service() && e.user@ == id
}

/// A token to store in the keychain, and the entry to store it under.
#[derive(Clone, Debug, PartialEq, Eq)]
pub struct KeychainWrite {
    pub entry: KeychainEntry,
    pub password: String,
}

/// The keychain entry that holds the token of the account with the id.
pub fn keychain_entry(id: &str) -> (r: KeychainEntry)
    ensures
        entry_of(r, id@),
{
    KeychainEntry { service: String::from_str("git-switch"), user: String::from_str(id) }
}

/// Performs a keychain write: stores `write.password` in the entry of
/// service `write.entry.service` and user `write.entry.user`. The keychain
/// decides whether it succeeds. Fails with a message that says which of the
/// two keychain calls failed.
pub fn keyring_set(write: &KeychainWrite) -> (r: Result<(), String>)
    ensures
        r matches Err(m) ==> keyring_failure(m@),
{
    let entry = match keyring_entry(write.entry.service.as_str(), write.entry.user.as_str()) {
        Ok(e) => e,
        Err(e) => {
            let mut m = String::from_str("keyring entry failed: ");
            let detail = keyring_error_text(&e);
            m.append(detail.as_str());
            assert(m@.subrange(0, "keyring entry failed: "@.len() as int) =~= "keyring entry failed: "@);
            return Err(m);
        },
    };
    match entry_set_password(&entry, write.password.as_str()) {
        Ok(()) => Ok(()),
        Err(e) => {
            let mut m = String::from_str("keyring set failed: ");
            let detail = keyring_error_text(&e);
            m.append(detail.as_str());
            assert(m@.subrange(0, "keyring set failed: "@.len() as int) =~= "keyring set failed: "@);
            Err(m)
        },
    }
}

/// Performs a keychain read of the entry of service `entry.service` and
/// user `entry.user`: the token it holds, where the keychain gives one.
pub fn keyring_get(entry: &KeychainEntry) -> (r: Option<String>) {
    let e = match keyring_entry(entry.service.as_str(), entry.user.as_str()) {
        Ok(e) => e,
        Err(_) => return None,
    };
    match entry_get_password(&e) {
        Ok(t) => Some(t),
        Err(_) => None,
    }
}

/// Removes the token of the entry of service `entry.service` and user
/// `entry.user`, as far as the keychain allows.
pub fn keyring_delete(entry: &KeychainEntry) {
    if let Ok(e) = keyring_entry(entry.service.as_str(), entry.user.as_str()) {
        let _ = entry_delete_credential(&e);
    }
}

// ---- account ids ----

/// `uuid::Uuid::new_v4`, taken as its 128 bits (`Uuid::as_u128`, the bytes
/// big-endian). The bits are random but for those that the crate sets: the
/// version nibble (bits 76 to 79) is 4, and the variant bits (62 and 63) are
/// `10`. Which random bits come is not stated.
#[verifier::external_body]
fn new_v4_bits() -> (r: u128)
    ensures
        (r >> 76u128) & 0xFu128 == 4u128,
        (r >> 62u128) & 0x3u128 == 2u128,
{
    uuid::Uuid::new_v4().as_u128()
}

pub open spec fn is_lower_hex(c: char) -> bool {
    ('0' <= c && c <= '9') || ('a' <= c && c <= 'f')
}

/// The hyphenated lower-case form of a UUID: 8-4-4-4-12 hexadecimal digits.
pub open spec fn is_hyphenated_uuid(s: Seq<char>) -> bool {
    &&& s.len() == 36
    &&& forall|i: int|
        0 <= i < 36 ==> if i == 8 || i == 13 || i == 18 || i == 23 {
            s[i] == '-'
        } else {
            is_lower_hex(#[trigger] s[i])
        }
}

/// A version-4 UUID in the hyphenated form: its version digit is `4` and its
/// variant digit one of `8`, `9`, `a`, `b`.
pub open spec fn is_v4_uuid_text(s: Seq<char>) -> bool {
    &&& is_hyphenated_uuid(s)
    &&& s[14] == '4'
    &&& (s[19] == '8' || s[19] == '9' || s[19] == 'a' || s[19] == 'b')
}

/// A lower-case hexadecimal digit of a value below 16.
pub open spec fn lower_hex_digit(n: u128) -> char {
    if n < 10 {
        (48 + n) as char
    } else {
        (87 + n) as char
    }
}

/// The `k`-th hexadecimal digit of the 128 bits, the most significant first.
pub open spec fn uuid_nibble(u: u128, k: int) -> u128 {
    (u >> ((124 - 4 * k) as u128)) & 0xFu128
}

/// Which digit stands at position `j` of the hyphenated form.
pub open spec fn uuid_digit_index(j: int) -> int {
    if j < 8 {
        j
    } else if j < 13 {
        j - 1
    } else if j < 18 {
        j - 2
    } else if j < 23 {
        j - 3
    } else {
        j - 4
    }
}

/// The hyphenated lower-case text of the UUID with these 128 bits.
pub open spec fn uuid_text_of(u: u128) -> Seq<char> {
    Seq::new(
        36,
        |j: int|
            if j == 8 || j == 13 || j == 18 || j == 23 {
                '-'
            } else {
                lower_hex_digit(uuid_nibble(u, uuid_digit_index(j)))
            },
    )
}

/// The `Display` text of `uuid::Uuid::from_u128(u)`: the crate writes the 16
/// bytes (big-endian) as 32 lower-case hexadecimal digits with hyphens after
/// the 8th, 12th, 16th and 20th (`fmt::LowerHex`, `format_hyphenated`).
#[verifier::external_body]
fn uuid_text(u: u128) -> (r: String)
    ensures
        r@ == uuid_text_of(u),
{
    uuid::Uuid::from_u128(u).to_string()
}

proof fn lemma_nibble_small(u: u128, k: int)
    requires
        0 <= k < 32,
    ensures
        uuid_nibble(u, k) < 16,
{
    let s = (124 - 4 * k) as u128;
    assert((u >> s) & 0xFu128 < 16u128) by (bit_vector);
}

/// A fresh random account id: a version-4 UUID in the hyphenated form.
pub fn new_account_id() -> (r: String)
    ensures
        is_v4_uuid_text(r@),
{
    let u = new_v4_bits();
    let t = uuid_text(u);
    proof {
        let s = t@;
        assert forall|i: int| 0 <= i < 36 implies if i == 8 || i == 13 || i == 18 || i == 23 {
            s[i] == '-'
        } else {
            is_lower_hex(#[trigger] s[i])
        } by {
            if !(i == 8 || i == 13 || i == 18 || i == 23) {
                lemma_nibble_small(u, uuid_digit_index(i));
            }
        }
        assert(uuid_nibble(u, 12) == 4);
        let v = (u >> 60u128) & 0xFu128;
        assert(8u128 <= v && v <= 11u128) by (bit_vector)
            requires
                (u >> 62u128) & 0x3u128 == 2u128,
                v == (u >> 60u128) & 0xFu128,
        ;
        assert(uuid_nibble(u, 16) == v);
    }
    t
}

/// The keychain write that adding the account starts with: the entered
/// token, under service `git-switch` and a fresh random id (a version-4
/// UUID in the hyphenated form), which becomes the account's id.
pub fn new_account_write(account: &NewAccount) -> (r: KeychainWrite)
    ensures
        is_v4_uuid_text(r.entry.user@),
        entry_of(r.entry, r.entry.user@),
        r.password@ == account.token@,
{
    let id = new_account_id();
    let entry = keychain_entry(id.as_str());
    KeychainWrite { entry, password: account.token.clone() }
}

// ---- accounts ----

fn clone_opt(o: &Option<String>) -> (r: Option<String>)
    ensures
        string_opt_view(r) == string_opt_view(*o),
{
    match o {
        Some(s) => Some(s.clone()),
        None => None,
    }
}

fn copy_account(a: &Account) -> (r: Account)
    ensures
        r@ == a@,
{
    Account {
        id: a.id.clone(),
        provider: a.provider.clone(),
        label: a.label.clone(),
        username: a.username.clone(),
        email: a.email.clone(),
        token: a.token.clone(),
        url_username: clone_opt(&a.url_username),
        ssh_key_path: clone_opt(&a.ssh_key_path),
    }
}

/// `i` is the position of the first account with the id.
pub open spec fn first_with_id(accounts: Seq<AccountView>, id: Seq<char>, i: int) -> bool {
    &&& 0 <= i < accounts.len()
    &&& accounts[i].id == id
    &&& forall|j: int| 0 <= j < i ==> (#[trigger] accounts[j]).id != id
}

/// Some account has the id.
pub open spec fn has_id(accounts: Seq<AccountView>, id: Seq<char>) -> bool {
    exists|i: int| 0 <= i < accounts.len() && (#[trigger] accounts[i]).id == id
}

/// The position of the first account with the id, if there is one.
pub fn find_account(accounts: &Vec<Account>, id: &str) -> (r: Option<usize>)
    ensures
        match r {
            Some(i) => first_with_id(accounts_view(accounts@), id@, i as int),
            None => !has_id(accounts_view(accounts@), id@),
        },
{
    let target = String::from_str(id);
    let ghost av = accounts_view(accounts@);
    let mut i: usize = 0;
    while i < accounts.len()
        invariant
            av == accounts_view(accounts@),
            target@ == id@,
            i <= accounts.len(),
            forall|j: int| 0 <= j < i ==> (#[trigger] av[j]).id != id@,
        decreases accounts.len() - i,
    {
        if accounts[i].id == target {
            return Some(i);
        }
        i = i + 1;
    }
    proof {
        if has_id(av, id@) {
            let k = choose|k: int| 0 <= k < av.len() && (#[trigger] av[k]).id == id@;
            assert(av[k].id != id@);
        }
    }
    None
}

/// `Account <id> not found`.
pub open spec fn not_found_message(id: Seq<char>) -> Seq<char> {
    "Account "@ + id + " not found"@
}

/// `Token for account <id> not found in keychain`.
pub open spec fn token_missing_message(id: Seq<char>) -> Seq<char> {
    "Token for account "@ + id + " not found in keychain"@
}

pub fn account_not_found(id: &str) -> (r: String)
    ensures
        r@ == not_found_message(id@),
{
    let mut m = String::from_str("Account ");
    m.append(id);
    m.append(" not found");
    m
}

/// The account with its token replaced.
pub open spec fn with_token(a: AccountView, token: Seq<char>) -> AccountView {
    AccountView { token, ..a }
}

/// The account with the id, with its token, for validating or switching to
/// it. `stored` is what the keychain gave for the entry `keychain_entry(id)`
/// (service `git-switch`, user `id`). The first account with the id, with
/// the keychain's token; where the keychain gave none, the record as it is
/// if it still holds a token on disk (one the keychain did not take), so
/// that the account keeps working. Fails with `Account <id> not found`
/// where no account has the id, and with `Token for account <id> not found
/// in keychain` where neither the keychain nor the record holds a token.
pub fn get_full_account(store: &AccountStore, id: &str, stored: Option<String>) -> (r: Result<
    Account,
    String,
>)
    ensures
        match r {
            Ok(a) => exists|i: int|
                {
                    &&& first_with_id(store@, id@, i)
                    &&& match stored {
                        Some(t) => a@ == with_token(store@[i], t@),
                        None => store@[i].token.len() > 0 && a@ == store@[i],
                    }
                    &&& a@.id == store@[i].id
                    &&& a@.provider == store@[i].provider
                    &&& a@.label == store@[i].label
                    &&& a@.username == store@[i].username
                    &&& a@.email == store@[i].email
                    &&& a@.url_username == store@[i].url_username
                    &&& a@.ssh_key_path == store@[i].ssh_key_path
                    &&& a@.token == match stored {
                        Some(t) => t@,
                        None => store@[i].token,
                    }
                },
            Err(m) => if has_id(store@, id@) {
                &&& stored is None
                &&& exists|i: int| first_with_id(store@, id@, i) && store@[i].token.len() == 0
                &&& m@ == token_missing_message(id@)
            } else {
                m@ == not_found_message(id@)
            },
        },
{
    let i = match find_account(&store.accounts, id) {
        Some(i) => i,
        None => return Err(account_not_found(id)),
    };
    match stored {
        Some(t) => {
            let mut account = copy_account(&store.accounts[i]);
            account.token = t;
            proof {
                assert(account@ == with_token(store@[i as int], account.token@));
            }
            Ok(account)
        },
        None => {
            if !store.accounts[i].token.as_str().is_empty() {
                return Ok(copy_account(&store.accounts[i]));
            }
            let mut m = String::from_str("Token for account ");
            m.append(id);
            m.append(" not found in keychain");
            Err(m)
        },
    }
}

/// The account as shown, with the given text in place of the token.
pub open spec fn safe_view(a: AccountView, token: Seq<char>) -> AccountSafeView {
    AccountSafeView {
        id: a.id,
        provider: a.provider,
        label: a.label,
        username: a.username,
        email: a.email,
        token,
    }
}

fn safe_with(account: &Account, token: String) -> (r: AccountSafe)
    ensures
        r@ == safe_view(account@, token@),
{
    AccountSafe {
        id: account.id.clone(),
        provider: account.provider.clone(),
        label: account.label.clone(),
        username: account.username.clone(),
        email: account.email.clone(),
        token,
    }
}

/// The account as shown, given what the keychain gave for its entry
/// `keychain_entry(account.id)` (service `git-switch`, user the account's
/// id): the token masked, or `"****"` where the keychain holds none. `None` where the stored
/// token cannot be masked: its last four bytes split a character (or its
/// length does not fit in a `usize`).
pub fn to_safe(account: &Account, stored: Option<&str>) -> (r: Option<AccountSafe>)
    ensures
        match stored {
            None => r matches Some(s) && s@ == safe_view(account@, stars()),
            Some(t) => if maskable(t@) && encode_utf8(t@).len() <= usize::MAX {
                r matches Some(s) && s@ == safe_view(account@, masked(t@))
            } else {
                r is None
            },
        },
{
    match stored {
        None => Some(safe_with(account, String::from_str("****"))),
        Some(t) => {
            let n = match crate::text::utf8_len(t) {
                Some(n) => n,
                None => return None,
            };
            assert(t.spec_bytes() == encode_utf8(t@));
            if n > 4 && !t.is_char_boundary(n - 4) {
                return None;
            }
            Some(safe_with(account, mask_token(t)))
        },
    }
}

/// The stored token can be masked: `to_safe_with_token` shows it.
pub open spec fn mask_ok(t: Seq<char>) -> bool {
    maskable(t) && encode_utf8(t).len() <= usize::MAX
}

/// The text shown for what the keychain holds: `"****"` for nothing, the
/// token masked otherwise.
pub open spec fn shown_token(stored: Option<Seq<char>>) -> Seq<char> {
    match stored {
        Some(t) => masked(t),
        None => stars(),
    }
}

/// `Token for account <id> cannot be masked`.
pub open spec fn unmaskable_message(id: Seq<char>) -> Seq<char> {
    "Token for account "@ + id + " cannot be masked"@
}

fn token_unmaskable(id: &str) -> (r: String)
    ensures
        r@ == unmaskable_message(id@),
{
    let mut m = String::from_str("Token for account ");
    m.append(id);
    m.append(" cannot be masked");
    m
}

pub open spec fn token_views(v: Seq<Option<String>>) -> Seq<Option<Seq<char>>> {
    v.map_values(|o: Option<String>| string_opt_view(o))
}

/// The keychain answer can be shown: nothing, or a token that can be masked.
pub open spec fn showable(stored: Option<Seq<char>>) -> bool {
    match stored {
        Some(t) => mask_ok(t),
        None => true,
    }
}

/// `k` is the first account whose keychain token cannot be masked.
pub open spec fn first_unshowable(stored: Seq<Option<Seq<char>>>, k: int) -> bool {
    &&& 0 <= k < stored.len()
    &&& !showable(stored[k])
    &&& forall|j: int| 0 <= j < k ==> showable(#[trigger] stored[j])
}

/// The keychain entries to read for showing the accounts: entry `i` is the
/// one of account `i` (service `git-switch`, user its id).
pub fn account_entries(store: &AccountStore) -> (r: Vec<KeychainEntry>)
    ensures
        r@.len() == store@.len(),
        forall|i: int| 0 <= i < r@.len() ==> entry_of(#[trigger] r@[i], store@[i].id),
{
    let mut out: Vec<KeychainEntry> = Vec::new();
    let mut i: usize = 0;
    while i < store.accounts.len()
        invariant
            i <= store.accounts.len(),
            out@.len() == i,
            forall|j: int| 0 <= j < i ==> entry_of(#[trigger] out@[j], store@[j].id),
        decreases store.accounts.len() - i,
    {
        out.push(keychain_entry(store.accounts[i].id.as_str()));
        i = i + 1;
    }
    out
}

/// The accounts as shown, in the store's order, given what the keychain
/// gave for each (`stored[i]` for the entry `account_entries(store)[i]`):
/// each with `"****"` where the keychain holds nothing, its keychain token
/// masked otherwise. Fails, naming the first such account, where a keychain
/// token cannot be masked.
pub fn get_accounts(store: &AccountStore, stored: &Vec<Option<String>>) -> (r: Result<
    Vec<AccountSafe>,
    String,
>)
    requires
        stored@.len() == store@.len(),
    ensures
        match r {
            Ok(v) => {
                &&& forall|k: int| 0 <= k < stored@.len() ==> showable(#[trigger] token_views(stored@)[k])
                &&& v@.len() == store@.len()
                &&& forall|i: int|
                    0 <= i < v@.len() ==> (#[trigger] v@[i])@ == safe_view(
                        store@[i],
                        shown_token(token_views(stored@)[i]),
                    )
            },
            Err(m) => exists|k: int|
                first_unshowable(token_views(stored@), k) && m@ == unmaskable_message(store@[k].id),
        },
{
    let ghost tv = token_views(stored@);
    let mut out: Vec<AccountSafe> = Vec::new();
    let mut i: usize = 0;
    while i < store.accounts.len()
        invariant
            tv == token_views(stored@),
            stored@.len() == store@.len(),
            i <= store.accounts.len(),
            out@.len() == i,
            forall|j: int| 0 <= j < i ==> showable(#[trigger] tv[j]),
            forall|j: int|
                0 <= j < i ==> (#[trigger] out@[j])@ == safe_view(store@[j], shown_token(tv[j])),
        decreases store.accounts.len() - i,
    {
        let answer: Option<&str> = match &stored[i] {
            Some(t) => Some(t.as_str()),
            None => None,
        };
        assert(str_opt_view(answer) == tv[i as int]);
        match to_safe(&store.accounts[i], answer) {
            Some(s) => {
                out.push(s);
            },
            None => {
                let m = token_unmaskable(&store.accounts[i].id);
                assert(first_unshowable(tv, i as int));
                assert(m@ == unmaskable_message(store@[i as int].id));
                return Err(m);
            },
        }
        i = i + 1;
    }
    Ok(out)
}

/// The record that `add_account` stores: the entered fields, no token on
/// disk, nothing known yet of the URL username or SSH key.
pub open spec fn new_record(id: Seq<char>, account: NewAccount) -> AccountView {
    AccountView {
        id,
        provider: account.provider@,
        label: account.label@,
        username: account.username@,
        email: account.email@,
        token: Seq::<char>::empty(),
        url_username: None,
        ssh_key_path: None,
    }
}

/// Adds an account under the id, given what the keychain answered:
/// `set_outcome` to the write `new_account_write(account)` (the entered
/// token under service `git-switch` and the id), and `stored` to reading
/// that entry back (nothing where the write failed). Where the keychain refused the token, fails with its
/// error; where it gave back a token that cannot be masked, fails with
/// `Token for account <id> cannot be masked`; in both cases the store stays
/// as it was. Otherwise the record, without token, is appended, and the
/// account is shown with the keychain's token masked (`"****"` where it
/// gave none).
pub fn add_account(
    store: &mut AccountStore,
    account: NewAccount,
    id: String,
    set_outcome: Result<(), String>,
    stored: Option<String>,
) -> (r: Result<AccountSafe, String>)
    ensures
        match set_outcome {
            Err(e) => r matches Err(m) && m@ == e@ && final(store)@ == old(store)@,
            Ok(()) => if showable(string_opt_view(stored)) {
                &&& r matches Ok(s)
                &&& s@ == safe_view(new_record(id@, account), shown_token(string_opt_view(stored)))
                &&& final(store)@ == old(store)@.push(new_record(id@, account))
                &&& s@.id == id@ && s@.provider == account.provider@ && s@.label == account.label@
                    && s@.username == account.username@ && s@.email == account.email@
                &&& final(store)@.len() == old(store)@.len() + 1
                &&& final(store)@.last().id == id@
                &&& final(store)@.last().provider == account.provider@
                &&& final(store)@.last().label == account.label@
                &&& final(store)@.last().username == account.username@
                &&& final(store)@.last().email == account.email@
                &&& final(store)@.last().token.len() == 0
            } else {
                &&& r matches Err(m)
                &&& m@ == unmaskable_message(id@)
                &&& final(store)@ == old(store)@
            },
        },
{
    match set_outcome {
        Ok(()) => {},
        Err(e) => return Err(e),
    }
    let ghost acct = account;
    let new_account = Account {
        id,
        provider: account.provider,
        label: account.label,
        username: account.username,
        email: account.email,
        token: String::new(),
        url_username: None,
        ssh_key_path: None,
    };
    assert(new_account@ == new_record(new_account.id@, acct));
    let answer: Option<&str> = match &stored {
        Some(t) => Some(t.as_str()),
        None => None,
    };
    assert(str_opt_view(answer) == string_opt_view(stored));
    let safe = match to_safe(&new_account, answer) {
        Some(s) => s,
        None => return Err(token_unmaskable(&new_account.id)),
    };
    let ghost before = store.accounts@;
    let ghost rec = new_account@;
    store.accounts.push(new_account);
    assert(accounts_view(store.accounts@) =~= accounts_view(before).push(rec));
    Ok(safe)
}

/// The accounts left after removing those with the id.
pub open spec fn without_id(accounts: Seq<AccountView>, id: Seq<char>) -> Seq<AccountView> {
    accounts.filter(|a: AccountView| a.id != id)
}

/// Removes every account with the id and returns the first of them. Fails
/// with `Account <id> not found`, leaving the store as it was, where no
/// account has the id.
pub fn remove_account(store: &mut AccountStore, id: &str) -> (r: Result<Account, String>)
    ensures
        match r {
            Ok(a) => exists|i: int|
                first_with_id(old(store)@, id@, i) && a@ == old(store)@[i] && final(store)@
                    == without_id(old(store)@, id@),
            Err(m) => !has_id(old(store)@, id@) && m@ == not_found_message(id@) && final(store)@
                == old(store)@,
        },
{
    let i = match find_account(&store.accounts, id) {
        Some(i) => i,
        None => return Err(account_not_found(id)),
    };
    let removed = copy_account(&store.accounts[i]);
    let target = String::from_str(id);
    let ghost old_view = store@;
    let ghost pred = |a: AccountView| a.id != id@;
    let mut kept: Vec<Account> = Vec::new();
    let mut k: usize = 0;
    assert(old_view.subrange(0, 0).filter(pred) =~= Seq::<AccountView>::empty()) by {
        reveal_with_fuel(Seq::<AccountView>::filter, 1);
    }
    while k < store.accounts.len()
        invariant
            old_view == store@,
            target@ == id@,
            pred == (|a: AccountView| a.id != id@),
            k <= store.accounts.len(),
            accounts_view(kept@) == old_view.subrange(0, k as int).filter(pred),
        decreases store.accounts.len() - k,
    {
        let ghost before = accounts_view(kept@);
        if store.accounts[k].id != target {
            kept.push(copy_account(&store.accounts[k]));
            assert(accounts_view(kept@) =~= before.push(old_view[k as int]));
        } else {
            assert(accounts_view(kept@) =~= before);
        }
        proof {
            reveal_with_fuel(Seq::<AccountView>::filter, 1);
            assert(old_view.subrange(0, k + 1).drop_last() =~= old_view.subrange(0, k as int));
        }
        k = k + 1;
    }
    assert(old_view.subrange(0, k as int) =~= old_view);
    store.accounts = kept;
    Ok(removed)
}


/// The record after a move of its token to the keychain: its token cleared
/// where it had one and the keychain accepted it, as it was otherwise.
pub open spec fn after_move(a: AccountView, accepted: bool) -> AccountView {
    if accepted && a.token.len() > 0 {
        with_token(a, Seq::<char>::empty())
    } else {
        a
    }
}

/// Clears the token of each record that had one and whose token the
/// keychain accepted (`accepted[i]` for record `i`). Returns whether any
/// record changed.
pub fn clear_accepted_tokens(store: &mut AccountStore, accepted: &Vec<bool>) -> (r: bool)
    requires
        old(store)@.len() == accepted@.len(),
    ensures
        final(store)@.len() == old(store)@.len(),
        forall|i: int|
            0 <= i < old(store)@.len() ==> #[trigger] final(store)@[i] == after_move(
                old(store)@[i],
                accepted@[i],
            ),
        r == exists|i: int|
            0 <= i < old(store)@.len() && accepted@[i] && (#[trigger] old(store)@[i]).token.len()
                > 0,
{
    let ghost start = store@;
    let mut changed = false;
    let mut i: usize = 0;
    while i < store.accounts.len()
        invariant
            store@.len() == start.len(),
            accepted@.len() == start.len(),
            i <= store.accounts.len(),
            forall|j: int| 0 <= j < i ==> #[trigger] store@[j] == after_move(start[j], accepted@[j]),
            forall|j: int| i <= j < start.len() ==> #[trigger] store@[j] == start[j],
            changed == exists|j: int|
                0 <= j < i && accepted@[j] && (#[trigger] start[j]).token.len() > 0,
        decreases store.accounts.len() - i,
    {
        if accepted[i] && !store.accounts[i].token.as_str().is_empty() {
            let ghost cur = store@[i as int];
            assert(cur == start[i as int]);
            let mut cleared = copy_account(&store.accounts[i]);
            cleared.token = String::new();
            assert(cleared@ == with_token(cur, Seq::<char>::empty()));
            let ghost before = store.accounts@;
            store.accounts.set(i, cleared);
            assert(store@ =~= accounts_view(before).update(
                i as int,
                with_token(start[i as int], Seq::<char>::empty()),
            ));
            changed = true;
        }
        assert(store@[i as int] == after_move(start[i as int], accepted@[i as int]));
        i = i + 1;
    }
    changed
}

/// The keychain writes that move tokens still held on disk into the
/// keychain: for each record with a non-empty token, that token under the
/// record's entry (service `git-switch`, user its id); nothing for a record
/// without one. Where the keychain accepts write `i`, `clear_accepted_tokens`
/// clears token `i`.
pub fn migration_writes(store: &AccountStore) -> (r: Vec<Option<KeychainWrite>>)
    ensures
        r@.len() == store@.len(),
        forall|i: int|
            0 <= i < r@.len() ==> match #[trigger] r@[i] {
                Some(w) => store@[i].token.len() > 0 && entry_of(w.entry, store@[i].id)
                    && w.password@ == store@[i].token,
                None => store@[i].token.len() == 0,
            },
{
    let mut out: Vec<Option<KeychainWrite>> = Vec::new();
    let mut i: usize = 0;
    while i < store.accounts.len()
        invariant
            i <= store.accounts.len(),
            out@.len() == i,
            forall|j: int|
                0 <= j < i ==> match #[trigger] out@[j] {
                    Some(w) => store@[j].token.len() > 0 && entry_of(w.entry, store@[j].id)
                        && w.password@ == store@[j].token,
                    None => store@[j].token.len() == 0,
                },
        decreases store.accounts.len() - i,
    {
        let a = &store.accounts[i];
        if a.token.as_str().is_empty() {
            out.push(None);
        } else {
            let entry = keychain_entry(a.id.as_str());
            out.push(Some(KeychainWrite { entry, password: a.token.clone() }));
        }
        i = i + 1;
    }
    out
}

/// Records the URL username of the first account with the id. Fails with
/// `Account <id> not found`, leaving the store as it was, where no account
/// has the id.
pub fn update_url_username(store: &mut AccountStore, id: &str, url_username: Option<&str>) -> (r:
    Result<(), String>)
    ensures
        match r {
            Ok(()) => exists|i: int|
                first_with_id(old(store)@, id@, i) && final(store)@ == old(store)@.update(
                    i,
                    AccountView { url_username: str_opt_view(url_username), ..old(store)@[i] },
                ),
            Err(m) => !has_id(old(store)@, id@) && m@ == not_found_message(id@) && final(store)@
                == old(store)@,
        },
{
    let i = match find_account(&store.accounts, id) {
        Some(i) => i,
        None => return Err(account_not_found(id)),
    };
    let mut a = copy_account(&store.accounts[i]);
    a.url_username = match url_username {
        Some(u) => Some(String::from_str(u)),
        None => None,
    };
    let ghost before = store.accounts@;
    let ghost av = a@;
    assert(av == AccountView { url_username: str_opt_view(url_username), ..accounts_view(before)[i as int] });
    store.accounts.set(i, a);
    assert(store@ =~= accounts_view(before).update(i as int, av));
    assert(first_with_id(accounts_view(before), id@, i as int));
    assert(old(store)@ == accounts_view(before));
    assert(final(store)@ == store@);
    Ok(())
}

/// Records the SSH key of the first account with the id. Fails with
/// `Account <id> not found`, leaving the store as it was, where no account
/// has the id.
pub fn update_ssh_key_path(store: &mut AccountStore, id: &str, ssh_key_path: Option<&str>) -> (r:
    Result<(), String>)
    ensures
        match r {
            Ok(()) => exists|i: int|
                first_with_id(old(store)@, id@, i) && final(store)@ == old(store)@.update(
                    i,
                    AccountView { ssh_key_path: str_opt_view(ssh_key_path), ..old(store)@[i] },
                ),
            Err(m) => !has_id(old(store)@, id@) && m@ == not_found_message(id@) && final(store)@
                == old(store)@,
        },
{
    let i = match find_account(&store.accounts, id) {
        Some(i) => i,
        None => return Err(account_not_found(id)),
    };
    let mut a = copy_account(&store.accounts[i]);
    a.ssh_key_path = match ssh_key_path {
        Some(p) => Some(String::from_str(p)),
        None => None,
    };
    let ghost before = store.accounts@;
    let ghost av = a@;
    assert(av == AccountView { ssh_key_path: str_opt_view(ssh_key_path), ..accounts_view(before)[i as int] });
    store.accounts.set(i, a);
    assert(store@ =~= accounts_view(before).update(i as int, av));
    assert(first_with_id(accounts_view(before), id@, i as int));
    assert(old(store)@ == accounts_view(before));
    assert(final(store)@ == store@);
    Ok(())
}


/// What the mask shows of a token longer than four bytes is exactly its
/// last four bytes, after `"****"`; a shorter token shows nothing.
pub proof fn law_mask_shows_last_four_bytes(token: Seq<char>)
    requires
        maskable(token),
    ensures
        encode_utf8(token).len() <= 4 ==> masked(token) == stars(),
        encode_utf8(token).len() > 4 ==> begins_with(masked(token), stars()) && encode_utf8(
            masked(token).subrange(stars().len() as int, masked(token).len() as int),
        ) == encode_utf8(token).subrange(
            encode_utf8(token).len() - 4,
            encode_utf8(token).len() as int,
        ),
{
    let b = encode_utf8(token);
    if b.len() > 4 {
        let tail = b.subrange(b.len() - 4, b.len() as int);
        vstd::utf8::valid_utf8_split(b, b.len() - 4);
        let m = masked(token);
        assert(m.subrange(0, stars().len() as int) =~= stars());
        assert(m.subrange(stars().len() as int, m.len() as int) =~= decode_utf8(tail));
    }
}

/// The record that adding an account stores carries each entered field
/// unchanged under the given id, holds no token on disk, and has no URL
/// username or SSH key yet.
pub proof fn law_new_record_carries_entry(id: Seq<char>, account: NewAccount)
    ensures
        new_record(id, account).id == id,
        new_record(id, account).provider == account.provider@,
        new_record(id, account).label == account.label@,
        new_record(id, account).username == account.username@,
        new_record(id, account).email == account.email@,
        new_record(id, account).token.len() == 0,
        new_record(id, account).url_username is None,
        new_record(id, account).ssh_key_path is None,
{
}

/// Attaching a token to a record changes its token and nothing else.
pub proof fn law_with_token_keeps_record(a: AccountView, t: Seq<char>)
    ensures
        with_token(a, t) == (AccountView {
            id: a.id,
            provider: a.provider,
            label: a.label,
            username: a.username,
            email: a.email,
            token: t,
            url_username: a.url_username,
            ssh_key_path: a.ssh_key_path,
        }),
{
}

/// Moving a record's token to the keychain changes at most its token, which
/// is then empty: every other field stays.
pub proof fn law_move_keeps_record(a: AccountView, accepted: bool)
    ensures
        after_move(a, accepted).id == a.id,
        after_move(a, accepted).provider == a.provider,
        after_move(a, accepted).label == a.label,
        after_move(a, accepted).username == a.username,
        after_move(a, accepted).email == a.email,
        after_move(a, accepted).url_username == a.url_username,
        after_move(a, accepted).ssh_key_path == a.ssh_key_path,
        after_move(a, accepted).token == a.token || after_move(a, accepted).token.len() == 0,
{
}

/// An account is shown with its own id, provider, label, username and
/// e-mail; only its token is replaced by the text shown for it.
pub proof fn law_shown_account_is_the_record(a: AccountView, token: Seq<char>)
    ensures
        safe_view(a, token) == (AccountSafeView {
            id: a.id,
            provider: a.provider,
            label: a.label,
            username: a.username,
            email: a.email,
            token,
        }),
{
}

// ---- laws of the store ----

/// An account that `add_account` appended under a fresh id is the one that
/// a lookup of that id finds.
pub proof fn law_added_account_is_found(accounts: Seq<AccountView>, id: Seq<char>, account: NewAccount)
    requires
        !has_id(accounts, id),
    ensures
        first_with_id(accounts.push(new_record(id, account)), id, accounts.len() as int),
        accounts.push(new_record(id, account))[accounts.len() as int] == new_record(id, account),
{
    let s = accounts.push(new_record(id, account));
    assert forall|j: int| 0 <= j < accounts.len() implies (#[trigger] s[j]).id != id by {
        assert(s[j] == accounts[j]);
        if accounts[j].id == id {
            assert(has_id(accounts, id));
        }
    }
}

/// Removing an account that was just added under a fresh id gives the store back.
pub proof fn law_remove_undoes_add(accounts: Seq<AccountView>, id: Seq<char>, account: NewAccount)
    requires
        !has_id(accounts, id),
    ensures
        without_id(accounts.push(new_record(id, account)), id) == accounts,
{
    let pred = |a: AccountView| a.id != id;
    assert forall|j: int| 0 <= j < accounts.len() implies pred(#[trigger] accounts[j]) by {
        if accounts[j].id == id {
            assert(has_id(accounts, id));
        }
    }
    lemma_filter_keeps_all(accounts, pred);
    let s = accounts.push(new_record(id, account));
    assert(s.drop_last() =~= accounts);
    reveal_with_fuel(Seq::<AccountView>::filter, 1);
}

proof fn lemma_filter_keeps_all(s: Seq<AccountView>, pred: spec_fn(AccountView) -> bool)
    requires
        forall|j: int| 0 <= j < s.len() ==> pred(#[trigger] s[j]),
    ensures
        s.filter(pred) == s,
    decreases s.len(),
{
    reveal_with_fuel(Seq::<AccountView>::filter, 1);
    if s.len() > 0 {
        let t = s.drop_last();
        assert forall|j: int| 0 <= j < t.len() implies pred(#[trigger] t[j]) by {
            assert(t[j] == s[j]);
        }
        lemma_filter_keeps_all(t, pred);
        assert(s.last() == s[s.len() - 1]);
        assert(t.push(s.last()) =~= s);
    }
}

/// After removing an id, no account has it, and exactly the accounts with
/// other ids remain.
pub proof fn law_removed_id_is_gone(accounts: Seq<AccountView>, id: Seq<char>)
    ensures
        !has_id(without_id(accounts, id), id),
        forall|a: AccountView|
            without_id(accounts, id).contains(a) <==> (accounts.contains(a) && a.id != id),
{
    let pred = |a: AccountView| a.id != id;
    let f = accounts.filter(pred);
    broadcast use vstd::seq_lib::group_filter_ensures;

    if has_id(f, id) {
        let i = choose|i: int| 0 <= i < f.len() && (#[trigger] f[i]).id == id;
        assert(pred(f[i]));
    }
    assert forall|a: AccountView| f.contains(a) <==> (accounts.contains(a) && a.id != id) by {
        if f.contains(a) {
            accounts.lemma_filter_contains_rev(pred, a);
            let i = choose|i: int| 0 <= i < f.len() && f[i] == a;
            assert(pred(f[i]));
        }
        if accounts.contains(a) && a.id != id {
            let i = choose|i: int| 0 <= i < accounts.len() && accounts[i] == a;
            assert(pred(accounts[i]));
        }
    }
}

/// Recording a URL username is what a later lookup of the account reads back.
pub proof fn law_url_username_read_back(
    accounts: Seq<AccountView>,
    id: Seq<char>,
    i: int,
    value: Option<Seq<char>>,
)
    requires
        first_with_id(accounts, id, i),
    ensures
        first_with_id(
            accounts.update(i, AccountView { url_username: value, ..accounts[i] }),
            id,
            i,
        ),
        accounts.update(i, AccountView { url_username: value, ..accounts[i] })[i].url_username
            == value,
{
    let s = accounts.update(i, AccountView { url_username: value, ..accounts[i] });
    assert forall|j: int| 0 <= j < i implies (#[trigger] s[j]).id != id by {
        assert(s[j] == accounts[j]);
    }
}

} // verus!
