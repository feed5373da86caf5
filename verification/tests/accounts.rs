use git_switch::accounts::{
    account_entries, account_not_found, add_account, clear_accepted_tokens, find_account,
    get_accounts, get_full_account, keychain_entry, keyring_delete, keyring_get, keyring_set,
    mask_token, migration_writes, new_account_id, new_account_write, remove_account, to_safe,
    update_ssh_key_path, update_url_username, Account, AccountSafe, AccountStore, KeychainEntry,
    KeychainWrite, NewAccount,
};

fn account(id: &str, provider: &str, token: &str) -> Account {
    Account {
        id: id.to_string(),
        provider: provider.to_string(),
        label: format!("label {}", id),
        username: format!("user-{}", id),
        email: format!("{}@example.com", id),
        token: token.to_string(),
        url_username: None,
        ssh_key_path: None,
    }
}

fn store(accounts: Vec<Account>) -> AccountStore {
    AccountStore { accounts }
}

fn is_hyphenated_uuid(s: &str) -> bool {
    s.len() == 36
        && s.chars().enumerate().all(|(i, c)| {
            if i == 8 || i == 13 || i == 18 || i == 23 {
                c == '-'
            } else {
                c.is_ascii_digit() || ('a'..='f').contains(&c)
            }
        })
}

#[test]
fn mask_keeps_last_four_bytes() {
    assert_eq!(mask_token("ghp_abcdefgh1234"), "****1234");
    assert_eq!(mask_token("12345"), "****2345");
}

#[test]
fn mask_of_short_token_is_stars_only() {
    assert_eq!(mask_token(""), "****");
    assert_eq!(mask_token("abc"), "****");
    assert_eq!(mask_token("abcd"), "****");
}

#[test]
fn mask_of_multibyte_tail() {
    // "é" is two bytes: the last four bytes are "xyé".
    assert_eq!(mask_token("token-xyé"), "****xyé");
    // a four-byte character is its own last four bytes
    assert_eq!(mask_token("key😀"), "****😀");
}

#[test]
fn safe_view_masks_stored_token() {
    let a = account("a1", "github", "");
    let s = to_safe(&a, Some("ghp_secret9876")).unwrap();
    assert_eq!(
        s,
        AccountSafe {
            id: "a1".to_string(),
            provider: "github".to_string(),
            label: "label a1".to_string(),
            username: "user-a1".to_string(),
            email: "a1@example.com".to_string(),
            token: "****9876".to_string(),
        }
    );
}

#[test]
fn safe_view_without_stored_token_shows_stars() {
    let a = account("a2", "bitbucket", "");
    let s = to_safe(&a, None).unwrap();
    assert_eq!(s.token, "****");
    assert_eq!(s.id, "a2");
    assert_eq!(s.provider, "bitbucket");
}

#[test]
fn safe_view_refuses_token_split_inside_a_character() {
    // the last four bytes of "ab€x" start inside "€" (three bytes)
    let a = account("a3", "github", "");
    assert_eq!(to_safe(&a, Some("ab€xy")), None);
}

#[test]
fn find_gives_first_account_with_id() {
    let accounts = vec![account("a", "github", ""), account("b", "github", ""), account("b", "bitbucket", "")];
    assert_eq!(find_account(&accounts, "a"), Some(0));
    assert_eq!(find_account(&accounts, "b"), Some(1));
    assert_eq!(find_account(&accounts, "c"), None);
    assert_eq!(find_account(&Vec::new(), "a"), None);
}

#[test]
fn not_found_message() {
    assert_eq!(account_not_found("xyz"), "Account xyz not found");
}

#[test]
fn attach_token_uses_keychain_answer() {
    let s = store(vec![account("a", "github", ""), account("b", "bitbucket", "")]);
    let full = get_full_account(&s, "b", Some("secret".to_string())).unwrap();
    let mut expected = account("b", "bitbucket", "secret");
    expected.token = "secret".to_string();
    assert_eq!(full, expected);
}

#[test]
fn attach_token_errors() {
    let s = store(vec![account("a", "github", "")]);
    assert_eq!(
        get_full_account(&s, "missing", Some("t".to_string())),
        Err("Account missing not found".to_string())
    );
    assert_eq!(
        get_full_account(&s, "a", None),
        Err("Token for account a not found in keychain".to_string())
    );
}

#[test]
fn remove_drops_every_record_with_id() {
    let mut s = store(vec![account("a", "github", ""), account("b", "github", ""), account("a", "bitbucket", "")]);
    let removed = remove_account(&mut s, "a").unwrap();
    assert_eq!(removed, account("a", "github", ""));
    assert_eq!(s, store(vec![account("b", "github", "")]));
}

#[test]
fn remove_of_unknown_id_keeps_store() {
    let mut s = store(vec![account("a", "github", "")]);
    assert_eq!(remove_account(&mut s, "zz"), Err("Account zz not found".to_string()));
    assert_eq!(s, store(vec![account("a", "github", "")]));
}

#[test]
fn url_username_is_read_back() {
    let mut s = store(vec![account("a", "bitbucket", ""), account("b", "bitbucket", "")]);
    update_url_username(&mut s, "b", Some("team_handle")).unwrap();
    assert_eq!(s.accounts[1].url_username, Some("team_handle".to_string()));
    assert_eq!(s.accounts[0].url_username, None);
    update_url_username(&mut s, "b", None).unwrap();
    assert_eq!(s.accounts[1].url_username, None);
    assert_eq!(update_url_username(&mut s, "c", Some("x")), Err("Account c not found".to_string()));
}

#[test]
fn ssh_key_path_is_read_back() {
    let mut s = store(vec![account("a", "github", "")]);
    update_ssh_key_path(&mut s, "a", Some("~/.ssh/id_work")).unwrap();
    assert_eq!(s.accounts[0].ssh_key_path, Some("~/.ssh/id_work".to_string()));
    assert_eq!(update_ssh_key_path(&mut s, "b", None), Err("Account b not found".to_string()));
}

#[test]
fn fresh_ids_are_hyphenated_uuids() {
    let a = new_account_id();
    let b = new_account_id();
    assert!(is_hyphenated_uuid(&a), "{}", a);
    assert!(is_hyphenated_uuid(&b), "{}", b);
    assert_ne!(a, b);
    for id in [&a, &b] {
        assert_eq!(&id[14..15], "4");
        assert!("89ab".contains(&id[19..20]), "{}", id);
    }
}

fn entry(id: &str) -> KeychainEntry {
    KeychainEntry { service: "git-switch".to_string(), user: id.to_string() }
}

#[test]
fn keychain_entry_is_service_and_id() {
    assert_eq!(keychain_entry("abc"), entry("abc"));
}

#[test]
fn migration_writes_each_disk_token_under_its_account() {
    let s = store(vec![account("m1", "github", "plain"), account("m2", "bitbucket", "")]);
    assert_eq!(
        migration_writes(&s),
        vec![Some(KeychainWrite { entry: entry("m1"), password: "plain".to_string() }), None]
    );
    let none = store(vec![account("m3", "github", "")]);
    assert_eq!(migration_writes(&none), vec![None]);
}

#[test]
fn new_account_goes_to_keychain_under_a_fresh_id() {
    let new = NewAccount {
        provider: "bitbucket".to_string(),
        label: "Work".to_string(),
        username: "me@corp.com".to_string(),
        email: "me@corp.com".to_string(),
        token: "app-password-5678".to_string(),
    };
    let w = new_account_write(&new);
    assert_eq!(w.entry.service, "git-switch");
    assert!(is_hyphenated_uuid(&w.entry.user));
    assert_eq!(&w.entry.user[14..15], "4");
    assert_eq!(w.password, "app-password-5678");
    assert_ne!(new_account_write(&new).entry.user, w.entry.user);
}

#[test]
fn keychain_round_trip_where_available() {
    let w = KeychainWrite { entry: entry(&new_account_id()), password: "pw-4321".to_string() };
    match keyring_set(&w) {
        Ok(()) => {
            if let Some(t) = keyring_get(&w.entry) {
                assert_eq!(t, "pw-4321");
            }
            keyring_delete(&w.entry);
        }
        Err(e) => assert!(e.starts_with("keyring entry failed: ") || e.starts_with("keyring set failed: "), "{}", e),
    }
}

#[test]
fn listing_entries_follow_store_order() {
    let s = store(vec![account("x1", "github", ""), account("x2", "bitbucket", "")]);
    assert_eq!(account_entries(&s), vec![entry("x1"), entry("x2")]);
}

#[test]
fn only_accepted_disk_tokens_are_cleared() {
    let mut s = store(vec![
        account("c1", "github", "t1"),
        account("c2", "github", "t2"),
        account("c3", "github", ""),
    ]);
    assert!(clear_accepted_tokens(&mut s, &vec![true, false, true]));
    assert_eq!(
        s,
        store(vec![account("c1", "github", ""), account("c2", "github", "t2"), account("c3", "github", "")])
    );
    assert!(!clear_accepted_tokens(&mut s, &vec![false, false, true]));
    assert_eq!(s.accounts[1].token, "t2");
}

#[test]
fn disk_token_serves_when_keychain_has_none() {
    let s = store(vec![account("a", "github", "legacy-token")]);
    assert_eq!(get_full_account(&s, "a", None), Ok(account("a", "github", "legacy-token")));
    let full = get_full_account(&s, "a", Some("kc".to_string())).unwrap();
    assert_eq!(full.token, "kc");
}

#[test]
fn shown_accounts_follow_keychain_answers() {
    let s = store(vec![account("a", "github", ""), account("b", "bitbucket", "")]);
    let shown = get_accounts(&s, &vec![None, Some("secret-9876".to_string())]).unwrap();
    assert_eq!(shown.len(), 2);
    assert_eq!(shown[0].token, "****");
    assert_eq!(shown[0].id, "a");
    assert_eq!(shown[1].token, "****9876");
    assert_eq!(shown[1].provider, "bitbucket");
    assert_eq!(
        get_accounts(&s, &vec![Some("ab€xy".to_string()), Some("ab€xy".to_string())]),
        Err("Token for account a cannot be masked".to_string())
    );
    assert_eq!(
        get_accounts(&s, &vec![None, Some("ab€xy".to_string())]),
        Err("Token for account b cannot be masked".to_string())
    );
    assert_eq!(get_accounts(&store(vec![]), &vec![]), Ok(vec![]));
}

fn entered() -> NewAccount {
    NewAccount {
        provider: "github".to_string(),
        label: "Me".to_string(),
        username: "me".to_string(),
        email: "me@x.com".to_string(),
        token: "tok-1234".to_string(),
    }
}

#[test]
fn adding_follows_keychain_answers() {
    let mut s = store(vec![]);
    let r = add_account(&mut s, entered(), "id-1".to_string(), Err("keyring set failed: no".to_string()), None);
    assert_eq!(r, Err("keyring set failed: no".to_string()));
    assert_eq!(s, store(vec![]));
    let r = add_account(&mut s, entered(), "id-1".to_string(), Ok(()), Some("ab€xy".to_string()));
    assert_eq!(r, Err("Token for account id-1 cannot be masked".to_string()));
    assert_eq!(s, store(vec![]));
    let r = add_account(&mut s, entered(), "id-1".to_string(), Ok(()), Some("tok-1234".to_string())).unwrap();
    assert_eq!(r.token, "****1234");
    assert_eq!(r.id, "id-1");
    assert_eq!(s.accounts.len(), 1);
    assert_eq!(s.accounts[0].token, "");
    assert_eq!(s.accounts[0].label, "Me");
    let r = add_account(&mut s, entered(), "id-2".to_string(), Ok(()), None).unwrap();
    assert_eq!(r.token, "****");
    assert_eq!(s.accounts.len(), 2);
}
