use git_switch::ssh_config::{
    configured_identity_file, detect_ssh_key_for_host, list_ssh_keys, rewrite_ssh_host_block,
    ssh_connection_succeeded, ssh_output_reports_success, sort_strings,
};

fn strings(v: &[&str]) -> Vec<String> {
    v.iter().map(|s| s.to_string()).collect()
}

#[test]
fn rewrite_appends_block_for_missing_host() {
    let out = rewrite_ssh_host_block("Host example.com\n  User git\n", "github.com", "~/.ssh/id_work");
    assert_eq!(
        out,
        "Host example.com\n  User git\n\nHost github.com\n  AddKeysToAgent yes\n  IdentityFile ~/.ssh/id_work\n"
    );
}

#[test]
fn rewrite_of_empty_config_creates_block() {
    let out = rewrite_ssh_host_block("", "bitbucket.org", "~/.ssh/id_bb");
    assert_eq!(out, "Host bitbucket.org\n  AddKeysToAgent yes\n  IdentityFile ~/.ssh/id_bb\n");
}

#[test]
fn rewrite_replaces_identity_in_existing_block() {
    let content = "Host github.com\n  HostName github.com\n  IdentityFile ~/.ssh/old\n\nHost other\n  IdentityFile ~/.ssh/keep\n";
    let out = rewrite_ssh_host_block(content, "github.com", "~/.ssh/new");
    assert_eq!(
        out,
        "Host github.com\n  HostName github.com\n  IdentityFile ~/.ssh/new\n\nHost other\n  IdentityFile ~/.ssh/keep\n"
    );
}

#[test]
fn rewrite_adds_identity_to_block_without_one() {
    let content = "Host github.com\n  User git\nHost other\n  User me";
    let out = rewrite_ssh_host_block(content, "github.com", "~/.ssh/k");
    assert_eq!(out, "Host github.com\n  User git\n  IdentityFile ~/.ssh/k\nHost other\n  User me\n");
}

#[test]
fn rewrite_adds_identity_at_end_of_last_block() {
    let out = rewrite_ssh_host_block("Host\tgithub.com\n  User git\n", "github.com", "~/.ssh/k");
    assert_eq!(out, "Host\tgithub.com\n  User git\n  IdentityFile ~/.ssh/k\n");
}

#[test]
fn rewrite_keeps_crlf_line_endings() {
    let out = rewrite_ssh_host_block("Host a\r\n  User x\r\n", "b", "k");
    assert_eq!(out, "Host a\r\n  User x\r\n\nHost b\n  AddKeysToAgent yes\n  IdentityFile k\n");
}

#[test]
fn rewrite_matches_crlf_host_line() {
    let out = rewrite_ssh_host_block("Host h\r\n  IdentityFile old\r\n  User x\r\n", "h", "k");
    assert_eq!(out, "Host h\r\n  IdentityFile k\n  User x\r\n");
    assert_eq!(rewrite_ssh_host_block(&out, "h", "k"), out);
}

#[test]
fn rewrite_keeps_trailing_empty_line_without_extra_separator() {
    let out = rewrite_ssh_host_block("Host a\n\n", "b", "k");
    assert_eq!(out, "Host a\n\nHost b\n  AddKeysToAgent yes\n  IdentityFile k\n");
}

#[test]
fn rewrite_then_detect_gives_key() {
    let out = rewrite_ssh_host_block("", "github.com", "~/.ssh/id_a");
    assert_eq!(configured_identity_file(&out, "github.com"), Some("~/.ssh/id_a".to_string()));
}

#[test]
fn read_after_write_law_on_existing_config() {
    let content = "Host *\n  IdentityFile ~/.ssh/default\nHost github.com\n  IdentityFile  ~/.ssh/old \n";
    let out = rewrite_ssh_host_block(content, "github.com", " ~/.ssh/new ");
    assert_eq!(configured_identity_file(&out, "github.com"), Some("~/.ssh/new".to_string()));
}

#[test]
fn other_hosts_keep_their_keys() {
    let content = "Host bitbucket.org\n  IdentityFile ~/.ssh/bb\nHost github.com\n  IdentityFile ~/.ssh/gh\n";
    let out = rewrite_ssh_host_block(content, "github.com", "~/.ssh/new");
    assert_eq!(configured_identity_file(&out, "bitbucket.org"), Some("~/.ssh/bb".to_string()));
    assert_eq!(configured_identity_file(content, "bitbucket.org"), Some("~/.ssh/bb".to_string()));
}

#[test]
fn detect_takes_first_identity_of_matching_block() {
    let content = "IdentityFile ~/.ssh/outside\nHost github.com\n  User git\n  IdentityFile   ~/.ssh/first  \n  IdentityFile ~/.ssh/second\n";
    assert_eq!(configured_identity_file(content, "github.com"), Some("~/.ssh/first".to_string()));
    assert_eq!(configured_identity_file(content, "gitlab.com"), None);
}

#[test]
fn detect_ignores_identity_without_space() {
    assert_eq!(configured_identity_file("Host h\n  IdentityFile\t~/.ssh/x\n", "h"), None);
}

#[test]
fn detect_for_provider() {
    let content = "Host github.com\n  IdentityFile ~/.ssh/gh\n";
    assert_eq!(detect_ssh_key_for_host("github", Some(content)), Some("~/.ssh/gh".to_string()));
    assert_eq!(detect_ssh_key_for_host("bitbucket", Some(content)), None);
    assert_eq!(detect_ssh_key_for_host("gitlab", Some(content)), None);
    assert_eq!(detect_ssh_key_for_host("github", None), None);
}

#[test]
fn list_keeps_only_key_pairs_sorted() {
    let files = strings(&[
        "id_work", "id_work.pub", "config", "known_hosts", "known_hosts.old", "authorized_keys",
        ".hidden", "id_alpha", "lonely", "Zeta",
    ]);
    let existing = strings(&[
        "id_work", "id_work.pub", "config", "known_hosts", "id_alpha", "id_alpha.pub", "lonely",
        "Zeta", "Zeta.pub", ".hidden", ".hidden.pub", "config.pub",
    ]);
    assert_eq!(
        list_ssh_keys(&files, &existing),
        strings(&["~/.ssh/Zeta", "~/.ssh/id_alpha", "~/.ssh/id_work"])
    );
}

#[test]
fn list_of_empty_directory_is_empty() {
    assert_eq!(list_ssh_keys(&vec![], &vec![]), Vec::<String>::new());
}

#[test]
fn sort_orders_by_bytes() {
    let v = strings(&["b", "a", "é", "B", "ab", "a"]);
    assert_eq!(sort_strings(&v), strings(&["B", "a", "a", "ab", "b", "é"]));
}

#[test]
fn ssh_success_is_read_from_text() {
    assert!(ssh_connection_succeeded("", "Hi octo! You've SUCCESSFULLY AUTHENTICATED, but GitHub does not provide shell access."));
    assert!(ssh_connection_succeeded("Logged In As someone", ""));
    assert!(!ssh_connection_succeeded("", "Permission denied (publickey)."));
    assert!(ssh_output_reports_success("authenticated via a deploy key"));
    assert!(!ssh_output_reports_success("AUTHENTICATED"));
}

#[test]
fn rewriting_twice_changes_nothing() {
    let content = "Host github.com\n  User git\n\nHost other\n  IdentityFile ~/.ssh/x\n";
    let once = rewrite_ssh_host_block(content, "github.com", "~/.ssh/id_work");
    assert_eq!(rewrite_ssh_host_block(&once, "github.com", "~/.ssh/id_work"), once);
    let once = rewrite_ssh_host_block("", "bitbucket.org", "~/.ssh/id");
    assert_eq!(rewrite_ssh_host_block(&once, "bitbucket.org", "~/.ssh/id"), once);
    let once = rewrite_ssh_host_block("Host a\n  User x", "b", "k");
    assert_eq!(rewrite_ssh_host_block(&once, "b", "k"), once);
}

#[test]
fn final_empty_lines_are_kept() {
    let once = rewrite_ssh_host_block("Host h\n  IdentityFile k\n\n\n", "h", "k");
    assert_eq!(once, "Host h\n  IdentityFile k\n\n\n");
    assert_eq!(rewrite_ssh_host_block(&once, "h", "k"), once);
}
