use git_switch::shell_env::{
    harvest_script, needs_harvest, next_wait_action, pairs_to_apply, parse_harvest_output,
    read_pairs, ChildState, WaitAction,
};

fn pair(k: &str, v: &str) -> (String, String) {
    (k.to_string(), v.to_string())
}

#[test]
fn script_prints_each_variable_nul_terminated() {
    assert_eq!(
        harvest_script(&vec!["PATH".to_string()]),
        "printf '\\0GIT_SWITCH_ENV\\0'; printf '%s=%s\\0' 'PATH' \"$PATH\"; "
    );
    assert_eq!(
        harvest_script(&vec!["PATH".to_string(), "LANG".to_string()]),
        "printf '\\0GIT_SWITCH_ENV\\0'; printf '%s=%s\\0' 'PATH' \"$PATH\"; printf '%s=%s\\0' 'LANG' \"$LANG\"; "
    );
    assert_eq!(harvest_script(&Vec::new()), "printf '\\0GIT_SWITCH_ENV\\0'; ");
}

#[test]
fn output_is_split_at_nul_bytes() {
    let out = read_pairs(b"PATH=/usr/bin:/bin\0LANG=en_US.UTF-8\0");
    assert_eq!(out, vec![pair("PATH", "/usr/bin:/bin"), pair("LANG", "en_US.UTF-8")]);
}

#[test]
fn value_splits_at_first_equals_sign() {
    assert_eq!(read_pairs(b"A=b=c"), vec![pair("A", "b=c")]);
    assert_eq!(read_pairs(b"=v\0"), vec![pair("", "v")]);
}

#[test]
fn bad_pieces_are_skipped() {
    let out = read_pairs(b"\0\0NOEQ\0EMPTY=\0BAD=\xff\xfe\0OK=1");
    assert_eq!(out, vec![pair("OK", "1")]);
    assert_eq!(read_pairs(b""), Vec::<(String, String)>::new());
}

#[test]
fn without_marker_a_banner_spoils_the_first_piece() {
    let out = read_pairs(b"Welcome\nPATH=/x\0HOME=/h\0");
    assert_eq!(out, vec![pair("Welcome\nPATH", "/x"), pair("HOME", "/h")]);
}

#[test]
fn harvest_needed_only_for_unset_or_empty() {
    assert!(!needs_harvest(&vec![Some("/usr/bin".to_string())]));
    assert!(needs_harvest(&vec![Some(String::new())]));
    assert!(needs_harvest(&vec![Some("/usr/bin".to_string()), None]));
    assert!(!needs_harvest(&Vec::new()));
}

#[test]
fn set_variables_are_kept() {
    let pairs = vec![pair("PATH", "/shell/bin"), pair("LANG", "C")];
    let current = vec![Some("/usr/bin".to_string()), None];
    assert_eq!(pairs_to_apply(&pairs, &current), vec![pair("LANG", "C")]);
}

#[test]
fn empty_variables_are_filled() {
    let pairs = vec![pair("PATH", "/shell/bin")];
    assert_eq!(pairs_to_apply(&pairs, &vec![Some(String::new())]), vec![pair("PATH", "/shell/bin")]);
}

#[test]
fn first_pair_for_a_variable_wins() {
    let pairs = vec![pair("PATH", "/first"), pair("PATH", "/second"), pair("X", "1")];
    let current = vec![None, None, None];
    assert_eq!(pairs_to_apply(&pairs, &current), vec![pair("PATH", "/first"), pair("X", "1")]);
}

#[test]
fn printed_variables_read_back() {
    // what `printf '%s=%s\0'` prints for PATH, an empty E and LANG
    let printed = "\0GIT_SWITCH_ENV\0PATH=/a:/b\0E=\0LANG=fr_FR.UTF-8é\0".as_bytes();
    assert_eq!(
        parse_harvest_output(printed),
        vec![pair("PATH", "/a:/b"), pair("LANG", "fr_FR.UTF-8é")]
    );
}

#[test]
fn banner_before_marker_is_skipped() {
    let out = parse_harvest_output(b"Welcome!\nPATH=/wrong\0\0GIT_SWITCH_ENV\0PATH=/x\0HOME=/h\0");
    assert_eq!(out, vec![pair("PATH", "/x"), pair("HOME", "/h")]);
}

#[test]
fn last_marker_wins_and_missing_marker_gives_nothing() {
    let out = parse_harvest_output(b"\0GIT_SWITCH_ENV\0A=1\0\0GIT_SWITCH_ENV\0B=2\0");
    assert_eq!(out, vec![pair("B", "2")]);
    assert_eq!(parse_harvest_output(b"PATH=/x\0"), Vec::<(String, String)>::new());
    assert_eq!(parse_harvest_output(b""), Vec::<(String, String)>::new());
}

#[test]
fn waiting_for_the_login_shell() {
    assert_eq!(next_wait_action(ChildState::Exited, 9_000_000_000), WaitAction::Collect);
    assert_eq!(next_wait_action(ChildState::Running, 1_000), WaitAction::Sleep);
    assert_eq!(next_wait_action(ChildState::Running, 5_000_000_000), WaitAction::Sleep);
    assert_eq!(next_wait_action(ChildState::Running, 5_000_000_001), WaitAction::Kill);
    assert_eq!(next_wait_action(ChildState::Unknown, 0), WaitAction::GiveUp);
}
