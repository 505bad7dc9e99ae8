use loggy::log::{
    args_str_and_prefix, build_prefix, compute_prefix, config_name_len, config_path,
    flatten_args, log_file_name, open_log_step, pick_config, sanitize, trim_dashes,
    CreateOutcome, LogIdentity, LogStep, NameLen,
};

fn bytes(args: &[&str]) -> Vec<Vec<u8>> {
    args.iter().map(|a| a.as_bytes().to_vec()).collect()
}

#[test]
fn flatten_joins_with_single_spaces() {
    assert_eq!(
        flatten_args(&bytes(&["cp", "a.txt", "b.txt"])),
        b"cp a.txt b.txt".to_vec()
    );
    assert_eq!(flatten_args(&bytes(&["ls"])), b"ls".to_vec());
}

#[test]
fn trim_dashes_strips_both_ends() {
    assert_eq!(trim_dashes(&b"--force".to_vec()), b"force".to_vec());
    assert_eq!(trim_dashes(&b"a-b".to_vec()), b"a-b".to_vec());
    assert_eq!(trim_dashes(&b"---".to_vec()), Vec::<u8>::new());
    assert_eq!(trim_dashes(&Vec::new()), Vec::<u8>::new());
}

#[test]
fn sanitize_replaces_unsafe_bytes() {
    assert_eq!(sanitize(&b"a b&c".to_vec()), b"a-b-c".to_vec());
    assert_eq!(sanitize(&b"x(y)|z`".to_vec()), b"x-y--z-".to_vec());
    assert_eq!(sanitize(&b"plain.txt".to_vec()), b"plain.txt".to_vec());
}

#[test]
fn prefix_keeps_existing_path_past_truncation() {
    // Pattern matched just "cp" (length 2); "b.txt" exists, "a.txt" does
    // not: the prefix keeps cp and -b.txt and drops a.txt.
    let args = bytes(&["cp", "a.txt", "b.txt"]);
    let ex = vec![false, false, true];
    let prefix = build_prefix(&args, 2, &ex);
    assert_eq!(prefix, b"cp-b.txt".to_vec());
}

#[test]
fn prefix_appends_while_shorter_than_truncation() {
    // The prefix "cp" (2 bytes) is still shorter than a truncation length
    // of 3, so the next argument is appended even though it neither exists
    // nor would fit.
    let args = bytes(&["cp", "x"]);
    assert_eq!(build_prefix(&args, 3, &vec![false, false]), b"cp-x".to_vec());
    // At length 2 the prefix is no longer shorter: the argument is dropped.
    assert_eq!(build_prefix(&args, 2, &vec![false, false]), b"cp".to_vec());
}

#[test]
fn prefix_within_truncation_keeps_options_trimmed() {
    let args = bytes(&["git", "--no-pager", "log"]);
    let ex = vec![false, false, false];
    // Truncation length longer than the whole command: everything is kept,
    // with each argument's own dashes stripped.
    let prefix = build_prefix(&args, 100, &ex);
    assert_eq!(prefix, b"git-no-pager-log".to_vec());
}

#[test]
fn prefix_argument_with_space_and_ampersand_sanitized() {
    let args = bytes(&["echo", "a b&c"]);
    let prefix = sanitize(&build_prefix(&args, 100, &vec![false, false]));
    assert_eq!(prefix, b"echo-a-b-c".to_vec());
    assert!(!prefix.contains(&b' '));
    assert!(!prefix.contains(&b'&'));
}

#[test]
fn compute_prefix_consults_the_filesystem() {
    // "/" exists; the other argument does not: with truncation already
    // exhausted, only the existing path survives.
    let args = bytes(&["ls", "/definitely-not-here-000", "/"]);
    let prefix = compute_prefix(&args, 2);
    assert_eq!(prefix, b"ls-/".to_vec());
}

#[test]
fn config_first_match_sets_length() {
    let lines = bytes(&["# comment", "", "xyz", "^cp\\b", "^c"]);
    let r = config_name_len(&lines, &b"cp a.txt b.txt".to_vec());
    match r {
        NameLen::Truncate { len } => assert_eq!(len, 2),
        _ => panic!("expected a truncation"),
    }
}

#[test]
fn config_no_match_bypasses() {
    let lines = bytes(&["zzz", "^yes$"]);
    assert!(matches!(
        config_name_len(&lines, &b"cp a b".to_vec()),
        NameLen::Bypass
    ));
    assert!(matches!(
        config_name_len(&Vec::new(), &b"cp".to_vec()),
        NameLen::Bypass
    ));
}

#[test]
fn config_empty_match_bypasses() {
    // A pattern that matches the empty prefix yields match end 0: bypass.
    let lines = bytes(&["x*"]);
    assert!(matches!(
        config_name_len(&lines, &b"cp a b".to_vec()),
        NameLen::Bypass
    ));
}

#[test]
fn config_bad_pattern_is_fatal() {
    let lines = bytes(&["valid", "("]);
    match config_name_len(&lines, &b"cp".to_vec()) {
        NameLen::BadPattern { pattern, message } => {
            assert_eq!(pattern, b"(".to_vec());
            assert!(!message.is_empty());
        }
        _ => panic!("expected the bad pattern to be fatal"),
    }
}

#[test]
fn pick_config_search_order() {
    let user = b"/home/u/.config/loggy".to_vec();
    let system = b"/etc/loggy".to_vec();
    // The user file wins over the system file whenever it exists.
    assert_eq!(
        pick_config(true, true, user.clone(), system.clone()),
        Some(user.clone())
    );
    assert_eq!(
        pick_config(true, false, user.clone(), system.clone()),
        Some(user.clone())
    );
    assert_eq!(
        pick_config(false, true, user.clone(), system.clone()),
        Some(system.clone())
    );
    assert_eq!(pick_config(false, false, user, system), None);
}

#[test]
fn config_path_prefers_the_user_file() {
    assert_eq!(
        config_path(b"/".to_vec(), b"/etc".to_vec()),
        Some(b"/".to_vec())
    );
    assert_eq!(
        config_path(b"/definitely-not-here-000".to_vec(), b"/".to_vec()),
        Some(b"/".to_vec())
    );
    assert_eq!(
        config_path(
            b"/definitely-not-here-000".to_vec(),
            b"/also-not-here-000".to_vec()
        ),
        None
    );
}

#[test]
fn log_file_names_count_up() {
    let prefix = b"cp-b.txt".to_vec();
    assert_eq!(log_file_name(&prefix, 0), b"cp-b.txt-0.log".to_vec());
    assert_eq!(log_file_name(&prefix, 1), b"cp-b.txt-1.log".to_vec());
    assert_eq!(log_file_name(&prefix, 1234), b"cp-b.txt-1234.log".to_vec());
}

#[test]
fn open_log_steps() {
    assert!(matches!(
        open_log_step(0, CreateOutcome::Created),
        LogStep::UseThis
    ));
    assert!(matches!(
        open_log_step(3, CreateOutcome::MissingDir),
        LogStep::MakeDirThenRetry { n: 3 }
    ));
    // A collision moves on to the next suffix: the first file is never
    // reopened, let alone overwritten.
    assert!(matches!(
        open_log_step(0, CreateOutcome::AlreadyExists),
        LogStep::Retry { n: 1 }
    ));
    assert!(matches!(
        open_log_step(7, CreateOutcome::Fatal),
        LogStep::Fail
    ));
}

#[test]
fn identity_without_config() {
    let args = bytes(&["cp", "/not-here-000", "/also-not-here-000"]);
    match args_str_and_prefix(&args, None) {
        LogIdentity::Log { args_str, prefix } => {
            assert_eq!(args_str, b"cp /not-here-000 /also-not-here-000".to_vec());
            assert_eq!(prefix, b"cp".to_vec());
        }
        _ => panic!("expected a loggable identity"),
    }
}

#[test]
fn identity_with_config_gate() {
    let args = bytes(&["cp", "/not-here-000"]);
    let lines = bytes(&["^cp\\b"]);
    match args_str_and_prefix(&args, Some(&lines)) {
        LogIdentity::Log { args_str, prefix } => {
            assert_eq!(args_str, b"cp /not-here-000".to_vec());
            assert_eq!(prefix, b"cp".to_vec());
        }
        _ => panic!("expected a loggable identity"),
    }
    assert!(matches!(
        args_str_and_prefix(&args, Some(&bytes(&["^mv\\b"]))),
        LogIdentity::Bypass
    ));
    assert!(matches!(
        args_str_and_prefix(&args, Some(&bytes(&["("]))),
        LogIdentity::BadPattern { .. }
    ));
}
