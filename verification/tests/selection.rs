use loggy::util::{
    candidate_accepts, join_path, logging_disabled, parse_stream_selection, split_search_path,
};

fn parts(s: &[u8]) -> Vec<Vec<u8>> {
    split_search_path(&s.to_vec())
}

#[test]
fn search_path_splits_on_colons() {
    assert_eq!(
        parts(b"/usr/bin:/bin::/sbin"),
        vec![
            b"/usr/bin".to_vec(),
            b"/bin".to_vec(),
            Vec::new(),
            b"/sbin".to_vec()
        ]
    );
    assert_eq!(parts(b""), vec![Vec::<u8>::new()]);
    assert_eq!(parts(b"/bin"), vec![b"/bin".to_vec()]);
}

#[test]
fn join_path_inserts_one_slash() {
    assert_eq!(
        join_path(&b"/usr/bin".to_vec(), &b"ls".to_vec()),
        b"/usr/bin/ls".to_vec()
    );
}

#[test]
fn candidate_rules() {
    let rwxr_xr_x: u32 = 0o755;
    let rw_r__r__: u32 = 0o644;
    assert!(candidate_accepts(false, true, rwxr_xr_x));
    assert!(!candidate_accepts(true, true, rwxr_xr_x)); // never picks itself
    assert!(!candidate_accepts(false, false, rwxr_xr_x)); // not a file
    assert!(!candidate_accepts(false, true, rw_r__r__)); // not executable
}

#[test]
fn stream_selection_stdout_only() {
    // With only stdout selected, stderr stays uncaptured (it is inherited
    // and never becomes a tee source).
    let sel = parse_stream_selection(&b"1".to_vec());
    assert!(sel.stdout);
    assert!(!sel.stderr);
    assert!(sel.invalid.is_empty());
    let sel = parse_stream_selection(&b"stdout".to_vec());
    assert!(sel.stdout && !sel.stderr);
    let sel = parse_stream_selection(&b"STDOUT".to_vec());
    assert!(sel.stdout && !sel.stderr);
}

#[test]
fn stream_selection_combinations() {
    let sel = parse_stream_selection(&b"2,stdout".to_vec());
    assert!(sel.stdout && sel.stderr);
    assert!(sel.invalid.is_empty());
    let sel = parse_stream_selection(&b"STDERR".to_vec());
    assert!(!sel.stdout && sel.stderr);
    let sel = parse_stream_selection(&b"bogus".to_vec());
    assert!(!sel.stdout && !sel.stderr);
    assert_eq!(sel.invalid, vec![b"bogus".to_vec()]);
    let sel = parse_stream_selection(&b"".to_vec());
    assert!(!sel.stdout && !sel.stderr);
    assert_eq!(sel.invalid, vec![Vec::<u8>::new()]);
}

#[test]
fn stream_selection_reports_unrecognized_tokens_in_order() {
    let sel = parse_stream_selection(&b"bad,1,worse".to_vec());
    assert!(sel.stdout);
    assert!(!sel.stderr);
    assert_eq!(sel.invalid, vec![b"bad".to_vec(), b"worse".to_vec()]);
}

#[test]
fn disable_switch() {
    assert!(!logging_disabled(None));
    assert!(!logging_disabled(Some(&b"0".to_vec())));
    assert!(logging_disabled(Some(&b"1".to_vec())));
    assert!(logging_disabled(Some(&b"".to_vec())));
    assert!(logging_disabled(Some(&b"yes".to_vec())));
}
