use loggy::tee::{StreamBuffer, TeeEngine, INITIAL_BUF_LEN};

#[test]
fn single_read_single_batch() {
    // Three complete lines in one read come out as exactly one batch.
    let mut eng = TeeEngine::new(1);
    let actions = eng.on_data(0, &b"one\ntwo\nthree\n".to_vec());
    assert!(actions.announce);
    assert!(!actions.refill);
    assert_eq!(actions.batch, Some(b"one\ntwo\nthree\n".to_vec()));
    eng.on_eof(0);
    assert!(eng.is_done());
    let fin = eng.finish();
    assert!(fin.keep_log);
    assert_eq!(fin.residues, vec![Vec::<u8>::new()]);
}

#[test]
fn lines_across_chunks_in_order() {
    // "hel" + "lo\nwor" + "ld" delivers "hello\n" as the only batch and
    // leaves "world" for the final flush: batches plus residue reassemble
    // the input, in order.
    let mut eng = TeeEngine::new(1);
    let a1 = eng.on_data(0, &b"hel".to_vec());
    assert_eq!(a1.batch, None);
    assert!(!a1.announce);
    let a2 = eng.on_data(0, &b"lo\nwor".to_vec());
    assert_eq!(a2.batch, Some(b"hello\n".to_vec()));
    assert!(a2.announce);
    let a3 = eng.on_data(0, &b"ld".to_vec());
    assert_eq!(a3.batch, None);
    eng.on_eof(0);
    let fin = eng.finish();
    assert!(fin.keep_log);
    assert_eq!(fin.residues, vec![b"world".to_vec()]);
}

#[test]
fn silent_run_keeps_no_log() {
    // Every source hits end-of-stream at once: nothing flushed, nothing
    // residual, and the log file is not kept.
    let mut eng = TeeEngine::new(2);
    assert!(!eng.is_done());
    eng.on_eof(0);
    eng.on_eof(1);
    assert!(eng.is_done());
    let fin = eng.finish();
    assert!(!fin.keep_log);
    assert_eq!(fin.residues, vec![Vec::<u8>::new(), Vec::<u8>::new()]);
}

#[test]
fn unterminated_output_only_mirrors() {
    // An unterminated fragment is never flushed as a batch; it reaches the
    // mirror in the final flush, and the log is not kept.
    let mut eng = TeeEngine::new(1);
    let a = eng.on_data(0, &b"no newline here".to_vec());
    assert_eq!(a.batch, None);
    assert!(!a.announce);
    eng.on_eof(0);
    let fin = eng.finish();
    assert!(!fin.keep_log);
    assert_eq!(fin.residues, vec![b"no newline here".to_vec()]);
}

#[test]
fn two_sources_are_independent() {
    let mut eng = TeeEngine::new(2);
    let a = eng.on_data(0, &b"out\npart".to_vec());
    assert_eq!(a.batch, Some(b"out\n".to_vec()));
    let b = eng.on_data(1, &b"err".to_vec());
    assert_eq!(b.batch, None);
    let c = eng.on_data(1, &b"!\n".to_vec());
    assert_eq!(c.batch, Some(b"err!\n".to_vec()));
    assert!(!c.announce); // only the very first flush announces
    eng.on_eof(0);
    eng.on_eof(1);
    let fin = eng.finish();
    assert!(fin.keep_log);
    assert_eq!(fin.residues, vec![b"part".to_vec(), Vec::<u8>::new()]);
}

#[test]
fn full_buffer_asks_for_refill() {
    let mut eng = TeeEngine::new(1);
    assert_eq!(eng.read_hint(0), INITIAL_BUF_LEN);
    let big = vec![b'x'; INITIAL_BUF_LEN];
    let a = eng.on_data(0, &big);
    assert_eq!(a.batch, None);
    assert!(a.refill); // capacity reached: drain the pipe eagerly
    assert_eq!(eng.read_hint(0), INITIAL_BUF_LEN); // capacity doubled
    let b = eng.on_data(0, &b"y\n".to_vec());
    let batch = b.batch.expect("terminator must flush");
    assert_eq!(batch.len(), INITIAL_BUF_LEN + 2);
    assert_eq!(&batch[INITIAL_BUF_LEN..], b"y\n");
    assert!(!b.refill);
    eng.on_eof(0);
    let fin = eng.finish();
    assert!(fin.keep_log);
    assert_eq!(fin.residues, vec![Vec::<u8>::new()]);
}

#[test]
fn stream_buffer_absorb_splits_at_last_terminator() {
    let mut buf = StreamBuffer::new();
    assert_eq!(buf.spare(), INITIAL_BUF_LEN);
    let out = buf.absorb(&b"a\nb\nc".to_vec());
    assert_eq!(out.batch, Some(b"a\nb\n".to_vec()));
    assert!(!out.refill);
    assert_eq!(buf.take_pending(), b"c".to_vec());
}
