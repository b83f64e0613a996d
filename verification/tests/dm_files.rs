use nafaq::dm_files::{
    candidate_file_name, is_valid_transfer_id, is_windows_reserved_name, sanitize_file_name,
    should_emit_file_progress, ChunkVerdict, FileEndVerdict, FileFailure, FileStartVerdict,
    FileTransfers, FILE_PROGRESS_MIN_BYTES, FILE_PROGRESS_MIN_INTERVAL_MS, MAX_CONCURRENT_TRANSFERS,
    MAX_INCOMING_FILE_SIZE,
};

#[test]
fn sanitize_file_name_strips_directories_and_leading_dots() {
    assert_eq!(sanitize_file_name("/etc/passwd"), "passwd");
    assert_eq!(sanitize_file_name("..\\..\\evil.exe"), "evil.exe");
    assert_eq!(sanitize_file_name("../.bashrc"), "bashrc");
    assert_eq!(sanitize_file_name("C:\\Windows\\win.ini"), "win.ini");
    assert_eq!(sanitize_file_name("report.pdf"), "report.pdf");
}

#[test]
fn sanitize_file_name_replaces_windows_forbidden_and_control_chars() {
    assert_eq!(sanitize_file_name("a<b>c:d\"e|f?g*h.txt"), "a_b_c_d_e_f_g_h.txt");
    assert_eq!(sanitize_file_name("file.txt:stream"), "file.txt_stream");
    assert_eq!(sanitize_file_name("tab\there\u{7}.txt"), "tabhere.txt");
}

#[test]
fn sanitize_file_name_strips_trailing_dots_and_spaces() {
    assert_eq!(sanitize_file_name("name.txt. . "), "name.txt");
    assert_eq!(sanitize_file_name("  spaced  "), "spaced");
}

#[test]
fn sanitize_file_name_rejects_empty_names() {
    for name in ["", "   ", "...", ". .", "/", "dir/", "\\", "\u{1}\u{2}"] {
        assert_eq!(sanitize_file_name(name), "download", "input {name:?}");
    }
}

#[test]
fn sanitize_file_name_rejects_windows_reserved_device_names() {
    for name in [
        "CON", "con", "Prn", "AUX", "nul", "COM1", "com9", "LPT1", "lpt9", "nul.txt",
        "CON.tar.gz", "aux .log", "com3.",
    ] {
        let sanitized = sanitize_file_name(name);
        assert!(
            !is_windows_reserved_name(&sanitized),
            "{name:?} sanitized to reserved {sanitized:?}"
        );
        assert!(sanitized.starts_with('_'), "{name:?} -> {sanitized:?}");
    }
    for name in ["COM0", "COM10", "LPT", "console.txt", "nullable", "auxiliary.md"] {
        assert_eq!(sanitize_file_name(name), name);
    }
}

#[test]
fn file_progress_is_throttled_but_final_progress_always_emits() {
    let short = 10;
    let mib = FILE_PROGRESS_MIN_BYTES;
    let last = 64 * 1024;
    // First progress always reports.
    assert!(should_emit_file_progress(last, 10 * mib, 0, short));
    // Small step, soon after the last event: suppressed.
    assert!(!should_emit_file_progress(2 * last, 10 * mib, last, short));
    // A full MiB since the last event.
    assert!(should_emit_file_progress(last + mib, 10 * mib, last, short));
    // Enough time passed.
    assert!(should_emit_file_progress(
        2 * last,
        10 * mib,
        last,
        FILE_PROGRESS_MIN_INTERVAL_MS
    ));
    // Final chunk always reports.
    assert!(should_emit_file_progress(10 * mib, 10 * mib, 10 * mib - 1, short));
}

#[test]
fn sanitize_keeps_long_names_to_two_hundred_characters() {
    let long = "x".repeat(300);
    assert_eq!(sanitize_file_name(&long).chars().count(), 200);
}

#[test]
fn transfer_ids_use_a_restricted_charset() {
    assert!(is_valid_transfer_id("550e8400-e29b-41d4-a716-446655440000"));
    assert!(is_valid_transfer_id("a_b-C9"));
    assert!(!is_valid_transfer_id(""));
    assert!(!is_valid_transfer_id("../x"));
    assert!(!is_valid_transfer_id(&"a".repeat(65)));
    assert!(is_valid_transfer_id(&"a".repeat(64)));
}

#[test]
fn file_start_from_non_contact_fails_with_a_reason() {
    let transfers = FileTransfers::new();
    assert_eq!(
        transfers.check_file_start("t-stranger", 4, false),
        FileStartVerdict::Fail(FileFailure::NotAContact)
    );
    assert_eq!(FileFailure::NotAContact.reason(), "sender is not a contact");
    assert_eq!(
        transfers.check_file_start("bad id", 4, true),
        FileStartVerdict::Reject
    );
    assert_eq!(
        transfers.check_file_start("t-big", MAX_INCOMING_FILE_SIZE + 1, true),
        FileStartVerdict::Reject
    );
    assert_eq!(
        transfers.check_file_start("t-ok", MAX_INCOMING_FILE_SIZE, true),
        FileStartVerdict::Accept
    );
}

#[test]
fn concurrent_transfers_are_bounded() {
    let mut transfers = FileTransfers::new();
    for n in 0..MAX_CONCURRENT_TRANSFERS {
        let id = format!("t-busy-{n}");
        assert_eq!(transfers.check_file_start(&id, 4, true), FileStartVerdict::Accept);
        transfers.begin(&id, "x.bin".to_string(), 4, 0);
    }
    assert_eq!(
        transfers.check_file_start("t-busy-overflow", 4, true),
        FileStartVerdict::Fail(FileFailure::TooManyTransfers)
    );
    // A restart of a known transfer is still allowed.
    assert_eq!(
        transfers.check_file_start("t-busy-3", 4, true),
        FileStartVerdict::Accept
    );
    let ids = transfers.drain_ids();
    assert_eq!(ids.len(), MAX_CONCURRENT_TRANSFERS);
    assert_eq!(transfers.len(), 0);
}

#[test]
fn short_transfer_ends_incomplete_and_full_one_completes() {
    let mut transfers = FileTransfers::new();
    transfers.begin("t-short", "x.bin".to_string(), 8, 0);
    assert_eq!(transfers.check_chunk("t-short", 0, 4), ChunkVerdict::Write);
    assert_eq!(transfers.record_chunk_written("t-short", 0, 4, 1), Some(4));
    assert_eq!(transfers.finish("t-short"), FileEndVerdict::Incomplete);
    assert_eq!(transfers.finish("t-short"), FileEndVerdict::Unknown);

    transfers.begin("t-full", "y.bin".to_string(), 8, 0);
    assert_eq!(transfers.record_chunk_written("t-full", 4, 4, 1), Some(8));
    // Once every byte is in, each write reports the final count.
    assert_eq!(transfers.record_chunk_written("t-full", 0, 4, 2), Some(8));
    assert_eq!(
        transfers.finish("t-full"),
        FileEndVerdict::Complete { final_name: "y.bin".to_string() }
    );
}

#[test]
fn chunks_beyond_the_declared_size_abort_the_transfer() {
    let mut transfers = FileTransfers::new();
    transfers.begin("t", "x.bin".to_string(), 8, 0);
    assert_eq!(transfers.check_chunk("t", 6, 4), ChunkVerdict::OverDeclared);
    assert_eq!(transfers.check_chunk("t", u64::MAX, 4), ChunkVerdict::OverDeclared);
    assert_eq!(transfers.check_chunk("nope", 0, 1), ChunkVerdict::Unknown);
    assert!(transfers.abort("t"));
    assert!(!transfers.abort("t"));
}

#[test]
fn progress_reports_are_throttled_in_the_tracker() {
    let mib = FILE_PROGRESS_MIN_BYTES;
    let mut transfers = FileTransfers::new();
    transfers.begin("t", "x.bin".to_string(), 10 * mib, 0);
    // First progress always reports.
    assert_eq!(transfers.record_chunk_written("t", 0, 1024, 0), Some(1024));
    // Small step shortly after: suppressed.
    assert_eq!(transfers.record_chunk_written("t", 1024, 1024, 10), None);
    // Time passed: reported.
    assert_eq!(
        transfers.record_chunk_written("t", 2048, 1024, 10 + FILE_PROGRESS_MIN_INTERVAL_MS),
        Some(3072)
    );
}

#[test]
fn taken_names_get_a_counter() {
    assert_eq!(candidate_file_name("report.pdf", 0), "report.pdf");
    assert_eq!(candidate_file_name("report.pdf", 1), "report (1).pdf");
    assert_eq!(candidate_file_name("archive.tar.gz", 2), "archive.tar (2).gz");
    assert_eq!(candidate_file_name("README", 12), "README (12)");
    assert_eq!(candidate_file_name(".profile", 1), ".profile (1)");
    assert_eq!(candidate_file_name("a.", 3), "a (3).");
}
