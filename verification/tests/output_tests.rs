use confrender::output::{bytes_equal, hash_bytes, plan_output, ContentHasher, OutputPlan};

#[test]
fn digest_of_empty_input_matches_sha256() {
    let expected: Vec<u8> = vec![
        0xe3, 0xb0, 0xc4, 0x42, 0x98, 0xfc, 0x1c, 0x14, 0x9a, 0xfb, 0xf4, 0xc8, 0x99, 0x6f,
        0xb9, 0x24, 0x27, 0xae, 0x41, 0xe4, 0x64, 0x9b, 0x93, 0x4c, 0xa4, 0x95, 0x99, 0x1b,
        0x78, 0x52, 0xb8, 0x55,
    ];
    assert_eq!(hash_bytes(b""), expected);
}

#[test]
fn digest_of_abc_matches_sha256() {
    let expected: Vec<u8> = vec![
        0xba, 0x78, 0x16, 0xbf, 0x8f, 0x01, 0xcf, 0xea, 0x41, 0x41, 0x40, 0xde, 0x5d, 0xae,
        0x22, 0x23, 0xb0, 0x03, 0x61, 0xa3, 0x96, 0x17, 0x7a, 0x9c, 0xb4, 0x10, 0xff, 0x61,
        0xf2, 0x00, 0x15, 0xad,
    ];
    assert_eq!(hash_bytes(b"abc"), expected);
}

#[test]
fn streaming_chunks_give_the_same_digest_as_one_pass() {
    let mut hasher = ContentHasher::new();
    hasher.update(b"hello ");
    hasher.update(b"world");
    assert_eq!(hasher.finalize(), hash_bytes(b"hello world"));
}

#[test]
fn bytes_equal_compares_contents() {
    assert!(bytes_equal(b"abc", b"abc"));
    assert!(!bytes_equal(b"abc", b"abd"));
    assert!(!bytes_equal(b"abc", b"ab"));
    assert!(bytes_equal(b"", b""));
}

#[test]
fn fresh_destination_is_written_without_backup() {
    let plan = plan_output(&None, b"foo", false, false);
    assert_eq!(plan, OutputPlan { unchanged: false, do_backup: false, do_write: true });
}

#[test]
fn rewriting_identical_content_is_a_no_op() {
    let existing = Some(hash_bytes(b"foo"));
    let plan = plan_output(&existing, b"foo", false, false);
    assert_eq!(plan, OutputPlan { unchanged: true, do_backup: false, do_write: false });
}

#[test]
fn changed_content_rotates_the_backup_then_writes() {
    let first = Some(hash_bytes(b"foo"));
    let plan = plan_output(&first, b"bar", false, false);
    assert_eq!(plan, OutputPlan { unchanged: false, do_backup: true, do_write: true });

    let second = Some(hash_bytes(b"bar"));
    let plan2 = plan_output(&second, b"baz", false, false);
    assert_eq!(plan2, OutputPlan { unchanged: false, do_backup: true, do_write: true });
}

#[test]
fn no_backup_flag_suppresses_only_the_backup() {
    let existing = Some(hash_bytes(b"foo"));
    let plan = plan_output(&existing, b"bar", true, false);
    assert_eq!(plan, OutputPlan { unchanged: false, do_backup: false, do_write: true });
}

#[test]
fn dry_run_still_compares_but_never_writes() {
    let existing = Some(hash_bytes(b"foo"));
    let changed = plan_output(&existing, b"bar", false, true);
    assert_eq!(changed, OutputPlan { unchanged: false, do_backup: false, do_write: false });

    let same = plan_output(&existing, b"foo", false, true);
    assert_eq!(same, OutputPlan { unchanged: true, do_backup: false, do_write: false });

    let fresh = plan_output(&None, b"foo", false, true);
    assert_eq!(fresh, OutputPlan { unchanged: false, do_backup: false, do_write: false });
}
