use gufi_change_finder::changelog::{
    changed_path_line, checkpoint_due, classify_entry, format_state, next_ino_path_cursor,
    no_changes, parse_signed_state, parse_state, plan_batch, rescan_line, should_save_state,
    start_after_validation, EntryStep,
    WalkInodesEntry,
};

fn e(major: u64, ino: u64, minor: u32) -> WalkInodesEntry {
    WalkInodesEntry { major, ino, minor }
}

fn max_state() -> WalkInodesEntry {
    e(u64::MAX, u64::MAX, u32::MAX)
}

#[test]
fn parse_state_reads_three_lines() {
    assert_eq!(parse_state("1\n2\n3"), Some(e(1, 2, 3)));
    assert_eq!(parse_state("0\n0\n0"), Some(e(0, 0, 0)));
    assert_eq!(parse_state("7\n8\n9\nextra lines\nare ignored"), Some(e(7, 8, 9)));
}

#[test]
fn parse_state_trims_and_accepts_plus() {
    assert_eq!(parse_state(" 12 \n\t34\r\n+5\n"), Some(e(12, 34, 5)));
    assert_eq!(parse_state("\u{a0}007\u{3000}\n1\n2"), Some(e(7, 1, 2)));
}

#[test]
fn parse_state_reads_largest_values() {
    assert_eq!(
        parse_state("18446744073709551615\n18446744073709551615\n4294967295"),
        Some(max_state())
    );
}

#[test]
fn parse_state_rejects_bad_text() {
    assert_eq!(parse_state("1\n2"), None);
    assert_eq!(parse_state(""), None);
    assert_eq!(parse_state("1\n2\nx"), None);
    assert_eq!(parse_state("1\n\n2"), None);
    assert_eq!(parse_state("-1\n0\n0"), None);
    assert_eq!(parse_state("+\n0\n0"), None);
    assert_eq!(parse_state("1 2\n0\n0"), None);
    assert_eq!(parse_state("18446744073709551616\n0\n0"), None);
    assert_eq!(parse_state("0\n0\n4294967296"), None);
}

#[test]
fn parse_state_agrees_with_str_parse() {
    let texts = ["1\n2\n3", " 4\n+5 \n6", "x\n1\n1", "99999999999999999999\n1\n1", "1\n1\n-0"];
    for text in texts.iter() {
        let lines: Vec<&str> = text.split('\n').collect();
        let expected = (|| {
            Some(e(
                lines.first()?.trim().parse().ok()?,
                lines.get(1)?.trim().parse().ok()?,
                lines.get(2)?.trim().parse().ok()?,
            ))
        })();
        assert_eq!(parse_state(text), expected, "{:?}", text);
    }
}

#[test]
fn format_state_writes_three_lines() {
    assert_eq!(format_state(&e(1, 2, 3)), "1\n2\n3");
    assert_eq!(format_state(&e(0, 10, 0)), "0\n10\n0");
    assert_eq!(
        format_state(&max_state()),
        "18446744073709551615\n18446744073709551615\n4294967295"
    );
}

#[test]
fn state_round_trips() {
    for s in [e(0, 0, 0), e(1, 2, 3), e(1234567890, 42, 7), max_state()].iter() {
        assert_eq!(parse_state(&format_state(s)), Some(*s));
    }
}

#[test]
fn classify_entry_follows_the_walk_rules() {
    let start = e(1, 5, 0);
    let quota = e(9, 0, 9);
    assert_eq!(classify_entry(&e(2, 7, 0), 7, false, &start, &quota), EntryStep::CarryOver);
    assert_eq!(classify_entry(&e(2, 7, 0), 7, true, &start, &quota), EntryStep::Resolve);
    assert_eq!(classify_entry(&e(1, 5, 0), 7, false, &start, &quota), EntryStep::SkipStart);
    assert_eq!(classify_entry(&e(9, 6, 9), 7, false, &start, &quota), EntryStep::ReachedQuota);
    assert_eq!(classify_entry(&e(10, 6, 8), 7, false, &start, &quota), EntryStep::Resolve);
}

#[test]
fn full_batch_carries_its_last_entry_over() {
    let entries = vec![e(1, 10, 0), e(1, 11, 0), e(1, 12, 0)];
    let plan = plan_batch(&entries, 3, &e(0, 0, 0), &max_state());
    assert_eq!(plan.resolve, vec![e(1, 10, 0), e(1, 11, 0)]);
    assert_eq!(plan.next_first, Some(e(1, 12, 0)));
    assert!(!plan.last_batch);
}

#[test]
fn short_batch_is_the_last_one() {
    let entries = vec![e(1, 10, 0), e(1, 11, 0), e(1, 12, 0)];
    let plan = plan_batch(&entries, 4, &e(0, 0, 0), &max_state());
    assert_eq!(plan.resolve, entries);
    assert_eq!(plan.next_first, None);
    assert!(plan.last_batch);
}

#[test]
fn starting_entry_is_skipped() {
    let entries = vec![e(1, 10, 0), e(1, 11, 0)];
    let plan = plan_batch(&entries, 5, &e(1, 10, 0), &max_state());
    assert_eq!(plan.resolve, vec![e(1, 11, 0)]);
    assert!(plan.last_batch);
}

#[test]
fn quota_stops_the_walk() {
    let entries = vec![e(1, 10, 0), e(2, 11, 3), e(3, 12, 0)];
    let plan = plan_batch(&entries, 3, &e(0, 0, 0), &e(2, 0, 3));
    assert_eq!(plan.resolve, vec![e(1, 10, 0)]);
    assert_eq!(plan.next_first, None);
    assert!(plan.last_batch);
}

#[test]
fn carry_over_matches_on_inode_alone() {
    let entries = vec![e(1, 12, 0), e(1, 11, 0), e(2, 12, 0)];
    let plan = plan_batch(&entries, 3, &e(0, 0, 0), &max_state());
    assert_eq!(plan.resolve, vec![]);
    assert_eq!(plan.next_first, Some(e(2, 12, 0)));
    assert!(!plan.last_batch);
}

#[test]
fn empty_batch() {
    let plan = plan_batch(&vec![], 3, &e(0, 0, 0), &max_state());
    assert_eq!(plan.resolve, vec![]);
    assert_eq!(plan.next_first, None);
    assert!(plan.last_batch);
}

#[test]
fn ino_path_cursor_advances_and_wraps() {
    assert_eq!(next_ino_path_cursor(5, 7), Some((5, 8)));
    assert_eq!(next_ino_path_cursor(5, u64::MAX), Some((6, 0)));
    assert_eq!(next_ino_path_cursor(u64::MAX, u64::MAX), None);
}

#[test]
fn state_is_saved_only_on_a_new_major() {
    assert!(should_save_state(&e(3, 1, 1), &e(2, 9, 9)));
    assert!(!should_save_state(&e(2, 1, 1), &e(2, 9, 9)));
    assert!(!should_save_state(&e(0, 1, 1), &e(2, 9, 9)));
}

#[test]
fn no_changes_means_zero_state() {
    assert!(no_changes(&e(0, 0, 0)));
    assert!(!no_changes(&e(0, 0, 1)));
}

#[test]
fn checkpoint_after_period_or_last_batch() {
    assert!(checkpoint_due(true, 5, 5, 60000));
    assert!(!checkpoint_due(false, 60_000_000_000, 0, 60000));
    assert!(checkpoint_due(false, 60_000_000_001, 0, 60000));
    assert!(checkpoint_due(false, u128::MAX, 0, u64::MAX));
}

#[test]
fn output_lines() {
    assert_eq!(changed_path_line("a/b", 42), "a/b\t\u{0}42\n");
    assert_eq!(rescan_line("/fs/a", 0), "/fs/a\u{0},0\n");
}

#[test]
fn signed_state_reads_i64_values() {
    assert_eq!(parse_signed_state("1\n2\n3"), Some(e(1, 2, 3)));
    assert_eq!(parse_signed_state(" -1\n+7\n-1 \n"), Some(e(u64::MAX, 7, u32::MAX)));
    assert_eq!(parse_signed_state("-0\n0\n4294967296"), Some(e(0, 0, 0)));
    assert_eq!(
        parse_signed_state("-9223372036854775808\n9223372036854775807\n5"),
        Some(e(1u64 << 63, (1u64 << 63) - 1, 5))
    );
    assert_eq!(parse_signed_state("9223372036854775808\n0\n0"), None);
    assert_eq!(parse_signed_state("-9223372036854775809\n0\n0"), None);
    assert_eq!(parse_signed_state("-+5\n0\n0"), None);
    assert_eq!(parse_signed_state("-\n0\n0"), None);
    assert_eq!(parse_signed_state("1\n2"), None);
}

#[test]
fn signed_state_agrees_with_i64_parse() {
    let texts = ["1\n2\n3", "-4\n+5\n-6", "x\n1\n1", "-9223372036854775808\n1\n-2147483649"];
    for text in texts.iter() {
        let lines: Vec<&str> = text.split('\n').collect();
        let expected = (|| {
            let a: i64 = lines.first()?.trim().parse().ok()?;
            let b: i64 = lines.get(1)?.trim().parse().ok()?;
            let c: i64 = lines.get(2)?.trim().parse().ok()?;
            Some(e(a as u64, b as u64, c as u32))
        })();
        assert_eq!(parse_signed_state(text), expected, "{:?}", text);
    }
}

#[test]
fn validated_state_replaces_the_start() {
    assert_eq!(start_after_validation(&e(1, 2, 3), &e(1, 2, 3)), (e(1, 2, 3), false));
    assert_eq!(start_after_validation(&e(1, 2, 3), &e(1, 2, 0)), (e(1, 2, 0), true));
}
