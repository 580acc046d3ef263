use dupfind::aggregate::{aggregate, summarize, FileRecord, Group, HashedFile};
use dupfind::fingerprint::{encode_hex, fingerprint_bytes};
use dupfind::scan::{
    build_report, fingerprint_content, select_candidates, Diagnostic, FileOutcome, ScanError, Visit,
};

const HELLO: &str = "2cf24dba5fb0a30e26e83b2ac5b9e29e1b161e5c1fa7425e73043362938b9824";
const EMPTY: &str = "e3b0c44298fc1c149afbf4c8996fb92427ae41e4649b934ca495991b7852b855";

fn hashed(fp: &str, path: &str, size: u64) -> HashedFile {
    HashedFile {
        fingerprint: fp.to_string(),
        record: FileRecord { path: path.to_string(), size },
    }
}

fn ok(path: &str, content: &[u8]) -> FileOutcome {
    FileOutcome::Hashed(fingerprint_content(path.to_string(), content))
}

fn failed(path: &str) -> FileOutcome {
    FileOutcome::Failed(Diagnostic { path: path.to_string(), reason: "permission denied".to_string() })
}

fn total(groups: &[Group]) -> usize {
    groups.iter().map(|g| g.members.len()).sum()
}

fn triples(groups: &[Group]) -> Vec<(String, usize, u64)> {
    let mut v: Vec<(String, usize, u64)> = groups
        .iter()
        .map(|g| (g.fingerprint.clone(), g.members.len(), g.members[0].size))
        .collect();
    v.sort();
    v
}

#[test]
fn hex_renders_two_lowercase_digits_per_byte() {
    assert_eq!(encode_hex(&[0x00, 0xab, 0x0f, 0x90, 0xff]), "00ab0f90ff");
    assert_eq!(encode_hex(&[]), "");
}

#[test]
fn fingerprint_of_known_contents() {
    assert_eq!(fingerprint_bytes(b"hello"), HELLO);
    assert_eq!(fingerprint_bytes(b""), EMPTY);
    assert_eq!(fingerprint_bytes(b"world").len(), 64);
    assert_ne!(fingerprint_bytes(b"world"), HELLO);
}

#[test]
fn fingerprint_content_records_path_and_size() {
    let h = fingerprint_content("dir/a.txt".to_string(), b"hello");
    assert_eq!(h.fingerprint, HELLO);
    assert_eq!(h.record.path, "dir/a.txt");
    assert_eq!(h.record.size, 5);
}

#[test]
fn scenario_two_equal_files_and_one_other() {
    let outcomes = vec![ok("a.txt", b"hello"), ok("b.txt", b"hello"), ok("c.txt", b"world")];
    let report = build_report(&outcomes);
    assert_eq!(report.groups.len(), 2);
    assert_eq!(report.groups[0].fingerprint, HELLO);
    assert_eq!(report.groups[0].members.len(), 2);
    assert_eq!(report.groups[0].members[0].path, "a.txt");
    assert_eq!(report.groups[0].members[1].path, "b.txt");
    assert_eq!(report.groups[1].fingerprint, fingerprint_bytes(b"world"));
    assert_eq!(report.groups[1].members.len(), 1);
    assert!(report.diagnostics.is_empty());
    let summaries = summarize(&report.groups);
    assert_eq!(summaries[0].representative, "a.txt");
    assert_eq!(summaries[0].count, 2);
    assert_eq!(summaries[0].size, 5);
    assert_eq!(summaries[1].representative, "c.txt");
    assert_eq!(summaries[1].count, 1);
}

#[test]
fn equal_contents_share_a_group() {
    let outcomes = vec![ok("x", b"same"), ok("y", b"other"), ok("z", b"same")];
    let report = build_report(&outcomes);
    let g = report.groups.iter().find(|g| g.fingerprint == fingerprint_bytes(b"same")).unwrap();
    let paths: Vec<&str> = g.members.iter().map(|m| m.path.as_str()).collect();
    assert_eq!(paths, vec!["x", "z"]);
    assert_ne!(report.groups[0].fingerprint, report.groups[1].fingerprint);
}

#[test]
fn counts_are_conserved() {
    let input = vec![
        hashed("f1", "a", 1),
        hashed("f2", "b", 2),
        hashed("f1", "c", 1),
        hashed("f3", "d", 3),
        hashed("f2", "e", 2),
        hashed("f1", "f", 1),
    ];
    let groups = aggregate(&input);
    assert_eq!(total(&groups), 6);
    assert!(groups.iter().all(|g| !g.members.is_empty()));
}

#[test]
fn groups_are_ranked_by_count_then_first_seen() {
    let input = vec![
        hashed("one", "p1", 1),
        hashed("tie_b", "p2", 1),
        hashed("three", "p3", 1),
        hashed("tie_a", "p4", 1),
        hashed("three", "p5", 1),
        hashed("tie_b", "p6", 1),
        hashed("three", "p7", 1),
        hashed("tie_a", "p8", 1),
    ];
    let groups = aggregate(&input);
    let order: Vec<(&str, usize)> =
        groups.iter().map(|g| (g.fingerprint.as_str(), g.members.len())).collect();
    assert_eq!(order, vec![("three", 3), ("tie_b", 2), ("tie_a", 2), ("one", 1)]);
    for w in groups.windows(2) {
        assert!(w[0].members.len() >= w[1].members.len());
    }
}

#[test]
fn empty_input_gives_no_groups() {
    assert!(aggregate(&Vec::new()).is_empty());
    let report = build_report(&Vec::new());
    assert!(report.groups.is_empty());
    assert!(report.diagnostics.is_empty());
}

#[test]
fn complete_when_every_file_is_readable() {
    let outcomes = vec![ok("a", b"1"), ok("b", b"2"), ok("c", b"1"), ok("d", b"")];
    let report = build_report(&outcomes);
    assert_eq!(total(&report.groups), 4);
    assert!(report.diagnostics.is_empty());
}

#[test]
fn one_unreadable_file_is_isolated() {
    let outcomes = vec![ok("a", b"1"), ok("b", b"2"), failed("locked"), ok("c", b"1")];
    let report = build_report(&outcomes);
    assert_eq!(total(&report.groups), 3);
    assert_eq!(report.diagnostics.len(), 1);
    assert_eq!(report.diagnostics[0].path, "locked");
    assert_eq!(report.diagnostics[0].reason, "permission denied");
}

#[test]
fn missing_root_is_fatal() {
    let visits = vec![Visit::Unreadable { depth: 0, reason: "no such file or directory".to_string() }];
    match select_candidates(&visits) {
        Err(ScanError::RootUnusable { reason }) => assert_eq!(reason, "no such file or directory"),
        Ok(_) => panic!("a missing root must fail the scan"),
    }
}

#[test]
fn candidates_skip_other_entries_and_entry_errors() {
    let visits = vec![
        Visit::Other,
        Visit::File { path: "r/a.txt".to_string() },
        Visit::Unreadable { depth: 2, reason: "permission denied".to_string() },
        Visit::Other,
        Visit::File { path: "r/sub/b.txt".to_string() },
    ];
    match select_candidates(&visits) {
        Ok(paths) => assert_eq!(paths, vec!["r/a.txt".to_string(), "r/sub/b.txt".to_string()]),
        Err(_) => panic!("entry errors below the root are not fatal"),
    }
}

#[test]
fn arrival_order_does_not_change_counts() {
    let first = vec![ok("a", b"x"), ok("b", b"y"), ok("c", b"x"), ok("d", b"zz")];
    let second = vec![ok("d", b"zz"), ok("c", b"x"), ok("b", b"y"), ok("a", b"x")];
    let r1 = build_report(&first);
    let r2 = build_report(&second);
    assert_eq!(triples(&r1.groups), triples(&r2.groups));
    assert_eq!(r1.groups[0].members.len(), 2);
}
