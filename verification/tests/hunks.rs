use reviewmesh::hashes::{dec_str, hex_str};
use reviewmesh::hunk::{hunk_id, hunks_for_file, DiffEvent, HunkAccumulator};
use reviewmesh::model::DiffHunk;

#[test]
fn hex_rendering_exact() {
    assert_eq!(hex_str(0), "0");
    assert_eq!(hex_str(255), "ff");
    assert_eq!(hex_str(0xdeadbeef), "deadbeef");
    assert_eq!(hex_str(u64::MAX), "ffffffffffffffff");
}

#[test]
fn dec_rendering_exact() {
    assert_eq!(dec_str(0), "0");
    assert_eq!(dec_str(7), "7");
    assert_eq!(dec_str(1234), "1234");
    assert_eq!(dec_str(u64::MAX), "18446744073709551615");
}

#[test]
fn hunk_id_exact_values() {
    assert_eq!(hunk_id("", 0, 0, ""), "44d6580556a2fb7");
    assert_eq!(
        hunk_id("src/main.rs", 1, 3, "@@ -1,2 +3,4 @@\n+line\n"),
        "5cca1c876ae74ac7"
    );
}

#[test]
fn hunk_id_deterministic() {
    let a = hunk_id("lib.rs", 10, 20, "@@ -10,1 +20,1 @@\n-x\n+y\n");
    let b = hunk_id("lib.rs", 10, 20, "@@ -10,1 +20,1 @@\n-x\n+y\n");
    assert_eq!(a, b);
}

#[test]
fn hunk_id_sensitive_to_each_input() {
    let base = hunk_id("a.rs", 1, 2, "c");
    assert_ne!(hunk_id("b.rs", 1, 2, "c"), base);
    assert_ne!(hunk_id("a.rs", 9, 2, "c"), base);
    assert_ne!(hunk_id("a.rs", 1, 9, "c"), base);
    assert_ne!(hunk_id("a.rs", 1, 2, "d"), base);
}

#[test]
fn accumulator_builds_hunks_with_header_and_ids() {
    let mut acc = HunkAccumulator::new();
    acc.push_event(DiffEvent::File {
        path: "src/main.rs".to_string(),
    });
    acc.push_event(DiffEvent::Hunk {
        old_start: 1,
        old_lines: 2,
        new_start: 3,
        new_lines: 4,
    });
    acc.push_event(DiffEvent::Line {
        origin: '+',
        content: "new line\n".to_string(),
    });
    acc.push_event(DiffEvent::Hunk {
        old_start: 7,
        old_lines: 1,
        new_start: 9,
        new_lines: 1,
    });
    acc.push_event(DiffEvent::Line {
        origin: '-',
        content: "old line\n".to_string(),
    });
    let hunks = acc.finish();
    assert_eq!(hunks.len(), 2);
    assert_eq!(hunks[0].file, "src/main.rs");
    assert_eq!(hunks[0].old_start, 1);
    assert_eq!(hunks[0].old_lines, 2);
    assert_eq!(hunks[0].new_start, 3);
    assert_eq!(hunks[0].new_lines, 4);
    assert_eq!(hunks[0].content, "@@ -1,2 +3,4 @@\n+new line\n");
    assert_eq!(
        hunks[0].id,
        hunk_id("src/main.rs", 1, 3, "@@ -1,2 +3,4 @@\n+new line\n")
    );
    assert_eq!(hunks[1].content, "@@ -7,1 +9,1 @@\n-old line\n");
    assert_eq!(
        hunks[1].id,
        hunk_id("src/main.rs", 7, 9, "@@ -7,1 +9,1 @@\n-old line\n")
    );
}

#[test]
fn accumulator_ignores_lines_outside_hunks_and_empty_tail() {
    let mut acc = HunkAccumulator::new();
    acc.push_event(DiffEvent::File {
        path: "a.rs".to_string(),
    });
    acc.push_event(DiffEvent::Line {
        origin: '+',
        content: "stray\n".to_string(),
    });
    let hunks = acc.finish();
    assert_eq!(hunks.len(), 0);
}

#[test]
fn files_of_sorts_and_dedupes() {
    let mut h = DiffHunk {
        id: "i".to_string(),
        file: "m.rs".to_string(),
        old_start: 0,
        old_lines: 0,
        new_start: 0,
        new_lines: 0,
        content: String::new(),
    };
    let mut all = Vec::new();
    for name in ["m.rs", "a.rs", "z.rs", "a.rs", "m.rs"] {
        h.file = name.to_string();
        all.push(h.clone());
    }
    let files = reviewmesh::hunk::files_of(&all);
    assert_eq!(files, vec!["a.rs", "m.rs", "z.rs"]);
    assert!(reviewmesh::hunk::files_of(&Vec::new()).is_empty());
}

#[test]
fn hunks_for_file_filters_by_file() {
    let h1 = DiffHunk {
        id: "i1".to_string(),
        file: "a.rs".to_string(),
        old_start: 1,
        old_lines: 1,
        new_start: 1,
        new_lines: 1,
        content: "x".to_string(),
    };
    let mut h2 = h1.clone();
    h2.id = "i2".to_string();
    h2.file = "b.rs".to_string();
    let mut h3 = h1.clone();
    h3.id = "i3".to_string();
    let all = vec![h1.clone(), h2, h3.clone()];
    let only_a = hunks_for_file(&all, "a.rs");
    assert_eq!(only_a.len(), 2);
    assert_eq!(only_a[0].id, "i1");
    assert_eq!(only_a[1].id, "i3");
    assert_eq!(hunks_for_file(&all, "c.rs").len(), 0);
}
