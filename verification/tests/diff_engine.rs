use skimdiff::diff::{
    annotate_intraline, parse_hunk_header_chars, parse_patch, synthetic_added, FileStatus, Hunk,
    Line, LineKind,
};

#[test]
fn parse_patch_extracts_files_hunks_and_line_numbers() {
    let patch = "\
diff --git a/Main.java b/Main.java
index 1111111..2222222 100644
--- a/Main.java
+++ b/Main.java
@@ -1,4 +1,4 @@
 class Main {
-    void a() {}
+    void a() { run(); }
     void b() {}
 }
";
    let files = parse_patch(patch);
    assert_eq!(files.len(), 1);
    let f = &files[0];
    assert_eq!(f.path, "Main.java");
    assert_eq!(f.status, FileStatus::Modified);
    assert_eq!(f.hunks.len(), 1);
    let h = &f.hunks[0];
    assert_eq!((h.old_start, h.new_start), (1, 1));
    let kinds: Vec<LineKind> = h.lines.iter().map(|l| l.kind).collect();
    assert_eq!(
        kinds,
        vec![
            LineKind::Context,
            LineKind::Del,
            LineKind::Add,
            LineKind::Context,
            LineKind::Context
        ]
    );
    // line numbers: deleted line has old number only, added has new only
    let del = &h.lines[1];
    assert_eq!((del.old_no, del.new_no), (Some(2), None));
    let add = &h.lines[2];
    assert_eq!((add.old_no, add.new_no), (None, Some(2)));
    let last = &h.lines[4];
    assert_eq!((last.old_no, last.new_no), (Some(4), Some(4)));
}

#[test]
fn parse_patch_handles_added_deleted_and_renamed_files() {
    let patch = "\
diff --git a/Old.java b/Old.java
deleted file mode 100644
index 1111111..0000000
--- a/Old.java
+++ /dev/null
@@ -1,1 +0,0 @@
-class Old {}
diff --git a/Fresh.java b/Fresh.java
new file mode 100644
index 0000000..2222222
--- /dev/null
+++ b/Fresh.java
@@ -0,0 +1,1 @@
+class Fresh {}
diff --git a/A.java b/B.java
similarity index 100%
rename from A.java
rename to B.java
";
    let files = parse_patch(patch);
    assert_eq!(files.len(), 3);
    assert_eq!(files[0].status, FileStatus::Deleted);
    assert_eq!(files[0].path, "Old.java");
    assert_eq!(files[1].status, FileStatus::Added);
    assert_eq!(files[1].path, "Fresh.java");
    assert_eq!(files[2].status, FileStatus::Renamed);
    assert_eq!(files[2].path, "B.java");
    assert_eq!(files[2].old_path.as_deref(), Some("A.java"));
    assert!(files[2].hunks.is_empty());
}

#[test]
fn parse_patch_flags_binary_files() {
    let patch = "\
diff --git a/img.png b/img.png
index 1111111..2222222 100644
Binary files a/img.png and b/img.png differ
";
    let files = parse_patch(patch);
    assert_eq!(files.len(), 1);
    assert!(files[0].is_binary);
    assert!(files[0].hunks.is_empty());
}

#[test]
fn paired_del_add_lines_get_word_level_spans() {
    let patch = "\
diff --git a/Main.java b/Main.java
index 1111111..2222222 100644
--- a/Main.java
+++ b/Main.java
@@ -1,4 +1,4 @@
 class Main {
-    void a() {}
+    void a() { run(); }
     void b() {}
 }
";
    let files = parse_patch(patch);
    let h = &files[0].hunks[0];
    let del = &h.lines[1];
    let add = &h.lines[2];
    // both sides of the pair carry spans; context lines carry none
    let del_spans = del.spans.as_ref().expect("del spans");
    let add_spans = add.spans.as_ref().expect("add spans");
    assert!(h.lines[0].spans.is_none());
    // reassembling spans reproduces the line
    let joined: String = add_spans.iter().map(|s| s.text.as_str()).collect();
    assert_eq!(joined, add.content);
    let joined_del: String = del_spans.iter().map(|s| s.text.as_str()).collect();
    assert_eq!(joined_del, del.content);
    // the unchanged prefix is marked unchanged, and something is marked changed
    assert!(add_spans.iter().any(|s| s.changed));
    assert!(add_spans.first().map(|s| !s.changed).unwrap_or(false));
}

#[test]
fn synthetic_added_numbers_every_line_from_one() {
    let f = synthetic_added("New.java", "class New {\n}\n");
    assert_eq!(f.path, "New.java");
    assert_eq!(f.status, FileStatus::Added);
    assert!(f.old_path.is_none());
    assert_eq!(f.hunks.len(), 1);
    let h = &f.hunks[0];
    assert_eq!((h.old_start, h.old_lines, h.new_start, h.new_lines), (0, 0, 1, 2));
    let added: Vec<&str> = h.lines.iter().map(|l| l.content.as_str()).collect();
    assert_eq!(added, vec!["class New {", "}"]);
    assert_eq!(h.lines[1].new_no, Some(2));
    assert!(h.lines.iter().all(|l| l.kind == LineKind::Add && l.old_no.is_none()));
}

#[test]
fn synthetic_added_of_empty_content_has_no_hunk() {
    let f = synthetic_added("Empty.txt", "");
    assert!(f.hunks.is_empty());
    assert_eq!(f.status, FileStatus::Added);
}

#[test]
fn joined_patches_parse_as_joined_files() {
    let first = "\
diff --git a/A.java b/A.java
index 1111111..2222222 100644
--- a/A.java
+++ b/A.java
@@ -3,2 +3,2 @@ class A {
-    int x = 1;
+    int x = 2;
 }
";
    let second = "\
diff --git a/B.java b/B.java
new file mode 100644
--- /dev/null
+++ b/B.java
@@ -0,0 +1,1 @@
+class B {}
";
    let joined = parse_patch(&format!("{}{}", first, second));
    let a = parse_patch(first);
    let b = parse_patch(second);
    assert_eq!((a.len(), b.len(), joined.len()), (1, 1, 2));
    for (x, y) in joined.iter().zip(a.iter().chain(b.iter())) {
        assert_eq!(format!("{:?}", x), format!("{:?}", y));
    }
    assert_eq!(joined[1].status, FileStatus::Added);
    assert_eq!(joined[0].hunks[0].lines[0].old_no, Some(3));
}

fn line(kind: LineKind, content: &str) -> Line {
    Line { kind, content: content.to_string(), old_no: None, new_no: None, spans: None }
}

#[test]
fn annotation_pairs_deleted_and_added_runs_in_order() {
    let mut h = Hunk {
        old_start: 1,
        old_lines: 4,
        new_start: 1,
        new_lines: 3,
        header: String::new(),
        lines: vec![
            line(LineKind::Del, "let a = 1"),
            line(LineKind::Del, "cd"),
            line(LineKind::Add, "let a = 2"),
            line(LineKind::Context, "same"),
            line(LineKind::Add, "lone"),
            line(LineKind::Del, "q"),
        ],
    };
    annotate_intraline(&mut h);
    let spans = |i: usize| -> Option<Vec<(String, bool)>> {
        h.lines[i].spans.as_ref().map(|v| v.iter().map(|s| (s.text.clone(), s.changed)).collect())
    };
    assert_eq!(spans(0), Some(vec![("let a = ".to_string(), false), ("1".to_string(), true)]));
    assert_eq!(spans(2), Some(vec![("let a = ".to_string(), false), ("2".to_string(), true)]));
    assert_eq!(spans(1), None);
    assert_eq!(spans(3), None);
    assert_eq!(spans(4), None);
    assert_eq!(spans(5), None);
}

#[test]
fn hunk_headers_give_ranges_and_trailing_text() {
    let chars = |s: &str| -> Vec<char> { s.chars().collect() };
    let h = parse_hunk_header_chars(&chars("-3,4 +5,6 @@  class A {")).unwrap();
    assert_eq!((h.old_start, h.old_lines, h.new_start, h.new_lines), (3, 4, 5, 6));
    assert_eq!(h.header, "class A {");
    assert!(h.lines.is_empty());
    let h = parse_hunk_header_chars(&chars("-7 +9 @@")).unwrap();
    assert_eq!((h.old_start, h.old_lines, h.new_start, h.new_lines), (7, 1, 9, 1));
    assert_eq!(h.header, "");
    assert!(parse_hunk_header_chars(&chars("-1,2 +1,2")).is_none());
    assert!(parse_hunk_header_chars(&chars("+1,2 -1,2 @@")).is_none());
    assert!(parse_hunk_header_chars(&chars("-x,2 +1,2 @@")).is_none());
}

#[test]
fn unmarked_headerless_file_is_modified_text_without_hunks() {
    let patch = "\
diff --git a/run.sh b/run.sh
old mode 100644
new mode 100755
";
    let files = parse_patch(patch);
    assert_eq!(files.len(), 1);
    assert_eq!(files[0].path, "run.sh");
    assert_eq!(files[0].status, FileStatus::Modified);
    assert!(!files[0].is_binary);
    assert!(files[0].hunks.is_empty());
}

#[test]
fn section_lines_shape_its_file() {
    let patch = "\
diff --git a/Old.java b/New.java
similarity index 90%
rename from Old.java
rename to New.java
--- a/Old.java
+++ b/New.java
@@ -1,3 +1,3 @@ class A
 keep
-gone
+come
\\ No newline at end of file
@@ not a header
 tail
@@ -10 +10 @@
+added
";
    let files = parse_patch(patch);
    assert_eq!(files.len(), 1);
    let f = &files[0];
    assert_eq!(f.status, FileStatus::Renamed);
    assert_eq!(f.path, "New.java");
    assert_eq!(f.old_path.as_deref(), Some("Old.java"));
    assert!(!f.is_binary);
    assert_eq!(f.hunks.len(), 2);
    let body = |i: usize| -> Vec<(LineKind, String)> {
        f.hunks[i].lines.iter().map(|l| (l.kind, l.content.clone())).collect()
    };
    assert_eq!(
        body(0),
        vec![
            (LineKind::Context, "keep".to_string()),
            (LineKind::Del, "gone".to_string()),
            (LineKind::Add, "come".to_string()),
            (LineKind::Context, "tail".to_string()),
        ]
    );
    assert_eq!(body(1), vec![(LineKind::Add, "added".to_string())]);
    let h = &f.hunks[1];
    assert_eq!((h.old_start, h.old_lines, h.new_start, h.new_lines), (10, 1, 10, 1));
    assert_eq!(f.hunks[0].header, "class A");
}

#[test]
fn lines_before_the_first_file_are_ignored() {
    let body = "diff --git a/a.txt b/a.txt\n@@ -1 +1 @@\n-x\n+y\n";
    let with_preamble = format!("commit abc\n+not a line\n@@ -1 +1 @@\n{}", body);
    let a = parse_patch(body);
    let b = parse_patch(&with_preamble);
    assert_eq!(format!("{:?}", a), format!("{:?}", b));
}
