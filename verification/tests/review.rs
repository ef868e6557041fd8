use skimdiff::diff::{decimal_string, hunk_patch, parse_patch, synthetic_added, FileDiff};
use skimdiff::server::{
    find_file, hunk_plan, hunk_request, is_untracked, ApiError, HunkPlan,
};
use skimdiff::state::{state_file, FileReview, ReviewState};

const PATCH: &str = "\
diff --git a/Main.java b/Main.java
index 1111111..2222222 100644
--- a/Main.java
+++ b/Main.java
@@ -1,4 +1,4 @@ class Main {
 class Main {
-    void a() {}
+    void a() { run(); }
     void b() {}
 }
@@ -10,2 +10,3 @@
 x
+y
 z
diff --git a/Old.java b/Renamed.java
similarity index 90%
rename from Old.java
rename to Renamed.java
index 3333333..4444444 100644
--- a/Old.java
+++ b/Renamed.java
@@ -1 +1 @@
-old
+new
";

fn files() -> Vec<FileDiff> {
    parse_patch(PATCH)
}

#[test]
fn review_state_update_sets_given_fields_only() {
    let mut rs = ReviewState::new();
    assert!(rs.file("Main.java").is_none());
    rs.update("Main.java", Some(true), None);
    let f = rs.file("Main.java").unwrap();
    assert!(f.viewed);
    assert_eq!(f.note, "");
    rs.update("Main.java", None, Some("check nulls".to_string()));
    let f = rs.file("Main.java").unwrap();
    assert!(f.viewed);
    assert_eq!(f.note, "check nulls");
    rs.update("Main.java", Some(false), None);
    let f = rs.file("Main.java").unwrap();
    assert!(!f.viewed);
    assert_eq!(f.note, "check nulls");
    rs.update("Other.java", None, None);
    let o = rs.file("Other.java").unwrap();
    assert!(!o.viewed);
    assert_eq!(o.note, "");
    assert_eq!(rs.file("Main.java").unwrap().note, "check nulls");
}

#[test]
fn review_state_entries_list_each_path_once() {
    let mut rs = ReviewState::new();
    rs.update("a", Some(true), None);
    rs.update("b", None, Some("n".to_string()));
    rs.update("a", None, Some("m".to_string()));
    let mut e: Vec<(String, bool, String)> =
        rs.entries().into_iter().map(|(p, r)| (p, r.viewed, r.note)).collect();
    e.sort();
    assert_eq!(
        e,
        vec![
            ("a".to_string(), true, "m".to_string()),
            ("b".to_string(), false, "n".to_string())
        ]
    );
    let fresh = FileReview::new();
    assert!(!fresh.viewed && fresh.note.is_empty());
}

#[test]
fn hunk_patch_rebuilds_a_single_hunk() {
    let fs = files();
    let p = hunk_patch(&fs[0], 0).unwrap();
    assert_eq!(
        p,
        "diff --git a/Main.java b/Main.java\n--- a/Main.java\n+++ b/Main.java\n\
         @@ -1,4 +1,4 @@ class Main {\n class Main {\n-    void a() {}\n+    void a() { run(); }\n     void b() {}\n }\n"
    );
    let p2 = hunk_patch(&fs[0], 1).unwrap();
    assert_eq!(
        p2,
        "diff --git a/Main.java b/Main.java\n--- a/Main.java\n+++ b/Main.java\n@@ -10,2 +10,3 @@\n x\n+y\n z\n"
    );
    assert!(hunk_patch(&fs[0], 2).is_none());
    let p3 = hunk_patch(&fs[1], 0).unwrap();
    assert!(p3.starts_with("diff --git a/Old.java b/Renamed.java\n--- a/Old.java\n+++ b/Renamed.java\n"));
}

#[test]
fn hunk_patch_parses_back_to_the_same_hunk() {
    let fs = files();
    let p = hunk_patch(&fs[0], 1).unwrap();
    let back = parse_patch(&p);
    assert_eq!(back.len(), 1);
    assert_eq!(back[0].hunks.len(), 1);
    let (a, b) = (&fs[0].hunks[1], &back[0].hunks[0]);
    assert_eq!(
        (a.old_start, a.old_lines, a.new_start, a.new_lines),
        (b.old_start, b.old_lines, b.new_start, b.new_lines)
    );
    let la: Vec<(&str, Option<u32>, Option<u32>)> =
        a.lines.iter().map(|l| (l.content.as_str(), l.old_no, l.new_no)).collect();
    let lb: Vec<(&str, Option<u32>, Option<u32>)> =
        b.lines.iter().map(|l| (l.content.as_str(), l.old_no, l.new_no)).collect();
    assert_eq!(la, lb);
}

#[test]
fn hunk_request_checks_mode_and_action() {
    assert!(matches!(hunk_request(true, "stage"), Ok(true)));
    assert!(matches!(hunk_request(true, "discard"), Ok(false)));
    match hunk_request(false, "stage") {
        Err(ApiError::BadRequest(m)) => assert_eq!(m, "hunk actions only apply in live mode"),
        other => panic!("unexpected {other:?}"),
    }
    match hunk_request(true, "push") {
        Err(ApiError::BadRequest(m)) => assert_eq!(m, "unknown action push"),
        other => panic!("unexpected {other:?}"),
    }
}

#[test]
fn find_file_picks_the_path_or_reports_it_missing() {
    let fs = files();
    assert!(matches!(find_file(&fs, "Renamed.java"), Ok(1)));
    assert!(matches!(find_file(&fs, "Main.java"), Ok(0)));
    match find_file(&fs, "Nope.java") {
        Err(ApiError::NotFound(m)) => assert_eq!(m, "no diff for Nope.java"),
        other => panic!("unexpected {other:?}"),
    }
}

#[test]
fn stage_and_discard_plans() {
    let fs = files();
    match hunk_plan(&fs[0], true, 0, false) {
        Ok(HunkPlan::ApplyPatch { patch, cached, reverse }) => {
            assert_eq!(Some(patch), hunk_patch(&fs[0], 0));
            assert!(cached && !reverse);
        }
        other => panic!("unexpected {other:?}"),
    }
    match hunk_plan(&fs[0], false, 1, false) {
        Ok(HunkPlan::ApplyPatch { cached, reverse, .. }) => assert!(!cached && reverse),
        other => panic!("unexpected {other:?}"),
    }
    match hunk_plan(&fs[0], true, 7, false) {
        Err(ApiError::NotFound(m)) => assert_eq!(m, "no hunk 7 in Main.java"),
        other => panic!("unexpected {other:?}"),
    }
}

#[test]
fn stage_untracked_file_adds_it_and_discard_refuses() {
    let new = synthetic_added("New.java", "class New {}\n");
    match hunk_plan(&new, true, 0, true) {
        Ok(HunkPlan::AddFile(p)) => assert_eq!(p, "New.java"),
        other => panic!("unexpected {other:?}"),
    }
    match hunk_plan(&new, false, 0, true) {
        Err(ApiError::BadRequest(m)) => {
            assert_eq!(m, "refusing to discard an untracked file (it would be deleted)")
        }
        other => panic!("unexpected {other:?}"),
    }
}

#[test]
fn decimal_strings() {
    assert_eq!(decimal_string(0), "0");
    assert_eq!(decimal_string(7), "7");
    assert_eq!(decimal_string(10), "10");
    assert_eq!(decimal_string(4400), "4400");
    assert_eq!(decimal_string(u64::MAX), "18446744073709551615");
}

#[test]
fn untracked_means_added_and_unknown_to_git() {
    let new = synthetic_added("New.java", "class New {}\n");
    assert!(is_untracked(&new, false));
    assert!(!is_untracked(&new, true));
    let fs = files();
    assert!(!is_untracked(&fs[0], false));
}

#[test]
fn state_file_lies_under_the_git_dir() {
    assert_eq!(state_file("/repo/.git"), "/repo/.git/skimdiff/state.json");
    assert_eq!(state_file("/repo/.git/"), "/repo/.git/skimdiff/state.json");
    assert_eq!(state_file(""), "skimdiff/state.json");
}
