use skimdiff::diff::{FileStatus, LineKind};
use skimdiff::gitx::{DiscoverError, Repo, UntrackedFile};

const WORKTREE_PATCH: &str = "\
diff --git a/Gone.java b/Gone.java
deleted file mode 100644
index 3b18e51..0000000
--- a/Gone.java
+++ /dev/null
@@ -1 +0,0 @@
-class Gone {}
diff --git a/Main.java b/Main.java
index 1111111..2222222 100644
--- a/Main.java
+++ b/Main.java
@@ -1,4 +1,4 @@
 class Main {
-    void a() {}
+    void a() { run(); }
     void b() {}
 }
";

fn repo() -> Repo {
    Repo { root: "/work/repo".to_string() }
}

#[test]
fn worktree_diff_includes_modified_deleted_and_untracked() {
    let untracked = vec![UntrackedFile {
        path: "New.java".to_string(),
        content: Some(b"class New {\n}\n".to_vec()),
    }];
    let mut files = repo().worktree_diff(WORKTREE_PATCH, untracked);
    files.sort_by(|a, b| a.path.cmp(&b.path));

    let paths: Vec<&str> = files.iter().map(|f| f.path.as_str()).collect();
    assert_eq!(paths, vec!["Gone.java", "Main.java", "New.java"]);

    let gone = &files[0];
    assert_eq!(gone.status, FileStatus::Deleted);

    let main = &files[1];
    assert_eq!(main.status, FileStatus::Modified);
    assert_eq!(main.hunks.len(), 1);

    // untracked file appears as all-added with content
    let new = &files[2];
    assert_eq!(new.status, FileStatus::Added);
    assert_eq!(new.hunks.len(), 1);
    let added: Vec<&str> = new.hunks[0]
        .lines
        .iter()
        .filter(|l| l.kind == LineKind::Add)
        .map(|l| l.content.as_str())
        .collect();
    assert_eq!(added, vec!["class New {", "}"]);
}

#[test]
fn range_diff_between_commits() {
    let patch = format!(
        "{WORKTREE_PATCH}diff --git a/New.java b/New.java
new file mode 100644
index 0000000..4444444
--- /dev/null
+++ b/New.java
@@ -0,0 +1,2 @@
+class New {{
+}}
"
    );
    let files = repo().range_diff(&patch);
    let mut paths: Vec<&str> = files.iter().map(|f| f.path.as_str()).collect();
    paths.sort();
    assert_eq!(paths, vec!["Gone.java", "Main.java", "New.java"]);
}

#[test]
fn discover_fails_outside_a_repo() {
    assert!(Repo::discover("/tmp/elsewhere", false, Vec::new()).is_err());
}

#[test]
fn discover_reads_the_top_level() {
    match Repo::discover("/work/repo/src", true, b"/work/repo\n".to_vec()) {
        Ok(r) => assert_eq!(r.root, "/work/repo"),
        Err(e) => panic!("unexpected {e:?}"),
    }
    match Repo::discover("/x", false, b"/x\n".to_vec()) {
        Err(DiscoverError::NotARepository(d)) => assert_eq!(d, "/x"),
        other => panic!("unexpected {other:?}"),
    }
    assert!(matches!(
        Repo::discover("/x", true, vec![0xff, 0xfe]),
        Err(DiscoverError::InvalidUtf8)
    ));
}

#[test]
fn git_outcome_reports_the_failed_command() {
    let args = vec!["ls-files".to_string(), "--error-unmatch".to_string(), "x".to_string()];
    assert_eq!(
        Repo::git(&args, true, "x\n".to_string(), String::new()),
        Ok("x\n".to_string())
    );
    assert_eq!(
        Repo::git(&args, false, String::new(), "error: pathspec".to_string()),
        Err("git ls-files --error-unmatch x failed: error: pathspec".to_string())
    );
    assert_eq!(
        Repo::git(&vec![], false, String::new(), "e".to_string()),
        Err("git  failed: e".to_string())
    );
}

#[test]
fn untracked_binary_file_shows_as_empty_binary() {
    let untracked = vec![
        UntrackedFile { path: "logo.png".to_string(), content: Some(vec![0x89, 0x50, 0xff, 0x00]) },
        UntrackedFile { path: "vanished.txt".to_string(), content: None },
    ];
    let files = repo().worktree_diff("", untracked);
    assert_eq!(files.len(), 1);
    assert_eq!(files[0].path, "logo.png");
    assert_eq!(files[0].status, FileStatus::Added);
    assert!(files[0].is_binary);
    assert!(files[0].hunks.is_empty());
}

#[test]
fn command_arguments() {
    assert_eq!(Repo::discover_args(), vec!["rev-parse", "--show-toplevel"]);
    assert_eq!(
        Repo::worktree_diff_args(),
        vec!["diff", "HEAD", "--patch", "--no-color", "--find-renames"]
    );
    assert_eq!(
        Repo::range_diff_args("main..feat"),
        vec!["diff", "--patch", "--no-color", "--find-renames", "main..feat"]
    );
    assert_eq!(Repo::git_dir_args(), vec!["rev-parse", "--absolute-git-dir"]);
    assert_eq!(Repo::add("a b.txt"), vec!["add", "--", "a b.txt"]);
    assert_eq!(Repo::is_tracked("x"), vec!["ls-files", "--error-unmatch", "--", "x"]);
    assert_eq!(Repo::apply_patch(true, false), vec!["apply", "--cached", "-"]);
    assert_eq!(Repo::apply_patch(false, true), vec!["apply", "--reverse", "-"]);
    assert_eq!(Repo::apply_patch(false, false), vec!["apply", "-"]);
    assert_eq!(Repo::tracked_args(), vec!["ls-files"]);
    assert_eq!(Repo::untracked_args(), vec!["ls-files", "--others", "--exclude-standard"]);
}

#[test]
fn listings_are_split_into_lines() {
    let r = repo();
    assert_eq!(r.git_dir("  /work/repo/.git\n"), "/work/repo/.git");
    assert_eq!(r.untracked("a.txt\nsub/b.txt\n"), vec!["a.txt", "sub/b.txt"]);
    assert_eq!(r.untracked(""), Vec::<String>::new());
    assert_eq!(
        r.all_files("Main.java\r\nlib/A.java\n", "New.java"),
        vec!["Main.java", "lib/A.java", "New.java"]
    );
}
