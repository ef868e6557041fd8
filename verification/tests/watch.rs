use ignore::gitignore::{Gitignore, GitignoreBuilder};

use skimdiff::paths::is_repo_relative;
use skimdiff::server::{asset_path, asset_reply, AssetReply};
use skimdiff::watch::{
    change_relevant, debounce_step, event_relevant, relevant_with, path_components, path_place, Debounce,
    DebounceAction, DebounceEvent, PathComponent, PathPlace,
};

fn matcher(root: &str, lines: &[&str]) -> Gitignore {
    let mut b = GitignoreBuilder::new(root);
    for l in lines {
        b.add_line(None, l).unwrap();
    }
    b.build().unwrap()
}

fn event(paths: &[(&str, bool)]) -> Vec<(String, bool)> {
    paths.iter().map(|(p, d)| (p.to_string(), *d)).collect()
}

const ROOT: &str = "/work/repo";
const GIT_DIR: &str = "/work/repo/.git";

#[test]
fn git_internal_and_ignored_paths_do_not_emit() {
    let m = matcher(ROOT, &["target/"]);
    assert!(!event_relevant(&event(&[("/work/repo/.git/somefile", false)]), GIT_DIR, ROOT, &m));
    assert!(!event_relevant(&event(&[("/work/repo/.git", true)]), GIT_DIR, ROOT, &m));
    assert!(!event_relevant(&event(&[("/work/repo/target/out.bin", false)]), GIT_DIR, ROOT, &m));
    assert!(!event_relevant(
        &event(&[("/work/repo/.git/index", false), ("/work/repo/target", true)]),
        GIT_DIR,
        ROOT,
        &m
    ));
}

#[test]
fn file_change_in_the_tree_is_relevant() {
    let m = matcher(ROOT, &["target/", "*.log"]);
    assert!(event_relevant(&event(&[("/work/repo/Main.java", false)]), GIT_DIR, ROOT, &m));
    assert!(event_relevant(
        &event(&[("/work/repo/.git/index", false), ("/work/repo/src/A.java", false)]),
        GIT_DIR,
        ROOT,
        &m
    ));
    assert!(!event_relevant(&event(&[("/work/repo/run.log", false)]), GIT_DIR, ROOT, &m));
    // outside the tree it cannot be classified: refresh
    assert!(event_relevant(&event(&[("/elsewhere/x", false)]), GIT_DIR, ROOT, &m));
    assert!(!event_relevant(&event(&[]), GIT_DIR, ROOT, &m));
    assert!(event_relevant(&event(&[("/work/repo/.gitignore", false)]), GIT_DIR, ROOT, &m));
}

#[test]
fn places_of_changed_paths() {
    assert!(matches!(path_place("/work/repo/.git/HEAD", GIT_DIR, ROOT), PathPlace::InGitDir));
    match path_place("/work/repo//src/./A.java", GIT_DIR, ROOT) {
        PathPlace::InTree(rel) => assert_eq!(rel, "src/A.java"),
        other => panic!("unexpected {other:?}"),
    }
    match path_place("/work/repo/.gitignore", GIT_DIR, ROOT) {
        PathPlace::InTree(rel) => assert_eq!(rel, ".gitignore"),
        other => panic!("unexpected {other:?}"),
    }
    assert!(matches!(path_place("/work/repository/x", GIT_DIR, ROOT), PathPlace::Outside));
    assert!(matches!(path_place("/work/repo/", GIT_DIR, ROOT), PathPlace::InTree(ref r) if r.is_empty()));
    assert!(change_relevant(&PathPlace::Outside, true));
    assert!(!change_relevant(&PathPlace::InGitDir, false));
    assert!(change_relevant(&PathPlace::InTree("a".to_string()), false));
    assert!(!change_relevant(&PathPlace::InTree("a".to_string()), true));
}

#[test]
fn components_of_paths() {
    let names = |p: &str| -> Vec<String> {
        path_components(p)
            .into_iter()
            .map(|c| match c {
                PathComponent::Root => "/".to_string(),
                PathComponent::Cur => ".".to_string(),
                PathComponent::Parent => "..".to_string(),
                PathComponent::Normal(s) => s,
            })
            .collect()
    };
    assert_eq!(names("/a//b/./c/"), vec!["/", "a", "b", "c"]);
    assert_eq!(names("./a/../b"), vec![".", "a", "..", "b"]);
    assert_eq!(names("a/."), vec!["a"]);
    assert_eq!(names(""), Vec::<String>::new());
    assert_eq!(names("."), vec!["."]);
}

#[test]
fn debounce_collapses_a_burst_into_one_refresh() {
    let mut state = Debounce::Idle;
    let mut actions = Vec::new();
    let events = [
        DebounceEvent::Change,
        DebounceEvent::Change,
        DebounceEvent::Change,
        DebounceEvent::Settled,
        DebounceEvent::Settled,
        DebounceEvent::Change,
        DebounceEvent::Settled,
    ];
    for e in events {
        let (next, action) = debounce_step(state, e);
        state = next;
        actions.push(action);
    }
    assert_eq!(
        actions,
        vec![
            DebounceAction::StartWait,
            DebounceAction::Nothing,
            DebounceAction::Nothing,
            DebounceAction::Refresh,
            DebounceAction::Nothing,
            DebounceAction::StartWait,
            DebounceAction::Refresh,
        ]
    );
    assert_eq!(state, Debounce::Idle);
}

#[test]
fn file_endpoint_rejects_escapes() {
    assert!(is_repo_relative("Main.java"));
    assert!(is_repo_relative("src/a/../b.java") == false);
    assert!(!is_repo_relative("../outside.txt"));
    assert!(!is_repo_relative("/etc/passwd"));
    assert!(is_repo_relative("./a/b"));
    assert!(is_repo_relative("a/..b/c"));
    assert!(is_repo_relative(""));
}

#[test]
fn asset_paths_and_replies() {
    assert_eq!(asset_path("/"), "index.html");
    assert_eq!(asset_path(""), "index.html");
    assert_eq!(asset_path("//assets/app.js"), "assets/app.js");
    assert_eq!(asset_path("/review/Main.java"), "review/Main.java");
    match asset_reply("assets/app.js", true, true) {
        AssetReply::Serve { path, content_type } => {
            assert_eq!(path, "assets/app.js");
            assert_eq!(content_type, "text/javascript");
        }
        other => panic!("unexpected {other:?}"),
    }
    match asset_reply("index.html", true, true) {
        AssetReply::Serve { content_type, .. } => assert_eq!(content_type, "text/html"),
        other => panic!("unexpected {other:?}"),
    }
    match asset_reply("LICENSE", true, true) {
        AssetReply::Serve { content_type, .. } => {
            assert_eq!(content_type, "application/octet-stream")
        }
        other => panic!("unexpected {other:?}"),
    }
    match asset_reply("review/x", false, true) {
        AssetReply::Serve { path, content_type } => {
            assert_eq!(path, "index.html");
            assert_eq!(content_type, "text/html");
        }
        other => panic!("unexpected {other:?}"),
    }
    assert!(matches!(asset_reply("x", false, false), AssetReply::Missing));
}

#[test]
fn relevance_from_given_answers() {
    let paths = event(&[("/work/repo/.git/index", false), ("/work/repo/a.txt", false)]);
    assert!(relevant_with(&paths, GIT_DIR, ROOT, &vec![false, false]));
    assert!(!relevant_with(&paths, GIT_DIR, ROOT, &vec![false, true]));
    // the git directory is never relevant, whatever the answer
    assert!(!relevant_with(&event(&[("/work/repo/.git/x", false)]), GIT_DIR, ROOT, &vec![false]));
    assert!(relevant_with(&event(&[("/tmp/x", false)]), GIT_DIR, ROOT, &vec![true]));
}
