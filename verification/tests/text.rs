use skimdiff::diff::{parse_patch, LineKind};
use skimdiff::spans::{char_spans, push_span, spans_from_changes, ChangeKind, WordChange};
use skimdiff::text::{
    chars_of, find_in, is_lit, lit_string, next_word, parse_u32_chars, same_text, split_lines,
    string_from, trim_bounds,
};
use skimdiff::diff::Span;

fn chars(s: &str) -> Vec<char> {
    s.chars().collect()
}

#[test]
fn split_lines_follows_str_lines() {
    assert_eq!(split_lines("a\nb\r\nc"), vec!["a", "b", "c"]);
    assert_eq!(split_lines("a\n"), vec!["a"]);
    assert_eq!(split_lines(""), Vec::<String>::new());
    assert_eq!(split_lines("\n\n"), vec!["", ""]);
    assert_eq!(split_lines("x\r"), vec!["x\r"]);
}

#[test]
fn trimming_and_searching() {
    let s = chars("  héllo wörld \t");
    let (a, b) = trim_bounds(&s);
    assert_eq!(string_from(&s[a..b]), "héllo wörld");
    assert_eq!(find_in(&chars("method_declaration"), "declaration"), Some(7));
    assert_eq!(find_in(&chars("decl"), "declaration"), None);
    assert!(is_lit(&chars("stage"), "stage"));
    assert!(!is_lit(&chars("stages"), "stage"));
    assert!(same_text("ä", "ä"));
    assert!(!same_text("a", "b"));
    assert_eq!(chars_of("añb"), vec!['a', 'ñ', 'b']);
    assert_eq!(lit_string("x"), "x");
}

#[test]
fn numbers_and_words() {
    assert_eq!(parse_u32_chars(&chars("42")), Some(42));
    assert_eq!(parse_u32_chars(&chars("4294967295")), Some(u32::MAX));
    assert_eq!(parse_u32_chars(&chars("4294967296")), None);
    assert_eq!(parse_u32_chars(&chars("")), None);
    assert_eq!(parse_u32_chars(&chars("-1")), None);
    assert_eq!(parse_u32_chars(&chars("+1")), Some(1));
    let s = chars("  -1,4  +2 @@");
    assert_eq!(next_word(&s, 0), Some((2, 6)));
    assert_eq!(next_word(&s, 6), Some((8, 10)));
    assert_eq!(next_word(&s, 13), None);
}

#[test]
fn push_span_joins_runs_of_one_flag() {
    let mut v: Vec<Span> = Vec::new();
    push_span(&mut v, "ab", false);
    push_span(&mut v, "c", false);
    push_span(&mut v, "d", true);
    push_span(&mut v, "", true);
    let got: Vec<(&str, bool)> = v.iter().map(|s| (s.text.as_str(), s.changed)).collect();
    assert_eq!(got, vec![("abc", false), ("d", true)]);
}

#[test]
fn spans_from_changes_splits_sides() {
    let c = |kind, t: &str| WordChange { kind, text: t.to_string() };
    let changes = vec![
        c(ChangeKind::Equal, "a"),
        c(ChangeKind::Delete, "b"),
        c(ChangeKind::Insert, "x"),
        c(ChangeKind::Insert, "y"),
        c(ChangeKind::Equal, "c"),
    ];
    let (o, n) = spans_from_changes(&changes);
    let o: Vec<(&str, bool)> = o.iter().map(|s| (s.text.as_str(), s.changed)).collect();
    let n: Vec<(&str, bool)> = n.iter().map(|s| (s.text.as_str(), s.changed)).collect();
    assert_eq!(o, vec![("a", false), ("b", true), ("c", false)]);
    assert_eq!(n, vec![("a", false), ("xy", true), ("c", false)]);
}

#[test]
fn char_spans_spell_both_lines() {
    let (o, n) = char_spans("let x = 1;", "let y = 10;");
    let ot: String = o.iter().map(|s| s.text.as_str()).collect();
    let nt: String = n.iter().map(|s| s.text.as_str()).collect();
    assert_eq!(ot, "let x = 1;");
    assert_eq!(nt, "let y = 10;");
    assert!(o.windows(2).all(|w| w[0].changed != w[1].changed));
    assert!(n.windows(2).all(|w| w[0].changed != w[1].changed));
    assert!(o.iter().any(|s| s.changed) && n.iter().any(|s| s.changed));
    assert_eq!(o[0].text, "let ");
    assert!(!o[0].changed);
    let (e1, e2) = char_spans("", "");
    assert!(e1.is_empty() && e2.is_empty());
}

#[test]
fn line_numbers_follow_the_hunk_header() {
    let patch = "\
diff --git a/a.txt b/a.txt
--- a/a.txt
+++ b/a.txt
@@ -10,3 +20,4 @@
 one
-two
+deux
+zwei
 three
\\ No newline at end of file
";
    let files = parse_patch(patch);
    let lines = &files[0].hunks[0].lines;
    let got: Vec<(LineKind, Option<u32>, Option<u32>)> =
        lines.iter().map(|l| (l.kind, l.old_no, l.new_no)).collect();
    assert_eq!(
        got,
        vec![
            (LineKind::Context, Some(10), Some(20)),
            (LineKind::Del, Some(11), None),
            (LineKind::Add, None, Some(21)),
            (LineKind::Add, None, Some(22)),
            (LineKind::Context, Some(12), Some(23)),
        ]
    );
    // only the first add of a del/add pair carries spans
    assert!(lines[1].spans.is_some() && lines[2].spans.is_some());
    assert!(lines[3].spans.is_none());
}

#[test]
fn numbering_wraps_past_the_largest_u32() {
    let patch = "\
diff --git a/a.txt b/a.txt
--- a/a.txt
+++ b/a.txt
@@ -4294967295,2 +1,2 @@
 x
 y
";
    let files = parse_patch(patch);
    let lines = &files[0].hunks[0].lines;
    assert_eq!(lines[0].old_no, Some(u32::MAX));
    assert_eq!(lines[1].old_no, Some(0));
}

#[test]
fn crlf_patch_lines_lose_the_carriage_return() {
    let patch = "diff --git a/w.txt b/w.txt\r\n--- a/w.txt\r\n+++ b/w.txt\r\n@@ -1 +1 @@\r\n-a\r\n+b\r\n";
    let files = parse_patch(patch);
    assert_eq!(files[0].path, "w.txt");
    let lines = &files[0].hunks[0].lines;
    assert_eq!(lines[0].content, "a");
    assert_eq!(lines[1].content, "b");
}

#[test]
fn char_spans_of_equal_texts_mark_nothing() {
    let (o, n) = char_spans("same text", "same text");
    assert!(o.iter().all(|s| !s.changed && !s.text.is_empty()));
    assert!(n.iter().all(|s| !s.changed && !s.text.is_empty()));
    let (o, n) = char_spans("a b c", "a x c");
    let keep = |v: &Vec<skimdiff::diff::Span>| -> String {
        v.iter().filter(|s| !s.changed).map(|s| s.text.as_str()).collect()
    };
    assert_eq!(keep(&o), keep(&n));
    assert_eq!(keep(&o), "a  c");
}
