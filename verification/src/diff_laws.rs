//! Properties of every parsed patch: how the lines of a hunk are numbered,
//! which lines open a file or a hunk or set a file's status, and how
//! patches put one after another parse.

use vstd::prelude::*;

use crate::diff::{
    FileDiffView, FileStatus, HunkView, LineKind, LineView, PatchState, annotate_file, annotate_from,
    annotate_hunk, initial_state, line_kind_of, lemma_run_end, next_no, opened_file, paired,
    parse_hunk_header, parse_patch_spec, run_end, run_lines, step, with_spans,
};
use crate::spans::{new_spans, old_spans, word_diff};
use crate::hunk_laws::lemma_run_lines_add;
use crate::text::{line_at, lines, lines_from, newline_from, starts_with};

verus! {

/// `start` advanced by `n`, counting modulo 2^32 as the parser does.
pub open spec fn advance(start: u32, n: int) -> u32 {
    ((start as int + n) % 0x1_0000_0000) as u32
}

/// Number of lines that belong to the old file (context and deleted lines).
pub open spec fn old_count(lines: Seq<LineView>) -> int
    decreases lines.len(),
{
    if lines.len() == 0 {
        0
    } else {
        old_count(lines.drop_last()) + if lines.last().kind != LineKind::Add {
            1int
        } else {
            0
        }
    }
}

/// Number of lines that belong to the new file (context and added lines).
pub open spec fn new_count(lines: Seq<LineView>) -> int
    decreases lines.len(),
{
    if lines.len() == 0 {
        0
    } else {
        new_count(lines.drop_last()) + if lines.last().kind != LineKind::Del {
            1int
        } else {
            0
        }
    }
}

/// Line `k` of `h` has an old number exactly when it is not an added line,
/// a new number exactly when it is not a deleted line, and each number counts
/// on from the hunk's start over the lines before it on that side.
pub open spec fn line_numbered(h: HunkView, k: int) -> bool {
    let l = h.lines[k];
    &&& l.old_no == if l.kind != LineKind::Add {
        Some(advance(h.old_start, old_count(h.lines.take(k))))
    } else {
        None
    }
    &&& l.new_no == if l.kind != LineKind::Del {
        Some(advance(h.new_start, new_count(h.lines.take(k))))
    } else {
        None
    }
}

pub open spec fn hunk_numbered(h: HunkView) -> bool {
    forall|k: int| 0 <= k < h.lines.len() ==> #[trigger] line_numbered(h, k)
}

pub open spec fn files_numbered(files: Seq<FileDiffView>) -> bool {
    forall|i: int, j: int|
        0 <= i < files.len() && 0 <= j < files[i].hunks.len() ==> hunk_numbered(
            #[trigger] files[i].hunks[j],
        )
}

/// The parser's state is numbered: every hunk so far is, and the next
/// numbers continue the last hunk of the last file.
pub open spec fn state_numbered(st: PatchState) -> bool {
    &&& files_numbered(st.files)
    &&& st.files.len() > 0 && st.files.last().hunks.len() > 0 ==> {
        let h = st.files.last().hunks.last();
        &&& st.old_no == advance(h.old_start, old_count(h.lines))
        &&& st.new_no == advance(h.new_start, new_count(h.lines))
    }
}

pub proof fn lemma_advance_next(s: u32, n: int)
    requires
        n >= 0,
    ensures
        next_no(advance(s, n)) == advance(s, n + 1),
        advance(s, 0) == s,
{
    let m: int = 0x1_0000_0000;
    let a = s as int + n;
    let q = a / m;
    let r = a % m;
    vstd::arithmetic::div_mod::lemma_fundamental_div_mod(a, m);
    assert(0 <= r < m) by {
        vstd::arithmetic::div_mod::lemma_mod_pos_bound(a, m);
    }
    if r + 1 < m {
        vstd::arithmetic::div_mod::lemma_fundamental_div_mod_converse(a + 1, m, q, r + 1);
    } else {
        vstd::arithmetic::div_mod::lemma_fundamental_div_mod_converse(a + 1, m, q + 1, 0);
    }
    vstd::arithmetic::div_mod::lemma_small_mod(s as nat, m as nat);
}

proof fn lemma_push_numbered(h: HunkView, l: LineView)
    requires
        hunk_numbered(h),
        l.old_no == if l.kind != LineKind::Add {
            Some(advance(h.old_start, old_count(h.lines)))
        } else {
            None
        },
        l.new_no == if l.kind != LineKind::Del {
            Some(advance(h.new_start, new_count(h.lines)))
        } else {
            None
        },
    ensures
        hunk_numbered(HunkView { lines: h.lines.push(l), ..h }),
{
    let g = HunkView { lines: h.lines.push(l), ..h };
    assert forall|k: int| 0 <= k < g.lines.len() implies #[trigger] line_numbered(g, k) by {
        if k < h.lines.len() {
            assert(g.lines.take(k) =~= h.lines.take(k));
            assert(line_numbered(h, k));
        } else {
            assert(g.lines.take(k) =~= h.lines);
        }
    }
}

proof fn lemma_set_last_numbered(files: Seq<FileDiffView>, g: FileDiffView)
    requires
        files_numbered(files),
        files.len() > 0,
        forall|j: int| 0 <= j < g.hunks.len() ==> hunk_numbered(#[trigger] g.hunks[j]),
    ensures
        files_numbered(files.update(files.len() - 1, g)),
{
    let r = files.update(files.len() - 1, g);
    assert forall|i: int, j: int|
        0 <= i < r.len() && 0 <= j < r[i].hunks.len() implies hunk_numbered(
        #[trigger] r[i].hunks[j],
    ) by {
        if i < files.len() - 1 {
            assert(hunk_numbered(files[i].hunks[j]));
        }
    }
}

#[verifier::spinoff_prover]
proof fn lemma_step_numbered(st: PatchState, raw: Seq<char>)
    requires
        state_numbered(st),
    ensures
        state_numbered(step(st, raw)),
{
    reveal(step);
    let r = step(st, raw);
    if starts_with(raw, "diff --git "@) {
        let nf = opened_file(raw.skip("diff --git "@.len() as int));
        assert(r.files == st.files.push(nf));
        assert forall|i: int, j: int|
            0 <= i < r.files.len() && 0 <= j < r.files[i].hunks.len() implies hunk_numbered(
            #[trigger] r.files[i].hunks[j],
        ) by {
            assert(i < st.files.len());
            assert(hunk_numbered(st.files[i].hunks[j]));
        }
    } else if st.files.len() > 0 {
        let f = st.files.last();
        assert forall|j: int| 0 <= j < f.hunks.len() implies hunk_numbered(#[trigger] f.hunks[j]) by {
            assert(hunk_numbered(st.files[st.files.len() - 1].hunks[j]));
        }
        if starts_with(raw, "new file mode"@) || starts_with(raw, "deleted file mode"@)
            || starts_with(raw, "rename from "@) || starts_with(raw, "rename to "@)
            || starts_with(raw, "Binary files "@) {
            assert(r.files == st.files.update(st.files.len() - 1, r.files.last()));
            assert(r.files.last().hunks == f.hunks);
            lemma_set_last_numbered(st.files, r.files.last());
        } else if starts_with(raw, "@@ "@) {
            if let Some(h) = parse_hunk_header(raw.skip("@@ "@.len() as int)) {
                let g = FileDiffView { hunks: f.hunks.push(h), ..f };
                assert(r.files == st.files.update(st.files.len() - 1, g));
                assert(hunk_numbered(h));
                lemma_set_last_numbered(st.files, g);
                lemma_advance_next(h.old_start, 0);
                lemma_advance_next(h.new_start, 0);
                assert(old_count(h.lines) == 0);
                assert(new_count(h.lines) == 0);
            }
        } else if f.hunks.len() > 0 && raw.len() > 0 && line_kind_of(raw[0]) is Some {
            let g = r.files.last();
            let h = f.hunks.last();
            let kind = line_kind_of(raw[0]).unwrap();
            let l = g.hunks.last().lines.last();
            assert(g.hunks.last() == (HunkView { lines: h.lines.push(l), ..h }));
            assert(r.files == st.files.update(st.files.len() - 1, g));
            assert(hunk_numbered(h));
            lemma_push_numbered(h, l);
            assert forall|j: int| 0 <= j < g.hunks.len() implies hunk_numbered(#[trigger] g.hunks[j]) by {
                if j < f.hunks.len() - 1 {
                    assert(g.hunks[j] == f.hunks[j]);
                }
            }
            lemma_set_last_numbered(st.files, g);
            let nh = g.hunks.last();
            assert(nh.lines.drop_last() =~= h.lines);
            lemma_counts_nonneg(h.lines);
            lemma_advance_next(h.old_start, old_count(h.lines));
            lemma_advance_next(h.new_start, new_count(h.lines));
        }
    }
}

pub proof fn lemma_counts_nonneg(lines: Seq<LineView>)
    ensures
        old_count(lines) >= 0,
        new_count(lines) >= 0,
    decreases lines.len(),
{
    if lines.len() > 0 {
        lemma_counts_nonneg(lines.drop_last());
    }
}

pub proof fn lemma_run_lines_numbered(st: PatchState, ls: Seq<Seq<char>>)
    requires
        state_numbered(st),
    ensures
        files_numbered(run_lines(st, ls).files),
    decreases ls.len(),
{
    if ls.len() > 0 {
        lemma_step_numbered(st, ls[0]);
        lemma_run_lines_numbered(step(st, ls[0]), ls.drop_first());
    }
}

/// `a` and `b` hold the same lines but for their spans.
pub open spec fn same_but_spans(a: Seq<LineView>, b: Seq<LineView>) -> bool {
    &&& a.len() == b.len()
    &&& forall|k: int|
        0 <= k < a.len() ==> (#[trigger] a[k]).kind == b[k].kind && a[k].content == b[k].content
            && a[k].old_no == b[k].old_no && a[k].new_no == b[k].new_no
}

/// Annotating the lines of a hunk changes nothing but their spans.
pub proof fn lemma_annotate_keeps_lines(lines: Seq<LineView>, i: int)
    ensures
        same_but_spans(annotate_from(lines, i), lines),
    decreases lines.len() - i,
{
    if 0 <= i < lines.len() {
        if lines[i].kind != LineKind::Del {
            lemma_annotate_keeps_lines(lines, i + 1);
        } else {
            let de = run_end(lines, i, LineKind::Del);
            lemma_run_end(lines, i, LineKind::Del);
            let ae = run_end(lines, de, LineKind::Add);
            lemma_run_end(lines, de, LineKind::Add);
            let n = if de - i < ae - de {
                de - i
            } else {
                ae - de
            };
            let p = paired(lines, i, de, n);
            lemma_annotate_keeps_lines(p, ae);
            assert(same_but_spans(p, lines));
        }
    }
}

pub proof fn lemma_counts_same(a: Seq<LineView>, b: Seq<LineView>)
    requires
        same_but_spans(a, b),
    ensures
        old_count(a) == old_count(b),
        new_count(a) == new_count(b),
    decreases a.len(),
{
    if a.len() > 0 {
        assert(a[a.len() - 1].kind == b[b.len() - 1].kind);
        lemma_counts_same(a.drop_last(), b.drop_last());
    }
}

proof fn lemma_annotate_numbered(h: HunkView)
    requires
        hunk_numbered(h),
    ensures
        hunk_numbered(annotate_hunk(h)),
{
    let g = annotate_hunk(h);
    lemma_annotate_keeps_lines(h.lines, 0);
    assert forall|k: int| 0 <= k < g.lines.len() implies #[trigger] line_numbered(g, k) by {
        assert(line_numbered(h, k));
        assert(g.lines[k].kind == h.lines[k].kind);
        lemma_counts_same(g.lines.take(k), h.lines.take(k));
    }
}

/// In every hunk of a parsed patch, a context line has both numbers, a
/// deleted line only its old number, an added line only its new number, and
/// each number counts on by one from the hunk header's start over the lines
/// of its side (modulo 2^32).
pub proof fn law_line_numbers(patch: Seq<char>)
    ensures
        files_numbered(parse_patch_spec(patch)),
{
    lemma_run_lines_numbered(initial_state(), lines(patch));
    let fs = run_lines(initial_state(), lines(patch)).files;
    let r = parse_patch_spec(patch);
    assert forall|i: int, j: int|
        0 <= i < r.len() && 0 <= j < r[i].hunks.len() implies hunk_numbered(
        #[trigger] r[i].hunks[j],
    ) by {
        assert(r[i] == annotate_file(fs[i]));
        assert(hunk_numbered(fs[i].hunks[j]));
        lemma_annotate_numbered(fs[i].hunks[j]);
    }
}

/// No line of the files carries spans yet.
pub open spec fn files_plain(files: Seq<FileDiffView>) -> bool {
    forall|i: int, j: int, k: int|
        0 <= i < files.len() && 0 <= j < files[i].hunks.len() && 0 <= k < files[i].hunks[j].lines.len()
            ==> (#[trigger] files[i].hunks[j].lines[k]).spans is None
}

proof fn lemma_step_plain_spans(st: PatchState, raw: Seq<char>)
    requires
        files_plain(st.files),
    ensures
        files_plain(step(st, raw).files),
{
    reveal(step);
    let r = step(st, raw);
    if starts_with(raw, "diff --git "@) {
        assert forall|i: int, j: int, k: int|
            0 <= i < r.files.len() && 0 <= j < r.files[i].hunks.len() && 0 <= k
                < r.files[i].hunks[j].lines.len() implies (
        #[trigger] r.files[i].hunks[j].lines[k]).spans is None by {
            assert(i < st.files.len());
            assert(st.files[i].hunks[j].lines[k].spans is None);
        }
    } else if st.files.len() > 0 {
        let f = st.files.last();
        let last = st.files.len() - 1;
        if starts_with(raw, "new file mode"@) || starts_with(raw, "deleted file mode"@)
            || starts_with(raw, "rename from "@) || starts_with(raw, "rename to "@)
            || starts_with(raw, "Binary files "@) {
            assert(r.files.len() == st.files.len());
            assert forall|i: int, j: int, k: int|
                0 <= i < r.files.len() && 0 <= j < r.files[i].hunks.len() && 0 <= k
                    < r.files[i].hunks[j].lines.len() implies (
            #[trigger] r.files[i].hunks[j].lines[k]).spans is None by {
                assert(r.files[i].hunks == st.files[i].hunks);
                assert(st.files[i].hunks[j].lines[k].spans is None);
            }
        } else if starts_with(raw, "@@ "@) {
            if let Some(h) = parse_hunk_header(raw.skip("@@ "@.len() as int)) {
                assert forall|i: int, j: int, k: int|
                    0 <= i < r.files.len() && 0 <= j < r.files[i].hunks.len() && 0 <= k
                        < r.files[i].hunks[j].lines.len() implies (
                #[trigger] r.files[i].hunks[j].lines[k]).spans is None by {
                    if i < last || j < f.hunks.len() {
                        assert(r.files[i].hunks[j] == st.files[i].hunks[j]);
                        assert(st.files[i].hunks[j].lines[k].spans is None);
                    }
                }
            }
        } else if f.hunks.len() > 0 && raw.len() > 0 && line_kind_of(raw[0]) is Some {
            let hl = f.hunks.len() - 1;
            assert forall|i: int, j: int, k: int|
                0 <= i < r.files.len() && 0 <= j < r.files[i].hunks.len() && 0 <= k
                    < r.files[i].hunks[j].lines.len() implies (
            #[trigger] r.files[i].hunks[j].lines[k]).spans is None by {
                if i < last || j < hl {
                    assert(r.files[i].hunks[j] == st.files[i].hunks[j]);
                    assert(st.files[i].hunks[j].lines[k].spans is None);
                } else if k < f.hunks[hl].lines.len() {
                    assert(r.files[i].hunks[j].lines[k] == st.files[i].hunks[j].lines[k]);
                    assert(st.files[i].hunks[j].lines[k].spans is None);
                }
            }
        }
    }
}

/// Before annotation, no line of a parsed patch carries spans.
pub proof fn lemma_run_lines_plain(st: PatchState, ls: Seq<Seq<char>>)
    requires
        files_plain(st.files),
    ensures
        files_plain(run_lines(st, ls).files),
    decreases ls.len(),
{
    if ls.len() > 0 {
        lemma_step_plain_spans(st, ls[0]);
        lemma_run_lines_plain(step(st, ls[0]), ls.drop_first());
    }
}

/// A line that sets the status or the binary flag of the file it follows.
pub open spec fn marker_line(l: Seq<char>) -> bool {
    ||| starts_with(l, "new file mode"@)
    ||| starts_with(l, "deleted file mode"@)
    ||| starts_with(l, "rename from "@)
    ||| starts_with(l, "rename to "@)
    ||| starts_with(l, "Binary files "@)
}

/// Every file is a modified text file.
pub open spec fn files_modified(files: Seq<FileDiffView>) -> bool {
    forall|i: int|
        0 <= i < files.len() ==> (#[trigger] files[i]).status == FileStatus::Modified && !files[i].is_binary
}

proof fn lemma_step_modified(st: PatchState, raw: Seq<char>)
    requires
        files_modified(st.files),
        !marker_line(raw),
    ensures
        files_modified(step(st, raw).files),
{
    reveal(step);
    let r = step(st, raw);
    assert forall|i: int| 0 <= i < r.files.len() implies (#[trigger] r.files[i]).status
        == FileStatus::Modified && !r.files[i].is_binary by {
        if i < st.files.len() {
            assert(r.files[i].status == st.files[i].status);
            assert(r.files[i].is_binary == st.files[i].is_binary);
        }
    }
}

proof fn lemma_run_lines_modified(st: PatchState, ls: Seq<Seq<char>>)
    requires
        files_modified(st.files),
        forall|i: int| 0 <= i < ls.len() ==> !marker_line(#[trigger] ls[i]),
    ensures
        files_modified(run_lines(st, ls).files),
    decreases ls.len(),
{
    if ls.len() > 0 {
        lemma_step_modified(st, ls[0]);
        assert forall|i: int| 0 <= i < ls.drop_first().len() implies !marker_line(
            #[trigger] ls.drop_first()[i],
        ) by {
            assert(ls.drop_first()[i] == ls[i + 1]);
        }
        lemma_run_lines_modified(step(st, ls[0]), ls.drop_first());
    }
}

/// The status and the binary flag of a file come from its marker lines: a
/// patch with no `new file mode`, `deleted file mode`, `rename from`,
/// `rename to` or `Binary files` line parses into modified text files.
pub proof fn law_unmarked_files_are_modified(patch: Seq<char>)
    requires
        forall|i: int| 0 <= i < lines(patch).len() ==> !marker_line(#[trigger] lines(patch)[i]),
    ensures
        files_modified(parse_patch_spec(patch)),
{
    lemma_run_lines_modified(initial_state(), lines(patch));
    let fs = run_lines(initial_state(), lines(patch)).files;
    assert forall|i: int| 0 <= i < parse_patch_spec(patch).len() implies (
    #[trigger] parse_patch_spec(patch)[i]).status == FileStatus::Modified
        && !parse_patch_spec(patch)[i].is_binary by {
        assert(parse_patch_spec(patch)[i] == annotate_file(fs[i]));
    }
}

/// No file has a hunk.
pub open spec fn files_without_hunks(files: Seq<FileDiffView>) -> bool {
    forall|i: int| 0 <= i < files.len() ==> (#[trigger] files[i]).hunks.len() == 0
}

proof fn lemma_step_without_hunks(st: PatchState, raw: Seq<char>)
    requires
        files_without_hunks(st.files),
        !starts_with(raw, "@@ "@),
    ensures
        files_without_hunks(step(st, raw).files),
{
    reveal(step);
    let r = step(st, raw);
    assert forall|i: int| 0 <= i < r.files.len() implies (#[trigger] r.files[i]).hunks.len() == 0 by {
        if i < st.files.len() {
            assert(st.files[i].hunks.len() == 0);
            assert(r.files[i].hunks == st.files[i].hunks);
        }
    }
}

proof fn lemma_run_lines_without_hunks(st: PatchState, ls: Seq<Seq<char>>)
    requires
        files_without_hunks(st.files),
        forall|i: int| 0 <= i < ls.len() ==> !starts_with(#[trigger] ls[i], "@@ "@),
    ensures
        files_without_hunks(run_lines(st, ls).files),
    decreases ls.len(),
{
    if ls.len() > 0 {
        lemma_step_without_hunks(st, ls[0]);
        assert forall|i: int| 0 <= i < ls.drop_first().len() implies !starts_with(
            #[trigger] ls.drop_first()[i],
            "@@ "@,
        ) by {
            assert(ls.drop_first()[i] == ls[i + 1]);
        }
        lemma_run_lines_without_hunks(step(st, ls[0]), ls.drop_first());
    }
}

/// Hunks open only at `"@@ "` header lines: a patch with no such line
/// parses into files without hunks.
pub proof fn law_headerless_files_have_no_hunks(patch: Seq<char>)
    requires
        forall|i: int| 0 <= i < lines(patch).len() ==> !starts_with(#[trigger] lines(patch)[i], "@@ "@),
    ensures
        files_without_hunks(parse_patch_spec(patch)),
{
    lemma_run_lines_without_hunks(initial_state(), lines(patch));
    let fs = run_lines(initial_state(), lines(patch)).files;
    assert forall|i: int| 0 <= i < parse_patch_spec(patch).len() implies (
    #[trigger] parse_patch_spec(patch)[i]).hunks.len() == 0 by {
        assert(parse_patch_spec(patch)[i] == annotate_file(fs[i]));
    }
}

/// The status of a file after one more of its lines: a marker line sets it,
/// any other line keeps it.
pub open spec fn status_after(s: FileStatus, raw: Seq<char>) -> FileStatus {
    if starts_with(raw, "new file mode"@) {
        FileStatus::Added
    } else if starts_with(raw, "deleted file mode"@) {
        FileStatus::Deleted
    } else if starts_with(raw, "rename from "@) || starts_with(raw, "rename to "@) {
        FileStatus::Renamed
    } else {
        s
    }
}

/// The status after the lines `ls`, from `s`: that of the last marker line,
/// or `s` where there is none.
pub open spec fn statuses(s: FileStatus, ls: Seq<Seq<char>>) -> FileStatus
    decreases ls.len(),
{
    if ls.len() == 0 {
        s
    } else {
        status_after(statuses(s, ls.drop_last()), ls.last())
    }
}

/// A file's path and old path after one more of its lines: a `deleted file
/// mode` line makes the old path, where there is one, the path; a `rename
/// from` line sets the old path; any other line keeps both.
pub open spec fn paths_after(p: (Seq<char>, Option<Seq<char>>), raw: Seq<char>) -> (Seq<char>, Option<Seq<char>>) {
    if starts_with(raw, "deleted file mode"@) {
        match p.1 {
            Some(o) => (o, None),
            None => (p.0, None),
        }
    } else if starts_with(raw, "rename from "@) {
        (p.0, Some(raw.skip("rename from "@.len() as int)))
    } else {
        p
    }
}

/// The path and old path after the lines `ls`, from `p`.
pub open spec fn paths_through(p: (Seq<char>, Option<Seq<char>>), ls: Seq<Seq<char>>) -> (Seq<char>, Option<Seq<char>>)
    decreases ls.len(),
{
    if ls.len() == 0 {
        p
    } else {
        paths_after(paths_through(p, ls.drop_last()), ls.last())
    }
}

/// Some line of `ls` is a `Binary files` line.
pub open spec fn any_binary(ls: Seq<Seq<char>>) -> bool {
    exists|i: int| 0 <= i < ls.len() && starts_with(#[trigger] ls[i], "Binary files "@)
}

/// The hunk `h` without its lines.
pub open spec fn header_only(h: HunkView) -> HunkView {
    HunkView { lines: seq![], ..h }
}

pub open spec fn headers_of(hs: Seq<HunkView>) -> Seq<HunkView> {
    hs.map_values(|h: HunkView| header_only(h))
}

/// The hunks opened by the `"@@ "` lines of `ls` whose header parses, in
/// order.
pub open spec fn hunk_headers(ls: Seq<Seq<char>>) -> Seq<HunkView>
    decreases ls.len(),
{
    if ls.len() == 0 {
        seq![]
    } else {
        let prev = hunk_headers(ls.drop_last());
        let l = ls.last();
        if starts_with(l, "@@ "@) && parse_hunk_header(l.skip("@@ "@.len() as int)) is Some {
            prev.push(parse_hunk_header(l.skip("@@ "@.len() as int)).unwrap())
        } else {
            prev
        }
    }
}

proof fn lemma_first_char(raw: Seq<char>, p: Seq<char>)
    requires
        starts_with(raw, p),
        p.len() > 0,
    ensures
        raw.len() > 0 && raw[0] == p[0],
{
    assert(raw.take(p.len() as int)[0] == raw[0]);
}

proof fn lemma_marker_firsts()
    ensures
        "new file mode"@.len() > 0 && "new file mode"@[0] == 'n',
        "deleted file mode"@.len() > 0 && "deleted file mode"@[0] == 'd',
        "rename from "@.len() > 0 && "rename from "@[0] == 'r',
        "rename to "@.len() > 0 && "rename to "@[0] == 'r',
        "Binary files "@.len() > 0 && "Binary files "@[0] == 'B',
        "@@ "@.len() > 0 && "@@ "@[0] == '@',
{
    reveal_strlit("new file mode");
    reveal_strlit("deleted file mode");
    reveal_strlit("rename from ");
    reveal_strlit("rename to ");
    reveal_strlit("Binary files ");
    reveal_strlit("@@ ");
}

/// Past a file's first line, a line changes only the last file: its status
/// by `status_after`, its binary flag where the line is a `Binary files`
/// line, and its hunk headers by a parsed `"@@ "` header.
#[verifier::spinoff_prover]
#[verifier::rlimit(50)]
proof fn lemma_step_on_last(st: PatchState, raw: Seq<char>)
    requires
        st.files.len() > 0,
        !starts_with(raw, "diff --git "@),
    ensures
        step(st, raw).files.len() == st.files.len(),
        step(st, raw).files.last().status == status_after(st.files.last().status, raw),
        (step(st, raw).files.last().path, step(st, raw).files.last().old_path) == paths_after(
            (st.files.last().path, st.files.last().old_path),
            raw,
        ),
        step(st, raw).files.last().is_binary == (st.files.last().is_binary || starts_with(
            raw,
            "Binary files "@,
        )),
        headers_of(step(st, raw).files.last().hunks) == headers_of(st.files.last().hunks) + hunk_headers(
            seq![raw],
        ),
{
    reveal(step);
    lemma_marker_firsts();
    let f = st.files.last();
    let one = seq![raw];
    assert(one.drop_last() =~= Seq::<Seq<char>>::empty());
    assert(hunk_headers(one.drop_last()) =~= Seq::<HunkView>::empty());
    assert(one.last() == raw);
    let hb = starts_with(raw, "Binary files "@);
    if hb {
        lemma_first_char(raw, "Binary files "@);
        if starts_with(raw, "new file mode"@) { lemma_first_char(raw, "new file mode"@); }
        if starts_with(raw, "deleted file mode"@) { lemma_first_char(raw, "deleted file mode"@); }
        if starts_with(raw, "rename from "@) { lemma_first_char(raw, "rename from "@); }
        if starts_with(raw, "rename to "@) { lemma_first_char(raw, "rename to "@); }
        if starts_with(raw, "@@ "@) { lemma_first_char(raw, "@@ "@); }
    }
    if starts_with(raw, "@@ "@) {
        lemma_first_char(raw, "@@ "@);
        if starts_with(raw, "new file mode"@) { lemma_first_char(raw, "new file mode"@); }
        if starts_with(raw, "deleted file mode"@) { lemma_first_char(raw, "deleted file mode"@); }
        if starts_with(raw, "rename from "@) { lemma_first_char(raw, "rename from "@); }
        if starts_with(raw, "rename to "@) { lemma_first_char(raw, "rename to "@); }
    }
    let g = step(st, raw).files.last();
    if starts_with(raw, "new file mode"@) || starts_with(raw, "deleted file mode"@) || starts_with(
        raw,
        "rename from "@,
    ) || starts_with(raw, "rename to "@) || hb {
        assert(g.hunks == f.hunks);
        assert(hunk_headers(one) =~= Seq::<HunkView>::empty());
        assert(headers_of(g.hunks) =~= headers_of(f.hunks) + hunk_headers(one));
    } else if starts_with(raw, "@@ "@) {
        match parse_hunk_header(raw.skip("@@ "@.len() as int)) {
            Some(h) => {
                assert(header_only(h) == h);
                assert(hunk_headers(one) =~= seq![h]);
                assert(headers_of(g.hunks) =~= headers_of(f.hunks) + hunk_headers(one));
            },
            None => {
                assert(hunk_headers(one) =~= Seq::<HunkView>::empty());
                assert(headers_of(g.hunks) =~= headers_of(f.hunks) + hunk_headers(one));
            },
        }
    } else if f.hunks.len() > 0 && raw.len() > 0 && line_kind_of(raw[0]) is Some {
        assert(hunk_headers(one) =~= Seq::<HunkView>::empty());
        assert(g.hunks.len() == f.hunks.len());
        assert forall|j: int| 0 <= j < g.hunks.len() implies header_only(#[trigger] g.hunks[j])
            == header_only(f.hunks[j]) by {}
        assert(headers_of(g.hunks) =~= headers_of(f.hunks) + hunk_headers(one));
    } else {
        assert(hunk_headers(one) =~= Seq::<HunkView>::empty());
        assert(headers_of(g.hunks) =~= headers_of(f.hunks) + hunk_headers(one));
    }
}

#[verifier::spinoff_prover]
#[verifier::rlimit(50)]
proof fn lemma_run_on_last(st: PatchState, ls: Seq<Seq<char>>)
    requires
        st.files.len() > 0,
        forall|i: int| 0 <= i < ls.len() ==> !starts_with(#[trigger] ls[i], "diff --git "@),
    ensures
        run_lines(st, ls).files.len() == st.files.len(),
        run_lines(st, ls).files.last().status == statuses(st.files.last().status, ls),
        (run_lines(st, ls).files.last().path, run_lines(st, ls).files.last().old_path) == paths_through(
            (st.files.last().path, st.files.last().old_path),
            ls,
        ),
        run_lines(st, ls).files.last().is_binary == (st.files.last().is_binary || any_binary(ls)),
        headers_of(run_lines(st, ls).files.last().hunks) == headers_of(st.files.last().hunks)
            + hunk_headers(ls),
    decreases ls.len(),
{
    if ls.len() == 0 {
        assert(headers_of(st.files.last().hunks) + hunk_headers(ls) =~= headers_of(st.files.last().hunks));
    } else {
        let a = ls.drop_last();
        let x = ls.last();
        let one = seq![x];
        assert forall|i: int| 0 <= i < a.len() implies !starts_with(#[trigger] a[i], "diff --git "@) by {
            assert(a[i] == ls[i]);
        }
        lemma_run_on_last(st, a);
        assert(a + one =~= ls);
        lemma_run_lines_add(st, a, one);
        let m = run_lines(st, a);
        assert(one.drop_first() =~= Seq::<Seq<char>>::empty());
        assert(run_lines(step(m, x), one.drop_first()) == step(m, x));
        assert(run_lines(m, one) == step(m, x));
        assert(x == ls[ls.len() - 1]);
        lemma_step_on_last(m, x);
        assert(one.drop_last() =~= Seq::<Seq<char>>::empty());
        assert(hunk_headers(one.drop_last()) =~= Seq::<HunkView>::empty());
        assert(one.last() == x);
        assert(hunk_headers(ls) =~= hunk_headers(a) + hunk_headers(one));
        assert(headers_of(m.files.last().hunks) + hunk_headers(one) =~= headers_of(st.files.last().hunks)
            + hunk_headers(ls));
        if any_binary(ls) {
            let i = choose|i: int| 0 <= i < ls.len() && starts_with(#[trigger] ls[i], "Binary files "@);
            if i < a.len() {
                assert(a[i] == ls[i]);
                assert(any_binary(a));
            }
        }
        if any_binary(a) {
            let i = choose|i: int| 0 <= i < a.len() && starts_with(#[trigger] a[i], "Binary files "@);
            assert(ls[i] == a[i]);
        }
        if starts_with(x, "Binary files "@) {
            assert(starts_with(ls[ls.len() - 1], "Binary files "@));
        }
    }
}

/// The file of one `diff --git` section: a patch whose first line is a
/// `diff --git` line and whose other lines are not parses into one file,
/// whose status is that of its last marker line (modified where there is
/// none), whose paths are those of the `diff --git` line as its `deleted
/// file mode` and `rename from` lines change them, which is binary exactly
/// where a `Binary files` line follows, and whose hunks are, in order,
/// those of its `"@@ "` lines whose header parses.
pub proof fn law_section_file(patch: Seq<char>)
    requires
        lines(patch).len() > 0,
        starts_with(lines(patch)[0], "diff --git "@),
        forall|i: int| 1 <= i < lines(patch).len() ==> !starts_with(#[trigger] lines(patch)[i], "diff --git "@),
    ensures
        parse_patch_spec(patch).len() == 1,
        parse_patch_spec(patch)[0].status == statuses(FileStatus::Modified, lines(patch).drop_first()),
        ({
            let opened = opened_file(lines(patch)[0].skip("diff --git "@.len() as int));
            (parse_patch_spec(patch)[0].path, parse_patch_spec(patch)[0].old_path) == paths_through(
                (opened.path, opened.old_path),
                lines(patch).drop_first(),
            )
        }),
        parse_patch_spec(patch)[0].is_binary == any_binary(lines(patch).drop_first()),
        headers_of(parse_patch_spec(patch)[0].hunks) == hunk_headers(lines(patch).drop_first()),
{
    reveal(step);
    let ls = lines(patch);
    let rest = ls.drop_first();
    let s0 = step(initial_state(), ls[0]);
    assert(s0.files.len() == 1);
    assert(run_lines(initial_state(), ls) == run_lines(s0, rest));
    assert forall|i: int| 0 <= i < rest.len() implies !starts_with(#[trigger] rest[i], "diff --git "@) by {
        assert(rest[i] == ls[i + 1]);
    }
    lemma_run_on_last(s0, rest);
    assert(headers_of(s0.files.last().hunks) =~= Seq::<HunkView>::empty());
    assert(headers_of(s0.files.last().hunks) + hunk_headers(rest) =~= hunk_headers(rest));
    let r = run_lines(s0, rest);
    let f = r.files[0];
    assert(r.files.last() == f);
    assert(parse_patch_spec(patch)[0] == annotate_file(f));
    assert(headers_of(annotate_file(f).hunks) =~= headers_of(f.hunks));
}

proof fn lemma_run_preamble(ls: Seq<Seq<char>>)
    requires
        forall|i: int| 0 <= i < ls.len() ==> !starts_with(#[trigger] ls[i], "diff --git "@),
    ensures
        run_lines(initial_state(), ls) == initial_state(),
    decreases ls.len(),
{
    if ls.len() > 0 {
        reveal(step);
        assert(!starts_with(ls[0], "diff --git "@));
        assert(step(initial_state(), ls[0]) == initial_state());
        assert forall|i: int| 0 <= i < ls.drop_first().len() implies !starts_with(
            #[trigger] ls.drop_first()[i],
            "diff --git "@,
        ) by {
            assert(ls.drop_first()[i] == ls[i + 1]);
        }
        lemma_run_preamble(ls.drop_first());
    }
}

/// Lines before the first `diff --git` line have no effect: a text of such
/// lines, ending in a newline, put before a patch leaves its parse as it is.
pub proof fn law_preamble_ignored(pre: Seq<char>, patch: Seq<char>)
    requires
        pre.len() > 0 ==> pre.last() == '\n',
        forall|i: int| 0 <= i < lines(pre).len() ==> !starts_with(#[trigger] lines(pre)[i], "diff --git "@),
    ensures
        parse_patch_spec(pre + patch) == parse_patch_spec(patch),
{
    lemma_lines_add(pre, patch);
    lemma_run_lines_add(initial_state(), lines(pre), lines(patch));
    lemma_run_preamble(lines(pre));
}

/// The kinds and contents of the lines of each hunk, leaving out their
/// numbers and spans.
pub open spec fn bodies_of(hs: Seq<HunkView>) -> Seq<Seq<(LineKind, Seq<char>)>> {
    hs.map_values(|h: HunkView| h.lines.map_values(|l: LineView| (l.kind, l.content)))
}

/// The hunk bodies after one more line: a `"@@ "` line whose header parses
/// opens an empty hunk; a line whose first char is `' '`, `'+'` or `'-'`
/// adds that kind of line, with the rest of the line as content, to the
/// last hunk, where there is one; any other line adds nothing.
pub open spec fn body_step(bs: Seq<Seq<(LineKind, Seq<char>)>>, raw: Seq<char>) -> Seq<Seq<(LineKind, Seq<char>)>> {
    if starts_with(raw, "@@ "@) {
        if parse_hunk_header(raw.skip("@@ "@.len() as int)) is Some {
            bs.push(seq![])
        } else {
            bs
        }
    } else if bs.len() > 0 && raw.len() > 0 && line_kind_of(raw[0]) is Some {
        bs.update(bs.len() - 1, bs.last().push((line_kind_of(raw[0]).unwrap(), raw.drop_first())))
    } else {
        bs
    }
}

/// The hunk bodies after the lines `ls`, from `bs`.
pub open spec fn bodies_through(bs: Seq<Seq<(LineKind, Seq<char>)>>, ls: Seq<Seq<char>>) -> Seq<Seq<(LineKind, Seq<char>)>>
    decreases ls.len(),
{
    if ls.len() == 0 {
        bs
    } else {
        body_step(bodies_through(bs, ls.drop_last()), ls.last())
    }
}

#[verifier::spinoff_prover]
#[verifier::rlimit(50)]
proof fn lemma_step_bodies(st: PatchState, raw: Seq<char>)
    requires
        st.files.len() > 0,
        !starts_with(raw, "diff --git "@),
    ensures
        bodies_of(step(st, raw).files.last().hunks) == body_step(bodies_of(st.files.last().hunks), raw),
{
    reveal(step);
    lemma_marker_firsts();
    let f = st.files.last();
    let g = step(st, raw).files.last();
    let bs = bodies_of(f.hunks);
    if starts_with(raw, "new file mode"@) || starts_with(raw, "deleted file mode"@) || starts_with(
        raw,
        "rename from "@,
    ) || starts_with(raw, "rename to "@) || starts_with(raw, "Binary files "@) {
        if starts_with(raw, "new file mode"@) { lemma_first_char(raw, "new file mode"@); }
        if starts_with(raw, "deleted file mode"@) { lemma_first_char(raw, "deleted file mode"@); }
        if starts_with(raw, "rename from "@) { lemma_first_char(raw, "rename from "@); }
        if starts_with(raw, "rename to "@) { lemma_first_char(raw, "rename to "@); }
        if starts_with(raw, "Binary files "@) { lemma_first_char(raw, "Binary files "@); }
        if starts_with(raw, "@@ "@) { lemma_first_char(raw, "@@ "@); }
        assert(g.hunks == f.hunks);
    } else if starts_with(raw, "@@ "@) {
        match parse_hunk_header(raw.skip("@@ "@.len() as int)) {
            Some(h) => {
                assert(g.hunks == f.hunks.push(h));
                assert(h.lines == Seq::<LineView>::empty());
                assert(bodies_of(g.hunks)[f.hunks.len() as int] =~= Seq::<(LineKind, Seq<char>)>::empty());
                assert(bodies_of(g.hunks) =~= bs.push(seq![]));
            },
            None => {},
        }
    } else if f.hunks.len() > 0 && raw.len() > 0 && line_kind_of(raw[0]) is Some {
        let last = f.hunks.len() - 1;
        let want = bs.update(last, bs.last().push((line_kind_of(raw[0]).unwrap(), raw.drop_first())));
        assert(g.hunks.len() == f.hunks.len());
        assert forall|j: int| 0 <= j < g.hunks.len() implies bodies_of(g.hunks)[j] == want[j] by {
            if j == last {
                assert(g.hunks[j].lines =~= f.hunks[j].lines.push(g.hunks[j].lines.last()));
                assert(bodies_of(g.hunks)[j] =~= want[j]);
            } else {
                assert(g.hunks[j] == f.hunks[j]);
            }
        }
        assert(bodies_of(g.hunks) =~= want);
    } else {
    }
}

proof fn lemma_run_bodies(st: PatchState, ls: Seq<Seq<char>>)
    requires
        st.files.len() > 0,
        forall|i: int| 0 <= i < ls.len() ==> !starts_with(#[trigger] ls[i], "diff --git "@),
    ensures
        run_lines(st, ls).files.len() == st.files.len(),
        bodies_of(run_lines(st, ls).files.last().hunks) == bodies_through(bodies_of(st.files.last().hunks), ls),
    decreases ls.len(),
{
    if ls.len() > 0 {
        let a = ls.drop_last();
        let x = ls.last();
        let one = seq![x];
        assert forall|i: int| 0 <= i < a.len() implies !starts_with(#[trigger] a[i], "diff --git "@) by {
            assert(a[i] == ls[i]);
        }
        lemma_run_bodies(st, a);
        assert(a + one =~= ls);
        lemma_run_lines_add(st, a, one);
        let m = run_lines(st, a);
        assert(one.drop_first() =~= Seq::<Seq<char>>::empty());
        assert(run_lines(step(m, x), one.drop_first()) == step(m, x));
        assert(run_lines(m, one) == step(m, x));
        assert(x == ls[ls.len() - 1]);
        lemma_step_bodies(m, x);
        lemma_step_on_last(m, x);
    }
}

/// The lines of the hunks of one `diff --git` section: each hunk holds, in
/// order, one line for each line after its `"@@ "` line (and before the
/// next hunk) whose first char is `' '`, `'+'` or `'-'`, of the kind that
/// char gives and with the rest of the line as content; lines of any other
/// form add no line.
pub proof fn law_section_hunk_lines(patch: Seq<char>)
    requires
        lines(patch).len() > 0,
        starts_with(lines(patch)[0], "diff --git "@),
        forall|i: int| 1 <= i < lines(patch).len() ==> !starts_with(#[trigger] lines(patch)[i], "diff --git "@),
    ensures
        parse_patch_spec(patch).len() == 1,
        bodies_of(parse_patch_spec(patch)[0].hunks) == bodies_through(seq![], lines(patch).drop_first()),
{
    reveal(step);
    let ls = lines(patch);
    let rest = ls.drop_first();
    let s0 = step(initial_state(), ls[0]);
    assert(s0.files.len() == 1);
    assert(run_lines(initial_state(), ls) == run_lines(s0, rest));
    assert forall|i: int| 0 <= i < rest.len() implies !starts_with(#[trigger] rest[i], "diff --git "@) by {
        assert(rest[i] == ls[i + 1]);
    }
    lemma_run_bodies(s0, rest);
    assert(bodies_of(s0.files.last().hunks) =~= Seq::<Seq<(LineKind, Seq<char>)>>::empty());
    let r = run_lines(s0, rest);
    let f = r.files[0];
    assert(r.files.last() == f);
    assert(parse_patch_spec(patch)[0] == annotate_file(f));
    let af = annotate_file(f);
    assert forall|j: int| 0 <= j < f.hunks.len() implies bodies_of(af.hunks)[j] == bodies_of(f.hunks)[j] by {
        let h = f.hunks[j];
        lemma_annotate_keeps_lines(h.lines, 0);
        assert(af.hunks[j].lines == annotate_from(h.lines, 0));
        assert(bodies_of(af.hunks)[j] =~= bodies_of(f.hunks)[j]);
    }
    assert(bodies_of(af.hunks) =~= bodies_of(f.hunks));
}

/// Only deleted and added lines carry spans.
pub open spec fn spans_on_changes(lines: Seq<LineView>) -> bool {
    forall|k: int|
        0 <= k < lines.len() && (#[trigger] lines[k]).spans is Some ==> lines[k].kind != LineKind::Context
}

proof fn lemma_annotate_spans_on_changes(lines: Seq<LineView>, i: int)
    requires
        spans_on_changes(lines),
    ensures
        spans_on_changes(annotate_from(lines, i)),
    decreases lines.len() - i,
{
    if 0 <= i < lines.len() {
        if lines[i].kind != LineKind::Del {
            lemma_annotate_spans_on_changes(lines, i + 1);
        } else {
            let de = run_end(lines, i, LineKind::Del);
            lemma_run_end(lines, i, LineKind::Del);
            let ae = run_end(lines, de, LineKind::Add);
            lemma_run_end(lines, de, LineKind::Add);
            let n = if de - i < ae - de {
                de - i
            } else {
                ae - de
            };
            let p = paired(lines, i, de, n);
            assert forall|k: int| 0 <= k < p.len() && (#[trigger] p[k]).spans is Some implies p[k].kind
                != LineKind::Context by {
                if i <= k < i + n {
                    assert(lines[k].kind == LineKind::Del);
                } else if de <= k < de + n {
                    assert(lines[k].kind == LineKind::Add);
                } else {
                    assert(p[k] == lines[k]);
                }
            }
            lemma_annotate_spans_on_changes(p, ae);
        }
    }
}

/// Context lines carry no spans: in every hunk of a parsed patch, only
/// deleted and added lines (those paired with a line of the other side)
/// carry intra-line spans.
pub proof fn law_context_lines_have_no_spans(patch: Seq<char>, i: int, j: int, k: int)
    requires
        0 <= i < parse_patch_spec(patch).len(),
        0 <= j < parse_patch_spec(patch)[i].hunks.len(),
        0 <= k < parse_patch_spec(patch)[i].hunks[j].lines.len(),
        parse_patch_spec(patch)[i].hunks[j].lines[k].kind == LineKind::Context,
    ensures
        parse_patch_spec(patch)[i].hunks[j].lines[k].spans is None,
{
    let fs = run_lines(initial_state(), lines(patch)).files;
    lemma_run_lines_plain(initial_state(), lines(patch));
    let hr = fs[i].hunks[j];
    assert(parse_patch_spec(patch)[i] == annotate_file(fs[i]));
    assert(parse_patch_spec(patch)[i].hunks[j] == annotate_hunk(hr));
    assert(spans_on_changes(hr.lines)) by {
        assert forall|m: int| 0 <= m < hr.lines.len() && (#[trigger] hr.lines[m]).spans is Some implies hr.lines[m].kind
            != LineKind::Context by {
            assert(fs[i].hunks[j].lines[m].spans is None);
        }
    }
    lemma_annotate_spans_on_changes(hr.lines, 0);
}

/// The number of lines of `ls` that open a file.
pub open spec fn opening_lines(ls: Seq<Seq<char>>) -> nat
    decreases ls.len(),
{
    if ls.len() == 0 {
        0
    } else {
        opening_lines(ls.drop_first()) + if starts_with(ls[0], "diff --git "@) {
            1nat
        } else {
            0nat
        }
    }
}

proof fn lemma_step_file_count(st: PatchState, raw: Seq<char>)
    ensures
        step(st, raw).files.len() == st.files.len() + if starts_with(raw, "diff --git "@) {
            1int
        } else {
            0int
        },
{
    reveal(step);
}

proof fn lemma_run_lines_file_count(st: PatchState, ls: Seq<Seq<char>>)
    ensures
        run_lines(st, ls).files.len() == st.files.len() + opening_lines(ls),
    decreases ls.len(),
{
    if ls.len() > 0 {
        lemma_step_file_count(st, ls[0]);
        lemma_run_lines_file_count(step(st, ls[0]), ls.drop_first());
    }
}

/// A patch has one file per line that starts with `"diff --git "`.
pub proof fn law_one_file_per_diff_line(patch: Seq<char>)
    ensures
        parse_patch_spec(patch).len() == opening_lines(lines(patch)),
{
    lemma_run_lines_file_count(initial_state(), lines(patch));
}

proof fn lemma_newline_shift(a: Seq<char>, b: Seq<char>, j: int)
    requires
        0 <= j <= b.len(),
    ensures
        newline_from(a + b, a.len() + j) == a.len() + newline_from(b, j),
    decreases b.len() - j,
{
    if j < b.len() {
        assert((a + b)[a.len() + j] == b[j]);
        if b[j] != '\n' {
            lemma_newline_shift(a, b, j + 1);
        }
    }
}

proof fn lemma_lines_shift(a: Seq<char>, b: Seq<char>, j: int)
    requires
        0 <= j <= b.len(),
    ensures
        lines_from(a + b, a.len() + j) == lines_from(b, j),
    decreases b.len() + 1 - j,
{
    if j < b.len() {
        lemma_newline_shift(a, b, j);
        crate::text::lemma_newline_from(b, j);
        let e = newline_from(b, j);
        assert((a + b).subrange(a.len() + j, a.len() + e) =~= b.subrange(j, e));
        assert(line_at(a + b, a.len() + j) == line_at(b, j));
        if e < b.len() {
            lemma_lines_shift(a, b, e + 1);
        }
        assert(lines_from(a + b, a.len() + e + 1) == lines_from(b, e + 1));
        assert(lines_from(a + b, a.len() + j) == seq![line_at(a + b, a.len() + j)] + lines_from(
            a + b,
            a.len() + e + 1,
        ));
        assert(lines_from(b, j) == seq![line_at(b, j)] + lines_from(b, e + 1));
    }
}

proof fn lemma_newline_within(a: Seq<char>, b: Seq<char>, i: int)
    requires
        0 <= i < a.len(),
        a.last() == '\n',
    ensures
        newline_from(a + b, i) == newline_from(a, i),
        newline_from(a, i) < a.len(),
    decreases a.len() - i,
{
    assert((a + b)[i] == a[i]);
    if a[i] != '\n' {
        lemma_newline_within(a, b, i + 1);
    }
}

proof fn lemma_lines_split(a: Seq<char>, b: Seq<char>, i: int)
    requires
        0 <= i <= a.len(),
        a.len() > 0 ==> a.last() == '\n',
    ensures
        lines_from(a + b, i) == lines_from(a, i) + lines_from(b, 0),
    decreases a.len() + 1 - i,
{
    if i < a.len() {
        lemma_newline_within(a, b, i);
        crate::text::lemma_newline_from(a, i);
        let e = newline_from(a, i);
        assert((a + b).subrange(i, e) =~= a.subrange(i, e));
        assert(line_at(a + b, i) == line_at(a, i));
        lemma_lines_split(a, b, e + 1);
        assert(lines_from(a + b, i) =~= lines_from(a, i) + lines_from(b, 0));
    } else {
        lemma_lines_shift(a, b, 0);
        assert(lines_from(a, i) =~= Seq::<Seq<char>>::empty());
        assert(lines_from(a + b, i) =~= lines_from(a, i) + lines_from(b, 0));
    }
}

/// The lines of two texts put one after the other, where the first ends
/// with a newline, are the lines of each.
pub proof fn lemma_lines_add(a: Seq<char>, b: Seq<char>)
    requires
        a.len() > 0 ==> a.last() == '\n',
    ensures
        lines(a + b) == lines(a) + lines(b),
{
    lemma_lines_split(a, b, 0);
}

/// `a` runs like `b` behind the files `pre`: same last file, and the same
/// next numbers where that file has a hunk.
pub open spec fn runs_behind(a: PatchState, b: PatchState, pre: Seq<FileDiffView>) -> bool {
    &&& a.files == pre + b.files
    &&& b.files.len() > 0
    &&& b.files.last().hunks.len() > 0 ==> a.old_no == b.old_no && a.new_no == b.new_no
}

proof fn lemma_update_behind(x: Seq<FileDiffView>, y: Seq<FileDiffView>, pre: Seq<FileDiffView>, g: FileDiffView)
    requires
        x == pre + y,
        y.len() > 0,
    ensures
        x.update(x.len() - 1, g) == pre + y.update(y.len() - 1, g),
        x.last() == y.last(),
{
    assert(x.update(x.len() - 1, g) =~= pre + y.update(y.len() - 1, g));
}

#[verifier::spinoff_prover]
#[verifier::rlimit(50)]
proof fn lemma_step_behind(a: PatchState, b: PatchState, pre: Seq<FileDiffView>, raw: Seq<char>)
    requires
        runs_behind(a, b, pre),
    ensures
        runs_behind(step(a, raw), step(b, raw), pre),
{
    reveal(step);
    lemma_update_behind(a.files, b.files, pre, b.files.last());
    let f = b.files.last();
    if starts_with(raw, "diff --git "@) {
        let o = opened_file(raw.skip("diff --git "@.len() as int));
        assert(a.files.push(o) =~= pre + b.files.push(o));
    } else if starts_with(raw, "new file mode"@) {
        lemma_update_behind(a.files, b.files, pre, FileDiffView { status: FileStatus::Added, ..f });
    } else if starts_with(raw, "deleted file mode"@) {
        let g = step(b, raw).files.last();
        lemma_update_behind(a.files, b.files, pre, g);
        assert(step(b, raw).files == b.files.update(b.files.len() - 1, g));
    } else if starts_with(raw, "rename from "@) {
        let g = step(b, raw).files.last();
        lemma_update_behind(a.files, b.files, pre, g);
        assert(step(b, raw).files == b.files.update(b.files.len() - 1, g));
    } else if starts_with(raw, "rename to "@) {
        lemma_update_behind(a.files, b.files, pre, FileDiffView { status: FileStatus::Renamed, ..f });
    } else if starts_with(raw, "Binary files "@) {
        lemma_update_behind(a.files, b.files, pre, FileDiffView { is_binary: true, ..f });
    } else if starts_with(raw, "@@ "@) {
        match parse_hunk_header(raw.skip("@@ "@.len() as int)) {
            Some(h) => {
                lemma_update_behind(a.files, b.files, pre, FileDiffView { hunks: f.hunks.push(h), ..f });
            },
            None => {},
        }
    } else if f.hunks.len() > 0 && raw.len() > 0 && line_kind_of(raw[0]) is Some {
        let g = step(b, raw).files.last();
        lemma_update_behind(a.files, b.files, pre, g);
        assert(step(b, raw).files == b.files.update(b.files.len() - 1, g));
        assert(step(a, raw).files == a.files.update(a.files.len() - 1, g));
    }
}

proof fn lemma_run_behind(a: PatchState, b: PatchState, pre: Seq<FileDiffView>, ls: Seq<Seq<char>>)
    requires
        runs_behind(a, b, pre),
    ensures
        runs_behind(run_lines(a, ls), run_lines(b, ls), pre),
    decreases ls.len(),
{
    if ls.len() > 0 {
        lemma_step_behind(a, b, pre, ls[0]);
        lemma_run_behind(step(a, ls[0]), step(b, ls[0]), pre, ls.drop_first());
    }
}

/// Two patches put one after the other parse as the files of the first
/// followed by those of the second, where the first ends with a newline
/// and the second starts with a `"diff --git "` line.
#[verifier::spinoff_prover]
#[verifier::rlimit(40)]
pub proof fn law_parse_concat(p1: Seq<char>, p2: Seq<char>)
    requires
        p1.len() > 0 ==> p1.last() == '\n',
        lines(p2).len() > 0 ==> starts_with(lines(p2)[0], "diff --git "@),
    ensures
        parse_patch_spec(p1 + p2) == parse_patch_spec(p1) + parse_patch_spec(p2),
{
    let l1 = lines(p1);
    let l2 = lines(p2);
    lemma_lines_add(p1, p2);
    lemma_run_lines_add(initial_state(), l1, l2);
    let s1 = run_lines(initial_state(), l1);
    let f1 = s1.files;
    if l2.len() == 0 {
        assert(run_lines(s1, l2) == s1);
        assert(run_lines(initial_state(), l2) == initial_state());
        assert(f1 + run_lines(initial_state(), l2).files =~= f1);
    } else {
        reveal(step);
        let a = step(s1, l2[0]);
        let b = step(initial_state(), l2[0]);
        assert(a.files =~= f1 + b.files);
        lemma_run_behind(a, b, f1, l2.drop_first());
        assert(run_lines(s1, l2) == run_lines(a, l2.drop_first()));
        assert(run_lines(initial_state(), l2) == run_lines(b, l2.drop_first()));
    }
    let fb = run_lines(initial_state(), l2).files;
    assert((f1 + fb).map_values(|f: FileDiffView| annotate_file(f)) =~= f1.map_values(
        |f: FileDiffView| annotate_file(f),
    ) + fb.map_values(|f: FileDiffView| annotate_file(f)));
}

proof fn lemma_run_end_at(lines: Seq<LineView>, i: int, j: int, kind: LineKind)
    requires
        0 <= i <= j <= lines.len(),
        forall|x: int| i <= x < j ==> (#[trigger] lines[x]).kind == kind,
        j == lines.len() || lines[j].kind != kind,
    ensures
        run_end(lines, i, kind) == j,
    decreases j - i,
{
    if i < j {
        lemma_run_end_at(lines, i + 1, j, kind);
    }
}

proof fn lemma_run_end_stops(lines: Seq<LineView>, i: int, kind: LineKind)
    requires
        0 <= i <= lines.len(),
    ensures
        run_end(lines, i, kind) == lines.len() || lines[run_end(lines, i, kind)].kind != kind,
    decreases lines.len() - i,
{
    if i < lines.len() && lines[i].kind == kind {
        lemma_run_end_stops(lines, i + 1, kind);
    }
}

/// Annotating from `j` on leaves the lines before `j` as they are.
proof fn lemma_annotate_keeps_before(lines: Seq<LineView>, j: int, x: int)
    requires
        0 <= x < j,
        x < lines.len(),
    ensures
        annotate_from(lines, j).len() == lines.len(),
        annotate_from(lines, j)[x] == lines[x],
    decreases lines.len() - j,
{
    if 0 <= j < lines.len() {
        if lines[j].kind != LineKind::Del {
            lemma_annotate_keeps_before(lines, j + 1, x);
        } else {
            let de = run_end(lines, j, LineKind::Del);
            lemma_run_end(lines, j, LineKind::Del);
            let ae = run_end(lines, de, LineKind::Add);
            lemma_run_end(lines, de, LineKind::Add);
            let n = if de - j < ae - de {
                de - j
            } else {
                ae - de
            };
            let p = paired(lines, j, de, n);
            assert(p[x] == lines[x]);
            lemma_annotate_keeps_before(p, ae, x);
        }
    }
}

#[verifier::spinoff_prover]
#[verifier::rlimit(50)]
proof fn lemma_annotate_run(lines: Seq<LineView>, i: int, d: int, a: int, e: int, k: int)
    requires
        0 <= i <= d < a < e <= lines.len(),
        0 <= k < a - d,
        k < e - a,
        d == 0 || lines[d - 1].kind != LineKind::Del,
        forall|x: int| d <= x < a ==> (#[trigger] lines[x]).kind == LineKind::Del,
        forall|x: int| a <= x < e ==> (#[trigger] lines[x]).kind == LineKind::Add,
        e == lines.len() || lines[e].kind != LineKind::Add,
    ensures
        annotate_from(lines, i)[d + k] == with_spans(
            lines[d + k],
            old_spans(word_diff(lines[d + k].content, lines[a + k].content)),
        ),
        annotate_from(lines, i)[a + k] == with_spans(
            lines[a + k],
            new_spans(word_diff(lines[d + k].content, lines[a + k].content)),
        ),
    decreases lines.len() - i,
{
    if i == d {
        assert(lines[a].kind == LineKind::Add);
        lemma_run_end_at(lines, d, a, LineKind::Del);
        lemma_run_end_at(lines, a, e, LineKind::Add);
        let n = if a - d < e - a {
            a - d
        } else {
            e - a
        };
        let p = paired(lines, d, a, n);
        assert(annotate_from(lines, i) == annotate_from(p, e));
        lemma_annotate_keeps_before(p, e, d + k);
        lemma_annotate_keeps_before(p, e, a + k);
        assert(p[d + k] == with_spans(
            lines[d + k],
            old_spans(word_diff(lines[d + k].content, lines[a + (d + k - d)].content)),
        ));
        assert(a + (d + k - d) == a + k);
        assert(d + (a + k - a) == d + k);
    } else if lines[i].kind != LineKind::Del {
        lemma_annotate_run(lines, i + 1, d, a, e, k);
    } else {
        let de = run_end(lines, i, LineKind::Del);
        lemma_run_end(lines, i, LineKind::Del);
        lemma_run_end_stops(lines, i, LineKind::Del);
        assert(i < d - 1);
        if de > d - 1 {
            assert(lines[d - 1].kind == LineKind::Del);
        }
        let ae = run_end(lines, de, LineKind::Add);
        lemma_run_end(lines, de, LineKind::Add);
        if ae > d {
            assert(lines[d].kind == LineKind::Add);
        }
        let n = if de - i < ae - de {
            de - i
        } else {
            ae - de
        };
        let p = paired(lines, i, de, n);
        assert(annotate_from(lines, i) == annotate_from(p, ae));
        assert forall|x: int| ae <= x < lines.len() implies #[trigger] p[x] == lines[x] by {}
        assert(p[d - 1].kind == lines[d - 1].kind);
        assert forall|x: int| d <= x < a implies (#[trigger] p[x]).kind == LineKind::Del by {
            assert(p[x] == lines[x]);
        }
        assert forall|x: int| a <= x < e implies (#[trigger] p[x]).kind == LineKind::Add by {
            assert(p[x] == lines[x]);
        }
        if e < lines.len() {
            assert(p[e] == lines[e]);
        }
        assert(p[d + k] == lines[d + k]);
        assert(p[a + k] == lines[a + k]);
        lemma_annotate_run(p, ae, d, a, e, k);
    }
}

/// Intra-line spans pair the runs in order: where lines `d..a` of a hunk are
/// a whole run of deleted lines and lines `a..e` the whole run of added
/// lines right after it, the `k`-th deleted line and the `k`-th added line
/// (for `k` below the length of both runs) get the spans of the word diff
/// of the one against the other, old side and new side; nothing else of
/// the two lines changes.
pub proof fn law_runs_paired_in_order(h: HunkView, d: int, a: int, e: int, k: int)
    requires
        0 <= d < a < e <= h.lines.len(),
        0 <= k < a - d,
        k < e - a,
        d == 0 || h.lines[d - 1].kind != LineKind::Del,
        forall|x: int| d <= x < a ==> (#[trigger] h.lines[x]).kind == LineKind::Del,
        forall|x: int| a <= x < e ==> (#[trigger] h.lines[x]).kind == LineKind::Add,
        e == h.lines.len() || h.lines[e].kind != LineKind::Add,
    ensures
        annotate_hunk(h).lines[d + k].spans == Some(
            old_spans(word_diff(h.lines[d + k].content, h.lines[a + k].content)),
        ),
        annotate_hunk(h).lines[a + k].spans == Some(
            new_spans(word_diff(h.lines[d + k].content, h.lines[a + k].content)),
        ),
        annotate_hunk(h).lines[d + k].kind == LineKind::Del,
        annotate_hunk(h).lines[d + k].content == h.lines[d + k].content,
        annotate_hunk(h).lines[a + k].kind == LineKind::Add,
        annotate_hunk(h).lines[a + k].content == h.lines[a + k].content,
{
    lemma_annotate_run(h.lines, 0, d, a, e, k);
    assert(h.lines[d + k].kind == LineKind::Del);
    assert(h.lines[a + k].kind == LineKind::Add);
}


proof fn lemma_paired_shape(lines: Seq<LineView>, ds: int, as_: int, n: int, x: int)
    requires
        0 <= x < lines.len(),
    ensures
        paired(lines, ds, as_, n).len() == lines.len(),
        paired(lines, ds, as_, n)[x].kind == lines[x].kind,
        paired(lines, ds, as_, n)[x].content == lines[x].content,
        !(ds <= x < ds + n) && !(as_ <= x < as_ + n) ==> paired(lines, ds, as_, n)[x] == lines[x],
{
}

proof fn lemma_annotate_context(lines: Seq<LineView>, i: int, x: int)
    requires
        0 <= x < lines.len(),
        lines[x].kind == LineKind::Context,
    ensures
        annotate_from(lines, i)[x] == lines[x],
    decreases lines.len() - i,
{
    if 0 <= i < lines.len() {
        if lines[i].kind != LineKind::Del {
            lemma_annotate_context(lines, i + 1, x);
        } else {
            let de = run_end(lines, i, LineKind::Del);
            lemma_run_end(lines, i, LineKind::Del);
            let ae = run_end(lines, de, LineKind::Add);
            lemma_run_end(lines, de, LineKind::Add);
            let n = if de - i < ae - de {
                de - i
            } else {
                ae - de
            };
            lemma_paired_shape(lines, i, de, n, x);
            lemma_annotate_context(paired(lines, i, de, n), ae, x);
        }
    }
}

#[verifier::spinoff_prover]
#[verifier::rlimit(50)]
proof fn lemma_annotate_unpaired(lines: Seq<LineView>, i: int, d: int, a: int, e: int, x: int)
    requires
        0 <= i <= d < a <= e <= lines.len(),
        d == 0 || lines[d - 1].kind != LineKind::Del,
        forall|y: int| d <= y < a ==> (#[trigger] lines[y]).kind == LineKind::Del,
        forall|y: int| a <= y < e ==> (#[trigger] lines[y]).kind == LineKind::Add,
        a == lines.len() || lines[a].kind != LineKind::Del,
        e == lines.len() || lines[e].kind != LineKind::Add,
        (d <= x < a && x - d >= e - a) || (a <= x < e && x - a >= a - d),
    ensures
        annotate_from(lines, i)[x] == lines[x],
    decreases lines.len() - i,
{
    if i == d {
        lemma_run_end_at(lines, d, a, LineKind::Del);
        lemma_run_end_at(lines, a, e, LineKind::Add);
        let n = if a - d < e - a {
            a - d
        } else {
            e - a
        };
        let p = paired(lines, d, a, n);
        assert(annotate_from(lines, i) == annotate_from(p, e));
        lemma_paired_shape(lines, d, a, n, x);
        lemma_annotate_keeps_before(p, e, x);
    } else if lines[i].kind != LineKind::Del {
        lemma_annotate_unpaired(lines, i + 1, d, a, e, x);
    } else {
        let de = run_end(lines, i, LineKind::Del);
        lemma_run_end(lines, i, LineKind::Del);
        lemma_run_end_stops(lines, i, LineKind::Del);
        assert(i < d - 1);
        if de > d - 1 {
            assert(lines[d - 1].kind == LineKind::Del);
        }
        let ae = run_end(lines, de, LineKind::Add);
        lemma_run_end(lines, de, LineKind::Add);
        if ae > d {
            assert(lines[d].kind == LineKind::Add);
        }
        let n = if de - i < ae - de {
            de - i
        } else {
            ae - de
        };
        let p = paired(lines, i, de, n);
        assert(annotate_from(lines, i) == annotate_from(p, ae));
        assert forall|y: int| ae <= y < lines.len() implies #[trigger] p[y] == lines[y] by {}
        assert(p[d - 1].kind == lines[d - 1].kind);
        assert forall|y: int| d <= y < a implies (#[trigger] p[y]).kind == LineKind::Del by {
            assert(p[y] == lines[y]);
        }
        assert forall|y: int| a <= y < e implies (#[trigger] p[y]).kind == LineKind::Add by {
            assert(p[y] == lines[y]);
        }
        if a < lines.len() {
            assert(p[a] == lines[a]);
        }
        if e < lines.len() {
            assert(p[e] == lines[e]);
        }
        assert(p[x] == lines[x]);
        lemma_annotate_unpaired(p, ae, d, a, e, x);
    }
}

/// Intra-line spans touch only paired lines: context lines, and the lines
/// of a run of deleted lines or of the run of added lines right after it
/// that lie past the length of the other run, come out as they went in.
pub proof fn law_unpaired_lines_unchanged(h: HunkView, d: int, a: int, e: int, x: int)
    requires
        0 <= d < a <= e <= h.lines.len(),
        d == 0 || h.lines[d - 1].kind != LineKind::Del,
        forall|y: int| d <= y < a ==> (#[trigger] h.lines[y]).kind == LineKind::Del,
        forall|y: int| a <= y < e ==> (#[trigger] h.lines[y]).kind == LineKind::Add,
        a == h.lines.len() || h.lines[a].kind != LineKind::Del,
        e == h.lines.len() || h.lines[e].kind != LineKind::Add,
        (d <= x < a && x - d >= e - a) || (a <= x < e && x - a >= a - d),
    ensures
        annotate_hunk(h).lines[x] == h.lines[x],
{
    lemma_annotate_unpaired(h.lines, 0, d, a, e, x);
}

/// Context lines keep their spans through annotation.
pub proof fn law_context_lines_unchanged(h: HunkView, x: int)
    requires
        0 <= x < h.lines.len(),
        h.lines[x].kind == LineKind::Context,
    ensures
        annotate_hunk(h).lines[x] == h.lines[x],
{
    lemma_annotate_context(h.lines, 0, x);
}


} // verus!
