//! The patch model (file, hunk, line, span), the parser of
//! `git diff --patch --no-color` output, and the patch of a single hunk.

use vstd::prelude::*;

use crate::spans::{char_spans, word_diff, old_spans, new_spans};
use crate::text::{split_lines, line_at, chars_of, line_bounds, lines, lines_from, 
    find, find_in, starts_with, starts_with_at, string_from, trim, trim_bounds, words,
    next_word, parse_u32, parse_u32_chars,
};

verus! {

/// What a line of a hunk does.
#[derive(Debug, Clone, Copy, PartialEq, Eq, Structural)]
pub enum LineKind {
    Context,
    Add,
    Del,
}

/// What happened to a file.
#[derive(Debug, Clone, Copy, PartialEq, Eq, Structural)]
pub enum FileStatus {
    Added,
    Modified,
    Deleted,
    Renamed,
}

/// A run of chars of a line, marked as changed or unchanged against the
/// line it is paired with.
#[derive(Debug)]
pub struct Span {
    pub text: String,
    pub changed: bool,
}

/// A line of a hunk, with its numbers in the old and the new file.
#[derive(Debug)]
pub struct Line {
    pub kind: LineKind,
    pub content: String,
    pub old_no: Option<u32>,
    pub new_no: Option<u32>,
    pub spans: Option<Vec<Span>>,
}

/// A hunk: its header's ranges, the text after the second `@@`, and its lines.
#[derive(Debug)]
pub struct Hunk {
    pub old_start: u32,
    pub old_lines: u32,
    pub new_start: u32,
    pub new_lines: u32,
    pub header: String,
    pub lines: Vec<Line>,
}

/// The changes to one file.
#[derive(Debug)]
pub struct FileDiff {
    pub path: String,
    pub old_path: Option<String>,
    pub status: FileStatus,
    pub is_binary: bool,
    pub hunks: Vec<Hunk>,
}

/// A span as text and flag.
#[verifier::ext_equal]
pub struct SpanView {
    pub text: Seq<char>,
    pub changed: bool,
}

/// A line as plain values.
#[verifier::ext_equal]
pub struct LineView {
    pub kind: LineKind,
    pub content: Seq<char>,
    pub old_no: Option<u32>,
    pub new_no: Option<u32>,
    pub spans: Option<Seq<SpanView>>,
}

/// A hunk as plain values.
#[verifier::ext_equal]
pub struct HunkView {
    pub old_start: u32,
    pub old_lines: u32,
    pub new_start: u32,
    pub new_lines: u32,
    pub header: Seq<char>,
    pub lines: Seq<LineView>,
}

/// A file's changes as plain values.
#[verifier::ext_equal]
pub struct FileDiffView {
    pub path: Seq<char>,
    pub old_path: Option<Seq<char>>,
    pub status: FileStatus,
    pub is_binary: bool,
    pub hunks: Seq<HunkView>,
}

impl View for Span {
    type V = SpanView;

    open spec fn view(&self) -> SpanView {
        SpanView { text: self.text@, changed: self.changed }
    }
}

pub open spec fn spans_view(v: Seq<Span>) -> Seq<SpanView> {
    v.map_values(|s: Span| s@)
}

impl View for Line {
    type V = LineView;

    open spec fn view(&self) -> LineView {
        LineView {
            kind: self.kind,
            content: self.content@,
            old_no: self.old_no,
            new_no: self.new_no,
            spans: match self.spans {
                Some(v) => Some(spans_view(v@)),
                None => None,
            },
        }
    }
}

pub open spec fn lines_view(v: Seq<Line>) -> Seq<LineView> {
    v.map_values(|l: Line| l@)
}

impl View for Hunk {
    type V = HunkView;

    open spec fn view(&self) -> HunkView {
        HunkView {
            old_start: self.old_start,
            old_lines: self.old_lines,
            new_start: self.new_start,
            new_lines: self.new_lines,
            header: self.header@,
            lines: lines_view(self.lines@),
        }
    }
}

pub open spec fn hunks_view(v: Seq<Hunk>) -> Seq<HunkView> {
    v.map_values(|h: Hunk| h@)
}

impl View for FileDiff {
    type V = FileDiffView;

    open spec fn view(&self) -> FileDiffView {
        FileDiffView {
            path: self.path@,
            old_path: match self.old_path {
                Some(p) => Some(p@),
                None => None,
            },
            status: self.status,
            is_binary: self.is_binary,
            hunks: hunks_view(self.hunks@),
        }
    }
}

pub open spec fn files_view(v: Seq<FileDiff>) -> Seq<FileDiffView> {
    v.map_values(|f: FileDiff| f@)
}

/// The text of `spans`, joined.
pub open spec fn spans_text(spans: Seq<SpanView>) -> Seq<char>
    decreases spans.len(),
{
    if spans.len() == 0 {
        seq![]
    } else {
        spans_text(spans.drop_last()) + spans.last().text
    }
}

/// No two neighbouring spans carry the same flag.
pub open spec fn spans_alternate(spans: Seq<SpanView>) -> bool {
    forall|i: int| 0 <= i < spans.len() - 1 ==> #[trigger] spans[i].changed != spans[i + 1].changed
}


/// `"a/Old.java b/New.java"` as `("Old.java", "New.java")`: split at the first
/// `" b/"`, with an `"a/"` in front of the old path dropped; without a
/// `" b/"` both paths are the whole text.
pub open spec fn split_git_paths(rest: Seq<char>) -> (Seq<char>, Seq<char>) {
    match find(rest, " b/"@) {
        Some(idx) => {
            let old = rest.take(idx);
            let old = if starts_with(old, "a/"@) {
                old.skip("a/"@.len() as int)
            } else {
                old
            };
            (old, rest.skip(idx + " b/"@.len()))
        },
        None => (rest, rest),
    }
}

fn split_git_paths_chars(rest: &[char]) -> (r: (String, String))
    ensures
        (r.0@, r.1@) == split_git_paths(rest@),
{
    match find_in(rest, " b/") {
        Some(idx) => {
            let old = &rest[0..idx];
            assert(old@ =~= rest@.take(idx as int));
            let old_path = if starts_with_at(old, 0, "a/") {
                assert(old@.skip(0) =~= old@);
                let m = "a/".unicode_len();
                let p = &old[m..old.len()];
                assert(p@ =~= old@.skip(m as int));
                string_from(p)
            } else {
                assert(old@.skip(0) =~= old@);
                string_from(old)
            };
            let m = " b/".unicode_len();
            let new = &rest[idx + m..rest.len()];
            assert(new@ =~= rest@.skip(idx + m));
            (old_path, string_from(new))
        },
        None => (string_from(rest), string_from(rest)),
    }
}

/// `"1,4"` as `(1, 4)`, `"1"` as `(1, 1)`: the numbers before and after the
/// first comma, or one number and a count of one.
#[verifier::opaque]
pub open spec fn parse_range(s: Seq<char>) -> Option<(u32, u32)> {
    match find(s, ","@) {
        Some(i) => match (parse_u32(s.take(i)), parse_u32(s.skip(i + 1))) {
            (Some(a), Some(b)) => Some((a, b)),
            _ => None,
        },
        None => match parse_u32(s) {
            Some(a) => Some((a, 1)),
            None => None,
        },
    }
}

fn parse_range_chars(s: &[char]) -> (r: Option<(u32, u32)>)
    ensures
        r == parse_range(s@),
{
    reveal(parse_range);
    match find_in(s, ",") {
        Some(i) => {
            proof {
                reveal_strlit(",");
            }
            let a = &s[0..i];
            let b = &s[i + 1..s.len()];
            assert(a@ =~= s@.take(i as int));
            assert(b@ =~= s@.skip(i + 1));
            match (parse_u32_chars(a), parse_u32_chars(b)) {
                (Some(x), Some(y)) => Some((x, y)),
                _ => None,
            }
        },
        None => match parse_u32_chars(s) {
            Some(x) => Some((x, 1)),
            None => None,
        },
    }
}

/// The old and new ranges of a hunk header: its first two words, the first
/// after a `'-'`, the second after a `'+'`.
pub open spec fn hunk_ranges(r: Seq<char>) -> Option<((u32, u32), (u32, u32))> {
    let w = words(r);
    if w.len() >= 2 && w[0].len() > 0 && w[0][0] == '-' && w[1].len() > 0 && w[1][0] == '+' {
        match (parse_range(w[0].drop_first()), parse_range(w[1].drop_first())) {
            (Some(o), Some(n)) => Some((o, n)),
            _ => None,
        }
    } else {
        None
    }
}

fn hunk_ranges_chars(ranges: &[char]) -> (r: Option<((u32, u32), (u32, u32))>)
    ensures
        r == hunk_ranges(ranges@),
{
    assert(ranges@.skip(0) =~= ranges@);
    let (a0, b0) = match next_word(ranges, 0) {
        Some(w) => w,
        None => {
            return None;
        },
    };
    let (a1, b1) = match next_word(ranges, b0) {
        Some(w) => w,
        None => {
            return None;
        },
    };
    let ghost w = words(ranges@);
    assert(w[0] == ranges@.subrange(a0 as int, b0 as int));
    assert(w[1] == ranges@.subrange(a1 as int, b1 as int));
    if ranges[a0] != '-' || ranges[a1] != '+' {
        return None;
    }
    let r0 = &ranges[a0 + 1..b0];
    let r1 = &ranges[a1 + 1..b1];
    assert(r0@ =~= w[0].drop_first());
    assert(r1@ =~= w[1].drop_first());
    match (parse_range_chars(r0), parse_range_chars(r1)) {
        (Some(o), Some(n)) => Some((o, n)),
        _ => None,
    }
}

/// The hunk that a header `"-1,4 +1,4 @@ text"` (after its leading `"@@ "`)
/// opens: its ranges stand before the next `"@@"`, and its header is the
/// trimmed text after that `"@@"`.
pub open spec fn parse_hunk_header(hdr: Seq<char>) -> Option<HunkView> {
    match find(hdr, "@@"@) {
        Some(end) => match hunk_ranges(hdr.take(end)) {
            Some((o, n)) => Some(
                HunkView {
                    old_start: o.0,
                    old_lines: o.1,
                    new_start: n.0,
                    new_lines: n.1,
                    header: trim(hdr.skip(end + "@@"@.len())),
                    lines: seq![],
                },
            ),
            None => None,
        },
        None => None,
    }
}

/// Reads a hunk header after its leading `"@@ "`: the ranges before the
/// next `"@@"` and the trimmed text after it; `None` where they do not parse.
#[verifier::rlimit(40)]
pub fn parse_hunk_header_chars(hdr: &[char]) -> (r: Option<Hunk>)
    ensures
        r matches Some(h) ==> parse_hunk_header(hdr@) == Some(h@),
        r is None ==> parse_hunk_header(hdr@) is None,
{
    let end = match find_in(hdr, "@@") {
        Some(e) => e,
        None => {
            return None;
        },
    };
    let ranges = &hdr[0..end];
    assert(ranges@ =~= hdr@.take(end as int));
    let (o, n) = match hunk_ranges_chars(ranges) {
        Some(r) => r,
        None => {
            return None;
        },
    };
    let m = "@@".unicode_len();
    let tail = &hdr[end + m..hdr.len()];
    assert(tail@ =~= hdr@.skip(end + m));
    let (ta, tb) = trim_bounds(tail);
    let header = string_from(&tail[ta..tb]);
    let h = Hunk {
        old_start: o.0,
        old_lines: o.1,
        new_start: n.0,
        new_lines: n.1,
        header,
        lines: Vec::new(),
    };
    assert(h@.lines =~= Seq::<LineView>::empty());
    Some(h)
}

/// The parser's state after a prefix of the patch's lines: the files read so
/// far, and the old and new numbers that the next line of a hunk takes.
#[verifier::ext_equal]
pub struct PatchState {
    pub files: Seq<FileDiffView>,
    pub old_no: u32,
    pub new_no: u32,
}

/// The number after `n`; past `u32::MAX` numbers start again at 0.
pub open spec fn next_no(n: u32) -> u32 {
    if n == u32::MAX {
        0
    } else {
        (n + 1) as u32
    }
}

/// The file that a `"diff --git "` line opens, from the text after that prefix.
pub open spec fn opened_file(rest: Seq<char>) -> FileDiffView {
    let (o, n) = split_git_paths(rest);
    FileDiffView {
        path: n,
        old_path: if o != n {
            Some(o)
        } else {
            None
        },
        status: FileStatus::Modified,
        is_binary: false,
        hunks: seq![],
    }
}

/// The kind of a hunk line, by its first char.
pub open spec fn line_kind_of(c: char) -> Option<LineKind> {
    if c == ' ' {
        Some(LineKind::Context)
    } else if c == '+' {
        Some(LineKind::Add)
    } else if c == '-' {
        Some(LineKind::Del)
    } else {
        None
    }
}

/// `st` with its last file replaced by `f`.
pub open spec fn set_last(st: PatchState, f: FileDiffView) -> PatchState {
    PatchState { files: st.files.update(st.files.len() - 1, f), old_no: st.old_no, new_no: st.new_no }
}

/// `st` with a line of `kind` and `content` added to the last hunk of its last
/// file, numbered on the sides that the line belongs to.
pub open spec fn numbered_line(st: PatchState, kind: LineKind, content: Seq<char>) -> PatchState {
    let f = st.files.last();
    let h = f.hunks.last();
    let on_old = kind != LineKind::Add;
    let on_new = kind != LineKind::Del;
    let line = LineView {
        kind,
        content,
        old_no: if on_old {
            Some(st.old_no)
        } else {
            None
        },
        new_no: if on_new {
            Some(st.new_no)
        } else {
            None
        },
        spans: None,
    };
    PatchState {
        files: st.files.update(
            st.files.len() - 1,
            FileDiffView {
                hunks: f.hunks.update(
                    f.hunks.len() - 1,
                    HunkView { lines: h.lines.push(line), ..h },
                ),
                ..f
            },
        ),
        old_no: if on_old {
            next_no(st.old_no)
        } else {
            st.old_no
        },
        new_no: if on_new {
            next_no(st.new_no)
        } else {
            st.new_no
        },
    }
}

/// What one line of the patch does to the parser's state.
#[verifier::opaque]
pub open spec fn step(st: PatchState, raw: Seq<char>) -> PatchState {
    if starts_with(raw, "diff --git "@) {
        PatchState {
            files: st.files.push(opened_file(raw.skip("diff --git "@.len() as int))),
            old_no: st.old_no,
            new_no: st.new_no,
        }
    } else if st.files.len() == 0 {
        st
    } else {
        let f = st.files.last();
        if starts_with(raw, "new file mode"@) {
            set_last(st, FileDiffView { status: FileStatus::Added, ..f })
        } else if starts_with(raw, "deleted file mode"@) {
            set_last(
                st,
                match f.old_path {
                    Some(o) => FileDiffView {
                        status: FileStatus::Deleted,
                        path: o,
                        old_path: None,
                        ..f
                    },
                    None => FileDiffView { status: FileStatus::Deleted, ..f },
                },
            )
        } else if starts_with(raw, "rename from "@) {
            set_last(
                st,
                FileDiffView {
                    status: FileStatus::Renamed,
                    old_path: Some(raw.skip("rename from "@.len() as int)),
                    ..f
                },
            )
        } else if starts_with(raw, "rename to "@) {
            set_last(st, FileDiffView { status: FileStatus::Renamed, ..f })
        } else if starts_with(raw, "Binary files "@) {
            set_last(st, FileDiffView { is_binary: true, ..f })
        } else if starts_with(raw, "@@ "@) {
            match parse_hunk_header(raw.skip("@@ "@.len() as int)) {
                Some(h) => PatchState {
                    files: st.files.update(
                        st.files.len() - 1,
                        FileDiffView { hunks: f.hunks.push(h), ..f },
                    ),
                    old_no: h.old_start,
                    new_no: h.new_start,
                },
                None => st,
            }
        } else if f.hunks.len() > 0 && raw.len() > 0 && line_kind_of(raw[0]) is Some {
            numbered_line(st, line_kind_of(raw[0]).unwrap(), raw.drop_first())
        } else {
            st
        }
    }
}

struct ParseState {
    files: Vec<FileDiff>,
    old_no: u32,
    new_no: u32,
}

impl View for ParseState {
    type V = PatchState;

    closed spec fn view(&self) -> PatchState {
        PatchState { files: files_view(self.files@), old_no: self.old_no, new_no: self.new_no }
    }
}

fn open_file(st: &mut ParseState, raw: &[char])
    requires
        starts_with(raw@, "diff --git "@),
    ensures
        final(st)@ == step(old(st)@, raw@),
{
    reveal(step);
    let m = "diff --git ".unicode_len();
    let rest = &raw[m..raw.len()];
    assert(rest@ =~= raw@.skip(m as int));
    let (o, n) = split_git_paths_chars(rest);
    let old_path = if o == n {
        None
    } else {
        Some(o)
    };
    st.files.push(
        FileDiff { path: n, old_path, status: FileStatus::Modified, is_binary: false, hunks: Vec::new() },
    );
    assert(hunks_view(Seq::<Hunk>::empty()) =~= Seq::<HunkView>::empty());
    assert(st@ =~= step(old(st)@, raw@));
}

fn add_line(st: &mut ParseState, kind: LineKind, content: &[char])
    requires
        old(st).files@.len() > 0,
        old(st).files@.last().hunks@.len() > 0,
    ensures
        final(st)@ == numbered_line(old(st)@, kind, content@),
{
    let mut f = st.files.pop().unwrap();
    let mut h = f.hunks.pop().unwrap();
    let on_old = !matches!(kind, LineKind::Add);
    let on_new = !matches!(kind, LineKind::Del);
    let old_no = if on_old {
        Some(st.old_no)
    } else {
        None
    };
    let new_no = if on_new {
        Some(st.new_no)
    } else {
        None
    };
    h.lines.push(Line { kind, content: string_from(content), old_no, new_no, spans: None });
    f.hunks.push(h);
    st.files.push(f);
    if on_old {
        st.old_no = if st.old_no == u32::MAX {
            0
        } else {
            st.old_no + 1
        };
    }
    if on_new {
        st.new_no = if st.new_no == u32::MAX {
            0
        } else {
            st.new_no + 1
        };
    }
    let ghost s0 = old(st)@;
    let ghost f0 = s0.files.last();
    let ghost h0 = f0.hunks.last();
    assert(lines_view(h.lines@) =~= h0.lines.push(
        LineView { kind, content: content@, old_no, new_no, spans: None },
    ));
    assert(hunks_view(f.hunks@) =~= f0.hunks.update(f0.hunks.len() - 1, h@));
    assert(st@ =~= numbered_line(s0, kind, content@));
}

#[verifier::rlimit(60)]
fn step_exec(st: &mut ParseState, raw: &[char])
    ensures
        final(st)@ == step(old(st)@, raw@),
{
    reveal(step);
    assert(raw@.skip(0) =~= raw@);
    if starts_with_at(raw, 0, "diff --git ") {
        open_file(st, raw);
        return;
    }
    if st.files.len() == 0 {
        return;
    }
    let ghost s0 = st@;
    let n = st.files.len();
    if starts_with_at(raw, 0, "new file mode") {
        let mut f = st.files.pop().unwrap();
        f.status = FileStatus::Added;
        st.files.push(f);
        assert(st@ =~= step(s0, raw@));
    } else if starts_with_at(raw, 0, "deleted file mode") {
        let mut f = st.files.pop().unwrap();
        f.status = FileStatus::Deleted;
        let mut op: Option<String> = None;
        std::mem::swap(&mut op, &mut f.old_path);
        match op {
            Some(o) => {
                f.path = o;
            },
            None => {},
        }
        st.files.push(f);
        assert(st@ =~= step(s0, raw@));
    } else if starts_with_at(raw, 0, "rename from ") {
        let m = "rename from ".unicode_len();
        let from = &raw[m..raw.len()];
        assert(from@ =~= raw@.skip(m as int));
        let mut f = st.files.pop().unwrap();
        f.status = FileStatus::Renamed;
        f.old_path = Some(string_from(from));
        st.files.push(f);
        assert(st@ =~= step(s0, raw@));
    } else if starts_with_at(raw, 0, "rename to ") {
        let mut f = st.files.pop().unwrap();
        f.status = FileStatus::Renamed;
        st.files.push(f);
        assert(st@ =~= step(s0, raw@));
    } else if starts_with_at(raw, 0, "Binary files ") {
        let mut f = st.files.pop().unwrap();
        f.is_binary = true;
        st.files.push(f);
        assert(st@ =~= step(s0, raw@));
    } else if starts_with_at(raw, 0, "@@ ") {
        let m = "@@ ".unicode_len();
        let hdr = &raw[m..raw.len()];
        assert(hdr@ =~= raw@.skip(m as int));
        match parse_hunk_header_chars(hdr) {
            Some(h) => {
                let ghost hv = h@;
                let mut f = st.files.pop().unwrap();
                let ghost fh = f.hunks@;
                st.old_no = h.old_start;
                st.new_no = h.new_start;
                f.hunks.push(h);
                assert(hunks_view(f.hunks@) =~= hunks_view(fh).push(hv));
                st.files.push(f);
                assert(st@ =~= step(s0, raw@));
            },
            None => {},
        }
    } else if st.files[n - 1].hunks.len() > 0 && raw.len() > 0 {
        let c = raw[0];
        let kind = if c == ' ' {
            LineKind::Context
        } else if c == '+' {
            LineKind::Add
        } else if c == '-' {
            LineKind::Del
        } else {
            return;
        };
        let content = &raw[1..raw.len()];
        assert(content@ =~= raw@.drop_first());
        add_line(st, kind, content);
    }
}

/// End of the run of lines of `kind` that starts at `i`.
pub open spec fn run_end(lines: Seq<LineView>, i: int, kind: LineKind) -> int
    decreases lines.len() - i,
{
    if 0 <= i < lines.len() && lines[i].kind == kind {
        run_end(lines, i + 1, kind)
    } else {
        i
    }
}

pub proof fn lemma_run_end(lines: Seq<LineView>, i: int, kind: LineKind)
    requires
        0 <= i <= lines.len(),
    ensures
        i <= run_end(lines, i, kind) <= lines.len(),
        i < lines.len() && lines[i].kind == kind ==> run_end(lines, i, kind) > i,
        forall|k: int| i <= k < run_end(lines, i, kind) ==> lines[k].kind == kind,
    decreases lines.len() - i,
{
    if i < lines.len() && lines[i].kind == kind {
        lemma_run_end(lines, i + 1, kind);
    }
}

/// `l` with spans `sp`.
pub open spec fn with_spans(l: LineView, sp: Seq<SpanView>) -> LineView {
    LineView { spans: Some(sp), ..l }
}

/// `lines` with the `n` lines from `ds` on paired, in order, with the `n`
/// lines from `as_` on: each side gets its spans of the word diff of the pair.
pub open spec fn paired(lines: Seq<LineView>, ds: int, as_: int, n: int) -> Seq<LineView> {
    Seq::new(
        lines.len(),
        |j: int|
            if ds <= j < ds + n {
                with_spans(
                    lines[j],
                    old_spans(word_diff(lines[j].content, lines[as_ + (j - ds)].content)),
                )
            } else if as_ <= j < as_ + n {
                with_spans(
                    lines[j],
                    new_spans(word_diff(lines[ds + (j - as_)].content, lines[j].content)),
                )
            } else {
                lines[j]
            },
    )
}

/// The lines from `i` on annotated: each run of deleted lines is paired with
/// the run of added lines right after it, the k-th deleted line with the k-th
/// added line, as far as the shorter run reaches.
pub open spec fn annotate_from(lines: Seq<LineView>, i: int) -> Seq<LineView>
    decreases lines.len() - i,
    via annotate_from_decreases
{
    if i < 0 || i >= lines.len() {
        lines
    } else if lines[i].kind != LineKind::Del {
        annotate_from(lines, i + 1)
    } else {
        let de = run_end(lines, i, LineKind::Del);
        let ae = run_end(lines, de, LineKind::Add);
        let n = if de - i < ae - de {
            de - i
        } else {
            ae - de
        };
        annotate_from(paired(lines, i, de, n), ae)
    }
}

#[via_fn]
proof fn annotate_from_decreases(lines: Seq<LineView>, i: int) {
    if 0 <= i < lines.len() && lines[i].kind == LineKind::Del {
        lemma_run_end(lines, i, LineKind::Del);
        lemma_run_end(lines, run_end(lines, i, LineKind::Del), LineKind::Add);
    }
}

/// The lines of a hunk with their intra-line spans.
pub open spec fn annotate_lines(lines: Seq<LineView>) -> Seq<LineView> {
    annotate_from(lines, 0)
}

pub open spec fn annotate_hunk(h: HunkView) -> HunkView {
    HunkView { lines: annotate_lines(h.lines), ..h }
}

pub open spec fn annotate_file(f: FileDiffView) -> FileDiffView {
    FileDiffView { hunks: f.hunks.map_values(|h: HunkView| annotate_hunk(h)), ..f }
}

/// The spans of a line, where it has them, spell its content, and
/// neighbouring spans differ in their flag.
pub open spec fn line_spans_ok(l: LineView) -> bool {
    l.spans matches Some(sp) ==> spans_text(sp) == l.content && spans_alternate(sp)
}

pub open spec fn lines_spans_ok(lines: Seq<LineView>) -> bool {
    forall|k: int| 0 <= k < lines.len() ==> line_spans_ok(#[trigger] lines[k])
}

pub open spec fn hunks_spans_ok(hunks: Seq<HunkView>) -> bool {
    forall|k: int| 0 <= k < hunks.len() ==> lines_spans_ok(#[trigger] hunks[k].lines)
}

pub open spec fn files_spans_ok(files: Seq<FileDiffView>) -> bool {
    forall|k: int| 0 <= k < files.len() ==> hunks_spans_ok(#[trigger] files[k].hunks)
}

fn placeholder_line() -> (l: Line)
    ensures
        l@ == (LineView { kind: LineKind::Context, content: seq![], old_no: None, new_no: None, spans: None }),
{
    Line { kind: LineKind::Context, content: String::new(), old_no: None, new_no: None, spans: None }
}

fn set_spans(lines: &mut Vec<Line>, j: usize, sp: Vec<Span>)
    requires
        j < old(lines)@.len(),
    ensures
        final(lines)@.len() == old(lines)@.len(),
        lines_view(final(lines)@) == lines_view(old(lines)@).update(
            j as int,
            with_spans(old(lines)@[j as int]@, spans_view(sp@)),
        ),
{
    let mut l = placeholder_line();
    lines.set_and_swap(j, &mut l);
    l.spans = Some(sp);
    lines.set_and_swap(j, &mut l);
    assert(lines_view(lines@) =~= lines_view(old(lines)@).update(
        j as int,
        with_spans(old(lines)@[j as int]@, spans_view(sp@)),
    ));
}

fn run_end_exec(lines: &Vec<Line>, i: usize, kind: LineKind) -> (e: usize)
    requires
        i <= lines@.len(),
    ensures
        e == run_end(lines_view(lines@), i as int, kind),
{
    let n = lines.len();
    let mut e = i;
    while e < n && lines[e].kind == kind
        invariant
            i <= e <= n,
            n == lines@.len(),
            run_end(lines_view(lines@), i as int, kind) == run_end(lines_view(lines@), e as int, kind),
        decreases n - e,
    {
        e = e + 1;
    }
    e
}

/// Gives each run of deleted lines directly followed by a run of added
/// lines intra-line spans, pairing the runs line by line in order.
pub fn annotate_intraline(h: &mut Hunk)
    ensures
        final(h)@ == annotate_hunk(old(h)@),
        lines_spans_ok(old(h)@.lines) ==> lines_spans_ok(final(h)@.lines),
{
    let ghost orig = lines_view(h.lines@);
    let n = h.lines.len();
    let mut i: usize = 0;
    while i < n
        invariant
            n == h.lines@.len(),
            i <= n,
            annotate_lines(orig) == annotate_from(lines_view(h.lines@), i as int),
            lines_spans_ok(orig) ==> lines_spans_ok(lines_view(h.lines@)),
            h@ == (HunkView { lines: lines_view(h.lines@), ..old(h)@ }),
        decreases n - i,
    {
        if h.lines[i].kind != LineKind::Del {
            i = i + 1;
        } else {
            let ghost base = lines_view(h.lines@);
            let de = run_end_exec(&h.lines, i, LineKind::Del);
            proof {
                lemma_run_end(base, i as int, LineKind::Del);
            }
            let ae = run_end_exec(&h.lines, de, LineKind::Add);
            proof {
                lemma_run_end(base, de as int, LineKind::Add);
            }
            let pairs = if de - i < ae - de {
                de - i
            } else {
                ae - de
            };
            let mut k: usize = 0;
            assert(paired(base, i as int, de as int, 0) =~= base);
            while k < pairs
                invariant
                    n == h.lines@.len(),
                    n == base.len(),
                    i + pairs <= de,
                    de + pairs <= ae <= n,
                    k <= pairs,
                    lines_view(h.lines@) == paired(base, i as int, de as int, k as int),
                    lines_spans_ok(orig) ==> lines_spans_ok(lines_view(h.lines@)),
                    h@ == (HunkView { lines: lines_view(h.lines@), ..old(h)@ }),
                decreases pairs - k,
            {
                let ghost cur = lines_view(h.lines@);
                assert(cur[i + k] == base[i + k]);
                assert(cur[de + k] == base[de + k]);
                let (o, nw) = char_spans(h.lines[i + k].content.as_str(), h.lines[de + k].content.as_str());
                let ghost so = spans_view(o@);
                let ghost sn = spans_view(nw@);
                set_spans(&mut h.lines, i + k, o);
                let ghost mid = lines_view(h.lines@);
                assert(mid[de + k] == h.lines@[de + k as int]@);
                assert(mid == cur.update(i + k, with_spans(cur[i + k], so)));
                set_spans(&mut h.lines, de + k, nw);
                assert(lines_view(h.lines@) == mid.update(de + k, with_spans(mid[de + k], sn)));
                let ghost next = paired(base, i as int, de as int, k + 1);
                assert(so == old_spans(word_diff(base[i + k].content, base[de + k].content)));
                assert(sn == new_spans(word_diff(base[i + k].content, base[de + k].content)));
                assert(next[i + k] == with_spans(base[i + k], so));
                assert(next[de + k] == with_spans(base[de + k], sn));
                assert forall|j: int| 0 <= j < n && j != i + k && j != de + k implies next[j]
                    == cur[j] by {}
                assert(lines_view(h.lines@) =~= next);
                assert(lines_spans_ok(orig) ==> lines_spans_ok(lines_view(h.lines@))) by {
                    let now = lines_view(h.lines@);
                    assert forall|j: int| 0 <= j < now.len() && lines_spans_ok(orig) implies line_spans_ok(#[trigger] now[j]) by {
                        if j != i + k && j != de + k {
                            assert(now[j] == cur[j]);
                        }
                    }
                }
                k = k + 1;
            }
            i = ae;
        }
    }
    assert(h@ =~= annotate_hunk(old(h)@));
}

/// The state before the first line.
pub open spec fn initial_state() -> PatchState {
    PatchState { files: seq![], old_no: 0, new_no: 0 }
}

/// The state after the lines `ls`, starting from `st`.
pub open spec fn run_lines(st: PatchState, ls: Seq<Seq<char>>) -> PatchState
    decreases ls.len(),
{
    if ls.len() == 0 {
        st
    } else {
        run_lines(step(st, ls[0]), ls.drop_first())
    }
}

/// The files of `patch` (output of `git diff --patch --no-color`): its lines
/// read in order by `step`, then the lines of each hunk annotated.
pub open spec fn parse_patch_spec(patch: Seq<char>) -> Seq<FileDiffView> {
    run_lines(initial_state(), lines(patch)).files.map_values(|f: FileDiffView| annotate_file(f))
}

proof fn lemma_set_last_spans_ok(st: PatchState, g: FileDiffView)
    requires
        files_spans_ok(st.files),
        st.files.len() > 0,
        hunks_spans_ok(g.hunks),
    ensures
        files_spans_ok(st.files.update(st.files.len() - 1, g)),
{
    let r = st.files.update(st.files.len() - 1, g);
    assert forall|k: int| 0 <= k < r.len() implies hunks_spans_ok(#[trigger] r[k].hunks) by {
        if k < st.files.len() - 1 {
            assert(hunks_spans_ok(st.files[k].hunks));
        }
    }
}

proof fn lemma_step_spans_ok(st: PatchState, raw: Seq<char>)
    requires
        files_spans_ok(st.files),
    ensures
        files_spans_ok(step(st, raw).files),
{
    reveal(step);
    let r = step(st, raw);
    if starts_with(raw, "diff --git "@) {
        let nf = opened_file(raw.skip("diff --git "@.len() as int));
        assert(r.files == st.files.push(nf));
        assert forall|k: int| 0 <= k < r.files.len() implies hunks_spans_ok(#[trigger] r.files[k].hunks) by {
            if k < st.files.len() {
                assert(hunks_spans_ok(st.files[k].hunks));
            }
        }
    } else if st.files.len() > 0 {
        let f = st.files.last();
        assert(hunks_spans_ok(f.hunks));
        if starts_with(raw, "new file mode"@) || starts_with(raw, "deleted file mode"@)
            || starts_with(raw, "rename from "@) || starts_with(raw, "rename to "@)
            || starts_with(raw, "Binary files "@) {
            assert(r.files == st.files.update(st.files.len() - 1, r.files.last()));
            assert(r.files.last().hunks == f.hunks);
            lemma_set_last_spans_ok(st, r.files.last());
        } else if starts_with(raw, "@@ "@) {
            if let Some(h) = parse_hunk_header(raw.skip("@@ "@.len() as int)) {
                let g = FileDiffView { hunks: f.hunks.push(h), ..f };
                assert(r.files == st.files.update(st.files.len() - 1, g));
                assert forall|k: int| 0 <= k < g.hunks.len() implies lines_spans_ok(#[trigger] g.hunks[k].lines) by {
                    if k < f.hunks.len() {
                        assert(lines_spans_ok(f.hunks[k].lines));
                    }
                }
                lemma_set_last_spans_ok(st, g);
            }
        } else if f.hunks.len() > 0 && raw.len() > 0 && line_kind_of(raw[0]) is Some {
            let g = r.files.last();
            let h = f.hunks.last();
            assert(r.files == st.files.update(st.files.len() - 1, g));
            assert(lines_spans_ok(h.lines));
            assert forall|k: int| 0 <= k < g.hunks.len() implies lines_spans_ok(#[trigger] g.hunks[k].lines) by {
                if k < f.hunks.len() - 1 {
                    assert(lines_spans_ok(f.hunks[k].lines));
                } else {
                    let ls = g.hunks[k].lines;
                    assert forall|m: int| 0 <= m < ls.len() implies line_spans_ok(#[trigger] ls[m]) by {
                        if m < h.lines.len() {
                            assert(line_spans_ok(h.lines[m]));
                        }
                    }
                }
            }
            lemma_set_last_spans_ok(st, g);
        }
    }
}

proof fn lemma_run_lines_spans_ok(st: PatchState, ls: Seq<Seq<char>>)
    requires
        files_spans_ok(st.files),
    ensures
        files_spans_ok(run_lines(st, ls).files),
    decreases ls.len(),
{
    if ls.len() > 0 {
        lemma_step_spans_ok(st, ls[0]);
        lemma_run_lines_spans_ok(step(st, ls[0]), ls.drop_first());
    }
}

fn placeholder_hunk() -> (h: Hunk)
    ensures
        h@ == (HunkView { old_start: 0, old_lines: 0, new_start: 0, new_lines: 0, header: seq![], lines: seq![] }),
{
    Hunk { old_start: 0, old_lines: 0, new_start: 0, new_lines: 0, header: String::new(), lines: Vec::new() }
}

fn placeholder_file() -> (f: FileDiff)
    ensures
        f@ == (FileDiffView {
            path: seq![],
            old_path: None,
            status: FileStatus::Modified,
            is_binary: false,
            hunks: seq![],
        }),
{
    let f = FileDiff {
        path: String::new(),
        old_path: None,
        status: FileStatus::Modified,
        is_binary: false,
        hunks: Vec::new(),
    };
    assert(f@.hunks =~= Seq::<HunkView>::empty());
    f
}

fn annotate_file_exec(f: &mut FileDiff)
    requires
        hunks_spans_ok(old(f)@.hunks),
    ensures
        final(f)@ == annotate_file(old(f)@),
        hunks_spans_ok(final(f)@.hunks),
{
    let ghost orig = old(f)@;
    let n = f.hunks.len();
    let mut j: usize = 0;
    while j < n
        invariant
            n == f.hunks@.len(),
            n == orig.hunks.len(),
            j <= n,
            f@ == (FileDiffView { hunks: f@.hunks, ..orig }),
            forall|k: int| 0 <= k < j ==> f@.hunks[k] == annotate_hunk(orig.hunks[k]),
            forall|k: int| j <= k < n ==> f@.hunks[k] == orig.hunks[k],
            hunks_spans_ok(f@.hunks),
        decreases n - j,
    {
        let ghost before = f@.hunks;
        let mut h = placeholder_hunk();
        f.hunks.set_and_swap(j, &mut h);
        assert(h@ == before[j as int]);
        assert(lines_spans_ok(before[j as int].lines));
        annotate_intraline(&mut h);
        f.hunks.set_and_swap(j, &mut h);
        assert(f@.hunks =~= before.update(j as int, annotate_hunk(orig.hunks[j as int])));
        assert(hunks_spans_ok(f@.hunks)) by {
            let now = f@.hunks;
            assert forall|k: int| 0 <= k < now.len() implies lines_spans_ok(#[trigger] now[k].lines) by {
                if k != j {
                    assert(now[k] == before[k]);
                }
            }
        }
        j = j + 1;
    }
    assert(f@ =~= annotate_file(orig));
}

fn annotate_files_exec(files: &mut Vec<FileDiff>)
    requires
        files_spans_ok(files_view(old(files)@)),
    ensures
        files_view(final(files)@) == files_view(old(files)@).map_values(
            |f: FileDiffView| annotate_file(f),
        ),
        files_spans_ok(files_view(final(files)@)),
{
    let ghost orig = files_view(old(files)@);
    let n = files.len();
    let mut i: usize = 0;
    while i < n
        invariant
            n == files@.len(),
            n == orig.len(),
            i <= n,
            forall|k: int| 0 <= k < i ==> files_view(files@)[k] == annotate_file(orig[k]),
            forall|k: int| i <= k < n ==> files_view(files@)[k] == orig[k],
            files_spans_ok(files_view(files@)),
        decreases n - i,
    {
        let ghost before = files_view(files@);
        let mut f = placeholder_file();
        files.set_and_swap(i, &mut f);
        assert(f@ == before[i as int]);
        assert(hunks_spans_ok(before[i as int].hunks));
        annotate_file_exec(&mut f);
        files.set_and_swap(i, &mut f);
        assert(files_view(files@) =~= before.update(i as int, annotate_file(orig[i as int])));
        assert(files_spans_ok(files_view(files@))) by {
            let now = files_view(files@);
            assert forall|k: int| 0 <= k < now.len() implies hunks_spans_ok(#[trigger] now[k].hunks) by {
                if k != i {
                    assert(now[k] == before[k]);
                }
            }
        }
        i = i + 1;
    }
    assert(files_view(files@) =~= orig.map_values(|f: FileDiffView| annotate_file(f)));
}

/// Parses the output of `git diff --patch --no-color` into files, hunks and
/// numbered lines, with word-level spans on each deleted line that is paired
/// with an added line, and on that added line.
pub fn parse_patch(patch: &str) -> (files: Vec<FileDiff>)
    ensures
        files_view(files@) == parse_patch_spec(patch@),
        files_spans_ok(files_view(files@)),
{
    let cs = chars_of(patch);
    let s = cs.as_slice();
    let n = s.len();
    let mut st = ParseState { files: Vec::new(), old_no: 0, new_no: 0 };
    assert(st@ =~= initial_state());
    let mut i: usize = 0;
    while i < n
        invariant
            s@ == patch@,
            n == s@.len(),
            i <= n,
            run_lines(initial_state(), lines(patch@)) == run_lines(st@, lines_from(patch@, i as int)),
        decreases n - i,
    {
        let (end, e) = line_bounds(s, i);
        let raw = &s[i..end];
        let ghost ls = lines_from(patch@, i as int);
        assert(ls[0] == raw@);
        let ghost st0 = st@;
        step_exec(&mut st, raw);
        let next = if e < n {
            e + 1
        } else {
            n
        };
        assert(ls == seq![line_at(patch@, i as int)] + lines_from(patch@, e + 1));
        assert(lines_from(patch@, next as int) == lines_from(patch@, e + 1));
        assert(lines_from(patch@, next as int) =~= ls.drop_first());
        i = next;
    }
    assert(lines_from(patch@, i as int) =~= Seq::<Seq<char>>::empty());
    let mut files = st.files;
    proof {
        lemma_run_lines_spans_ok(initial_state(), lines(patch@));
    }
    annotate_files_exec(&mut files);
    files
}

/// The file that an untracked file with `content` shows as: added, with one
/// hunk of all its lines as added lines numbered from 1, or no hunk where it
/// has no lines.
pub open spec fn synthetic_added_spec(path: Seq<char>, content: Seq<char>) -> FileDiffView {
    let ls = lines(content);
    FileDiffView {
        path,
        old_path: None,
        status: FileStatus::Added,
        is_binary: false,
        hunks: if ls.len() == 0 {
            seq![]
        } else {
            seq![
                HunkView {
                    old_start: 0,
                    old_lines: 0,
                    new_start: 1,
                    new_lines: ls.len() as u32,
                    header: seq![],
                    lines: Seq::new(
                        ls.len(),
                        |i: int|
                            LineView {
                                kind: LineKind::Add,
                                content: ls[i],
                                old_no: None,
                                new_no: Some((i + 1) as u32),
                                spans: None,
                            },
                    ),
                },
            ]
        },
    }
}

/// Builds an all-added `FileDiff` for an untracked file.
pub fn synthetic_added(path: &str, content: &str) -> (f: FileDiff)
    requires
        lines(content@).len() <= u32::MAX,
    ensures
        f@ == synthetic_added_spec(path@, content@),
{
    let ls = split_lines(content);
    let n = ls.len();
    let ghost lv = lines(content@);
    assert(ls@.map_values(|l: String| l@).len() == n);
    let mut out: Vec<Line> = Vec::new();
    let mut i: usize = 0;
    while i < n
        invariant
            n == ls@.len(),
            n == lv.len(),
            n <= u32::MAX,
            ls@.map_values(|l: String| l@) == lv,
            i <= n,
            out@.len() == i,
            forall|k: int|
                0 <= k < i ==> (#[trigger] out@[k])@ == (LineView {
                    kind: LineKind::Add,
                    content: lv[k],
                    old_no: None,
                    new_no: Some((k + 1) as u32),
                    spans: None,
                }),
        decreases n - i,
    {
        assert(ls@[i as int]@ == lv[i as int]);
        let no = i as u32 + 1;
        out.push(Line { kind: LineKind::Add, content: ls[i].clone(), old_no: None, new_no: Some(no), spans: None });
        i = i + 1;
    }
    let hunks = if n == 0 {
        Vec::new()
    } else {
        let mut v = Vec::new();
        v.push(Hunk { old_start: 0, old_lines: 0, new_start: 1, new_lines: n as u32, header: String::new(), lines: out });
        v
    };
    let f = FileDiff {
        path: path.to_string(),
        old_path: None,
        status: FileStatus::Added,
        is_binary: false,
        hunks,
    };
    proof {
        let sp = synthetic_added_spec(path@, content@);
        if n > 0 {
            assert(f@.hunks[0].lines =~= sp.hunks[0].lines);
        }
        assert(f@.hunks =~= sp.hunks);
    }
    f
}

/// The decimal digit for `d` (below 10).
pub open spec fn digit_char(d: nat) -> char {
    if d == 0 {
        '0'
    } else if d == 1 {
        '1'
    } else if d == 2 {
        '2'
    } else if d == 3 {
        '3'
    } else if d == 4 {
        '4'
    } else if d == 5 {
        '5'
    } else if d == 6 {
        '6'
    } else if d == 7 {
        '7'
    } else if d == 8 {
        '8'
    } else {
        '9'
    }
}

/// `n` in decimal, without leading zeros.
pub open spec fn decimal(n: nat) -> Seq<char>
    decreases n,
{
    if n < 10 {
        seq![digit_char(n)]
    } else {
        decimal(n / 10).push(digit_char(n % 10))
    }
}

fn digit_str(d: u64) -> (r: &'static str)
    requires
        d < 10,
    ensures
        r@ == seq![digit_char(d as nat)],
{
    proof {
        reveal_strlit("0");
        reveal_strlit("1");
        reveal_strlit("2");
        reveal_strlit("3");
        reveal_strlit("4");
        reveal_strlit("5");
        reveal_strlit("6");
        reveal_strlit("7");
        reveal_strlit("8");
        reveal_strlit("9");
    }
    let r = if d == 0 {
        "0"
    } else if d == 1 {
        "1"
    } else if d == 2 {
        "2"
    } else if d == 3 {
        "3"
    } else if d == 4 {
        "4"
    } else if d == 5 {
        "5"
    } else if d == 6 {
        "6"
    } else if d == 7 {
        "7"
    } else if d == 8 {
        "8"
    } else {
        "9"
    };
    assert(r@ =~= seq![digit_char(d as nat)]);
    r
}

/// `n` written in decimal.
pub fn decimal_string(n: u64) -> (r: String)
    ensures
        r@ == decimal(n as nat),
    decreases n,
{
    if n < 10 {
        let mut s = String::new();
        s.append(digit_str(n));
        assert(s@ =~= decimal(n as nat));
        s
    } else {
        let mut s = decimal_string(n / 10);
        let ghost prefix = s@;
        s.append(digit_str(n % 10));
        assert(s@ =~= decimal(n as nat));
        s
    }
}

/// The mark a line of `kind` carries in a unified diff.
pub open spec fn line_mark(kind: LineKind) -> Seq<char> {
    match kind {
        LineKind::Context => " "@,
        LineKind::Add => "+"@,
        LineKind::Del => "-"@,
    }
}

/// The lines of a hunk as unified diff text, each marked and ended by a
/// newline.
pub open spec fn hunk_body(lines: Seq<LineView>) -> Seq<char>
    decreases lines.len(),
{
    if lines.len() == 0 {
        seq![]
    } else {
        hunk_body(lines.drop_last()) + line_mark(lines.last().kind) + lines.last().content
            + "\n"@
    }
}

/// The path a file had before the change.
pub open spec fn source_path(f: FileDiffView) -> Seq<char> {
    match f.old_path {
        Some(o) => o,
        None => f.path,
    }
}

/// The first line of a file's patch, naming its old and new path.
pub open spec fn git_line(f: FileDiffView) -> Seq<char> {
    "diff --git a/"@ + source_path(f) + " b/"@ + f.path
}

/// The line of a patch that names the old file.
pub open spec fn minus_line(f: FileDiffView) -> Seq<char> {
    "--- a/"@ + source_path(f)
}

/// The line of a patch that names the new file.
pub open spec fn plus_line(f: FileDiffView) -> Seq<char> {
    "+++ b/"@ + f.path
}

/// The header line of hunk `h`: its ranges between `"@@"`s, then its
/// header text after a space where it has one.
pub open spec fn range_line(h: HunkView) -> Seq<char> {
    "@@ -"@ + decimal(h.old_start as nat) + ","@ + decimal(h.old_lines as nat) + " +"@ + decimal(
        h.new_start as nat,
    ) + ","@ + decimal(h.new_lines as nat) + " @@"@ + (if h.header.len() > 0 {
        " "@ + h.header
    } else {
        seq![]
    })
}

/// A patch of the one hunk `h` of file `f`, for `git apply`: the file's
/// three header lines, the hunk's header line, and its lines, each line
/// ended by a newline.
pub open spec fn patch_of_hunk(f: FileDiffView, h: HunkView) -> Seq<char> {
    git_line(f) + "\n"@ + minus_line(f) + "\n"@ + plus_line(f) + "\n"@ + range_line(h) + "\n"@
        + hunk_body(h.lines)
}

/// The patch of hunk `i` of `f`, or `None` where `f` has no such hunk.
pub open spec fn hunk_patch_spec(f: FileDiffView, i: int) -> Option<Seq<char>> {
    if 0 <= i < f.hunks.len() {
        Some(patch_of_hunk(f, f.hunks[i]))
    } else {
        None
    }
}

fn push_line(s: &mut String, kind: LineKind, content: &str)
    ensures
        final(s)@ == old(s)@ + line_mark(kind) + content@ + "\n"@,
{
    match kind {
        LineKind::Context => s.append(" "),
        LineKind::Add => s.append("+"),
        LineKind::Del => s.append("-"),
    }
    s.append(content);
    s.append("\n");
}

fn push_header(s: &mut String, f: &FileDiff)
    ensures
        final(s)@ == old(s)@ + git_line(f@) + "\n"@ + minus_line(f@) + "\n"@ + plus_line(f@) + "\n"@,
{
    let old_path = match &f.old_path {
        Some(o) => o.as_str(),
        None => f.path.as_str(),
    };
    s.append("diff --git a/");
    s.append(old_path);
    s.append(" b/");
    s.append(f.path.as_str());
    s.append("\n");
    s.append("--- a/");
    s.append(old_path);
    s.append("\n");
    s.append("+++ b/");
    s.append(f.path.as_str());
    s.append("\n");
}

fn push_range_line(s: &mut String, h: &Hunk)
    ensures
        final(s)@ == old(s)@ + range_line(h@) + "\n"@,
{
    let ghost s0 = s@;
    s.append("@@ -");
    s.append(decimal_string(h.old_start as u64).as_str());
    s.append(",");
    s.append(decimal_string(h.old_lines as u64).as_str());
    s.append(" +");
    s.append(decimal_string(h.new_start as u64).as_str());
    s.append(",");
    s.append(decimal_string(h.new_lines as u64).as_str());
    s.append(" @@");
    if !h.header.as_str().is_empty() {
        s.append(" ");
        s.append(h.header.as_str());
    }
    let ghost s1 = s@;
    assert(s1 =~= s0 + range_line(h@));
    s.append("\n");
}

/// The patch of hunk `i` of `file` for `git apply`: file headers naming the
/// old and the new path, the hunk's header line, and its lines.
pub fn hunk_patch(file: &FileDiff, i: usize) -> (r: Option<String>)
    ensures
        match r {
            Some(p) => hunk_patch_spec(file@, i as int) == Some(p@),
            None => hunk_patch_spec(file@, i as int) is None,
        },
{
    if i >= file.hunks.len() {
        return None;
    }
    let h = &file.hunks[i];
    assert(hunks_view(file.hunks@)[i as int] == h@);
    let mut s = String::new();
    push_header(&mut s, file);
    push_range_line(&mut s, h);
    let ghost head = s@;
    let n = h.lines.len();
    let mut k: usize = 0;
    while k < n
        invariant
            n == h.lines@.len(),
            k <= n,
            s@ == head + hunk_body(h@.lines.take(k as int)),
        decreases n - k,
    {
        let l = &h.lines[k];
        push_line(&mut s, l.kind, l.content.as_str());
        assert(h@.lines.take(k + 1).drop_last() =~= h@.lines.take(k as int));
        assert(h@.lines.take(k + 1).last() == l@);
        k = k + 1;
    }
    assert(h@.lines.take(n as int) =~= h@.lines);
    assert(s@ =~= patch_of_hunk(file@, h@));
    Some(s)
}


} // verus!
