//! The patch of one hunk reads back as that hunk: parsing what
//! `hunk_patch` writes gives the file with just that hunk, and a hunk of a
//! parsed patch comes back unchanged.

use vstd::prelude::*;

use crate::diff::{
    FileDiffView, FileStatus, HunkView, LineKind, LineView, PatchState, annotate_file,
    annotate_hunk, decimal, digit_char, git_line, hunk_body, hunk_ranges, initial_state,
    line_kind_of, line_mark, minus_line, numbered_line, opened_file, parse_hunk_header,
    parse_patch_spec, parse_range, patch_of_hunk, plus_line, range_line, run_lines, source_path,
    split_git_paths, step,
};
use crate::diff_laws::{
    advance, hunk_numbered, lemma_advance_next, lemma_annotate_keeps_lines, lemma_counts_nonneg,
    lemma_counts_same, lemma_run_lines_numbered, lemma_run_lines_plain, line_numbered, new_count,
    old_count, same_but_spans,
};
use crate::text::{
    all_digits, digits_value, find, is_digit, is_space, lines, lines_from, newline_from, occurs_at,
    parse_u32, starts_with, trim, trim_end, trim_start, word_len, words,
};

verus! {

/// The pieces of `p`, each followed by a newline.
pub open spec fn join_lines(p: Seq<Seq<char>>) -> Seq<char>
    decreases p.len(),
{
    if p.len() == 0 {
        seq![]
    } else {
        p[0] + "\n"@ + join_lines(p.drop_first())
    }
}

/// A line that reads back as itself: no newline in it, and no carriage
/// return at its end.
pub open spec fn clean_line(s: Seq<char>) -> bool {
    &&& forall|k: int| 0 <= k < s.len() ==> s[k] != '\n'
    &&& !(s.len() > 0 && s.last() == '\r')
}

proof fn lemma_join_lines_add(a: Seq<Seq<char>>, b: Seq<Seq<char>>)
    ensures
        join_lines(a + b) == join_lines(a) + join_lines(b),
    decreases a.len(),
{
    if a.len() == 0 {
        assert(a + b =~= b);
        assert(join_lines(a) + join_lines(b) =~= join_lines(b));
    } else {
        assert((a + b).drop_first() =~= a.drop_first() + b);
        assert((a + b)[0] == a[0]);
        lemma_join_lines_add(a.drop_first(), b);
        assert(join_lines(a + b) =~= join_lines(a) + join_lines(b));
    }
}

proof fn lemma_newline_at(s: Seq<char>, i: int, e: int)
    requires
        0 <= i <= e < s.len(),
        s[e] == '\n',
        forall|k: int| i <= k < e ==> s[k] != '\n',
    ensures
        newline_from(s, i) == e,
    decreases e - i,
{
    if i < e {
        lemma_newline_from_step(s, i);
        lemma_newline_at(s, i + 1, e);
    }
}

proof fn lemma_newline_from_step(s: Seq<char>, i: int)
    requires
        0 <= i < s.len(),
        s[i] != '\n',
    ensures
        newline_from(s, i) == newline_from(s, i + 1),
{
}

/// The lines of clean pieces joined by newlines are the pieces.
pub proof fn lemma_lines_of_joined(pre: Seq<char>, p: Seq<Seq<char>>)
    requires
        forall|k: int| 0 <= k < p.len() ==> clean_line(#[trigger] p[k]),
    ensures
        lines_from(pre + join_lines(p), pre.len() as int) == p,
    decreases p.len(),
{
    reveal_strlit("\n");
    let s = pre + join_lines(p);
    if p.len() == 0 {
        assert(s =~= pre);
        assert(lines_from(s, pre.len() as int) =~= p);
    } else {
        let first = p[0];
        let rest = p.drop_first();
        let i = pre.len() as int;
        let e = i + first.len();
        let pre2 = pre + first + "\n"@;
        assert(s =~= pre2 + join_lines(rest));
        assert(clean_line(first));
        assert(s[e] == '\n');
        assert forall|k: int| i <= k < e implies s[k] != '\n' by {
            assert(s[k] == first[k - i]);
        }
        lemma_newline_at(s, i, e);
        assert(s.subrange(i, e) =~= first);
        assert forall|k: int| 0 <= k < rest.len() implies clean_line(#[trigger] rest[k]) by {
            assert(rest[k] == p[k + 1]);
        }
        lemma_lines_of_joined(pre2, rest);
        assert(pre2.len() == e + 1);
        assert(lines_from(s, i) =~= p);
    }
}

/// The lines of clean pieces joined by newlines are the pieces.
pub proof fn lemma_lines_joined(p: Seq<Seq<char>>)
    requires
        forall|k: int| 0 <= k < p.len() ==> clean_line(#[trigger] p[k]),
    ensures
        lines(join_lines(p)) == p,
{
    lemma_lines_of_joined(seq![], p);
    assert(Seq::<char>::empty() + join_lines(p) =~= join_lines(p));
}

/// A line of a hunk as the patch writes it: its mark, then its content.
pub open spec fn body_line(l: LineView) -> Seq<char> {
    line_mark(l.kind) + l.content
}

pub open spec fn body_lines(ls: Seq<LineView>) -> Seq<Seq<char>> {
    ls.map_values(|l: LineView| body_line(l))
}

/// The lines of the patch of hunk `h` of file `f`.
pub open spec fn patch_lines(f: FileDiffView, h: HunkView) -> Seq<Seq<char>> {
    seq![git_line(f), minus_line(f), plus_line(f), range_line(h)] + body_lines(h.lines)
}

proof fn lemma_join_one(x: Seq<char>)
    ensures
        join_lines(seq![x]) == x + "\n"@,
{
    assert(seq![x].drop_first() =~= Seq::<Seq<char>>::empty());
    assert(join_lines(seq![x].drop_first()) =~= Seq::<char>::empty());
    assert(join_lines(seq![x]) =~= x + "\n"@);
}

proof fn lemma_hunk_body_joined(ls: Seq<LineView>)
    ensures
        hunk_body(ls) == join_lines(body_lines(ls)),
    decreases ls.len(),
{
    if ls.len() > 0 {
        lemma_hunk_body_joined(ls.drop_last());
        let x = body_line(ls.last());
        assert(body_lines(ls) =~= body_lines(ls.drop_last()) + seq![x]);
        lemma_join_lines_add(body_lines(ls.drop_last()), seq![x]);
        lemma_join_one(x);
        assert(hunk_body(ls) =~= join_lines(body_lines(ls)));
    } else {
        assert(body_lines(ls) =~= Seq::<Seq<char>>::empty());
    }
}

/// The patch of a hunk is its lines, each followed by a newline.
proof fn lemma_patch_joined(f: FileDiffView, h: HunkView)
    ensures
        patch_of_hunk(f, h) == join_lines(patch_lines(f, h)),
{
    let head = seq![git_line(f), minus_line(f), plus_line(f), range_line(h)];
    lemma_join_lines_add(head, body_lines(h.lines));
    lemma_hunk_body_joined(h.lines);
    let t3 = seq![range_line(h)];
    let t2 = seq![plus_line(f)] + t3;
    let t1 = seq![minus_line(f)] + t2;
    assert(head =~= seq![git_line(f)] + t1);
    assert(head.drop_first() =~= t1);
    assert(t1.drop_first() =~= t2);
    assert(t2.drop_first() =~= t3);
    lemma_join_one(range_line(h));
    assert(join_lines(t2) == plus_line(f) + "\n"@ + join_lines(t3));
    assert(join_lines(t1) == minus_line(f) + "\n"@ + join_lines(t2));
    assert(join_lines(head) == git_line(f) + "\n"@ + join_lines(t1));
    assert(patch_of_hunk(f, h) =~= join_lines(patch_lines(f, h)));
}

pub proof fn lemma_run_lines_add(st: PatchState, a: Seq<Seq<char>>, b: Seq<Seq<char>>)
    ensures
        run_lines(st, a + b) == run_lines(run_lines(st, a), b),
    decreases a.len(),
{
    if a.len() == 0 {
        assert(a + b =~= b);
    } else {
        assert((a + b)[0] == a[0]);
        assert((a + b).drop_first() =~= a.drop_first() + b);
        lemma_run_lines_add(step(st, a[0]), a.drop_first(), b);
    }
}

proof fn lemma_run_lines_one(st: PatchState, x: Seq<char>)
    ensures
        run_lines(st, seq![x]) == step(st, x),
{
    reveal_with_fuel(run_lines, 2);
    assert(seq![x].drop_first() =~= Seq::<Seq<char>>::empty());
}

/// `find` gives the first place where `p` occurs.
pub proof fn lemma_find_is(s: Seq<char>, p: Seq<char>, i: int)
    requires
        occurs_at(s, p, i),
        forall|j: int| 0 <= j < i ==> !occurs_at(s, p, j),
    ensures
        find(s, p) == Some(i),
{
    let c = choose|c: int|
        #[trigger] occurs_at(s, p, c) && forall|j: int| 0 <= j < c ==> !occurs_at(s, p, j);
    assert(occurs_at(s, p, i) && forall|j: int| 0 <= j < i ==> !occurs_at(s, p, j));
    assert(c == i) by {
        if c < i {
            assert(!occurs_at(s, p, c));
        }
        if c > i {
            assert(!occurs_at(s, p, i));
        }
    }
}

proof fn lemma_no_early_b(src: Seq<char>, path: Seq<char>, j: int)
    requires
        find(src, " b/"@) is None,
        0 <= j < 2 + src.len(),
    ensures
        !occurs_at("a/"@ + src + " b/"@ + path, " b/"@, j),
{
    reveal_strlit("a/");
    reveal_strlit(" b/");
    let r = "a/"@ + src + " b/"@ + path;
    let idx: int = 2 + src.len() as int;
    if occurs_at(r, " b/"@, j) {
        let w = r.subrange(j, j + 3);
        assert(w[0] == ' ' && w[1] == 'b' && w[2] == '/');
        assert(r[j] == ' ' && r[j + 1] == 'b' && r[j + 2] == '/');
        assert(r[idx] == ' ');
        if j + 3 <= idx {
            assert(j >= 2);
            assert(src.subrange(j - 2, j + 1) =~= w);
            assert(occurs_at(src, " b/"@, j - 2));
        }
    }
}

/// The first line of a file's patch splits back into its two paths.
proof fn lemma_split_git_line(src: Seq<char>, path: Seq<char>)
    requires
        find(src, " b/"@) is None,
    ensures
        split_git_paths("a/"@ + src + " b/"@ + path) == (src, path),
{
    reveal_strlit("a/");
    reveal_strlit(" b/");
    let r = "a/"@ + src + " b/"@ + path;
    let idx: int = 2 + src.len() as int;
    assert(r.subrange(idx, idx + 3) =~= " b/"@);
    assert forall|j: int| 0 <= j < idx implies !occurs_at(r, " b/"@, j) by {
        lemma_no_early_b(src, path, j);
    }
    lemma_find_is(r, " b/"@, idx);
    let old = r.take(idx);
    assert(old =~= "a/"@ + src);
    assert(old.take(2) =~= "a/"@);
    assert(starts_with(old, "a/"@));
    assert(old.skip(2) =~= src);
    assert(r.skip(idx + 3) =~= path);
}

proof fn lemma_digit_char(d: nat)
    requires
        d < 10,
    ensures
        is_digit(digit_char(d)),
        digit_char(d) as int - 48 == d,
{
}

/// Decimal text is digits that write the number.
proof fn lemma_decimal(n: nat)
    ensures
        decimal(n).len() > 0,
        all_digits(decimal(n)),
        digits_value(decimal(n)) == n,
    decreases n,
{
    if n < 10 {
        lemma_digit_char(n);
        let d = decimal(n);
        assert(d == seq![digit_char(n)]);
        assert(d.drop_last() =~= Seq::<char>::empty());
        assert(digits_value(d.drop_last()) == 0);
        assert(d.last() == digit_char(n));
        assert(digits_value(d) == n);
    } else {
        lemma_decimal(n / 10);
        lemma_digit_char(n % 10);
        let d = decimal(n);
        assert(d.drop_last() =~= decimal(n / 10));
        assert(d.last() == digit_char(n % 10));
        assert(n == (n / 10) * 10 + n % 10) by (nonlinear_arith);
        assert(digits_value(d) == digits_value(decimal(n / 10)) * 10 + (n % 10));
        assert(digits_value(d) == n);
        assert forall|i: int| 0 <= i < d.len() implies is_digit(#[trigger] d[i]) by {
            if i < d.len() - 1 {
                assert(d[i] == decimal(n / 10)[i]);
            }
        }
    }
}

proof fn lemma_parse_decimal(n: u32)
    ensures
        parse_u32(decimal(n as nat)) == Some(n),
{
    lemma_decimal(n as nat);
    let d = decimal(n as nat);
    assert(is_digit(d[0]));
}

/// Two decimal numbers joined by a comma parse back as a range.
proof fn lemma_parse_range_decimal(a: u32, b: u32)
    ensures
        parse_range(decimal(a as nat) + ","@ + decimal(b as nat)) == Some((a, b)),
{
    reveal(parse_range);
    reveal_strlit(",");
    let da = decimal(a as nat);
    let db = decimal(b as nat);
    let s = da + ","@ + db;
    lemma_decimal(a as nat);
    assert(s.subrange(da.len() as int, da.len() as int + 1) =~= ","@);
    assert forall|j: int| 0 <= j < da.len() implies !occurs_at(s, ","@, j) by {
        assert(is_digit(da[j]));
        if occurs_at(s, ","@, j) {
            assert(s.subrange(j, j + 1)[0] == s[j]);
        }
    }
    lemma_find_is(s, ","@, da.len() as int);
    assert(s.take(da.len() as int) =~= da);
    assert(s.skip(da.len() as int + 1) =~= db);
    lemma_parse_decimal(a);
    lemma_parse_decimal(b);
}

proof fn lemma_word_len_of(w: Seq<char>, rest: Seq<char>)
    requires
        forall|k: int| 0 <= k < w.len() ==> !is_space(#[trigger] w[k]),
        rest.len() > 0,
        is_space(rest[0]),
    ensures
        word_len(w + rest) == w.len(),
    decreases w.len(),
{
    if w.len() > 0 {
        assert((w + rest).drop_first() =~= w.drop_first() + rest);
        assert(!is_space((w + rest)[0]));
        lemma_word_len_of(w.drop_first(), rest);
    } else {
        assert(w + rest =~= rest);
    }
}

/// The words of a word, a space, and more text.
proof fn lemma_words_cons(w: Seq<char>, rest: Seq<char>)
    requires
        w.len() > 0,
        forall|k: int| 0 <= k < w.len() ==> !is_space(#[trigger] w[k]),
    ensures
        words(w + " "@ + rest) == seq![w] + words(rest),
{
    reveal_strlit(" ");
    let s = w + " "@ + rest;
    assert(s[0] == w[0]);
    assert(trim_start(s) == s);
    let sp = " "@ + rest;
    assert(s =~= w + sp);
    lemma_word_len_of(w, sp);
    assert(s.take(w.len() as int) =~= w);
    assert(s.skip(w.len() as int) =~= sp);
    assert(is_space(sp[0]));
    assert(sp.drop_first() =~= rest);
    assert(trim_start(sp) == trim_start(rest));
    assert(words(sp) == words(rest));
    assert(words(s) == seq![w] + words(sp));
}

proof fn lemma_words_empty()
    ensures
        words(Seq::<char>::empty()) == Seq::<Seq<char>>::empty(),
{
}

/// A char of a hunk's ranges: a digit, `'-'`, `','` or `'+'`.
pub open spec fn range_char(c: char) -> bool {
    is_digit(c) || c == '-' || c == ',' || c == '+'
}

pub open spec fn range_chars(s: Seq<char>) -> bool {
    forall|k: int| 0 <= k < s.len() ==> range_char(#[trigger] s[k])
}

proof fn lemma_range_chars_add(a: Seq<char>, b: Seq<char>)
    requires
        range_chars(a),
        range_chars(b),
    ensures
        range_chars(a + b),
{
    assert forall|k: int| 0 <= k < (a + b).len() implies range_char(#[trigger] (a + b)[k]) by {
        if k < a.len() {
            assert((a + b)[k] == a[k]);
        } else {
            assert((a + b)[k] == b[k - a.len()]);
        }
    }
}

proof fn lemma_range_chars_not_space(s: Seq<char>)
    requires
        range_chars(s),
    ensures
        forall|k: int| 0 <= k < s.len() ==> !is_space(#[trigger] s[k]) && s[k] != '@',
{
    assert forall|k: int| 0 <= k < s.len() implies !is_space(#[trigger] s[k]) && s[k] != '@' by {
        assert(range_char(s[k]));
    }
}

/// One range of a hunk as the patch writes it: a sign, then the start and
/// the count.
#[verifier::opaque]
pub open spec fn range_word(sign: Seq<char>, start: u32, count: u32) -> Seq<char> {
    sign + decimal(start as nat) + ","@ + decimal(count as nat)
}

proof fn lemma_range_word(sign: Seq<char>, start: u32, count: u32)
    requires
        sign == "-"@ || sign == "+"@,
    ensures
        range_chars(range_word(sign, start, count)),
        range_word(sign, start, count).len() > 0,
        range_word(sign, start, count)[0] == sign[0],
{
    reveal(range_word);
    reveal_strlit("-");
    reveal_strlit("+");
    reveal_strlit(",");
    lemma_decimal(start as nat);
    lemma_decimal(count as nat);
    let da = decimal(start as nat);
    let db = decimal(count as nat);
    assert(range_chars(sign));
    assert(range_chars(","@));
    assert(range_chars(da)) by {
        assert forall|k: int| 0 <= k < da.len() implies range_char(#[trigger] da[k]) by {
            assert(is_digit(da[k]));
        }
    }
    assert(range_chars(db)) by {
        assert forall|k: int| 0 <= k < db.len() implies range_char(#[trigger] db[k]) by {
            assert(is_digit(db[k]));
        }
    }
    lemma_range_chars_add(sign, da);
    lemma_range_chars_add(sign + da, ","@);
    lemma_range_chars_add(sign + da + ","@, db);
}

proof fn lemma_range_word_parse(sign: Seq<char>, start: u32, count: u32)
    requires
        sign == "-"@ || sign == "+"@,
    ensures
        parse_range(range_word(sign, start, count).drop_first()) == Some((start, count)),
{
    reveal(range_word);
    reveal_strlit("-");
    reveal_strlit("+");
    let da = decimal(start as nat);
    let db = decimal(count as nat);
    assert(range_word(sign, start, count).drop_first() =~= da + ","@ + db);
    lemma_parse_range_decimal(start, count);
}

/// The text after a hunk's ranges on its header line.
pub open spec fn header_tail(h: HunkView) -> Seq<char> {
    if h.header.len() > 0 {
        " "@ + h.header
    } else {
        seq![]
    }
}

/// The ranges of a hunk's header line, each followed by a space.
#[verifier::opaque]
pub open spec fn ranges_text(h: HunkView) -> Seq<char> {
    range_word("-"@, h.old_start, h.old_lines) + " "@ + range_word("+"@, h.new_start, h.new_lines)
        + " "@
}

proof fn lemma_range_line_shape(h: HunkView)
    ensures
        range_line(h).skip(3) == ranges_text(h) + "@@"@ + header_tail(h),
{
    reveal(range_word);
    reveal(ranges_text);
    reveal_strlit("@@ -");
    reveal_strlit(" +");
    reveal_strlit(" @@");
    reveal_strlit("@@");
    reveal_strlit(" ");
    reveal_strlit("-");
    reveal_strlit("+");
    assert(range_line(h).skip(3) =~= ranges_text(h) + "@@"@ + header_tail(h));
}

proof fn lemma_find_at_signs(r: Seq<char>, tail: Seq<char>)
    requires
        no_at(r),
    ensures
        find(r + "@@"@ + tail, "@@"@) == Some(r.len() as int),
{
    reveal_strlit("@@");
    let s = r + "@@"@ + tail;
    let m = r.len() as int;
    assert(s.subrange(m, m + 2) =~= "@@"@);
    assert forall|j: int| 0 <= j < m implies !occurs_at(s, "@@"@, j) by {
        assert(s[j] == r[j]);
        if occurs_at(s, "@@"@, j) {
            assert(s.subrange(j, j + 2)[0] == s[j]);
        }
    }
    lemma_find_is(s, "@@"@, m);
}

pub open spec fn no_at(s: Seq<char>) -> bool {
    forall|k: int| 0 <= k < s.len() ==> s[k] != '@'
}

proof fn lemma_no_at_add(a: Seq<char>, b: Seq<char>)
    requires
        no_at(a),
        no_at(b),
    ensures
        no_at(a + b),
{
    assert forall|k: int| 0 <= k < (a + b).len() implies (a + b)[k] != '@' by {
        if k < a.len() {
            assert((a + b)[k] == a[k]);
        } else {
            assert((a + b)[k] == b[k - a.len()]);
        }
    }
}

proof fn lemma_ranges_no_at(h: HunkView)
    ensures
        no_at(ranges_text(h)),
{
    reveal(ranges_text);
    reveal_strlit(" ");
    let w1 = range_word("-"@, h.old_start, h.old_lines);
    let w2 = range_word("+"@, h.new_start, h.new_lines);
    lemma_range_word("-"@, h.old_start, h.old_lines);
    lemma_range_word("+"@, h.new_start, h.new_lines);
    lemma_range_chars_not_space(w1);
    lemma_range_chars_not_space(w2);
    assert(no_at(" "@));
    lemma_no_at_add(w1, " "@);
    lemma_no_at_add(w1 + " "@, w2);
    lemma_no_at_add(w1 + " "@ + w2, " "@);
}

proof fn lemma_two_words(w1: Seq<char>, w2: Seq<char>)
    requires
        w1.len() > 0,
        w2.len() > 0,
        forall|k: int| 0 <= k < w1.len() ==> !is_space(#[trigger] w1[k]),
        forall|k: int| 0 <= k < w2.len() ==> !is_space(#[trigger] w2[k]),
    ensures
        words(w1 + " "@ + w2 + " "@) == seq![w1, w2],
{
    lemma_words_cons(w2, Seq::<char>::empty());
    assert(w2 + " "@ + Seq::<char>::empty() =~= w2 + " "@);
    lemma_words_cons(w1, w2 + " "@);
    assert(w1 + " "@ + (w2 + " "@) =~= w1 + " "@ + w2 + " "@);
    lemma_words_empty();
    assert(words(w1 + " "@ + w2 + " "@) =~= seq![w1, w2]);
}

proof fn lemma_ranges_words(h: HunkView)
    ensures
        words(ranges_text(h)) == seq![
            range_word("-"@, h.old_start, h.old_lines),
            range_word("+"@, h.new_start, h.new_lines),
        ],
{
    reveal(ranges_text);
    let w1 = range_word("-"@, h.old_start, h.old_lines);
    let w2 = range_word("+"@, h.new_start, h.new_lines);
    lemma_range_word("-"@, h.old_start, h.old_lines);
    lemma_range_word("+"@, h.new_start, h.new_lines);
    lemma_range_chars_not_space(w1);
    lemma_range_chars_not_space(w2);
    lemma_two_words(w1, w2);
}

proof fn lemma_trim_tail(h: HunkView)
    requires
        trim(h.header) == h.header,
    ensures
        trim(header_tail(h)) == h.header,
{
    reveal_strlit(" ");
    let tail = header_tail(h);
    if h.header.len() > 0 {
        assert(is_space(tail[0]));
        assert(tail.drop_first() =~= h.header);
        assert(trim_start(tail) == trim_start(h.header));
    } else {
        assert(tail =~= h.header);
    }
}

proof fn lemma_hunk_ranges_from(
    r: Seq<char>,
    w1: Seq<char>,
    w2: Seq<char>,
    o: (u32, u32),
    n: (u32, u32),
)
    requires
        words(r) == seq![w1, w2],
        w1.len() > 0 && w1[0] == '-',
        w2.len() > 0 && w2[0] == '+',
        parse_range(w1.drop_first()) == Some(o),
        parse_range(w2.drop_first()) == Some(n),
    ensures
        hunk_ranges(r) == Some((o, n)),
{
}

#[verifier::spinoff_prover]
proof fn lemma_hunk_ranges_of(h: HunkView)
    ensures
        hunk_ranges(ranges_text(h)) == Some(((h.old_start, h.old_lines), (h.new_start, h.new_lines))),
{
    let w1 = range_word("-"@, h.old_start, h.old_lines);
    let w2 = range_word("+"@, h.new_start, h.new_lines);
    reveal_strlit("-");
    reveal_strlit("+");
    lemma_ranges_words(h);
    lemma_range_word("-"@, h.old_start, h.old_lines);
    lemma_range_word("+"@, h.new_start, h.new_lines);
    lemma_range_word_parse("-"@, h.old_start, h.old_lines);
    lemma_range_word_parse("+"@, h.new_start, h.new_lines);
    lemma_hunk_ranges_from(
        ranges_text(h),
        w1,
        w2,
        (h.old_start, h.old_lines),
        (h.new_start, h.new_lines),
    );
}

/// A hunk's header line, after its `"@@ "`, parses back as the hunk
/// without lines.
proof fn lemma_parse_range_line(h: HunkView)
    requires
        trim(h.header) == h.header,
    ensures
        parse_hunk_header(range_line(h).skip(3)) == Some(HunkView { lines: seq![], ..h }),
{
    let r = ranges_text(h);
    let tail = header_tail(h);
    let hdr = r + "@@"@ + tail;
    assert(range_line(h).skip(3) == hdr) by {
        lemma_range_line_shape(h);
    }
    lemma_parse_shaped(h, r, tail);
}

proof fn lemma_parse_shaped(h: HunkView, r: Seq<char>, tail: Seq<char>)
    requires
        trim(h.header) == h.header,
        r == ranges_text(h),
        tail == header_tail(h),
    ensures
        parse_hunk_header(r + "@@"@ + tail) == Some(HunkView { lines: seq![], ..h }),
{
    reveal_strlit("@@");
    let hdr = r + "@@"@ + tail;
    let m = r.len() as int;
    assert(find(hdr, "@@"@) == Some(m)) by {
        lemma_ranges_no_at(h);
        lemma_find_at_signs(r, tail);
    }
    lemma_around_at_signs(r, tail);
    assert(trim(tail) == h.header) by {
        lemma_trim_tail(h);
    }
    assert(hunk_ranges(r) == Some(((h.old_start, h.old_lines), (h.new_start, h.new_lines)))) by {
        lemma_hunk_ranges_of(h);
    }
    assert(parse_hunk_header(hdr) =~~= Some(HunkView { lines: seq![], ..h }));
}

proof fn lemma_around_at_signs(r: Seq<char>, t: Seq<char>)
    ensures
        (r + "@@"@ + t).take(r.len() as int) == r,
        (r + "@@"@ + t).skip(r.len() as int + 2) == t,
{
    reveal_strlit("@@");
    assert((r + "@@"@ + t).take(r.len() as int) =~= r);
    assert((r + "@@"@ + t).skip(r.len() as int + 2) =~= t);
}

proof fn lemma_not_starts(raw: Seq<char>, p: Seq<char>)
    requires
        p.len() > 0,
        raw.len() > 0,
        raw[0] != p[0],
    ensures
        !starts_with(raw, p),
{
    if starts_with(raw, p) {
        assert(raw.take(p.len() as int)[0] == raw[0]);
    }
}

/// The file that the first line of a hunk's patch opens.
pub open spec fn reopened(f: FileDiffView) -> FileDiffView {
    FileDiffView {
        path: f.path,
        old_path: if source_path(f) != f.path {
            Some(source_path(f))
        } else {
            None
        },
        status: FileStatus::Modified,
        is_binary: false,
        hunks: seq![],
    }
}

#[verifier::spinoff_prover]
#[verifier::rlimit(60)]
proof fn lemma_step_git_line(f: FileDiffView)
    requires
        find(source_path(f), " b/"@) is None,
    ensures
        step(initial_state(), git_line(f)) == (PatchState {
            files: seq![reopened(f)],
            old_no: 0,
            new_no: 0,
        }),
{
    reveal(step);
    reveal_strlit("diff --git ");
    reveal_strlit("diff --git a/");
    reveal_strlit("a/");
    let raw = git_line(f);
    assert(raw.take(11) =~= "diff --git "@);
    assert(raw.skip(11) =~= "a/"@ + source_path(f) + " b/"@ + f.path);
    lemma_split_git_line(source_path(f), f.path);
    assert(opened_file(raw.skip(11)) == reopened(f));
    assert(step(initial_state(), raw) =~= PatchState { files: seq![reopened(f)], old_no: 0, new_no: 0 });
}

/// A line that starts with a line mark adds a line to the last hunk, where
/// the last file has one.
proof fn lemma_step_plain(st: PatchState, raw: Seq<char>)
    requires
        st.files.len() > 0,
        raw.len() > 0,
        raw[0] == ' ' || raw[0] == '+' || raw[0] == '-',
    ensures
        step(st, raw) == if st.files.last().hunks.len() > 0 {
            numbered_line(st, line_kind_of(raw[0]).unwrap(), raw.drop_first())
        } else {
            st
        },
{
    reveal(step);
    reveal_strlit("diff --git ");
    reveal_strlit("new file mode");
    reveal_strlit("deleted file mode");
    reveal_strlit("rename from ");
    reveal_strlit("rename to ");
    reveal_strlit("Binary files ");
    reveal_strlit("@@ ");
    lemma_not_starts(raw, "diff --git "@);
    lemma_not_starts(raw, "new file mode"@);
    lemma_not_starts(raw, "deleted file mode"@);
    lemma_not_starts(raw, "rename from "@);
    lemma_not_starts(raw, "rename to "@);
    lemma_not_starts(raw, "Binary files "@);
    lemma_not_starts(raw, "@@ "@);
}

/// A hunk's header line opens that hunk, without lines, in the last file.
proof fn lemma_step_range(st: PatchState, h: HunkView)
    requires
        st.files.len() > 0,
        trim(h.header) == h.header,
    ensures
        step(st, range_line(h)) == (PatchState {
            files: st.files.update(
                st.files.len() - 1,
                FileDiffView {
                    hunks: st.files.last().hunks.push(HunkView { lines: seq![], ..h }),
                    ..st.files.last()
                },
            ),
            old_no: h.old_start,
            new_no: h.new_start,
        }),
{
    reveal(step);
    reveal_strlit("diff --git ");
    reveal_strlit("new file mode");
    reveal_strlit("deleted file mode");
    reveal_strlit("rename from ");
    reveal_strlit("rename to ");
    reveal_strlit("Binary files ");
    reveal_strlit("@@ ");
    reveal_strlit("@@ -");
    let raw = range_line(h);
    assert(raw[0] == '@');
    lemma_not_starts(raw, "diff --git "@);
    lemma_not_starts(raw, "new file mode"@);
    lemma_not_starts(raw, "deleted file mode"@);
    lemma_not_starts(raw, "rename from "@);
    lemma_not_starts(raw, "rename to "@);
    lemma_not_starts(raw, "Binary files "@);
    assert(raw.take(3) =~= "@@ "@);
    lemma_parse_range_line(h);
}

/// Line `k` of `h` as the parser numbers it when it reads the patch of
/// `h`: kind and content kept, numbers counted on from the hunk's starts,
/// no spans yet.
pub open spec fn renumbered_line(h: HunkView, k: int) -> LineView {
    let l = h.lines[k];
    LineView {
        kind: l.kind,
        content: l.content,
        old_no: if l.kind != LineKind::Add {
            Some(advance(h.old_start, old_count(h.lines.take(k))))
        } else {
            None
        },
        new_no: if l.kind != LineKind::Del {
            Some(advance(h.new_start, new_count(h.lines.take(k))))
        } else {
            None
        },
        spans: None,
    }
}

pub open spec fn renumbered(h: HunkView) -> Seq<LineView> {
    Seq::new(h.lines.len(), |k: int| renumbered_line(h, k))
}

/// The parser's state after the first `k` lines of the body of the patch
/// of hunk `h` of `f`.
pub open spec fn body_state(f: FileDiffView, h: HunkView, k: int) -> PatchState {
    PatchState {
        files: seq![
            FileDiffView {
                hunks: seq![HunkView { lines: renumbered(h).take(k), ..h }],
                ..reopened(f)
            },
        ],
        old_no: advance(h.old_start, old_count(h.lines.take(k))),
        new_no: advance(h.new_start, new_count(h.lines.take(k))),
    }
}

proof fn lemma_body_step(f: FileDiffView, h: HunkView, k: int)
    requires
        0 <= k < h.lines.len(),
    ensures
        step(body_state(f, h, k), body_line(h.lines[k])) == body_state(f, h, k + 1),
{
    reveal_strlit(" ");
    reveal_strlit("+");
    reveal_strlit("-");
    let st = body_state(f, h, k);
    let l = h.lines[k];
    let raw = body_line(l);
    assert(raw[0] == line_mark(l.kind)[0]);
    assert(line_kind_of(raw[0]) == Some(l.kind));
    assert(raw.drop_first() =~= l.content);
    lemma_step_plain(st, raw);
    let pre = h.lines.take(k);
    assert(h.lines.take(k + 1).drop_last() =~= pre);
    assert(h.lines.take(k + 1).last() == l);
    lemma_counts_nonneg(pre);
    lemma_advance_next(h.old_start, old_count(pre));
    lemma_advance_next(h.new_start, new_count(pre));
    assert(renumbered(h).take(k + 1) =~= renumbered(h).take(k).push(renumbered_line(h, k)));
    assert(numbered_line(st, l.kind, l.content) =~~= body_state(f, h, k + 1));
}

proof fn lemma_body_run(f: FileDiffView, h: HunkView, k: int)
    requires
        0 <= k <= h.lines.len(),
    ensures
        run_lines(body_state(f, h, 0), body_lines(h.lines.take(k))) == body_state(f, h, k),
    decreases k,
{
    if k == 0 {
        assert(body_lines(h.lines.take(0)) =~= Seq::<Seq<char>>::empty());
    } else {
        lemma_body_run(f, h, k - 1);
        let x = body_line(h.lines[k - 1]);
        assert(body_lines(h.lines.take(k)) =~= body_lines(h.lines.take(k - 1)) + seq![x]);
        lemma_run_lines_add(body_state(f, h, 0), body_lines(h.lines.take(k - 1)), seq![x]);
        lemma_run_lines_one(body_state(f, h, k - 1), x);
        lemma_body_step(f, h, k - 1);
    }
}

/// No newline in `s`.
pub open spec fn no_newline(s: Seq<char>) -> bool {
    forall|k: int| 0 <= k < s.len() ==> s[k] != '\n'
}

proof fn lemma_clean_cat(a: Seq<char>, b: Seq<char>)
    requires
        no_newline(a),
        clean_line(b),
        b.len() == 0 ==> clean_line(a),
    ensures
        clean_line(a + b),
{
    assert forall|k: int| 0 <= k < (a + b).len() implies (a + b)[k] != '\n' by {
        if k < a.len() {
            assert((a + b)[k] == a[k]);
        } else {
            assert((a + b)[k] == b[k - a.len()]);
        }
    }
    if b.len() > 0 {
        assert((a + b).last() == b.last());
    } else {
        assert(a + b =~= a);
    }
}

proof fn lemma_no_newline_add(a: Seq<char>, b: Seq<char>)
    requires
        no_newline(a),
        no_newline(b),
    ensures
        no_newline(a + b),
{
    assert forall|k: int| 0 <= k < (a + b).len() implies (a + b)[k] != '\n' by {
        if k < a.len() {
            assert((a + b)[k] == a[k]);
        } else {
            assert((a + b)[k] == b[k - a.len()]);
        }
    }
}

proof fn lemma_trim_start_len(s: Seq<char>)
    ensures
        trim_start(s).len() <= s.len(),
        trim_start(s).len() == s.len() ==> trim_start(s) == s,
    decreases s.len(),
{
    if s.len() > 0 && is_space(s[0]) {
        lemma_trim_start_len(s.drop_first());
    }
}

proof fn lemma_trim_end_len(s: Seq<char>)
    ensures
        trim_end(s).len() <= s.len(),
        s.len() > 0 && is_space(s.last()) ==> trim_end(s).len() < s.len(),
    decreases s.len(),
{
    if s.len() > 0 && is_space(s.last()) {
        lemma_trim_end_len(s.drop_last());
    }
}

/// A trimmed text does not end with whitespace.
proof fn lemma_trimmed_last(s: Seq<char>)
    requires
        trim(s) == s,
        s.len() > 0,
    ensures
        !is_space(s.last()),
{
    lemma_trim_start_len(s);
    lemma_trim_end_len(trim_start(s));
    lemma_trim_end_len(s);
}

proof fn lemma_ranges_no_newline(h: HunkView)
    ensures
        no_newline(ranges_text(h)),
{
    reveal(ranges_text);
    reveal_strlit(" ");
    let w1 = range_word("-"@, h.old_start, h.old_lines);
    let w2 = range_word("+"@, h.new_start, h.new_lines);
    lemma_range_word("-"@, h.old_start, h.old_lines);
    lemma_range_word("+"@, h.new_start, h.new_lines);
    assert(no_newline(w1)) by {
        assert forall|k: int| 0 <= k < w1.len() implies w1[k] != '\n' by {
            assert(range_char(w1[k]));
        }
    }
    assert(no_newline(w2)) by {
        assert forall|k: int| 0 <= k < w2.len() implies w2[k] != '\n' by {
            assert(range_char(w2[k]));
        }
    }
    assert(no_newline(" "@));
    lemma_no_newline_add(w1, " "@);
    lemma_no_newline_add(w1 + " "@, w2);
    lemma_no_newline_add(w1 + " "@ + w2, " "@);
}

proof fn lemma_range_line_clean(h: HunkView)
    requires
        trim(h.header) == h.header,
        no_newline(h.header),
    ensures
        clean_line(range_line(h)),
{
    reveal_strlit("@@ ");
    reveal_strlit("@@");
    reveal_strlit(" ");
    let tail = header_tail(h);
    let pre = "@@ "@ + ranges_text(h) + "@@"@;
    lemma_range_line_shape(h);
    assert(range_line(h).take(3) =~= "@@ "@) by {
        reveal_strlit("@@ -");
    }
    assert(range_line(h) =~= "@@ "@ + range_line(h).skip(3));
    assert(range_line(h) =~= pre + tail);
    lemma_ranges_no_newline(h);
    assert(no_newline("@@ "@));
    assert(no_newline("@@"@));
    lemma_no_newline_add("@@ "@, ranges_text(h));
    lemma_no_newline_add("@@ "@ + ranges_text(h), "@@"@);
    assert(pre.last() == '@');
    assert(clean_line(pre));
    if h.header.len() > 0 {
        lemma_trimmed_last(h.header);
        assert(is_space('\r'));
        assert(tail.last() == h.header.last());
        assert(no_newline(" "@));
        lemma_no_newline_add(" "@, h.header);
        assert(tail == " "@ + h.header);
    }
    lemma_clean_cat(pre, tail);
}

/// The patch of hunk `h` of `f` reads back as that hunk: the file's old
/// path holds no `" b/"`, neither path nor any line of the hunk holds a
/// newline or ends with a carriage return, and the hunk's header text is
/// trimmed and holds no newline.
pub open spec fn hunk_patch_readable(f: FileDiffView, h: HunkView) -> bool {
    &&& find(source_path(f), " b/"@) is None
    &&& clean_line(source_path(f))
    &&& clean_line(f.path)
    &&& trim(h.header) == h.header
    &&& no_newline(h.header)
    &&& forall|k: int| 0 <= k < h.lines.len() ==> clean_line(#[trigger] h.lines[k].content)
}

/// The file that parsing the patch of hunk `h` of `f` gives: the paths of
/// `f` (the old one where it differs), modified, with `h` as its only hunk,
/// its lines numbered from the hunk's starts and annotated afresh.
pub open spec fn reparsed(f: FileDiffView, h: HunkView) -> FileDiffView {
    annotate_file(FileDiffView { hunks: seq![HunkView { lines: renumbered(h), ..h }], ..reopened(f) })
}

proof fn lemma_patch_lines_clean(f: FileDiffView, h: HunkView)
    requires
        hunk_patch_readable(f, h),
    ensures
        forall|k: int| 0 <= k < patch_lines(f, h).len() ==> clean_line(#[trigger] patch_lines(f, h)[k]),
{
    reveal_strlit("diff --git a/");
    reveal_strlit(" b/");
    reveal_strlit("--- a/");
    reveal_strlit("+++ b/");
    reveal_strlit(" ");
    reveal_strlit("+");
    reveal_strlit("-");
    let src = source_path(f);
    let lit = "diff --git a/"@;
    assert(no_newline(lit));
    assert(no_newline(" b/"@));
    assert(clean_line(" b/"@));
    lemma_clean_cat(lit, src);
    lemma_no_newline_add(lit, src);
    lemma_clean_cat(lit + src, " b/"@);
    lemma_no_newline_add(lit + src, " b/"@);
    lemma_clean_cat(lit + src + " b/"@, f.path);
    assert(clean_line(git_line(f)));
    assert(no_newline("--- a/"@) && clean_line("--- a/"@));
    lemma_clean_cat("--- a/"@, src);
    assert(clean_line(minus_line(f)));
    assert(no_newline("+++ b/"@) && clean_line("+++ b/"@));
    lemma_clean_cat("+++ b/"@, f.path);
    assert(clean_line(plus_line(f)));
    lemma_range_line_clean(h);
    let p = patch_lines(f, h);
    assert forall|k: int| 0 <= k < p.len() implies clean_line(#[trigger] p[k]) by {
        if k >= 4 {
            let l = h.lines[k - 4];
            assert(p[k] == body_line(l));
            let m = line_mark(l.kind);
            assert(m.len() == 1 && m[0] != '\n' && m[0] != '\r');
            assert(no_newline(m));
            lemma_clean_cat(m, l.content);
        }
    }
}

/// What one hunk's patch reads back as: parsing the patch of hunk `h` of
/// `f` gives the one file with the paths of `f` and just that hunk, its
/// lines numbered on from the hunk's starts, wherever no path, header or
/// line of it holds a newline or ends with a carriage return, the old path
/// holds no `" b/"`, and the header text is trimmed.
pub proof fn law_hunk_patch_reads_back(f: FileDiffView, h: HunkView)
    requires
        hunk_patch_readable(f, h),
    ensures
        parse_patch_spec(patch_of_hunk(f, h)) == seq![reparsed(f, h)],
{
    let p = patch_lines(f, h);
    lemma_patch_joined(f, h);
    lemma_patch_lines_clean(f, h);
    lemma_lines_joined(p);
    let head = seq![git_line(f), minus_line(f), plus_line(f), range_line(h)];
    let body = body_lines(h.lines);
    lemma_run_lines_add(initial_state(), head, body);
    let st1 = PatchState { files: seq![reopened(f)], old_no: 0, new_no: 0 };
    lemma_step_git_line(f);
    reveal_strlit("--- a/");
    reveal_strlit("+++ b/");
    lemma_step_plain(st1, minus_line(f));
    lemma_step_plain(st1, plus_line(f));
    lemma_step_range(st1, h);
    lemma_advance_next(h.old_start, 0);
    lemma_advance_next(h.new_start, 0);
    assert(h.lines.take(0) =~= Seq::<LineView>::empty());
    assert(renumbered(h).take(0) =~= Seq::<LineView>::empty());
    assert(step(st1, range_line(h)) =~~= body_state(f, h, 0));
    reveal_with_fuel(run_lines, 5);
    assert(head.drop_first().drop_first().drop_first().drop_first() =~= Seq::<Seq<char>>::empty());
    assert(run_lines(initial_state(), head) == body_state(f, h, 0));
    lemma_body_run(f, h, h.lines.len() as int);
    assert(h.lines.take(h.lines.len() as int) =~= h.lines);
    assert(renumbered(h).take(h.lines.len() as int) =~= renumbered(h));
    let end = body_state(f, h, h.lines.len() as int);
    assert(end.files.map_values(|g: FileDiffView| annotate_file(g)) =~~= seq![reparsed(f, h)]);
}

/// Renumbering an annotated, numbered hunk without spans gives back its
/// lines before annotation.
proof fn lemma_renumber_annotated(hr: HunkView)
    requires
        hunk_numbered(hr),
        forall|k: int| 0 <= k < hr.lines.len() ==> (#[trigger] hr.lines[k]).spans is None,
    ensures
        renumbered(annotate_hunk(hr)) == hr.lines,
{
    let g = annotate_hunk(hr);
    lemma_annotate_keeps_lines(hr.lines, 0);
    assert(same_but_spans(g.lines, hr.lines));
    assert forall|k: int| 0 <= k < hr.lines.len() implies #[trigger] renumbered(g)[k] == hr.lines[k] by {
        assert(line_numbered(hr, k));
        assert(same_but_spans(g.lines.take(k), hr.lines.take(k)));
        lemma_counts_same(g.lines.take(k), hr.lines.take(k));
    }
    assert(renumbered(g) =~= hr.lines);
}

/// A hunk of a parsed patch reads back as itself: where its patch is
/// readable, parsing the patch of hunk `j` of file `i` of a parsed patch
/// gives one file whose only hunk is that hunk, lines, numbers and spans
/// alike.
pub proof fn law_parsed_hunk_reads_back(patch: Seq<char>, i: int, j: int)
    requires
        0 <= i < parse_patch_spec(patch).len(),
        0 <= j < parse_patch_spec(patch)[i].hunks.len(),
        hunk_patch_readable(parse_patch_spec(patch)[i], parse_patch_spec(patch)[i].hunks[j]),
    ensures
        ({
            let f = parse_patch_spec(patch)[i];
            let back = parse_patch_spec(patch_of_hunk(f, f.hunks[j]));
            back.len() == 1 && back[0].hunks == seq![f.hunks[j]]
        }),
{
    let fs = run_lines(initial_state(), lines(patch)).files;
    let f = parse_patch_spec(patch)[i];
    let h = f.hunks[j];
    assert(f == annotate_file(fs[i]));
    let hr = fs[i].hunks[j];
    assert(h == annotate_hunk(hr));
    lemma_run_lines_numbered(initial_state(), lines(patch));
    lemma_run_lines_plain(initial_state(), lines(patch));
    assert(hunk_numbered(hr));
    assert forall|k: int| 0 <= k < hr.lines.len() implies (#[trigger] hr.lines[k]).spans is None by {
        assert(fs[i].hunks[j].lines[k].spans is None);
    }
    lemma_renumber_annotated(hr);
    law_hunk_patch_reads_back(f, h);
    assert(HunkView { lines: renumbered(h), ..h } == hr);
    let back = parse_patch_spec(patch_of_hunk(f, h));
    assert(back[0].hunks =~= seq![h]);
}

} // verus!
