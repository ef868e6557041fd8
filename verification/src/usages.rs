//! The order in which the usages of a name are listed: those in changed
//! files first, then by path and by line, equal keys in the order found.

use vstd::prelude::*;

use crate::gitx::strings_view;
use crate::index::{SymbolRef, SymbolRefView, refs_view};
use crate::text::{chars_of, same_text};

verus! {

/// `a` comes before `b` in the lexicographic order of their characters.
pub open spec fn text_lt(a: Seq<char>, b: Seq<char>) -> bool
    decreases a.len(),
{
    if a.len() == 0 {
        b.len() > 0
    } else if b.len() == 0 {
        false
    } else if a[0] != b[0] {
        (a[0] as u32) < (b[0] as u32)
    } else {
        text_lt(a.drop_first(), b.drop_first())
    }
}

proof fn lemma_text_lt_irreflexive(a: Seq<char>)
    ensures
        !text_lt(a, a),
    decreases a.len(),
{
    if a.len() > 0 {
        lemma_text_lt_irreflexive(a.drop_first());
    }
}

proof fn lemma_text_lt_asymmetric(a: Seq<char>, b: Seq<char>)
    ensures
        text_lt(a, b) ==> !text_lt(b, a),
    decreases a.len(),
{
    if a.len() > 0 && b.len() > 0 {
        lemma_text_lt_asymmetric(a.drop_first(), b.drop_first());
    }
}

proof fn lemma_text_lt_transitive(a: Seq<char>, b: Seq<char>, c: Seq<char>)
    ensures
        text_lt(a, b) && text_lt(b, c) ==> text_lt(a, c),
    decreases a.len(),
{
    if a.len() > 0 && b.len() > 0 && c.len() > 0 {
        lemma_text_lt_transitive(a.drop_first(), b.drop_first(), c.drop_first());
    }
}

proof fn lemma_text_lt_total(a: Seq<char>, b: Seq<char>)
    ensures
        a != b ==> text_lt(a, b) || text_lt(b, a),
    decreases a.len(),
{
    if a.len() == 0 && b.len() == 0 {
        assert(a =~= b);
    }
    if a.len() > 0 && b.len() > 0 {
        lemma_text_lt_total(a.drop_first(), b.drop_first());
        if a[0] != b[0] {
            vstd::utf8::char_u32_cast(a[0], a[0] as u32);
            vstd::utf8::char_u32_cast(b[0], b[0] as u32);
        }
        if a[0] == b[0] && a.drop_first() == b.drop_first() {
            assert(a =~= seq![a[0]] + a.drop_first());
            assert(b =~= seq![b[0]] + b.drop_first());
        }
    }
}

/// The key that orders a usage: whether its file is unchanged (changed files
/// first), its path, its line.
pub open spec fn usage_key(r: SymbolRefView, changed: Seq<Seq<char>>) -> (bool, Seq<char>, u32) {
    (!changed.contains(r.path), r.path, r.line)
}

/// The order of keys: by each part in turn, `false` before `true`, paths
/// lexicographically, lines by number.
pub open spec fn key_lt(a: (bool, Seq<char>, u32), b: (bool, Seq<char>, u32)) -> bool {
    (!a.0 && b.0) || (a.0 == b.0 && (text_lt(a.1, b.1) || (a.1 == b.1 && a.2 < b.2)))
}

proof fn lemma_key_order(a: (bool, Seq<char>, u32), b: (bool, Seq<char>, u32), c: (bool, Seq<char>, u32))
    ensures
        !key_lt(a, a),
        key_lt(a, b) ==> !key_lt(b, a),
        key_lt(a, b) && key_lt(b, c) ==> key_lt(a, c),
        a != b ==> key_lt(a, b) || key_lt(b, a),
{
    lemma_text_lt_irreflexive(a.1);
    lemma_text_lt_asymmetric(a.1, b.1);
    lemma_text_lt_transitive(a.1, b.1, c.1);
    lemma_text_lt_total(a.1, b.1);
    lemma_text_lt_irreflexive(b.1);
}

/// The test for usages with key `k`.
pub open spec fn key_is(changed: Seq<Seq<char>>, k: (bool, Seq<char>, u32)) -> spec_fn(
    SymbolRefView,
) -> bool {
    |r: SymbolRefView| usage_key(r, changed) == k
}

/// The usages of `s` with key `k`, in their order in `s`.
pub open spec fn with_key(s: Seq<SymbolRefView>, changed: Seq<Seq<char>>, k: (bool, Seq<char>, u32)) -> Seq<
    SymbolRefView,
> {
    s.filter(key_is(changed, k))
}

/// `out` lists the usages of `inp`, each as often, sorted by key, and
/// stably: the usages with one key come in the order they have in `inp`.
pub open spec fn ranked(out: Seq<SymbolRefView>, inp: Seq<SymbolRefView>, changed: Seq<Seq<char>>) -> bool {
    &&& out.to_multiset() == inp.to_multiset()
    &&& forall|i: int, j: int|
        0 <= i < j < out.len() ==> !key_lt(usage_key(out[j], changed), usage_key(out[i], changed))
    &&& forall|k: (bool, Seq<char>, u32)| #[trigger] with_key(out, changed, k) == with_key(inp, changed, k)
}

fn text_less(a: &str, b: &str) -> (r: bool)
    ensures
        r == text_lt(a@, b@),
{
    let ac = chars_of(a);
    let bc = chars_of(b);
    let n = ac.len();
    let m = bc.len();
    let mut i: usize = 0;
    assert(a@.skip(0) =~= a@);
    assert(b@.skip(0) =~= b@);
    while i < n && i < m
        invariant
            i <= n,
            i <= m,
            n == ac@.len(),
            m == bc@.len(),
            ac@ == a@,
            bc@ == b@,
            text_lt(a@, b@) == text_lt(a@.skip(i as int), b@.skip(i as int)),
        decreases n - i,
    {
        if ac[i] != bc[i] {
            return (ac[i] as u32) < (bc[i] as u32);
        }
        assert(a@.skip(i as int).drop_first() =~= a@.skip(i + 1));
        assert(b@.skip(i as int).drop_first() =~= b@.skip(i + 1));
        i = i + 1;
    }
    i < m
}

fn in_changed(path: &str, changed: &Vec<String>) -> (r: bool)
    ensures
        r == strings_view(changed@).contains(path@),
{
    let ghost ch = strings_view(changed@);
    let n = changed.len();
    let mut i: usize = 0;
    while i < n
        invariant
            n == changed@.len(),
            ch == strings_view(changed@),
            i <= n,
            forall|j: int| 0 <= j < i ==> ch[j] != path@,
        decreases n - i,
    {
        if same_text(changed[i].as_str(), path) {
            assert(ch[i as int] == path@);
            return true;
        }
        i = i + 1;
    }
    false
}

/// The key of a usage, with the flag of its file given.
pub open spec fn flag_key(flag: bool, r: SymbolRefView) -> (bool, Seq<char>, u32) {
    (flag, r.path, r.line)
}

fn key_less(fa: bool, a: &SymbolRef, fb: bool, b: &SymbolRef) -> (r: bool)
    ensures
        r == key_lt(flag_key(fa, a@), flag_key(fb, b@)),
{
    if fa != fb {
        return !fa && fb;
    }
    if text_less(a.path.as_str(), b.path.as_str()) {
        true
    } else if same_text(a.path.as_str(), b.path.as_str()) {
        a.line < b.line
    } else {
        false
    }
}

/// Where `x` goes among the sorted `out`: after every usage whose key is not
/// above its own.
fn insert_point(out: &Vec<SymbolRef>, flags: &Vec<bool>, fx: bool, x: &SymbolRef) -> (p: usize)
    requires
        flags@.len() == out@.len(),
    ensures
        p <= out@.len(),
        forall|q: int| 0 <= q < p ==> !key_lt(flag_key(fx, x@), #[trigger] flag_key(flags@[q], out@[q]@)),
        p < out@.len() ==> key_lt(flag_key(fx, x@), flag_key(flags@[p as int], out@[p as int]@)),
{
    let n = out.len();
    let mut p: usize = 0;
    while p < n
        invariant
            n == out@.len(),
            flags@.len() == n,
            p <= n,
            forall|q: int| 0 <= q < p ==> !key_lt(flag_key(fx, x@), #[trigger] flag_key(flags@[q], out@[q]@)),
        decreases n - p,
    {
        if key_less(fx, x, flags[p], &out[p]) {
            return p;
        }
        p = p + 1;
    }
    p
}

proof fn lemma_insert_with_key(
    s: Seq<SymbolRefView>,
    p: int,
    x: SymbolRefView,
    changed: Seq<Seq<char>>,
    k: (bool, Seq<char>, u32),
)
    requires
        0 <= p <= s.len(),
        forall|q: int| p <= q < s.len() ==> usage_key(#[trigger] s[q], changed) != usage_key(x, changed),
    ensures
        with_key(s.insert(p, x), changed, k) == if usage_key(x, changed) == k {
            with_key(s, changed, k).push(x)
        } else {
            with_key(s, changed, k)
        },
{
    let pred = key_is(changed, k);
    let head = s.subrange(0, p);
    let tail = s.subrange(p, s.len() as int);
    assert(s =~= head + tail);
    Seq::filter_distributes_over_add(head, tail, pred);
    Seq::filter_distributes_over_add(head.push(x), tail, pred);
    head.lemma_filter_push(x, pred);
    if usage_key(x, changed) == k {
        assert(tail.all(|y: SymbolRefView| !pred(y))) by {
            assert forall|q: int| 0 <= q < tail.len() implies !pred(#[trigger] tail[q]) by {
                assert(tail[q] == s[p + q]);
            }
        }
        tail.lemma_all_neg_filter_empty(pred);
        assert(tail.filter(pred) =~= Seq::<SymbolRefView>::empty());
        assert(with_key(s.insert(p, x), changed, k) =~= with_key(s, changed, k).push(x));
    } else {
        assert(with_key(s.insert(p, x), changed, k) =~= with_key(s, changed, k));
    }
}

/// Sorts the usages `refs` for listing: those in files named in `changed`
/// first, then by path and by line; usages with equal keys keep their
/// order.
pub fn rank_usages(refs: &mut Vec<SymbolRef>, changed: &Vec<String>)
    ensures
        ranked(refs_view(final(refs)@), refs_view(old(refs)@), strings_view(changed@)),
{
    let ghost inp = refs_view(refs@);
    let ghost ch = strings_view(changed@);
    let n = refs.len();
    let mut out: Vec<SymbolRef> = Vec::new();
    let mut flags: Vec<bool> = Vec::new();
    let mut i: usize = 0;
    assert(refs_view(out@) =~= inp.take(0));
    while i < n
        invariant
            n == refs@.len(),
            inp == refs_view(refs@),
            ch == strings_view(changed@),
            i <= n,
            flags@.len() == out@.len(),
            forall|q: int| 0 <= q < out@.len() ==> flags@[q] == !ch.contains(#[trigger] out@[q]@.path),
            forall|a: int, b: int|
                0 <= a < b < out@.len() ==> !key_lt(
                    usage_key(refs_view(out@)[b], ch),
                    usage_key(refs_view(out@)[a], ch),
                ),
            forall|k: (bool, Seq<char>, u32)|
                #[trigger] with_key(refs_view(out@), ch, k) == with_key(inp.take(i as int), ch, k),
            refs_view(out@).to_multiset() == inp.take(i as int).to_multiset(),
        decreases n - i,
    {
        let x = refs[i].clone();
        let fx = !in_changed(x.path.as_str(), changed);
        let ghost xv = x@;
        let ghost kx = usage_key(xv, ch);
        let ghost ov = refs_view(out@);
        let ghost fl = flags@;
        let ghost oo = out@;
        assert(kx == flag_key(fx, xv));
        assert forall|q: int| 0 <= q < ov.len() implies #[trigger] usage_key(ov[q], ch) == flag_key(
            fl[q],
            out@[q]@,
        ) by {
            assert(ov[q] == out@[q]@);
        }
        let p = insert_point(&out, &flags, fx, &x);
        proof {
            assert forall|q: int| p <= q < ov.len() implies usage_key(#[trigger] ov[q], ch) != kx by {
                lemma_key_order(kx, usage_key(ov[p as int], ch), usage_key(ov[q], ch));
                if q > p {
                    lemma_key_order(usage_key(ov[p as int], ch), usage_key(ov[q], ch), kx);
                }
            }
        }
        out.insert(p, x);
        flags.insert(p, fx);
        proof {
            let nv = refs_view(out@);
            assert(nv =~= ov.insert(p as int, xv));
            ov.insert_ensures(p as int, xv);
            assert forall|a: int, b: int| 0 <= a < b < nv.len() implies !key_lt(
                usage_key(nv[b], ch),
                usage_key(nv[a], ch),
            ) by {
                let ka = usage_key(nv[a], ch);
                let kb = usage_key(nv[b], ch);
                if b < p {
                    assert(nv[a] == ov[a] && nv[b] == ov[b]);
                } else if b == p {
                    assert(nv[a] == ov[a]);
                    assert(!key_lt(kx, usage_key(ov[a], ch)));
                } else if a == p {
                    assert(nv[b] == ov[b - 1]);
                    let kp = usage_key(ov[p as int], ch);
                    if b - 1 > p {
                        lemma_key_order(kp, usage_key(ov[b - 1], ch), kx);
                        lemma_key_order(usage_key(ov[b - 1], ch), kp, kx);
                    }
                    lemma_key_order(kx, kp, usage_key(ov[b - 1], ch));
                    lemma_key_order(kp, kx, usage_key(ov[b - 1], ch));
                    lemma_key_order(kx, usage_key(ov[b - 1], ch), kp);
                } else if a < p {
                    assert(nv[a] == ov[a] && nv[b] == ov[b - 1]);
                } else {
                    assert(nv[a] == ov[a - 1] && nv[b] == ov[b - 1]);
                }
            }
            assert(inp.take(i + 1) =~= inp.take(i as int).push(xv));
            vstd::seq_lib::to_multiset_insert(ov, p as int, xv);
            vstd::seq_lib::to_multiset_build(inp.take(i as int), xv);
            assert(nv.to_multiset() =~= inp.take(i + 1).to_multiset());
            assert forall|k: (bool, Seq<char>, u32)| #[trigger]
                with_key(nv, ch, k) == with_key(inp.take(i + 1), ch, k) by {
                lemma_insert_with_key(ov, p as int, xv, ch, k);
                inp.take(i as int).lemma_filter_push(xv, key_is(ch, k));
                assert(with_key(ov, ch, k) == with_key(inp.take(i as int), ch, k));
            }
            oo.insert_ensures(p as int, x);
            fl.insert_ensures(p as int, fx);
            assert forall|q: int| 0 <= q < out@.len() implies flags@[q] == !ch.contains(
                #[trigger] out@[q]@.path,
            ) by {
                if q < p {
                    assert(out@[q] == oo[q] && flags@[q] == fl[q]);
                } else if q > p {
                    assert(out@[q] == oo[q - 1] && flags@[q] == fl[q - 1]);
                }
            }
        }
        i = i + 1;
    }
    assert(inp.take(n as int) =~= inp);
    *refs = out;
}

/// Usages in changed files come first: in a ranked list, a usage in a file
/// named in `changed` stands before every usage in a file that is not.
pub proof fn law_changed_files_first(
    out: Seq<SymbolRefView>,
    inp: Seq<SymbolRefView>,
    changed: Seq<Seq<char>>,
    i: int,
    j: int,
)
    requires
        ranked(out, inp, changed),
        0 <= i < out.len(),
        0 <= j < out.len(),
        changed.contains(out[i].path),
        !changed.contains(out[j].path),
    ensures
        i < j,
{
    if j < i {
        assert(!key_lt(usage_key(out[i], changed), usage_key(out[j], changed)));
    }
}

/// `a` comes before `b` letter by letter: after a common beginning, `a` ends
/// where `b` goes on, or has the smaller char where they first differ.
pub open spec fn lex_before(a: Seq<char>, b: Seq<char>) -> bool {
    exists|m: int|
        0 <= m <= a.len() && m <= b.len() && #[trigger] a.take(m) == b.take(m) && ((m == a.len() && m
            < b.len()) || (m < a.len() && m < b.len() && (a[m] as u32) < (b[m] as u32)))
}

proof fn lemma_text_lt_lex(a: Seq<char>, b: Seq<char>)
    requires
        text_lt(a, b),
    ensures
        lex_before(a, b),
    decreases a.len(),
{
    if a.len() == 0 {
        assert(a.take(0) =~= b.take(0));
    } else if a[0] != b[0] {
        assert(a.take(0) =~= b.take(0));
    } else {
        lemma_text_lt_lex(a.drop_first(), b.drop_first());
        let m = choose|m: int|
            0 <= m <= a.drop_first().len() && m <= b.drop_first().len() && #[trigger] a.drop_first().take(m)
                == b.drop_first().take(m) && ((m == a.drop_first().len() && m < b.drop_first().len()) || (m
                < a.drop_first().len() && m < b.drop_first().len() && (a.drop_first()[m] as u32)
                < (b.drop_first()[m] as u32)));
        assert(a.take(m + 1) =~= seq![a[0]] + a.drop_first().take(m));
        assert(b.take(m + 1) =~= seq![b[0]] + b.drop_first().take(m));
        assert(a.take(m + 1) == b.take(m + 1));
        if m < a.drop_first().len() {
            assert(a[m + 1] == a.drop_first()[m]);
            assert(b[m + 1] == b.drop_first()[m]);
        }
    }
}

/// Usages are grouped by file: in a ranked list, of two usages whose files
/// are both changed or both unchanged, the earlier one has the earlier
/// path letter by letter, or the same path and a line no later.
pub proof fn law_grouped_by_file(
    out: Seq<SymbolRefView>,
    inp: Seq<SymbolRefView>,
    changed: Seq<Seq<char>>,
    i: int,
    j: int,
)
    requires
        ranked(out, inp, changed),
        0 <= i < j < out.len(),
        changed.contains(out[i].path) == changed.contains(out[j].path),
    ensures
        lex_before(out[i].path, out[j].path) || (out[i].path == out[j].path && out[i].line
            <= out[j].line),
{
    let ki = usage_key(out[i], changed);
    let kj = usage_key(out[j], changed);
    assert(!key_lt(kj, ki));
    lemma_key_order(ki, kj, ki);
    if ki != kj {
        assert(key_lt(ki, kj));
        if text_lt(out[i].path, out[j].path) {
            lemma_text_lt_lex(out[i].path, out[j].path);
        }
    }
}

} // verus!
