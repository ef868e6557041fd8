//! Text primitives on sequences of chars: whitespace, trimming, searching,
//! line splitting and decimal numbers, with the meaning that Rust's `str`
//! methods of the same name give them.

use vstd::prelude::*;
use vstd::std_specs::iter::IteratorSpec;

verus! {

/// Unicode `White_Space`, as `char::is_whitespace` decides it.
pub open spec fn is_space(c: char) -> bool {
    let v = c as u32;
    ||| v == 0x20
    ||| (0x9 <= v && v <= 0xd)
    ||| v == 0x85
    ||| v == 0xa0
    ||| v == 0x1680
    ||| (0x2000 <= v && v <= 0x200a)
    ||| v == 0x2028
    ||| v == 0x2029
    ||| v == 0x202f
    ||| v == 0x205f
    ||| v == 0x3000
}

pub fn is_space_char(c: char) -> (r: bool)
    ensures
        r == is_space(c),
{
    let v = c as u32;
    v == 0x20 || (0x9 <= v && v <= 0xd) || v == 0x85 || v == 0xa0 || v == 0x1680 || (0x2000
        <= v && v <= 0x200a) || v == 0x2028 || v == 0x2029 || v == 0x202f || v == 0x205f || v
        == 0x3000
}

/// `s` without its leading whitespace.
pub open spec fn trim_start(s: Seq<char>) -> Seq<char>
    decreases s.len(),
{
    if s.len() > 0 && is_space(s[0]) {
        trim_start(s.drop_first())
    } else {
        s
    }
}

/// `s` without its trailing whitespace.
pub open spec fn trim_end(s: Seq<char>) -> Seq<char>
    decreases s.len(),
{
    if s.len() > 0 && is_space(s.last()) {
        trim_end(s.drop_last())
    } else {
        s
    }
}

/// `str::trim`: `s` without leading and trailing whitespace.
pub open spec fn trim(s: Seq<char>) -> Seq<char> {
    trim_end(trim_start(s))
}

/// Bounds of the trimmed part of `s`.
pub fn trim_bounds(s: &[char]) -> (r: (usize, usize))
    ensures
        r.0 <= r.1 <= s@.len(),
        s@.subrange(r.0 as int, r.1 as int) == trim(s@),
{
    let n = s.len();
    let mut a: usize = 0;
    assert(s@.subrange(0, n as int) =~= s@);
    while a < n && is_space_char(s[a])
        invariant
            a <= n,
            n == s@.len(),
            trim_start(s@) == trim_start(s@.subrange(a as int, n as int)),
        decreases n - a,
    {
        assert(s@.subrange(a as int, n as int).drop_first() =~= s@.subrange(a + 1, n as int));
        a = a + 1;
    }
    assert(trim_start(s@.subrange(a as int, n as int)) == s@.subrange(a as int, n as int));
    let mut b: usize = n;
    while b > a && is_space_char(s[b - 1])
        invariant
            a <= b <= n,
            n == s@.len(),
            trim(s@) == trim_end(s@.subrange(a as int, b as int)),
        decreases b - a,
    {
        assert(s@.subrange(a as int, b as int).drop_last() =~= s@.subrange(a as int, b - 1));
        b = b - 1;
    }
    (a, b)
}

/// `s` starts with `p`.
pub open spec fn starts_with(s: Seq<char>, p: Seq<char>) -> bool {
    p.len() <= s.len() && s.take(p.len() as int) == p
}

/// `p` occurs in `s` at index `i`.
pub open spec fn occurs_at(s: Seq<char>, p: Seq<char>, i: int) -> bool {
    0 <= i && i + p.len() <= s.len() && s.subrange(i, i + p.len()) == p
}

/// `str::find`: the first index at which `p` occurs in `s`.
pub open spec fn find(s: Seq<char>, p: Seq<char>) -> Option<int> {
    if exists|i: int| #[trigger] occurs_at(s, p, i) {
        Some(
            choose|i: int|
                #[trigger] occurs_at(s, p, i) && forall|j: int| 0 <= j < i ==> !occurs_at(s, p, j),
        )
    } else {
        None
    }
}

/// `s[from..]` starts with the literal `lit`.
pub fn starts_with_at(s: &[char], from: usize, lit: &str) -> (r: bool)
    requires
        from <= s@.len(),
    ensures
        r == starts_with(s@.skip(from as int), lit@),
{
    let m = lit.unicode_len();
    if m > s.len() - from {
        return false;
    }
    let mut k: usize = 0;
    while k < m
        invariant
            k <= m,
            m == lit@.len(),
            from + m <= s@.len(),
            from + m <= s.len(),
            forall|j: int| 0 <= j < k ==> s@[from + j] == lit@[j],
        decreases m - k,
    {
        if s[from + k] != lit.get_char(k) {
            assert(s@.skip(from as int).take(m as int)[k as int] != lit@[k as int]);
            return false;
        }
        k = k + 1;
    }
    assert(s@.skip(from as int).take(m as int) =~= lit@);
    true
}

/// First index at which the literal `lit` occurs in `s`.
pub fn find_in(s: &[char], lit: &str) -> (r: Option<usize>)
    ensures
        r matches Some(i) ==> find(s@, lit@) == Some(i as int) && i + lit@.len() <= s.len()
            && s@.subrange(i as int, i + lit@.len()) == lit@,
        r is None ==> find(s@, lit@) is None,
{
    let n = s.len();
    let m = lit.unicode_len();
    if m > n {
        assert forall|i: int| !occurs_at(s@, lit@, i) by {}
        return None;
    }
    if m == 0 {
        assert(s@.subrange(0, 0) =~= lit@);
        assert(occurs_at(s@, lit@, 0));
        return Some(0);
    }
    let mut i: usize = 0;
    while i <= n - m
        invariant
            m == lit@.len(),
            n == s@.len(),
            0 < m <= n,
            i <= n - m + 1,
            forall|j: int| 0 <= j < i ==> !occurs_at(s@, lit@, j),
        decreases n - m + 1 - i,
    {
        if starts_with_at(s, i, lit) {
            assert(s@.skip(i as int).take(m as int) =~= s@.subrange(i as int, i + m));
            assert(occurs_at(s@, lit@, i as int));
            let ghost w = choose|w: int|
                #[trigger] occurs_at(s@, lit@, w) && forall|j: int|
                    0 <= j < w ==> !occurs_at(s@, lit@, j);
            assert(w == i) by {
                if w < i {
                } else if w > i {
                }
            }
            return Some(i);
        }
        assert(s@.skip(i as int).take(m as int) =~= s@.subrange(i as int, i + m));
        i = i + 1;
    }
    assert forall|j: int| !occurs_at(s@, lit@, j) by {
        if 0 <= j < i {
        }
    }
    None
}


/// The chars of `s`, in order.
pub fn chars_of(s: &str) -> (v: Vec<char>)
    ensures
        v@ == s@,
{
    broadcast use vstd::string::group_string_axioms;

    let mut v: Vec<char> = Vec::new();
    let mut it = s.chars();
    loop
        invariant
            v@ + it.remaining() == s@,
            it.decrease() is Some,
        ensures
            v@ == s@,
        decreases it.decrease()->0,
    {
        match it.next() {
            Some(c) => {
                v.push(c);
            },
            None => {
                assert(v@ =~= s@);
                break ;
            },
        }
        assert(v@ + it.remaining() =~= s@);
    }
    v
}


/// Index of the first `'\n'` in `s` at or after `i`, or `s.len()` where none follows.
pub open spec fn newline_from(s: Seq<char>, i: int) -> int
    decreases s.len() - i,
{
    if i >= s.len() {
        s.len() as int
    } else if s[i] == '\n' {
        i
    } else {
        newline_from(s, i + 1)
    }
}

pub proof fn lemma_newline_from(s: Seq<char>, i: int)
    requires
        0 <= i <= s.len(),
    ensures
        i <= newline_from(s, i) <= s.len(),
        newline_from(s, i) < s.len() ==> s[newline_from(s, i)] == '\n',
        forall|k: int| i <= k < newline_from(s, i) ==> s[k] != '\n',
    decreases s.len() - i,
{
    if i < s.len() && s[i] != '\n' {
        lemma_newline_from(s, i + 1);
    }
}

/// The line of `s` that starts at `i`: the chars up to the next `'\n'`,
/// without a `'\r'` that stands right before that `'\n'`.
pub open spec fn line_at(s: Seq<char>, i: int) -> Seq<char> {
    let e = newline_from(s, i);
    let raw = s.subrange(i, e);
    if e < s.len() && raw.len() > 0 && raw.last() == '\r' {
        raw.drop_last()
    } else {
        raw
    }
}

/// The lines of `s` from index `i` on.
pub open spec fn lines_from(s: Seq<char>, i: int) -> Seq<Seq<char>>
    decreases s.len() + 1 - i,
    via lines_from_decreases
{
    if 0 <= i < s.len() {
        seq![line_at(s, i)] + lines_from(s, newline_from(s, i) + 1)
    } else {
        seq![]
    }
}

#[via_fn]
proof fn lines_from_decreases(s: Seq<char>, i: int) {
    if 0 <= i < s.len() {
        lemma_newline_from(s, i);
    }
}

/// `str::lines`: `s` split at `"\n"` and `"\r\n"`; a final line ending adds no
/// empty line.
pub open spec fn lines(s: Seq<char>) -> Seq<Seq<char>> {
    lines_from(s, 0)
}

/// Index of the first `'\n'` at or after `i`, or `s.len()`.
pub fn newline_index(s: &[char], i: usize) -> (e: usize)
    requires
        i <= s@.len(),
    ensures
        e == newline_from(s@, i as int),
{
    let n = s.len();
    let mut k = i;
    while k < n && s[k] != '\n'
        invariant
            i <= k <= n,
            n == s@.len(),
            newline_from(s@, i as int) == newline_from(s@, k as int),
        decreases n - k,
    {
        k = k + 1;
    }
    k
}

/// Bounds of the line that starts at `i`: its content is `s[i..r.0]`, and it
/// ends at index `r.1`, the index of its `'\n'` or `s.len()`.
pub fn line_bounds(s: &[char], i: usize) -> (r: (usize, usize))
    requires
        i < s@.len(),
    ensures
        i <= r.0 <= s@.len(),
        s@.subrange(i as int, r.0 as int) == line_at(s@, i as int),
        r.1 == newline_from(s@, i as int),
        r.0 <= r.1 <= s@.len(),
{
    let e = newline_index(s, i);
    proof {
        lemma_newline_from(s@, i as int);
    }
    let mut end = e;
    if e < s.len() && e > i && s[e - 1] == '\r' {
        end = e - 1;
        assert(s@.subrange(i as int, e as int).drop_last() =~= s@.subrange(i as int, e - 1));
    }
    (end, e)
}

/// An owned copy of `s`.
pub fn lit_string(s: &str) -> (r: String)
    ensures
        r@ == s@,
{
    s.to_string()
}

/// Calls `String::push`, which appends `c` at the end of `s`.
#[verifier::external_body]
fn push_char(s: &mut String, c: char)
    ensures
        final(s)@ == old(s)@.push(c),
{
    s.push(c);
}

/// A `String` holding `chars`.
pub fn string_from(chars: &[char]) -> (r: String)
    ensures
        r@ == chars@,
{
    let mut r = String::new();
    let n = chars.len();
    let mut i: usize = 0;
    while i < n
        invariant
            n == chars@.len(),
            i <= n,
            r@ == chars@.take(i as int),
        decreases n - i,
    {
        push_char(&mut r, chars[i]);
        assert(chars@.take(i + 1) =~= chars@.take(i as int).push(chars@[i as int]));
        i = i + 1;
    }
    assert(chars@.take(n as int) =~= chars@);
    r
}

/// `str::lines`, each line as a `String`.
pub fn split_lines(s: &str) -> (r: Vec<String>)
    ensures
        r@.map_values(|l: String| l@) == lines(s@),
{
    let cs = chars_of(s);
    let chars = cs.as_slice();
    let n = chars.len();
    let mut out: Vec<String> = Vec::new();
    let mut i: usize = 0;
    while i < n
        invariant
            chars@ == s@,
            n == s@.len(),
            i <= n,
            lines(s@) == out@.map_values(|l: String| l@) + lines_from(s@, i as int),
        decreases n - i,
    {
        let (end, e) = line_bounds(chars, i);
        let next = if e < n {
            e + 1
        } else {
            n
        };
        assert(lines_from(s@, next as int) == lines_from(s@, e + 1));
        let line = string_from(&chars[i..end]);
        let ghost before = out@.map_values(|l: String| l@);
        out.push(line);
        assert(out@.map_values(|l: String| l@) =~= before.push(line_at(s@, i as int)));
        assert(lines_from(s@, i as int) == seq![line_at(s@, i as int)] + lines_from(s@, next as int));
        assert(before + lines_from(s@, i as int) =~= before.push(line_at(s@, i as int)) + lines_from(s@, next as int));
        i = next;
    }
    assert(lines_from(s@, i as int) =~= Seq::<Seq<char>>::empty());
    assert(out@.map_values(|l: String| l@) + Seq::<Seq<char>>::empty() =~= out@.map_values(|l: String| l@));
    out
}


/// An ASCII decimal digit.
pub open spec fn is_digit(c: char) -> bool {
    '0' <= c && c <= '9'
}

/// Every char of `d` is a decimal digit.
pub open spec fn all_digits(d: Seq<char>) -> bool {
    forall|i: int| 0 <= i < d.len() ==> is_digit(#[trigger] d[i])
}

/// The number that the decimal digits `d` write.
pub open spec fn digits_value(d: Seq<char>) -> int
    decreases d.len(),
{
    if d.len() == 0 {
        0
    } else {
        digits_value(d.drop_last()) * 10 + (d.last() as int - 48)
    }
}

/// `u32::from_str`: an optional `'+'`, then one or more decimal digits whose
/// value fits in a `u32`.
pub open spec fn parse_u32(s: Seq<char>) -> Option<u32> {
    let d = if s.len() > 0 && s[0] == '+' {
        s.drop_first()
    } else {
        s
    };
    if d.len() > 0 && all_digits(d) && digits_value(d) <= u32::MAX {
        Some(digits_value(d) as u32)
    } else {
        None
    }
}

proof fn lemma_digits_value_prefix(d: Seq<char>, k: int)
    requires
        all_digits(d),
        0 <= k <= d.len(),
    ensures
        0 <= digits_value(d.take(k)) <= digits_value(d),
    decreases d.len(),
{
    if d.len() > 0 {
        let p = d.drop_last();
        assert(all_digits(p)) by {
            assert forall|i: int| 0 <= i < p.len() implies is_digit(#[trigger] p[i]) by {
                assert(p[i] == d[i]);
            }
        }
        if k < d.len() {
            lemma_digits_value_prefix(p, k);
            assert(p.take(k) =~= d.take(k));
        } else {
            assert(d.take(k) =~= d);
            lemma_digits_value_prefix(p, 0);
        }
        assert(is_digit(d[d.len() - 1]));
    } else {
        assert(d.take(k) =~= d);
    }
}

/// `u32::from_str` on `s`.
pub fn parse_u32_chars(s: &[char]) -> (r: Option<u32>)
    ensures
        r == parse_u32(s@),
{
    let n = s.len();
    let mut k: usize = 0;
    if n > 0 && s[0] == '+' {
        k = 1;
    }
    let ghost d = if s@.len() > 0 && s@[0] == '+' {
        s@.drop_first()
    } else {
        s@
    };
    assert(d =~= s@.skip(k as int));
    if k >= n {
        return None;
    }
    let start = k;
    let mut acc: u64 = 0;
    while k < n
        invariant
            start <= k <= n,
            n == s@.len(),
            d =~= s@.skip(start as int),
            d == (if s@.len() > 0 && s@[0] == '+' {
                s@.drop_first()
            } else {
                s@
            }),
            d.len() > 0,
            all_digits(d.take(k - start)),
            acc == digits_value(d.take(k - start)),
            acc <= u32::MAX,
        decreases n - k,
    {
        let c = s[k];
        let ghost t = d.take(k + 1 - start);
        assert(t.drop_last() =~= d.take(k - start));
        if !('0' <= c && c <= '9') {
            assert(!all_digits(d)) by {
                assert(d[k - start] == c);
            }
            return None;
        }
        assert(all_digits(t)) by {
            assert forall|i: int| 0 <= i < t.len() implies is_digit(#[trigger] t[i]) by {
                if i < t.len() - 1 {
                    assert(t[i] == d.take(k - start)[i]);
                }
            }
        }
        let v = c as u64;
        assert(48 <= v <= 57);
        acc = acc * 10 + (v - 48);
        assert(acc == digits_value(t));
        if acc > 0xffff_ffff {
            proof {
                if all_digits(d) {
                    lemma_digits_value_prefix(d, k + 1 - start);
                }
            }
            return None;
        }
        k = k + 1;
    }
    assert(d.take(n - start) =~= d);
    Some(acc as u32)
}


/// Number of leading chars of `s` that are not whitespace.
pub open spec fn word_len(s: Seq<char>) -> nat
    decreases s.len(),
{
    if s.len() > 0 && !is_space(s[0]) {
        1 + word_len(s.drop_first())
    } else {
        0
    }
}

proof fn lemma_trim_start(s: Seq<char>)
    ensures
        trim_start(s).len() <= s.len(),
        trim_start(s).len() > 0 ==> !is_space(trim_start(s)[0]),
    decreases s.len(),
{
    if s.len() > 0 && is_space(s[0]) {
        lemma_trim_start(s.drop_first());
    }
}

proof fn lemma_word_len(s: Seq<char>)
    ensures
        word_len(s) <= s.len(),
        s.len() > 0 && !is_space(s[0]) ==> word_len(s) >= 1,
    decreases s.len(),
{
    if s.len() > 0 && !is_space(s[0]) {
        lemma_word_len(s.drop_first());
    }
}

/// `str::split_whitespace`: the maximal runs of non-whitespace chars of `s`.
pub open spec fn words(s: Seq<char>) -> Seq<Seq<char>>
    decreases s.len(),
    via words_decreases
{
    let t = trim_start(s);
    if t.len() == 0 {
        seq![]
    } else {
        let k = word_len(t) as int;
        seq![t.take(k)] + words(t.skip(k))
    }
}

#[via_fn]
proof fn words_decreases(s: Seq<char>) {
    lemma_trim_start(s);
    lemma_word_len(trim_start(s));
}

/// Bounds of the first word of `s[from..]`, if it has one; the words after
/// it are those of `s[r.1..]`.
pub fn next_word(s: &[char], from: usize) -> (r: Option<(usize, usize)>)
    requires
        from <= s@.len(),
    ensures
        r is None ==> words(s@.skip(from as int)) == Seq::<Seq<char>>::empty(),
        r matches Some(b) ==> {
            &&& from <= b.0 < b.1 <= s@.len()
            &&& words(s@.skip(from as int)) == seq![s@.subrange(b.0 as int, b.1 as int)] + words(
                s@.skip(b.1 as int),
            )
        },
{
    let n = s.len();
    let mut a = from;
    while a < n && is_space_char(s[a])
        invariant
            from <= a <= n,
            n == s@.len(),
            trim_start(s@.skip(from as int)) == trim_start(s@.skip(a as int)),
        decreases n - a,
    {
        assert(s@.skip(a as int).drop_first() =~= s@.skip(a + 1));
        a = a + 1;
    }
    let ghost t = s@.skip(a as int);
    assert(trim_start(t) == t);
    if a == n {
        assert(t.len() == 0);
        return None;
    }
    let mut b = a;
    while b < n && !is_space_char(s[b])
        invariant
            a <= b <= n,
            n == s@.len(),
            word_len(t) == (b - a) + word_len(s@.skip(b as int)),
        decreases n - b,
    {
        assert(s@.skip(b as int).drop_first() =~= s@.skip(b + 1));
        b = b + 1;
    }
    assert(word_len(s@.skip(b as int)) == 0);
    assert(t.take(b - a) =~= s@.subrange(a as int, b as int));
    assert(t.skip(b - a) =~= s@.skip(b as int));
    Some((a, b))
}


/// `p` occurs somewhere in `s`.
pub open spec fn contains(s: Seq<char>, p: Seq<char>) -> bool {
    find(s, p) is Some
}

/// `s` is the literal `lit`.
pub fn is_lit(s: &[char], lit: &str) -> (r: bool)
    ensures
        r == (s@ == lit@),
{
    if s.len() != lit.unicode_len() {
        return false;
    }
    let r = starts_with_at(s, 0, lit);
    assert(s@.skip(0) =~= s@);
    assert(r ==> s@.take(lit@.len() as int) =~= s@);
    r
}


/// Empty text has no lines.
pub proof fn lemma_lines_empty()
    ensures
        lines(Seq::<char>::empty()) == Seq::<Seq<char>>::empty(),
{
    assert(lines(Seq::<char>::empty()) =~= Seq::<Seq<char>>::empty());
}


/// `a` and `b` hold the same chars.
pub fn same_text(a: &str, b: &str) -> (r: bool)
    ensures
        r == (a@ == b@),
{
    let ac = chars_of(a);
    let bc = chars_of(b);
    let n = ac.len();
    if n != bc.len() {
        return false;
    }
    let mut i: usize = 0;
    while i < n
        invariant
            n == ac@.len(),
            n == bc@.len(),
            ac@ == a@,
            bc@ == b@,
            i <= n,
            forall|j: int| 0 <= j < i ==> ac@[j] == bc@[j],
        decreases n - i,
    {
        if ac[i] != bc[i] {
            return false;
        }
        i = i + 1;
    }
    assert(ac@ =~= bc@);
    true
}

} // verus!
