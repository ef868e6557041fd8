//! Unix file paths as `std::path::Path` reads them: slash-separated pieces,
//! components, prefixes.

use vstd::prelude::*;

use crate::text::{chars_of, is_lit};

verus! {

/// Index of the first `'/'` in `p` at or after `i`, or `p.len()`.
pub open spec fn slash_from(p: Seq<char>, i: int) -> int
    decreases p.len() - i,
{
    if i >= p.len() {
        p.len() as int
    } else if p[i] == '/' {
        i
    } else {
        slash_from(p, i + 1)
    }
}

pub proof fn lemma_slash_from(p: Seq<char>, i: int)
    requires
        0 <= i <= p.len(),
    ensures
        i <= slash_from(p, i) <= p.len(),
        slash_from(p, i) < p.len() ==> p[slash_from(p, i)] == '/',
        forall|k: int| i <= k < slash_from(p, i) ==> p[k] != '/',
    decreases p.len() - i,
{
    if i < p.len() && p[i] != '/' {
        lemma_slash_from(p, i + 1);
    }
}

/// The pieces of `p` from `i` on, between slashes; empty pieces included.
pub open spec fn pieces_from(p: Seq<char>, i: int) -> Seq<Seq<char>>
    decreases p.len() + 1 - i,
    via pieces_from_decreases
{
    if 0 <= i <= p.len() {
        let e = slash_from(p, i);
        seq![p.subrange(i, e)] + if e < p.len() {
            pieces_from(p, e + 1)
        } else {
            seq![]
        }
    } else {
        seq![]
    }
}

#[via_fn]
proof fn pieces_from_decreases(p: Seq<char>, i: int) {
    if 0 <= i <= p.len() {
        lemma_slash_from(p, i);
    }
}

/// `str::split('/')`.
pub open spec fn pieces(p: Seq<char>) -> Seq<Seq<char>> {
    pieces_from(p, 0)
}

/// A component of a path.
pub enum PathPart {
    Root,
    Cur,
    Parent,
    Normal(Seq<char>),
}

/// The components that the pieces `ps` give: empty pieces and `"."` give
/// none, `".."` is the parent, any other piece a name.
pub open spec fn parts_of(ps: Seq<Seq<char>>) -> Seq<PathPart>
    decreases ps.len(),
{
    if ps.len() == 0 {
        seq![]
    } else {
        let rest = parts_of(ps.drop_first());
        let p = ps[0];
        if p.len() == 0 || p == "."@ {
            rest
        } else if p == ".."@ {
            seq![PathPart::Parent] + rest
        } else {
            seq![PathPart::Normal(p)] + rest
        }
    }
}

/// `Path::components` on Unix: the root where the path starts with `'/'`, a
/// current-directory component where a relative path starts with `"."` as
/// a whole piece, then the components of the pieces.
pub open spec fn components(p: Seq<char>) -> Seq<PathPart> {
    let lead = if p.len() > 0 && p[0] == '/' {
        seq![PathPart::Root]
    } else if pieces(p)[0] == "."@ {
        seq![PathPart::Cur]
    } else {
        seq![]
    };
    lead + parts_of(pieces(p))
}

/// `Path::is_absolute` on Unix.
pub open spec fn is_absolute(p: Seq<char>) -> bool {
    p.len() > 0 && p[0] == '/'
}

/// The path has a `".."` component.
pub open spec fn has_parent_part(p: Seq<char>) -> bool {
    components(p).contains(PathPart::Parent)
}

proof fn lemma_parts_parent(ps: Seq<Seq<char>>)
    ensures
        parts_of(ps).contains(PathPart::Parent) <==> ps.contains(".."@),
    decreases ps.len(),
{
    if ps.len() > 0 {
        lemma_parts_parent(ps.drop_first());
        let rest = parts_of(ps.drop_first());
        reveal_strlit(".");
        reveal_strlit("..");
        if ps.contains(".."@) {
            let i = choose|i: int| 0 <= i < ps.len() && ps[i] == ".."@;
            if i > 0 {
                assert(ps.drop_first()[i - 1] == ".."@);
            }
        }
        if ps.drop_first().contains(".."@) {
            let i = choose|i: int| 0 <= i < ps.drop_first().len() && ps.drop_first()[i] == ".."@;
            assert(ps[i + 1] == ".."@);
        }
        if parts_of(ps).contains(PathPart::Parent) {
            let i = choose|i: int| 0 <= i < parts_of(ps).len() && parts_of(ps)[i] == PathPart::Parent;
            if !(ps[0] == ".."@) {
                if ps[0].len() == 0 || ps[0] == "."@ {
                    assert(rest.contains(PathPart::Parent));
                } else {
                    assert(rest[i - 1] == PathPart::Parent);
                }
            }
        }
        if rest.contains(PathPart::Parent) {
            let i = choose|i: int| 0 <= i < rest.len() && rest[i] == PathPart::Parent;
            if ps[0].len() == 0 || ps[0] == "."@ {
            } else {
                assert(parts_of(ps)[i + 1] == PathPart::Parent);
            }
        }
        if ps[0] == ".."@ {
            assert(parts_of(ps)[0] == PathPart::Parent);
        }
    }
}

/// A path may be served from the repository: it is not absolute and has no
/// `".."` component, so it stays inside the repository.
pub fn is_repo_relative(path: &str) -> (r: bool)
    ensures
        r == (!is_absolute(path@) && !has_parent_part(path@)),
{
    let cs = chars_of(path);
    let p = cs.as_slice();
    let n = p.len();
    proof {
        lemma_parts_parent(pieces(p@));
        reveal_strlit("..");
    }
    if n > 0 && p[0] == '/' {
        return false;
    }
    proof {
        let c = components(p@);
        let parts = parts_of(pieces(p@));
        assert(c.skip(c.len() - parts.len()) =~= parts);
        if c.contains(PathPart::Parent) {
            let k = choose|k: int| 0 <= k < c.len() && c[k] == PathPart::Parent;
            if k >= c.len() - parts.len() {
                assert(parts[k - (c.len() - parts.len())] == PathPart::Parent);
            }
        }
        if parts.contains(PathPart::Parent) {
            let k = choose|k: int| 0 <= k < parts.len() && parts[k] == PathPart::Parent;
            assert(c[k + (c.len() - parts.len())] == PathPart::Parent);
        }
    }
    assert(has_parent_part(p@) <==> pieces(p@).contains(".."@));
    let mut i: usize = 0;
    while i <= n
        invariant
            n == p@.len(),
            p@ == path@,
            !is_absolute(path@),
            has_parent_part(p@) <==> pieces(p@).contains(".."@),
            i <= n + 1,
            pieces(p@).contains(".."@) <==> (i <= n && pieces_from(p@, i as int).contains(".."@)),
        decreases n + 1 - i,
    {
        let mut e = i;
        while e < n && p[e] != '/'
            invariant
                i <= e <= n,
                n == p@.len(),
                slash_from(p@, i as int) == slash_from(p@, e as int),
            decreases n - e,
        {
            e = e + 1;
        }
        let ghost rest = if e < n {
            pieces_from(p@, e + 1)
        } else {
            Seq::<Seq<char>>::empty()
        };
        let ghost here = pieces_from(p@, i as int);
        assert(here == seq![p@.subrange(i as int, e as int)] + rest);
        let piece = &p[i..e];
        if is_lit(piece, "..") {
            assert(here[0] == ".."@);
            return false;
        }
        assert(here.contains(".."@) <==> rest.contains(".."@)) by {
            if here.contains(".."@) {
                let k = choose|k: int| 0 <= k < here.len() && here[k] == ".."@;
                assert(k > 0);
                assert(rest[k - 1] == ".."@);
            }
            if rest.contains(".."@) {
                let k = choose|k: int| 0 <= k < rest.len() && rest[k] == ".."@;
                assert(here[k + 1] == ".."@);
            }
        }
        if e >= n {
            assert(!rest.contains(".."@));
            return true;
        }
        i = e + 1;
    }
    true
}


/// No piece holds a slash.
pub proof fn lemma_pieces_from_no_slash(p: Seq<char>, i: int)
    requires
        0 <= i <= p.len(),
    ensures
        forall|k: int, m: int|
            0 <= k < pieces_from(p, i).len() && 0 <= m < pieces_from(p, i)[k].len()
                ==> pieces_from(p, i)[k][m] != '/',
    decreases p.len() + 1 - i,
{
    lemma_slash_from(p, i);
    let e = slash_from(p, i);
    let ps = pieces_from(p, i);
    if e < p.len() {
        lemma_pieces_from_no_slash(p, e + 1);
    }
    assert forall|k: int, m: int|
        0 <= k < ps.len() && 0 <= m < ps[k].len() implies ps[k][m] != '/' by {
        if k == 0 {
            assert(ps[0] == p.subrange(i, e));
            assert(p[i + m] != '/');
        } else {
            assert(ps[k] == pieces_from(p, e + 1)[k - 1]);
        }
    }
}

/// A component that names a step below a directory: the parent, or a
/// non-empty name without a slash.
pub open spec fn name_part(c: PathPart) -> bool {
    match c {
        PathPart::Parent => true,
        PathPart::Normal(s) => s.len() > 0 && forall|m: int| 0 <= m < s.len() ==> s[m] != '/',
        _ => false,
    }
}

/// The components of slash-free pieces are all names or parents.
pub proof fn lemma_parts_of_names(ps: Seq<Seq<char>>)
    requires
        forall|k: int, m: int| 0 <= k < ps.len() && 0 <= m < ps[k].len() ==> ps[k][m] != '/',
    ensures
        forall|k: int| 0 <= k < parts_of(ps).len() ==> name_part(#[trigger] parts_of(ps)[k]),
    decreases ps.len(),
{
    if ps.len() > 0 {
        let rest = parts_of(ps.drop_first());
        assert forall|k: int, m: int|
            0 <= k < ps.drop_first().len() && 0 <= m < ps.drop_first()[k].len() implies ps.drop_first()[k][m]
            != '/' by {
            assert(ps.drop_first()[k] == ps[k + 1]);
        }
        lemma_parts_of_names(ps.drop_first());
        let r = parts_of(ps);
        assert forall|k: int| 0 <= k < r.len() implies name_part(#[trigger] r[k]) by {
            if ps[0].len() == 0 || ps[0] == "."@ {
                assert(r[k] == rest[k]);
            } else if k > 0 {
                assert(r[k] == rest[k - 1]);
            } else if ps[0] != ".."@ {
                assert(forall|m: int| 0 <= m < ps[0].len() ==> ps[0][m] != '/');
            }
        }
    }
}

/// A non-empty path has at least one component.
pub proof fn lemma_components_nonempty(p: Seq<char>)
    requires
        p.len() > 0,
    ensures
        components(p).len() > 0,
{
    lemma_slash_from(p, 0);
    if p[0] != '/' {
        let ps = pieces(p);
        assert(ps[0] == p.subrange(0, slash_from(p, 0)));
        assert(ps[0].len() > 0);
        if ps[0] != "."@ {
            assert(ps == seq![ps[0]] + ps.drop_first());
            if ps[0] == ".."@ {
                assert(parts_of(ps)[0] == PathPart::Parent);
            } else {
                assert(parts_of(ps)[0] == PathPart::Normal(ps[0]));
            }
        }
    }
}

} // verus!
