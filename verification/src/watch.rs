//! Which file-system events refresh the view: changes under the working
//! tree that git does not ignore, outside the `.git` directory.

use vstd::prelude::*;

use crate::paths::{PathPart, components, lemma_slash_from, pieces, pieces_from, parts_of, slash_from};
use crate::paths::{lemma_components_nonempty, lemma_parts_of_names, lemma_pieces_from_no_slash, name_part};
use ignore::gitignore::Gitignore;
use crate::text::{chars_of, is_lit, same_text, string_from};

verus! {

/// A component of a path.
#[derive(Debug)]
pub enum PathComponent {
    Root,
    Cur,
    Parent,
    Normal(String),
}

impl View for PathComponent {
    type V = PathPart;

    open spec fn view(&self) -> PathPart {
        match self {
            PathComponent::Root => PathPart::Root,
            PathComponent::Cur => PathPart::Cur,
            PathComponent::Parent => PathPart::Parent,
            PathComponent::Normal(s) => PathPart::Normal(s@),
        }
    }
}

pub open spec fn parts_view(v: Seq<PathComponent>) -> Seq<PathPart> {
    v.map_values(|c: PathComponent| c@)
}

/// The component of one piece, where it gives one.
pub open spec fn piece_part(p: Seq<char>) -> Seq<PathPart> {
    if p.len() == 0 || p == "."@ {
        seq![]
    } else if p == ".."@ {
        seq![PathPart::Parent]
    } else {
        seq![PathPart::Normal(p)]
    }
}

/// `Path::components` of `path`.
pub fn path_components(path: &str) -> (r: Vec<PathComponent>)
    ensures
        parts_view(r@) == components(path@),
{
    let cs = chars_of(path);
    let p = cs.as_slice();
    let n = p.len();
    let mut out: Vec<PathComponent> = Vec::new();
    let mut first_end: usize = 0;
    while first_end < n && p[first_end] != '/'
        invariant
            first_end <= n,
            n == p@.len(),
            slash_from(p@, 0) == slash_from(p@, first_end as int),
        decreases n - first_end,
    {
        first_end = first_end + 1;
    }
    proof {
        lemma_slash_from(p@, 0);
    }
    assert(pieces(p@)[0] == p@.subrange(0, first_end as int));
    if n > 0 && p[0] == '/' {
        out.push(PathComponent::Root);
    } else if is_lit(&p[0..first_end], ".") {
        out.push(PathComponent::Cur);
    }
    let ghost lead = parts_view(out@);
    assert(components(p@) == lead + parts_of(pieces_from(p@, 0)));
    let mut i: usize = 0;
    loop
        invariant_except_break
            components(p@) == parts_view(out@) + parts_of(pieces_from(p@, i as int)),
        invariant
            n == p@.len(),
            p@ == path@,
            i <= n,
        ensures
            components(p@) == parts_view(out@),
        decreases n - i,
    {
        let mut e = i;
        while e < n && p[e] != '/'
            invariant
                i <= e <= n,
                n == p@.len(),
                slash_from(p@, i as int) == slash_from(p@, e as int),
            decreases n - e,
        {
            e = e + 1;
        }
        let ghost rest = if e < n {
            pieces_from(p@, e + 1)
        } else {
            Seq::<Seq<char>>::empty()
        };
        let ghost here = pieces_from(p@, i as int);
        let piece = &p[i..e];
        assert(here == seq![piece@] + rest);
        assert(here.drop_first() =~= rest);
        assert(here[0] == piece@);
        let ghost before = parts_view(out@);
        proof {
            reveal_strlit(".");
            reveal_strlit("..");
        }
        if piece.len() == 0 || is_lit(piece, ".") {
        } else if is_lit(piece, "..") {
            out.push(PathComponent::Parent);
            assert(parts_view(out@) =~= before + seq![PathPart::Parent]);
        } else {
            out.push(PathComponent::Normal(string_from(piece)));
            assert(parts_view(out@) =~= before + seq![PathPart::Normal(piece@)]);
        }
        assert(parts_of(here) == piece_part(piece@) + parts_of(rest));
        assert(components(p@) =~= parts_view(out@) + parts_of(rest));
        if e >= n {
            assert(parts_of(rest) =~= Seq::<PathPart>::empty());
            assert(components(p@) =~= parts_view(out@));
            break ;
        }
        i = e + 1;
    }
    out
}


/// The text of a component.
pub open spec fn part_text(c: PathPart) -> Seq<char> {
    match c {
        PathPart::Root => "/"@,
        PathPart::Cur => "."@,
        PathPart::Parent => ".."@,
        PathPart::Normal(s) => s,
    }
}

/// Components written back as a path: joined by `'/'`, with no slash after
/// the root.
pub open spec fn render(parts: Seq<PathPart>) -> Seq<char>
    decreases parts.len(),
{
    if parts.len() == 0 {
        seq![]
    } else {
        let prev = render(parts.drop_last());
        if parts.len() == 1 || parts[parts.len() - 2] == PathPart::Root {
            prev + part_text(parts.last())
        } else {
            prev + "/"@ + part_text(parts.last())
        }
    }
}

/// `a` is a prefix of `b`, component by component (`Path::starts_with`).
pub open spec fn is_part_prefix(a: Seq<PathPart>, b: Seq<PathPart>) -> bool {
    a.len() <= b.len() && b.take(a.len() as int) == a
}

/// Where a changed path lies.
pub enum PlaceView {
    InGitDir,
    InTree(Seq<char>),
    Outside,
}

/// A path lies in the git directory where it starts with it; otherwise in the
/// working tree where it starts with the root, with the rest of its
/// components as its path relative to the root; otherwise outside.
pub open spec fn place_of(path: Seq<char>, git_dir: Seq<char>, root: Seq<char>) -> PlaceView {
    let c = components(path);
    if is_part_prefix(components(git_dir), c) {
        PlaceView::InGitDir
    } else if is_part_prefix(components(root), c) {
        PlaceView::InTree(render(c.skip(components(root).len() as int)))
    } else {
        PlaceView::Outside
    }
}

/// Where a changed path lies.
#[derive(Debug)]
pub enum PathPlace {
    InGitDir,
    InTree(String),
    Outside,
}

impl View for PathPlace {
    type V = PlaceView;

    open spec fn view(&self) -> PlaceView {
        match self {
            PathPlace::InGitDir => PlaceView::InGitDir,
            PathPlace::InTree(s) => PlaceView::InTree(s@),
            PathPlace::Outside => PlaceView::Outside,
        }
    }
}

fn same_part(a: &PathComponent, b: &PathComponent) -> (r: bool)
    ensures
        r == (a@ == b@),
{
    match (a, b) {
        (PathComponent::Root, PathComponent::Root) => true,
        (PathComponent::Cur, PathComponent::Cur) => true,
        (PathComponent::Parent, PathComponent::Parent) => true,
        (PathComponent::Normal(x), PathComponent::Normal(y)) => same_text(x.as_str(), y.as_str()),
        _ => false,
    }
}

fn parts_prefix(a: &Vec<PathComponent>, b: &Vec<PathComponent>) -> (r: bool)
    ensures
        r == is_part_prefix(parts_view(a@), parts_view(b@)),
{
    let n = a.len();
    if n > b.len() {
        return false;
    }
    let mut i: usize = 0;
    while i < n
        invariant
            n == a@.len(),
            n <= b@.len(),
            i <= n,
            forall|j: int| 0 <= j < i ==> parts_view(b@)[j] == parts_view(a@)[j],
        decreases n - i,
    {
        if !same_part(&a[i], &b[i]) {
            assert(parts_view(b@).take(n as int)[i as int] != parts_view(a@)[i as int]);
            return false;
        }
        i = i + 1;
    }
    assert(parts_view(b@).take(n as int) =~= parts_view(a@));
    true
}

fn render_from(parts: &Vec<PathComponent>, from: usize) -> (r: String)
    requires
        from <= parts@.len(),
    ensures
        r@ == render(parts_view(parts@).skip(from as int)),
{
    let ghost s = parts_view(parts@).skip(from as int);
    let n = parts.len();
    let mut out = String::new();
    let mut k = from;
    assert(s.take(0) =~= Seq::<PathPart>::empty());
    while k < n
        invariant
            from <= k <= n,
            n == parts@.len(),
            s == parts_view(parts@).skip(from as int),
            out@ == render(s.take(k - from)),
        decreases n - k,
    {
        let ghost t = s.take(k + 1 - from);
        assert(t.drop_last() =~= s.take(k - from));
        assert(t.last() == parts@[k as int]@);
        if k > from {
            assert(t[t.len() - 2] == parts@[k - 1]@);
            match &parts[k - 1] {
                PathComponent::Root => {},
                _ => {
                    out.append("/");
                },
            }
        }
        match &parts[k] {
            PathComponent::Root => out.append("/"),
            PathComponent::Cur => out.append("."),
            PathComponent::Parent => out.append(".."),
            PathComponent::Normal(name) => out.append(name.as_str()),
        }
        assert(out@ =~= render(t));
        k = k + 1;
    }
    assert(s.take(n - from) =~= s);
    out
}

/// Where `path` lies: in `git_dir`, in the working tree under `root`, or
/// outside.
pub fn path_place(path: &str, git_dir: &str, root: &str) -> (r: PathPlace)
    ensures
        r@ == place_of(path@, git_dir@, root@),
{
    let c = path_components(path);
    let g = path_components(git_dir);
    if parts_prefix(&g, &c) {
        return PathPlace::InGitDir;
    }
    let rt = path_components(root);
    if parts_prefix(&rt, &c) {
        PathPlace::InTree(render_from(&c, rt.len()))
    } else {
        PathPlace::Outside
    }
}

/// No leading slash and no two slashes in a row.
pub open spec fn clean_relative(s: Seq<char>) -> bool {
    &&& (s.len() > 0 ==> s[0] != '/')
    &&& forall|i: int| 0 <= i < s.len() - 1 ==> !(#[trigger] s[i] == '/' && s[i + 1] == '/')
}

proof fn lemma_render_clean(parts: Seq<PathPart>)
    requires
        forall|k: int| 0 <= k < parts.len() ==> name_part(#[trigger] parts[k]),
    ensures
        clean_relative(render(parts)),
        parts.len() > 0 ==> render(parts).len() > 0 && render(parts).last() != '/',
    decreases parts.len(),
{
    if parts.len() > 0 {
        let init = parts.drop_last();
        assert forall|k: int| 0 <= k < init.len() implies name_part(#[trigger] init[k]) by {
            assert(init[k] == parts[k]);
        }
        lemma_render_clean(init);
        let prev = render(init);
        let last = parts.last();
        let t = part_text(last);
        reveal_strlit("/");
        reveal_strlit("..");
        assert(name_part(parts[parts.len() - 1]));
        assert(t.len() > 0);
        assert(forall|m: int| 0 <= m < t.len() ==> t[m] != '/');
        let r = render(parts);
        if parts.len() == 1 {
            assert(prev.len() == 0);
            assert(r =~= t);
        } else {
            assert(name_part(parts[parts.len() - 2]));
            assert(r == prev + "/"@ + t);
            assert forall|i: int| 0 <= i < r.len() - 1 implies !(#[trigger] r[i] == '/' && r[i + 1] == '/') by {
                if i < prev.len() - 1 {
                    assert(r[i] == prev[i] && r[i + 1] == prev[i + 1]);
                } else if i == prev.len() - 1 {
                    assert(r[i] == prev.last());
                } else if i == prev.len() {
                    assert(r[i + 1] == t[0]);
                } else {
                    assert(r[i] == t[i - prev.len() - 1]);
                }
            }
            assert(r[0] == prev[0]);
            assert(r.last() == t.last());
        }
    }
}

/// The path of a change under the root, as `place_of` gives it, is relative
/// and has no empty piece.
proof fn lemma_tree_path_clean(path: Seq<char>, root: Seq<char>)
    requires
        root.len() > 0,
        is_part_prefix(components(root), components(path)),
    ensures
        clean_relative(render(components(path).skip(components(root).len() as int))),
{
    lemma_components_nonempty(root);
    let c = components(path);
    let k = components(root).len() as int;
    let ps = pieces(path);
    let parts = parts_of(ps);
    lemma_pieces_from_no_slash(path, 0);
    lemma_parts_of_names(ps);
    let lead_len = c.len() - parts.len();
    assert(lead_len <= 1);
    assert(c.skip(lead_len) =~= parts);
    let rest = c.skip(k);
    assert forall|j: int| 0 <= j < rest.len() implies name_part(#[trigger] rest[j]) by {
        assert(rest[j] == c[k + j]);
        assert(c[k + j] == parts[k + j - lead_len]);
    }
    lemma_render_clean(rest);
}

/// A declaration of the matcher that `ignore` builds from a `.gitignore`.
#[verifier::external_type_specification]
#[verifier::external_body]
pub struct ExGitignore(Gitignore);

/// What a `.gitignore` matcher answers: for each path relative to its
/// root, and whether that path is a directory, whether it is ignored.
pub uninterp spec fn ignore_answers(m: Gitignore) -> Map<(Seq<char>, bool), bool>;

/// Calls `Gitignore::matched_path_or_any_parents(rel, is_dir)` and tells
/// whether the match ignores the path. The answer depends on the patterns
/// the matcher was built from and on the arguments alone (the call keeps
/// no state between calls); it is named by `ignore_answers`. The call
/// panics on a path that still has a root after the matcher strips `"./"`
/// and its own root from it; a path with no leading slash and no two
/// slashes in a row never does.
#[verifier::external_body]
fn ignored_by(matcher: &Gitignore, rel: &str, is_dir: bool) -> (r: bool)
    requires
        clean_relative(rel@),
    ensures
        r == ignore_answers(*matcher)[(rel@, is_dir)],
{
    matcher.matched_path_or_any_parents(rel, is_dir).is_ignore()
}

/// Whether a change at a place refreshes the view, given whether the
/// working tree's `.gitignore` ignores it: never inside the git directory,
/// where not ignored inside the tree, and always outside it.
pub open spec fn relevant_change(place: PlaceView, ignored: bool) -> bool {
    match place {
        PlaceView::InGitDir => false,
        PlaceView::InTree(_) => !ignored,
        PlaceView::Outside => true,
    }
}

/// Whether a change at `place` refreshes the view, given whether the
/// working tree's `.gitignore` ignores its path.
pub fn change_relevant(place: &PathPlace, ignored: bool) -> (r: bool)
    ensures
        r == relevant_change(place@, ignored),
{
    match place {
        PathPlace::InGitDir => false,
        PathPlace::InTree(_) => !ignored,
        PathPlace::Outside => true,
    }
}

/// Whether the matcher's answers ignore a change at `place` of a path that
/// is a directory or not: only a path in the working tree is asked about,
/// by its path relative to the root.
pub open spec fn ignored_at(answers: Map<(Seq<char>, bool), bool>, place: PlaceView, is_dir: bool) -> bool {
    match place {
        PlaceView::InTree(rel) => answers[(rel, is_dir)],
        _ => false,
    }
}

/// Whether a change at `paths` refreshes the view, given for each path
/// whether it is ignored: some path's change is relevant.
pub open spec fn any_relevant(
    paths: Seq<(String, bool)>,
    git_dir: Seq<char>,
    root: Seq<char>,
    ignored: Seq<bool>,
) -> bool {
    exists|i: int|
        0 <= i < paths.len() && relevant_change(place_of(#[trigger] paths[i].0@, git_dir, root), ignored[i])
}

/// Whether a file-system event that touched `paths` refreshes the view,
/// given for each path whether the working tree's `.gitignore` ignores it.
pub fn relevant_with(paths: &Vec<(String, bool)>, git_dir: &str, root: &str, ignored: &Vec<bool>) -> (r: bool)
    requires
        ignored@.len() == paths@.len(),
    ensures
        r == any_relevant(paths@, git_dir@, root@, ignored@),
{
    let n = paths.len();
    let mut i: usize = 0;
    while i < n
        invariant
            n == paths@.len(),
            n == ignored@.len(),
            i <= n,
            forall|j: int|
                0 <= j < i ==> !relevant_change(place_of(#[trigger] paths@[j].0@, git_dir@, root@), ignored@[j]),
        decreases n - i,
    {
        let place = path_place(paths[i].0.as_str(), git_dir, root);
        if change_relevant(&place, ignored[i]) {
            return true;
        }
        i = i + 1;
    }
    false
}

/// Whether a file-system event that touched `paths` (each with whether it
/// is a directory) refreshes the view: some path lies outside the git
/// directory and is either outside the working tree under `root` or, in
/// it, not ignored by `matcher`. The matcher is asked about the paths in
/// the tree only, each by its path relative to `root` and its directory
/// flag.
pub fn event_relevant(paths: &Vec<(String, bool)>, git_dir: &str, root: &str, matcher: &Gitignore) -> (r: bool)
    requires
        root@.len() > 0,
    ensures
        r == any_relevant(
            paths@,
            git_dir@,
            root@,
            Seq::new(
                paths@.len(),
                |i: int|
                    ignored_at(
                        ignore_answers(*matcher),
                        place_of(paths@[i].0@, git_dir@, root@),
                        paths@[i].1,
                    ),
            ),
        ),
{
    let ghost answers = ignore_answers(*matcher);
    let ghost want = Seq::new(
        paths@.len(),
        |i: int| ignored_at(answers, place_of(paths@[i].0@, git_dir@, root@), paths@[i].1),
    );
    let n = paths.len();
    let mut ignored: Vec<bool> = Vec::new();
    let mut i: usize = 0;
    while i < n
        invariant
            n == paths@.len(),
            i <= n,
            root@.len() > 0,
            answers == ignore_answers(*matcher),
            want == Seq::new(
                paths@.len(),
                |i: int| ignored_at(answers, place_of(paths@[i].0@, git_dir@, root@), paths@[i].1),
            ),
            ignored@ == want.take(i as int),
        decreases n - i,
    {
        let (path, is_dir) = &paths[i];
        let place = path_place(path.as_str(), git_dir, root);
        let ig = match &place {
            PathPlace::InTree(rel) => {
                proof {
                    lemma_tree_path_clean(path@, root@);
                }
                ignored_by(matcher, rel.as_str(), *is_dir)
            },
            _ => false,
        };
        ignored.push(ig);
        assert(ignored@ =~= want.take(i + 1));
        i = i + 1;
    }
    assert(want.take(n as int) =~= want);
    relevant_with(paths, git_dir, root, &ignored)
}

/// How long a burst of changes is left to settle before the view refreshes.
pub const DEBOUNCE_MILLIS: u64 = 300;

/// Where the debounce of relevant changes stands: idle, or waiting for a
/// burst to settle.
#[derive(Clone, Copy, Debug, PartialEq, Eq, Structural)]
pub enum Debounce {
    Idle,
    Waiting,
}

/// What reaches the debounce: a relevant change, or the end of the wait.
#[derive(Clone, Copy, Debug, PartialEq, Eq, Structural)]
pub enum DebounceEvent {
    Change,
    Settled,
}

/// What the debounce asks for: start the wait, refresh the view (after
/// dropping the changes that came during the wait), or nothing.
#[derive(Clone, Copy, Debug, PartialEq, Eq, Structural)]
pub enum DebounceAction {
    StartWait,
    Refresh,
    Nothing,
}

pub open spec fn debounce_next(state: Debounce, event: DebounceEvent) -> (Debounce, DebounceAction) {
    match (state, event) {
        (Debounce::Idle, DebounceEvent::Change) => (Debounce::Waiting, DebounceAction::StartWait),
        (Debounce::Waiting, DebounceEvent::Settled) => (Debounce::Idle, DebounceAction::Refresh),
        _ => (state, DebounceAction::Nothing),
    }
}

/// One step of the debounce: the first change starts the wait, changes
/// during the wait are swallowed, and the end of the wait refreshes once.
pub fn debounce_step(state: Debounce, event: DebounceEvent) -> (r: (Debounce, DebounceAction))
    ensures
        r == debounce_next(state, event),
{
    match (state, event) {
        (Debounce::Idle, DebounceEvent::Change) => (Debounce::Waiting, DebounceAction::StartWait),
        (Debounce::Waiting, DebounceEvent::Settled) => (Debounce::Idle, DebounceAction::Refresh),
        _ => (state, DebounceAction::Nothing),
    }
}

/// The state after a run of events, and how many waits and refreshes it
/// asked for.
pub open spec fn debounce_run(state: Debounce, events: Seq<DebounceEvent>) -> (Debounce, nat, nat)
    decreases events.len(),
{
    if events.len() == 0 {
        (state, 0, 0)
    } else {
        let (s, waits, refreshes) = debounce_run(state, events.drop_last());
        let (t, a) = debounce_next(s, events.last());
        (
            t,
            waits + if a == DebounceAction::StartWait { 1nat } else { 0nat },
            refreshes + if a == DebounceAction::Refresh { 1nat } else { 0nat },
        )
    }
}

/// One refresh per burst: from idle, every refresh closes a wait that a
/// change opened, and at most one wait is open at a time.
pub proof fn law_one_refresh_per_burst(events: Seq<DebounceEvent>)
    ensures
        ({
            let (s, waits, refreshes) = debounce_run(Debounce::Idle, events);
            &&& s == Debounce::Idle ==> waits == refreshes
            &&& s == Debounce::Waiting ==> waits == refreshes + 1
        }),
    decreases events.len(),
{
    if events.len() > 0 {
        law_one_refresh_per_burst(events.drop_last());
    }
}

} // verus!
