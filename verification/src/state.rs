//! Review state: for each file path, whether it was marked viewed and the
//! note left on it.

use vstd::prelude::*;
use vstd::hash_map::StringHashMap;

verus! {

/// The review of one file.
#[derive(Debug)]
pub struct FileReview {
    pub viewed: bool,
    pub note: String,
}

/// A file's review as plain values.
#[verifier::ext_equal]
pub struct FileReviewView {
    pub viewed: bool,
    pub note: Seq<char>,
}

impl View for FileReview {
    type V = FileReviewView;

    open spec fn view(&self) -> FileReviewView {
        FileReviewView { viewed: self.viewed, note: self.note@ }
    }
}

impl Clone for FileReview {
    fn clone(&self) -> (r: Self)
        ensures
            r == *self,
    {
        FileReview { viewed: self.viewed, note: self.note.clone() }
    }
}

impl FileReview {
    /// A file not yet viewed, without a note.
    pub fn new() -> (r: Self)
        ensures
            r@ == (FileReviewView { viewed: false, note: seq![] }),
    {
        FileReview { viewed: false, note: String::new() }
    }
}

/// The review of a file that has none yet.
pub open spec fn default_review() -> FileReviewView {
    FileReviewView { viewed: false, note: seq![] }
}

/// The review `prev` after an update: each field that is given is replaced.
pub open spec fn updated_review(
    prev: FileReviewView,
    viewed: Option<bool>,
    note: Option<Seq<char>>,
) -> FileReviewView {
    FileReviewView {
        viewed: match viewed {
            Some(v) => v,
            None => prev.viewed,
        },
        note: match note {
            Some(n) => n,
            None => prev.note,
        },
    }
}

/// The reviews after an update of `path`: its review, or a fresh one where
/// it has none, with each given field replaced; other paths keep theirs.
pub open spec fn update_spec(
    m: Map<Seq<char>, FileReviewView>,
    path: Seq<char>,
    viewed: Option<bool>,
    note: Option<Seq<char>>,
) -> Map<Seq<char>, FileReviewView> {
    m.insert(
        path,
        updated_review(
            if m.contains_key(path) {
                m[path]
            } else {
                default_review()
            },
            viewed,
            note,
        ),
    )
}

/// What an update writes is read back: the updated path has the given
/// fields and keeps the others, and every other path keeps its review.
pub proof fn law_read_after_update(
    m: Map<Seq<char>, FileReviewView>,
    path: Seq<char>,
    other: Seq<char>,
    viewed: Option<bool>,
    note: Option<Seq<char>>,
)
    ensures
        update_spec(m, path, viewed, note).contains_key(path),
        viewed matches Some(v) ==> update_spec(m, path, viewed, note)[path].viewed == v,
        note matches Some(n) ==> update_spec(m, path, viewed, note)[path].note == n,
        viewed is None && m.contains_key(path) ==> update_spec(m, path, viewed, note)[path].viewed
            == m[path].viewed,
        note is None && m.contains_key(path) ==> update_spec(m, path, viewed, note)[path].note
            == m[path].note,
        other != path ==> update_spec(m, path, viewed, note).contains_key(other) == m.contains_key(
            other,
        ),
        other != path && m.contains_key(other) ==> update_spec(m, path, viewed, note)[other]
            == m[other],
{
}

/// An update that gives no field changes nothing of a reviewed path, and
/// two updates of one path in a row give the later fields where given.
pub proof fn law_update_composes(
    m: Map<Seq<char>, FileReviewView>,
    path: Seq<char>,
    v1: Option<bool>,
    n1: Option<Seq<char>>,
    v2: Option<bool>,
    n2: Option<Seq<char>>,
)
    ensures
        m.contains_key(path) ==> update_spec(m, path, None, None) == m,
        update_spec(update_spec(m, path, v1, n1), path, v2, n2) == update_spec(
            m,
            path,
            match v2 {
                Some(v) => Some(v),
                None => v1,
            },
            match n2 {
                Some(n) => Some(n),
                None => n1,
            },
        ),
{
    if m.contains_key(path) {
        assert(update_spec(m, path, None, None) =~= m);
    }
    assert(update_spec(update_spec(m, path, v1, n1), path, v2, n2) =~= update_spec(
        m,
        path,
        match v2 {
            Some(v) => Some(v),
            None => v1,
        },
        match n2 {
            Some(n) => Some(n),
            None => n1,
        },
    ));
}

/// The reviews of all files, by path.
pub struct ReviewState {
    files: StringHashMap<FileReview>,
    paths: Vec<String>,
}

pub open spec fn path_views(paths: Seq<String>) -> Seq<Seq<char>> {
    paths.map_values(|p: String| p@)
}

impl View for ReviewState {
    type V = Map<Seq<char>, FileReviewView>;

    closed spec fn view(&self) -> Map<Seq<char>, FileReviewView> {
        self.files@.map_values(|r: FileReview| r@)
    }
}

impl ReviewState {
    /// Each reviewed path is listed once, and only reviewed paths are listed.
    #[verifier::type_invariant]
    spec fn listed(self) -> bool {
        &&& path_views(self.paths@).no_duplicates()
        &&& forall|k: Seq<char>|
            self.files@.contains_key(k) <==> path_views(self.paths@).contains(k)
    }

    /// A state with no reviews.
    pub fn new() -> (r: Self)
        ensures
            r@ == Map::<Seq<char>, FileReviewView>::empty(),
    {
        let r = ReviewState { files: StringHashMap::new(), paths: Vec::new() };
        assert(path_views(r.paths@) =~= Seq::<Seq<char>>::empty());
        assert(r@ =~= Map::<Seq<char>, FileReviewView>::empty());
        r
    }

    /// The review of `path`, if it has one.
    pub fn file(&self, path: &str) -> (r: Option<FileReview>)
        ensures
            r matches Some(v) ==> self@.contains_key(path@) && v@ == self@[path@],
            r is None ==> !self@.contains_key(path@),
    {
        match self.files.get(path) {
            Some(v) => Some(v.clone()),
            None => None,
        }
    }

    /// Sets the viewed mark and the note of `path` where they are given,
    /// creating its review (not viewed, no note) where it has none.
    pub fn update(&mut self, path: &str, viewed: Option<bool>, note: Option<String>)
        ensures
            final(self)@ == update_spec(
                old(self)@,
                path@,
                viewed,
                match note {
                    Some(n) => Some(n@),
                    None => None,
                },
            ),
    {
        proof {
            use_type_invariant(&*self);
        }
        let mut entry = match self.files.get(path) {
            Some(v) => v.clone(),
            None => FileReview::new(),
        };
        let ghost prev = entry@;
        match viewed {
            Some(v) => {
                entry.viewed = v;
            },
            None => {},
        }
        match note {
            Some(n) => {
                entry.note = n;
            },
            None => {},
        }
        let mut taken = ReviewState::new();
        std::mem::swap(&mut taken, self);
        let ReviewState { mut files, mut paths } = taken;
        let ghost pv0 = path_views(paths@);
        if !files.contains_key(path) {
            paths.push(path.to_string());
            assert(path_views(paths@) =~= pv0.push(path@));
            assert(!pv0.contains(path@));
        } else {
            assert(path_views(paths@) == pv0);
        }
        files.insert(path.to_string(), entry);
        assert forall|k: Seq<char>|
            files@.contains_key(k) <==> path_views(paths@).contains(k) by {
            if k == path@ {
                if !pv0.contains(path@) {
                    assert(path_views(paths@)[pv0.len() as int] == path@);
                }
            } else if pv0.contains(k) {
                let i = choose|i: int| 0 <= i < pv0.len() && pv0[i] == k;
                assert(path_views(paths@)[i] == k);
            } else if path_views(paths@).contains(k) {
                let i = choose|i: int| 0 <= i < path_views(paths@).len() && path_views(paths@)[i] == k;
                assert(pv0[i] == k);
            }
        }
        *self = ReviewState { files, paths };
        assert(self@ =~= update_spec(
            old(self)@,
            path@,
            viewed,
            match note {
                Some(n) => Some(n@),
                None => None,
            },
        ));
    }

    /// All reviews, each path once.
    pub fn entries(&self) -> (r: Vec<(String, FileReview)>)
        ensures
            r@.len() == self@.dom().len(),
            forall|i: int|
                0 <= i < r@.len() ==> self@.contains_key((#[trigger] r@[i]).0@) && self@[r@[i].0@]
                    == r@[i].1@,
            forall|k: Seq<char>|
                self@.contains_key(k) ==> exists|i: int| 0 <= i < r@.len() && (#[trigger] r@[i]).0@ == k,
            forall|i: int, j: int| 0 <= i < j < r@.len() ==> (#[trigger] r@[i]).0@ != (#[trigger] r@[j]).0@,
    {
        proof {
            use_type_invariant(self);
        }
        let ghost pv = path_views(self.paths@);
        let mut out: Vec<(String, FileReview)> = Vec::new();
        let n = self.paths.len();
        let mut i: usize = 0;
        while i < n
            invariant
                n == self.paths@.len(),
                pv == path_views(self.paths@),
                pv.no_duplicates(),
                forall|k: Seq<char>| self.files@.contains_key(k) <==> pv.contains(k),
                i <= n,
                out@.len() == i,
                forall|m: int| 0 <= m < i ==> (#[trigger] out@[m]).0@ == pv[m],
                forall|m: int|
                    0 <= m < i ==> self@.contains_key((#[trigger] out@[m]).0@) && self@[out@[m].0@]
                        == out@[m].1@,
            decreases n - i,
        {
            let p = &self.paths[i];
            assert(pv[i as int] == p@);
            assert(pv.contains(p@));
            let r = match self.files.get(p.as_str()) {
                Some(v) => v.clone(),
                None => FileReview::new(),
            };
            out.push((p.clone(), r));
            i = i + 1;
        }
        proof {
            assert forall|k: Seq<char>| self@.contains_key(k) implies exists|m: int|
                0 <= m < out@.len() && (#[trigger] out@[m]).0@ == k by {
                assert(pv.contains(k));
                let m = choose|m: int| 0 <= m < pv.len() && pv[m] == k;
                assert(out@[m].0@ == k);
            }
            assert(pv.to_set() =~= self@.dom());
            pv.unique_seq_to_set();
        }
        out
    }
}

/// The file that holds the review state of a repository whose git
/// directory is `git_dir`: `skimdiff/state.json` under it, joined as a path
/// is (no second `'/'` after one that ends `git_dir`).
pub open spec fn state_file_spec(git_dir: Seq<char>) -> Seq<char> {
    if git_dir.len() == 0 || git_dir.last() == '/' {
        git_dir + "skimdiff/state.json"@
    } else {
        git_dir + "/skimdiff/state.json"@
    }
}

/// The path of the review state file under the git directory `git_dir`.
pub fn state_file(git_dir: &str) -> (r: String)
    ensures
        r@ == state_file_spec(git_dir@),
{
    let cs = crate::text::chars_of(git_dir);
    let mut r = crate::text::lit_string(git_dir);
    if cs.len() == 0 || cs[cs.len() - 1] == '/' {
        r.append("skimdiff/state.json");
    } else {
        r.append("/skimdiff/state.json");
    }
    r
}

} // verus!
