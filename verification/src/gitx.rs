//! The git commands that skimdiff runs, and what it makes of their
//! output. Running a command is left to the caller; each function here takes
//! what git printed.

use vstd::prelude::*;

use crate::diff::{
    FileDiff, FileDiffView, files_view, parse_patch, parse_patch_spec, synthetic_added,
    synthetic_added_spec,
};
use crate::text::{chars_of, lines, lit_string, split_lines, string_from, trim, trim_bounds};

verus! {

/// A git repository, by the path of its top-level directory.
#[derive(Debug)]
pub struct Repo {
    pub root: String,
}

/// An untracked file and its bytes; `None` where it vanished before it could
/// be read.
#[derive(Debug)]
pub struct UntrackedFile {
    pub path: String,
    pub content: Option<Vec<u8>>,
}

pub open spec fn strings_view(v: Seq<String>) -> Seq<Seq<char>> {
    v.map_values(|s: String| s@)
}

/// `String::from_utf8`: the text of `bytes` where they are valid UTF-8 (as
/// vstd's `valid_utf8` and `decode_utf8` define it), `None` otherwise.
#[verifier::external_body]
pub(crate) fn utf8_text(bytes: Vec<u8>) -> (r: Option<String>)
    ensures
        r is Some <==> vstd::utf8::valid_utf8(bytes@),
        r matches Some(s) ==> s@ == vstd::utf8::decode_utf8(bytes@),
{
    String::from_utf8(bytes).ok()
}

/// The file an untracked file shows as: all added where its bytes are text,
/// an empty binary file otherwise.
pub open spec fn untracked_file_spec(path: Seq<char>, bytes: Seq<u8>) -> FileDiffView {
    if vstd::utf8::valid_utf8(bytes) {
        synthetic_added_spec(path, vstd::utf8::decode_utf8(bytes))
    } else {
        FileDiffView { is_binary: true, ..synthetic_added_spec(path, seq![]) }
    }
}

/// The files that untracked files show as, in order; files that vanished
/// show as nothing.
pub open spec fn untracked_files_spec(u: Seq<UntrackedFile>) -> Seq<FileDiffView>
    decreases u.len(),
{
    if u.len() == 0 {
        seq![]
    } else {
        let rest = untracked_files_spec(u.drop_last());
        match u.last().content {
            Some(b) => rest.push(untracked_file_spec(u.last().path@, b@)),
            None => rest,
        }
    }
}

/// No untracked text file has more lines than a `u32` can number.
pub open spec fn untracked_numberable(u: Seq<UntrackedFile>) -> bool {
    forall|i: int|
        0 <= i < u.len() ==> match (#[trigger] u[i]).content {
            Some(b) => vstd::utf8::valid_utf8(b@) ==> lines(vstd::utf8::decode_utf8(b@)).len()
                <= u32::MAX,
            None => true,
        }
}


/// Why no repository was found.
#[derive(Debug)]
pub enum DiscoverError {
    /// git found no repository around the directory.
    NotARepository(String),
    /// git printed a top level that is not UTF-8.
    InvalidUtf8,
}

/// Texts joined by single spaces.
pub open spec fn joined(parts: Seq<Seq<char>>) -> Seq<char>
    decreases parts.len(),
{
    if parts.len() == 0 {
        seq![]
    } else if parts.len() == 1 {
        parts[0]
    } else {
        joined(parts.drop_last()) + " "@ + parts.last()
    }
}

impl Repo {
    /// `git rev-parse --show-toplevel`: finds the repository around a directory.
    pub fn discover_args() -> (r: Vec<String>)
        ensures
            strings_view(r@) == seq!["rev-parse"@, "--show-toplevel"@],
    {
        let r = vec![lit_string("rev-parse"), lit_string("--show-toplevel")];
        assert(strings_view(r@) =~= seq!["rev-parse"@, "--show-toplevel"@]);
        r
    }

    /// The repository around the directory `dir`, from the outcome of
    /// `git rev-parse --show-toplevel` run there: refused where git failed
    /// or printed no UTF-8; else the printed top level, trimmed.
    pub fn discover(dir: &str, succeeded: bool, stdout: Vec<u8>) -> (r: Result<Repo, DiscoverError>)
        ensures
            !succeeded ==> (r matches Err(DiscoverError::NotARepository(d)) && d@ == dir@),
            succeeded && !vstd::utf8::valid_utf8(stdout@) ==> (r matches Err(DiscoverError::InvalidUtf8)),
            succeeded && vstd::utf8::valid_utf8(stdout@) ==> (r matches Ok(repo) && repo.root@ == trim(
                vstd::utf8::decode_utf8(stdout@),
            )),
    {
        if !succeeded {
            return Err(DiscoverError::NotARepository(lit_string(dir)));
        }
        match utf8_text(stdout) {
            Some(out) => {
                let cs = chars_of(out.as_str());
                let s = cs.as_slice();
                let (a, b) = trim_bounds(s);
                Ok(Repo { root: string_from(&s[a..b]) })
            },
            None => Err(DiscoverError::InvalidUtf8),
        }
    }

    /// The outcome of running git with `args`: its output where it
    /// succeeded, else the message `git <args> failed: <stderr>`.
    pub fn git(args: &Vec<String>, succeeded: bool, stdout: String, stderr: String) -> (r: Result<
        String,
        String,
    >)
        ensures
            succeeded ==> (r matches Ok(o) && o@ == stdout@),
            !succeeded ==> (r matches Err(m) && m@ == "git "@ + joined(strings_view(args@))
                + " failed: "@ + stderr@),
    {
        if succeeded {
            return Ok(stdout);
        }
        let mut m = lit_string("git ");
        let ghost av = strings_view(args@);
        let n = args.len();
        let mut i: usize = 0;
        assert(av.take(0) =~= Seq::<Seq<char>>::empty());
        while i < n
            invariant
                n == args@.len(),
                av == strings_view(args@),
                i <= n,
                m@ == "git "@ + joined(av.take(i as int)),
            decreases n - i,
        {
            if i > 0 {
                m.append(" ");
            }
            m.append(args[i].as_str());
            assert(av.take(i + 1).drop_last() =~= av.take(i as int));
            assert(av.take(i + 1).last() == args@[i as int]@);
            proof {
                if i == 0 {
                    assert(joined(av.take(1)) == av.take(1)[0]);
                }
            }
            assert(m@ =~= "git "@ + joined(av.take(i + 1)));
            i = i + 1;
        }
        assert(av.take(n as int) =~= av);
        m.append(" failed: ");
        m.append(stderr.as_str());
        Err(m)
    }

    /// `git diff HEAD --patch --no-color --find-renames`: staged and unstaged
    /// changes against `HEAD`.
    pub fn worktree_diff_args() -> (r: Vec<String>)
        ensures
            strings_view(r@) == seq![
                "diff"@,
                "HEAD"@,
                "--patch"@,
                "--no-color"@,
                "--find-renames"@,
            ],
    {
        let r = vec![
            lit_string("diff"),
            lit_string("HEAD"),
            lit_string("--patch"),
            lit_string("--no-color"),
            lit_string("--find-renames"),
        ];
        assert(strings_view(r@) =~= seq![
            "diff"@,
            "HEAD"@,
            "--patch"@,
            "--no-color"@,
            "--find-renames"@,
        ]);
        r
    }

    /// The working tree's changes: the files of `patch` (what
    /// `worktree_diff_args` printed), then each untracked file as all added.
    pub fn worktree_diff(&self, patch: &str, untracked: Vec<UntrackedFile>) -> (r: Vec<FileDiff>)
        requires
            untracked_numberable(untracked@),
        ensures
            files_view(r@) == parse_patch_spec(patch@) + untracked_files_spec(untracked@),
    {
        let mut files = parse_patch(patch);
        let ghost parsed = files_view(files@);
        let ghost all = untracked@;
        let mut rest = untracked;
        let n = rest.len();
        let mut i: usize = 0;
        assert(all.take(0) =~= Seq::<UntrackedFile>::empty());
        while i < n
            invariant
                n == all.len(),
                i <= n,
                rest@.len() == n,
                forall|k: int| i <= k < n ==> #[trigger] rest@[k] == all[k],
                files_view(files@) == parsed + untracked_files_spec(all.take(i as int)),
                untracked_numberable(all),
            decreases n - i,
        {
            let mut u = UntrackedFile { path: String::new(), content: None };
            rest.set_and_swap(i, &mut u);
            assert(u == all[i as int]);
            assert(all.take(i + 1).drop_last() =~= all.take(i as int));
            assert(all.take(i + 1).last() == u);
            let ghost before = files_view(files@);
            let UntrackedFile { path, content } = u;
            match content {
                Some(bytes) => {
                    let ghost bv = bytes@;
                    assert(match all[i as int].content {
                        Some(b) => vstd::utf8::valid_utf8(b@) ==> lines(
                            vstd::utf8::decode_utf8(b@),
                        ).len() <= u32::MAX,
                        None => true,
                    });
                    let f = match utf8_text(bytes) {
                        Some(text) => synthetic_added(path.as_str(), text.as_str()),
                        None => {
                            proof {
                                reveal_strlit("");
                                assert(""@ =~= Seq::<char>::empty());
                                crate::text::lemma_lines_empty();
                            }
                            let mut f = synthetic_added(path.as_str(), "");
                            f.is_binary = true;
                            f
                        },
                    };
                    assert(f@ == untracked_file_spec(path@, bv));
                    files.push(f);
                    assert(files_view(files@) =~= before.push(untracked_file_spec(path@, bv)));
                },
                None => {},
            }
            i = i + 1;
        }
        assert(all.take(n as int) =~= all);
        files
    }

    /// `git diff --patch --no-color --find-renames <range>`: the changes of a
    /// commit range or of one commit.
    pub fn range_diff_args(range: &str) -> (r: Vec<String>)
        ensures
            strings_view(r@) == seq![
                "diff"@,
                "--patch"@,
                "--no-color"@,
                "--find-renames"@,
                range@,
            ],
    {
        let r = vec![
            lit_string("diff"),
            lit_string("--patch"),
            lit_string("--no-color"),
            lit_string("--find-renames"),
            lit_string(range),
        ];
        assert(strings_view(r@) =~= seq![
            "diff"@,
            "--patch"@,
            "--no-color"@,
            "--find-renames"@,
            range@,
        ]);
        r
    }

    /// The changes of a range: the files of `patch`, what `range_diff_args`
    /// printed.
    pub fn range_diff(&self, patch: &str) -> (r: Vec<FileDiff>)
        ensures
            files_view(r@) == parse_patch_spec(patch@),
    {
        parse_patch(patch)
    }

    /// `git rev-parse --absolute-git-dir`: the `.git` directory, also of a
    /// worktree.
    pub fn git_dir_args() -> (r: Vec<String>)
        ensures
            strings_view(r@) == seq!["rev-parse"@, "--absolute-git-dir"@],
    {
        let r = vec![lit_string("rev-parse"), lit_string("--absolute-git-dir")];
        assert(strings_view(r@) =~= seq!["rev-parse"@, "--absolute-git-dir"@]);
        r
    }

    /// The absolute path of the `.git` directory, from what `git_dir_args`
    /// printed.
    pub fn git_dir(&self, out: &str) -> (r: String)
        ensures
            r@ == trim(out@),
    {
        let cs = chars_of(out);
        let s = cs.as_slice();
        let (a, b) = trim_bounds(s);
        string_from(&s[a..b])
    }

    /// The arguments of `git add -- <path>`, which stages a whole file.
    pub fn add(path: &str) -> (r: Vec<String>)
        ensures
            strings_view(r@) == seq!["add"@, "--"@, path@],
    {
        let r = vec![lit_string("add"), lit_string("--"), lit_string(path)];
        assert(strings_view(r@) =~= seq!["add"@, "--"@, path@]);
        r
    }

    /// The arguments of `git ls-files --error-unmatch -- <path>`, which
    /// succeeds exactly where git tracks `path`.
    pub fn is_tracked(path: &str) -> (r: Vec<String>)
        ensures
            strings_view(r@) == seq!["ls-files"@, "--error-unmatch"@, "--"@, path@],
    {
        let r = vec![lit_string("ls-files"), lit_string("--error-unmatch"), lit_string("--"), lit_string(path)];
        assert(strings_view(r@) =~= seq!["ls-files"@, "--error-unmatch"@, "--"@, path@]);
        r
    }

    /// The arguments of `git apply [--cached] [--reverse] -`, which applies
    /// the patch on standard input to the index (`cached`, to stage) or
    /// reversed to the working tree (`reverse`, to discard).
    pub fn apply_patch(cached: bool, reverse: bool) -> (r: Vec<String>)
        ensures
            strings_view(r@) == seq!["apply"@] + (if cached {
                seq!["--cached"@]
            } else {
                seq![]
            }) + (if reverse {
                seq!["--reverse"@]
            } else {
                seq![]
            }) + seq!["-"@],
    {
        let mut r = vec![lit_string("apply")];
        if cached {
            r.push(lit_string("--cached"));
        }
        if reverse {
            r.push(lit_string("--reverse"));
        }
        r.push(lit_string("-"));
        assert(strings_view(r@) =~= seq!["apply"@] + (if cached {
            seq!["--cached"@]
        } else {
            seq![]
        }) + (if reverse {
            seq!["--reverse"@]
        } else {
            seq![]
        }) + seq!["-"@]);
        r
    }

    /// `git ls-files`: the tracked files.
    pub fn tracked_args() -> (r: Vec<String>)
        ensures
            strings_view(r@) == seq!["ls-files"@],
    {
        let r = vec![lit_string("ls-files")];
        assert(strings_view(r@) =~= seq!["ls-files"@]);
        r
    }

    /// `git ls-files --others --exclude-standard`: the untracked files that are
    /// not ignored.
    pub fn untracked_args() -> (r: Vec<String>)
        ensures
            strings_view(r@) == seq!["ls-files"@, "--others"@, "--exclude-standard"@],
    {
        let r = vec![lit_string("ls-files"), lit_string("--others"), lit_string("--exclude-standard")];
        assert(strings_view(r@) =~= seq!["ls-files"@, "--others"@, "--exclude-standard"@]);
        r
    }

    /// The untracked, non-ignored files, repo-relative, from what
    /// `untracked_args` printed: one per line.
    pub fn untracked(&self, out: &str) -> (r: Vec<String>)
        ensures
            strings_view(r@) == lines(out@),
    {
        split_lines(out)
    }

    /// Tracked plus untracked (non-ignored) files, repo-relative: the lines
    /// of what `tracked_args` printed, then those of what `untracked_args`
    /// printed.
    pub fn all_files(&self, tracked_out: &str, untracked_out: &str) -> (r: Vec<String>)
        ensures
            strings_view(r@) == lines(tracked_out@) + lines(untracked_out@),
    {
        let mut files = split_lines(tracked_out);
        let mut more = split_lines(untracked_out);
        let ghost a = strings_view(files@);
        let ghost b = strings_view(more@);
        files.append(&mut more);
        assert(strings_view(files@) =~= a + b);
        files
    }
}

/// How many of the first `i` untracked files could be read.
pub open spec fn shown_before(u: Seq<UntrackedFile>, i: int) -> int
    decreases i,
{
    if i <= 0 {
        0
    } else {
        shown_before(u, i - 1) + if u[i - 1].content is Some {
            1int
        } else {
            0int
        }
    }
}

proof fn lemma_shown_before_prefix(u: Seq<UntrackedFile>, i: int)
    requires
        0 <= i < u.len(),
    ensures
        shown_before(u.drop_last(), i) == shown_before(u, i),
        0 <= shown_before(u, i) <= i,
    decreases i,
{
    if i > 0 {
        lemma_shown_before_prefix(u, i - 1);
        assert(u.drop_last()[i - 1] == u[i - 1]);
    }
}

proof fn lemma_untracked_len(u: Seq<UntrackedFile>)
    ensures
        untracked_files_spec(u).len() == shown_before(u, u.len() as int),
    decreases u.len(),
{
    if u.len() > 0 {
        lemma_untracked_len(u.drop_last());
        lemma_shown_before_prefix(u, u.len() - 1);
    }
}

/// How untracked files show: each file that could be read shows, in order,
/// as an added file at its path; it is binary exactly where its bytes are
/// not UTF-8 (an empty file is text), and then it has no hunk; where they
/// are, it is the file `synthetic_added` makes of their text. Files that
/// could not be read show as nothing.
pub proof fn law_untracked_files_show(u: Seq<UntrackedFile>, i: int)
    requires
        0 <= i < u.len(),
    ensures
        untracked_files_spec(u).len() == shown_before(u, u.len() as int),
        u[i].content matches Some(b) ==> {
            let f = untracked_files_spec(u)[shown_before(u, i)];
            &&& 0 <= shown_before(u, i) < untracked_files_spec(u).len()
            &&& f.path == u[i].path@
            &&& f.old_path is None
            &&& f.status == crate::diff::FileStatus::Added
            &&& f.is_binary == !vstd::utf8::valid_utf8(b@)
            &&& vstd::utf8::valid_utf8(b@) ==> f == synthetic_added_spec(u[i].path@, vstd::utf8::decode_utf8(b@))
            &&& !vstd::utf8::valid_utf8(b@) ==> f.hunks.len() == 0
        },
    decreases u.len(),
{
    lemma_untracked_len(u);
    let last = u.len() - 1;
    if i < last {
        law_untracked_files_show(u.drop_last(), i);
        lemma_shown_before_prefix(u, i);
        lemma_untracked_len(u.drop_last());
        assert(u.drop_last()[i] == u[i]);
    } else {
        lemma_untracked_len(u.drop_last());
        lemma_shown_before_prefix(u, last);
        match u[i].content {
            Some(b) => {
                assert(lines(Seq::<char>::empty()) =~= Seq::<Seq<char>>::empty());
            },
            None => {},
        }
    }
}

} // verus!
