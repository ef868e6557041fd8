//! Decisions behind the HTTP endpoints: what a stage or discard request
//! does, and which embedded asset answers a request.

use vstd::prelude::*;

use crate::diff::{FileDiff, FileStatus, FileDiffView, decimal, decimal_string, hunk_patch, hunk_patch_spec};
use crate::text::{chars_of, is_lit, lit_string, same_text, string_from};

verus! {

/// A request that is refused: the HTTP status class and the message.
#[derive(Debug)]
pub enum ApiError {
    BadRequest(String),
    NotFound(String),
}

/// What staging or discarding a hunk asks of git.
#[derive(Debug)]
pub enum HunkPlan {
    /// `git add` of a whole untracked file.
    AddFile(String),
    /// `git apply` of a patch: to the index (`cached`), or reversed to the
    /// working tree (`reverse`).
    ApplyPatch { patch: String, cached: bool, reverse: bool },
}


/// Whether a hunk request stages (`Ok(true)`) or discards (`Ok(false)`);
/// refused outside live mode and for any action but `"stage"` and
/// `"discard"`.
pub fn hunk_request(live: bool, action: &str) -> (r: Result<bool, ApiError>)
    ensures
        !live ==> (r matches Err(ApiError::BadRequest(m)) && m@
            == "hunk actions only apply in live mode"@),
        live && action@ == "stage"@ ==> r matches Ok(true),
        live && action@ == "discard"@ ==> r matches Ok(false),
        live && action@ != "stage"@ && action@ != "discard"@ ==> (r matches Err(
            ApiError::BadRequest(m),
        ) && m@ == "unknown action "@ + action@),
{
    if !live {
        return Err(ApiError::BadRequest(lit_string("hunk actions only apply in live mode")));
    }
    proof {
        reveal_strlit("stage");
        reveal_strlit("discard");
        assert("stage"@.len() != "discard"@.len());
    }
    let cs = chars_of(action);
    let a = cs.as_slice();
    if is_lit(a, "stage") {
        Ok(true)
    } else if is_lit(a, "discard") {
        Ok(false)
    } else {
        let mut m = lit_string("unknown action ");
        m.append(action);
        Err(ApiError::BadRequest(m))
    }
}

/// Whether `i` is the index of the first file of `files` whose path is
/// `path`.
pub open spec fn first_with_path(files: Seq<FileDiffView>, path: Seq<char>, i: int) -> bool {
    &&& 0 <= i < files.len()
    &&& files[i].path == path
    &&& forall|j: int| 0 <= j < i ==> files[j].path != path
}

/// The first file of `files` with path `path`; refused as not found where
/// there is none.
pub fn find_file(files: &Vec<FileDiff>, path: &str) -> (r: Result<usize, ApiError>)
    ensures
        r matches Ok(i) ==> first_with_path(crate::diff::files_view(files@), path@, i as int),
        r is Err ==> forall|j: int|
            0 <= j < files@.len() ==> (#[trigger] crate::diff::files_view(files@)[j]).path != path@,
        r matches Err(e) ==> e matches ApiError::NotFound(m) && m@ == "no diff for "@ + path@,
{
    let ghost fv = crate::diff::files_view(files@);
    let n = files.len();
    let mut i: usize = 0;
    while i < n
        invariant
            n == files@.len(),
            fv == crate::diff::files_view(files@),
            i <= n,
            forall|j: int| 0 <= j < i ==> fv[j].path != path@,
        decreases n - i,
    {
        if same_text(files[i].path.as_str(), path) {
            assert(fv[i as int].path == path@);
            return Ok(i);
        }
        i = i + 1;
    }
    let mut m = lit_string("no diff for ");
    m.append(path);
    Err(ApiError::NotFound(m))
}

/// Whether a file of the working tree's diff is untracked: added, and not
/// known to git (`known` is whether `git ls-files --error-unmatch` found it).
pub fn is_untracked(file: &FileDiff, known: bool) -> (r: bool)
    ensures
        r == (file.status == FileStatus::Added && !known),
{
    match file.status {
        FileStatus::Added => !known,
        _ => false,
    }
}

/// What staging (`stage`) or discarding hunk `hunk` of `file` does: an
/// untracked file is added whole when staged and refused when discarded
/// (discarding would delete it); otherwise the hunk's patch is applied to
/// the index, or reversed to the working tree.
pub fn hunk_plan(file: &FileDiff, stage: bool, hunk: usize, untracked: bool) -> (r: Result<
    HunkPlan,
    ApiError,
>)
    ensures
        untracked && stage ==> (r matches Ok(HunkPlan::AddFile(p)) && p@ == file@.path),
        untracked && !stage ==> (r matches Err(ApiError::BadRequest(m)) && m@
            == "refusing to discard an untracked file (it would be deleted)"@),
        !untracked ==> match hunk_patch_spec(file@, hunk as int) {
            Some(p) => r matches Ok(HunkPlan::ApplyPatch { patch, cached, reverse }) && patch@ == p
                && cached == stage && reverse == !stage,
            None => r matches Err(ApiError::NotFound(m)) && m@ == "no hunk "@ + decimal(
                hunk as nat,
            ) + " in "@ + file@.path,
        },
{
    if untracked {
        if stage {
            return Ok(HunkPlan::AddFile(file.path.clone()));
        } else {
            return Err(
                ApiError::BadRequest(
                    lit_string("refusing to discard an untracked file (it would be deleted)"),
                ),
            );
        }
    }
    match hunk_patch(file, hunk) {
        Some(p) => Ok(HunkPlan::ApplyPatch { patch: p, cached: stage, reverse: !stage }),
        None => {
            let mut m = lit_string("no hunk ");
            m.append(decimal_string(hunk as u64).as_str());
            m.append(" in ");
            m.append(file.path.as_str());
            Err(ApiError::NotFound(m))
        },
    }
}

/// The number of `'/'` at the start of `s`.
pub open spec fn leading_slashes(s: Seq<char>) -> nat
    decreases s.len(),
{
    if s.len() > 0 && s[0] == '/' {
        1 + leading_slashes(s.drop_first())
    } else {
        0
    }
}

/// The embedded asset that a request path names: the path without its
/// leading slashes, or `index.html` where nothing is left.
pub open spec fn asset_path_spec(uri: Seq<char>) -> Seq<char> {
    let rest = uri.skip(leading_slashes(uri) as int);
    if rest.len() == 0 {
        "index.html"@
    } else {
        rest
    }
}

proof fn lemma_leading_slashes(s: Seq<char>, i: int)
    requires
        0 <= i <= s.len(),
        forall|k: int| 0 <= k < i ==> s[k] == '/',
    ensures
        leading_slashes(s) == i + leading_slashes(s.skip(i)),
    decreases i,
{
    if i > 0 {
        assert(s.drop_first().skip(i - 1) =~= s.skip(i));
        lemma_leading_slashes(s.drop_first(), i - 1);
    } else {
        assert(s.skip(0) =~= s);
    }
}

/// The embedded asset that the request path `uri` names: `uri` without its
/// leading slashes, or `index.html` for the root.
pub fn asset_path(uri: &str) -> (r: String)
    ensures
        r@ == asset_path_spec(uri@),
{
    let cs = chars_of(uri);
    let p = cs.as_slice();
    let n = p.len();
    let mut i: usize = 0;
    while i < n && p[i] == '/'
        invariant
            i <= n,
            n == p@.len(),
            p@ == uri@,
            forall|k: int| 0 <= k < i ==> p@[k] == '/',
        decreases n - i,
    {
        i = i + 1;
    }
    proof {
        lemma_leading_slashes(p@, i as int);
        if i < n {
            assert(p@.skip(i as int)[0] == p@[i as int]);
        }
        assert(leading_slashes(p@.skip(i as int)) == 0);
        reveal_strlit("index.html");
    }
    if i == n {
        lit_string("index.html")
    } else {
        let r = string_from(&p[i..n]);
        assert(p@.subrange(i as int, n as int) =~= p@.skip(i as int));
        r
    }
}

/// The MIME type that `mime_guess` gives a path by its extension.
pub uninterp spec fn guessed_mime(path: Seq<char>) -> Seq<char>;

/// Calls `mime_guess::from_path(path).first_or_octet_stream()` and gives
/// the type as text. The guess reads the extension of the path only,
/// against a table compiled into the crate; a path with no `'.'` has no
/// extension and gets `application/octet-stream`.
#[verifier::external_body]
fn mime_of(path: &str) -> (r: String)
    ensures
        r@ == guessed_mime(path@),
        !path@.contains('.') ==> r@ == "application/octet-stream"@,
{
    mime_guess::from_path(path).first_or_octet_stream().as_ref().to_string()
}

/// How a request for an embedded asset is answered.
#[derive(Debug)]
pub enum AssetReply {
    /// The asset at `path`, sent with `content_type`.
    Serve { path: String, content_type: String },
    /// No asset to send: the user interface was not built.
    Missing,
}

/// How a request for the asset at `path` is answered, given whether that
/// asset and `index.html` are embedded: the asset with the type its
/// extension gives; else `index.html` as HTML, for routes of the page;
/// else nothing.
pub fn asset_reply(path: &str, asset_found: bool, index_found: bool) -> (r: AssetReply)
    ensures
        asset_found ==> (r matches AssetReply::Serve { path: p, content_type: t } && p@ == path@ && t@
            == guessed_mime(path@)),
        !asset_found && index_found ==> (r matches AssetReply::Serve { path: p, content_type: t }
            && p@ == "index.html"@ && t@ == "text/html"@),
        !asset_found && !index_found ==> r is Missing,
{
    if asset_found {
        AssetReply::Serve { path: lit_string(path), content_type: mime_of(path) }
    } else if index_found {
        AssetReply::Serve { path: lit_string("index.html"), content_type: lit_string("text/html") }
    } else {
        AssetReply::Missing
    }
}

} // verus!
