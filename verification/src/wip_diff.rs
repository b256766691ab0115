//! Work-in-progress diff support: the request type, the line-ending
//! detection the diff needs, and the hunk-line entry points.

use vstd::prelude::*;
use vstd::string::{StrSliceExecFns, StringExecFns};

use crate::git_types::Commit;

verus! {

/// What kind of change a work-in-progress patch describes.
#[derive(Clone, Copy, PartialEq, Eq, Structural, Debug)]
pub enum WipPatchType {
    A,
    C,
    D,
    M,
    R,
    U,
}

/// One uncommitted patch, as the status layer reports it.
pub struct WipPatch {
    pub old_file: String,
    pub new_file: String,
    pub patch_type: WipPatchType,
    pub is_image: bool,
}

/// One rendered diff line.
pub struct HunkLine {
    pub old_num: Option<u32>,
    pub new_num: Option<u32>,
    pub text: String,
}

/// A hunk-lines request: the repository, the patch, and the commit the
/// working tree is compared against.
pub struct ReqWipHunksOptions {
    pub repo_path: String,
    pub patch: WipPatch,
    pub head_commit: Option<Commit>,
}

/// How many newlines among the first `n` characters are preceded by a
/// carriage return.
pub open spec fn crlf_upto(s: Seq<char>, n: int) -> int
    decreases n,
{
    if n <= 0 {
        0
    } else {
        crlf_upto(s, n - 1) + if s[n - 1] == '\n' && n >= 2 && s[n - 2] == '\r' {
            1int
        } else {
            0int
        }
    }
}

/// How many newlines among the first `n` characters are bare.
pub open spec fn lf_upto(s: Seq<char>, n: int) -> int
    decreases n,
{
    if n <= 0 {
        0
    } else {
        lf_upto(s, n - 1) + if s[n - 1] == '\n' && !(n >= 2 && s[n - 2] == '\r') {
            1int
        } else {
            0int
        }
    }
}

/// The line ending a text uses: the carriage-return form when it
/// dominates, the bare newline otherwise.
pub open spec fn line_ending_of(s: Seq<char>) -> Seq<char> {
    if crlf_upto(s, s.len() as int) > lf_upto(s, s.len() as int) {
        "\r\n"@
    } else {
        "\n"@
    }
}

/// Detects which line ending a file uses by counting both newline forms.
pub fn detect_new_line(text: &str) -> (r: String)
    ensures
        r@ == line_ending_of(text@),
{
    let n = text.unicode_len();
    let mut crlf: usize = 0;
    let mut lf: usize = 0;
    let mut i: usize = 0;
    while i < n
        invariant
            n == text@.len(),
            i <= n,
            crlf as int == crlf_upto(text@, i as int),
            lf as int == lf_upto(text@, i as int),
            crlf + lf <= i,
        decreases n - i,
    {
        let c = text.get_char(i);
        if c == '\n' {
            if i >= 1 && text.get_char(i - 1) == '\r' {
                crlf = crlf + 1;
            } else {
                lf = lf + 1;
            }
        }
        i = i + 1;
    }
    if crlf > lf {
        String::from_str("\r\n")
    } else {
        String::from_str("\n")
    }
}

/// Computes the rendered diff lines of an uncommitted patch, given the
/// text of the file as it stands — or nothing when the file could not be
/// read. Image patches have no line diff. The rendering itself is not
/// carried by this layer yet, so every answer is absence.
pub fn load_wip_hunk_lines(options: &ReqWipHunksOptions, file_text: Option<&String>) -> (r: Option<
    Vec<HunkLine>,
>)
    ensures
        r is None,
{
    if options.patch.is_image {
        return None;
    }
    let _line_ending = match file_text {
        Some(text) => Some(detect_new_line(text.as_str())),
        None => None,
    };
    None
}

/// Loads the hunk lines of an uncommitted patch for their side effects
/// alone; the answer itself is discarded.
pub fn load_wip_hunks(options: &ReqWipHunksOptions, file_text: Option<&String>) {
    let _lines = load_wip_hunk_lines(options, file_text);
}

} // verus!
