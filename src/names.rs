//! Which files of a directory are session-state records.
use vstd::prelude::*;
use vstd::string::StringSliceAdditionalSpecFns;
use crate::field::{bytes_at, occurs_at};

verus! {

/// `name` ends with `suffix`.
pub open spec fn ends_with(name: Seq<u8>, suffix: Seq<u8>) -> bool {
    suffix.len() <= name.len() && occurs_at(name, suffix, name.len() - suffix.len())
}

/// The name ending of a session-state record that holds a stored path.
pub open spec fn status_suffix() -> Seq<u8> {
    ".torrent.rtorrent".spec_bytes()
}

/// The file is one of the client's session files: its name ends with
/// `rtorrent`, `torrent` or `libtorrent_resume`.
pub open spec fn is_session_name(name: Seq<u8>) -> bool {
    ||| ends_with(name, "rtorrent".spec_bytes())
    ||| ends_with(name, "torrent".spec_bytes())
    ||| ends_with(name, "libtorrent_resume".spec_bytes())
}

/// What to do with one file of the input directory.
#[derive(Debug, Clone, Copy, PartialEq, Eq, Structural)]
pub struct FilePlan {
    /// Copy the file into the output directory first.
    pub stage: bool,
    /// Rewrite the record (the staged copy when staging).
    pub rewrite: bool,
}

/// Whether `name` ends with `suffix`.
pub fn has_suffix(name: &[u8], suffix: &[u8]) -> (r: bool)
    ensures
        r == ends_with(name@, suffix@),
{
    if suffix.len() > name.len() {
        return false;
    }
    bytes_at(name, name.len() - suffix.len(), suffix)
}

/// Whether the file called `name` is a session-state record to rewrite.
pub fn is_status_file(name: &[u8]) -> (r: bool)
    ensures
        r == ends_with(name@, status_suffix()),
{
    has_suffix(name, ".torrent.rtorrent".as_bytes())
}

/// Whether the file called `name` is one of the client's session files.
pub fn is_session_file(name: &[u8]) -> (r: bool)
    ensures
        r == is_session_name(name@),
{
    has_suffix(name, "rtorrent".as_bytes()) || has_suffix(name, "torrent".as_bytes()) || has_suffix(
        name,
        "libtorrent_resume".as_bytes(),
    )
}

/// Decides, for the file called `name`, whether it is copied into the output
/// directory (only when `staging`) and whether its record is rewritten.
pub fn plan_file(name: &[u8], staging: bool) -> (p: FilePlan)
    ensures
        p.stage == (staging && is_session_name(name@)),
        p.rewrite == (is_session_name(name@) && ends_with(name@, status_suffix())),
{
    let session = is_session_file(name);
    let status = is_status_file(name);
    FilePlan { stage: staging && session, rewrite: session && status }
}

} // verus!
