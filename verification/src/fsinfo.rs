//! Filesystem-kind decisions: the sweep refuses network filesystems, because
//! Cargo skips its own locking entirely there.
//!
//! On Windows the decision starts from the path's prefix: UNC shares are
//! network, a drive letter is network when the system reports a remote drive,
//! a relative path is judged by the current directory, and device or other
//! verbatim namespaces cannot be classified. On Linux it is the `statfs`
//! filesystem type, on macOS the filesystem's type name; when the system
//! cannot say, the kind is unknown. Reports count an unknown kind as local;
//! the sweep refuses it (see `sweep::sweep_precheck`). What the system
//! reports is observed by the caller.

use vstd::prelude::*;
use crate::text::{chars_of, str_eq};

verus! {

/// The prefix of a Windows path.
#[derive(Debug, Clone, Copy, PartialEq, Eq, Structural)]
pub enum PathPrefix {
    /// `\\?\prefix`
    Verbatim,
    /// `\\?\UNC\server\share`
    VerbatimUnc,
    /// `\\?\C:\`
    VerbatimDisk(char),
    /// `\\.\device`
    DeviceNs,
    /// `\\server\share`
    Unc,
    /// `C:`
    Disk(char),
    /// No prefix: a relative path, or one rooted at the current drive.
    NoPrefix,
}

pub open spec fn is_sep(c: char) -> bool {
    c == '\\' || c == '/'
}

pub open spec fn is_letter(c: char) -> bool {
    ('a' <= c && c <= 'z') || ('A' <= c && c <= 'Z')
}

pub open spec fn upper(c: char) -> char {
    if 'a' <= c && c <= 'z' {
        ((c as int) - 32) as char
    } else {
        c
    }
}

/// `rest` starts with a non-empty server name, a separator, and a non-empty
/// share name.
pub open spec fn unc_shaped(rest: Seq<char>) -> bool {
    exists|i: int|
        0 < i && i + 1 < rest.len() && #[trigger] is_sep(rest[i]) && !is_sep(rest[i + 1]) && (forall|j: int|
            0 <= j < i ==> !is_sep(rest[j]))
}

/// The prefix of path `p`. A verbatim prefix is spelled with backslashes
/// only; elsewhere either slash separates.
pub open spec fn prefix_of(p: Seq<char>) -> PathPrefix {
    if p.len() >= 4 && p[0] == '\\' && p[1] == '\\' && p[2] == '?' && p[3] == '\\' {
        let rest = p.skip(4);
        if rest.len() >= 4 && rest[0] == 'U' && rest[1] == 'N' && rest[2] == 'C' && is_sep(rest[3]) {
            PathPrefix::VerbatimUnc
        } else if rest.len() >= 3 && is_letter(rest[0]) && rest[1] == ':' && rest[2] == '\\' {
            PathPrefix::VerbatimDisk(upper(rest[0]))
        } else {
            PathPrefix::Verbatim
        }
    } else if p.len() >= 4 && is_sep(p[0]) && is_sep(p[1]) && p[2] == '.' && is_sep(p[3]) {
        PathPrefix::DeviceNs
    } else if p.len() >= 2 && is_sep(p[0]) && is_sep(p[1]) {
        if unc_shaped(p.skip(2)) {
            PathPrefix::Unc
        } else {
            PathPrefix::NoPrefix
        }
    } else if p.len() >= 2 && is_letter(p[0]) && p[1] == ':' {
        PathPrefix::Disk(upper(p[0]))
    } else {
        PathPrefix::NoPrefix
    }
}

fn sep(c: char) -> (b: bool)
    ensures
        b == is_sep(c),
{
    c == '\\' || c == '/'
}

fn letter(c: char) -> (b: bool)
    ensures
        b == is_letter(c),
{
    ('a' <= c && c <= 'z') || ('A' <= c && c <= 'Z')
}

fn to_upper(c: char) -> (u: char)
    ensures
        u == upper(c),
{
    if 'a' <= c && c <= 'z' {
        ((c as u8) - 32) as char
    } else {
        c
    }
}

fn has_unc_shape(p: &Vec<char>, from: usize) -> (b: bool)
    requires
        from <= p@.len(),
    ensures
        b == unc_shaped(p@.skip(from as int)),
{
    let ghost rest = p@.skip(from as int);
    let mut i: usize = from;
    while i < p.len() && !sep(p[i])
        invariant
            from <= i <= p@.len(),
            rest == p@.skip(from as int),
            forall|j: int| 0 <= j < i - from ==> !is_sep(rest[j]),
        decreases p.len() - i,
    {
        i = i + 1;
    }
    let k = i - from;
    if i == p.len() {
        assert forall|m: int| 0 < m && m + 1 < rest.len() && #[trigger] is_sep(rest[m]) implies !(!is_sep(
            rest[m + 1],
        ) && (forall|j: int| 0 <= j < m ==> !is_sep(rest[j]))) by {
            assert(!is_sep(rest[m]));
        }
        return false;
    }
    let ok = k > 0 && i + 1 < p.len() && !sep(p[i + 1]);
    proof {
        assert(is_sep(rest[k as int]));
        if ok {
            assert(rest[k + 1] == p@[i + 1]);
        } else {
            assert forall|m: int| 0 < m && m + 1 < rest.len() && #[trigger] is_sep(rest[m]) implies !(!is_sep(
                rest[m + 1],
            ) && (forall|j: int| 0 <= j < m ==> !is_sep(rest[j]))) by {
                if m > k {
                    assert(0 <= k < m);
                } else if m < k {
                    assert(!is_sep(rest[m]));
                } else {
                    assert(rest[m + 1] == p@[i + 1]);
                }
            }
        }
    }
    ok
}

/// The prefix of a Windows path.
pub fn windows_prefix(path: &str) -> (r: PathPrefix)
    ensures
        r == prefix_of(path@),
{
    let p = chars_of(path);
    let n = p.len();
    if n >= 4 && p[0] == '\\' && p[1] == '\\' && p[2] == '?' && p[3] == '\\' {
        if n >= 8 && p[4] == 'U' && p[5] == 'N' && p[6] == 'C' && sep(p[7]) {
            PathPrefix::VerbatimUnc
        } else if n >= 7 && letter(p[4]) && p[5] == ':' && p[6] == '\\' {
            PathPrefix::VerbatimDisk(to_upper(p[4]))
        } else {
            PathPrefix::Verbatim
        }
    } else if n >= 4 && sep(p[0]) && sep(p[1]) && p[2] == '.' && sep(p[3]) {
        PathPrefix::DeviceNs
    } else if n >= 2 && sep(p[0]) && sep(p[1]) {
        if has_unc_shape(&p, 2) {
            PathPrefix::Unc
        } else {
            PathPrefix::NoPrefix
        }
    } else if n >= 2 && letter(p[0]) && p[1] == ':' {
        PathPrefix::Disk(to_upper(p[0]))
    } else {
        PathPrefix::NoPrefix
    }
}

/// Whether a path with prefix `pre` is on a network filesystem, when that can
/// be told: from what the system reports of its drive (`drive_remote`, for
/// drive letters) and of the current directory (`cwd_network`, for paths
/// without a prefix). Device and other verbatim namespaces cannot be told.
pub open spec fn network_kind(pre: PathPrefix, drive_remote: bool, cwd_network: Option<bool>) -> Option<bool> {
    match pre {
        PathPrefix::Unc | PathPrefix::VerbatimUnc => Some(true),
        PathPrefix::Disk(_) | PathPrefix::VerbatimDisk(_) => Some(drive_remote),
        PathPrefix::NoPrefix => cwd_network,
        PathPrefix::DeviceNs | PathPrefix::Verbatim => None,
    }
}

/// The kind of Windows path `path`: `Some(true)` on a network filesystem,
/// `Some(false)` on a local one, `None` when it cannot be classified.
pub fn classify_path(path: &str, drive_remote: bool, cwd_network: Option<bool>) -> (k: Option<bool>)
    ensures
        k == network_kind(prefix_of(path@), drive_remote, cwd_network),
{
    match windows_prefix(path) {
        PathPrefix::Unc | PathPrefix::VerbatimUnc => Some(true),
        PathPrefix::Disk(_) | PathPrefix::VerbatimDisk(_) => Some(drive_remote),
        PathPrefix::NoPrefix => cwd_network,
        PathPrefix::DeviceNs | PathPrefix::Verbatim => None,
    }
}

/// True when Windows path `path` lives on a network filesystem as far as a
/// report is concerned: a UNC share, or a drive the system reports as remote
/// (`drive_remote`); a path without a prefix is judged by the current
/// directory (`cwd_network`); a path that cannot be classified counts as not
/// network.
pub fn is_network_path(path: &str, drive_remote: bool, cwd_network: bool) -> (b: bool)
    ensures
        b == (network_kind(prefix_of(path@), drive_remote, Some(cwd_network)) == Some(true)),
{
    match classify_path(path, drive_remote, Some(cwd_network)) {
        Some(n) => n,
        None => false,
    }
}

/// Linux `statfs` filesystem types of network filesystems: NFS, SMB, SMB2,
/// CIFS, Coda, AFS, NCP, 9p, and FUSE (sshfs and friends).
pub open spec fn network_fs_types() -> Set<i64> {
    set![0x6969i64, 0x517Bi64, 0xFE53_4D42i64, 0xFF53_4D42i64, 0x7375_7245i64, 0x5346_414Fi64, 0x564Ci64, 0x0102_1997i64, 0x6573_5546i64]
}

pub fn is_network_fs_type(f_type: i64) -> (b: bool)
    ensures
        b == network_fs_types().contains(f_type),
{
    f_type == 0x6969 || f_type == 0x517B || f_type == 0xFE53_4D42 || f_type == 0xFF53_4D42 || f_type
        == 0x7375_7245 || f_type == 0x5346_414F || f_type == 0x564C || f_type == 0x0102_1997 || f_type
        == 0x6573_5546
}

/// The kind of a filesystem from its `statfs` type, `None` when `statfs`
/// failed.
pub fn statfs_kind(f_type: Option<i64>) -> (k: Option<bool>)
    ensures
        k == match f_type {
            Some(t) => Some(network_fs_types().contains(t)),
            None => None,
        },
{
    match f_type {
        Some(t) => Some(is_network_fs_type(t)),
        None => None,
    }
}

/// The kind of a filesystem from its type name, `None` when it could not be
/// read.
pub fn fs_name_kind(name: Option<&str>) -> (k: Option<bool>)
    ensures
        k == match name {
            Some(n) => Some(is_network_fs_name_spec(n@)),
            None => None,
        },
{
    match name {
        Some(n) => Some(is_network_fs_name(n)),
        None => None,
    }
}

/// macOS filesystem type names of network filesystems.
pub open spec fn is_network_fs_name_spec(n: Seq<char>) -> bool {
    n == "nfs"@ || n == "smbfs"@ || n == "afpfs"@ || n == "webdav"@ || n == "cifs"@
}

pub fn is_network_fs_name(name: &str) -> (b: bool)
    ensures
        b == is_network_fs_name_spec(name@),
{
    str_eq(name, "nfs") || str_eq(name, "smbfs") || str_eq(name, "afpfs") || str_eq(name, "webdav") || str_eq(
        name,
        "cifs",
    )
}

} // verus!
