//! Shell command lines for the external collaborators.
//!
//! Every filesystem and network side effect of this library is expressed as
//! a command line built here and handed to an unverified driver that runs
//! it; each builder pins the exact text of its command.

use crate::text::{ascii_bytes, bytes_eq, lit_bytes};
use vstd::prelude::*;

verus! {

/// The command that deletes a path, recursively and without complaint.
pub open spec fn rm_cmd(path: Seq<u8>) -> Seq<u8> {
    lit_bytes("rm -rf "@) + path
}

/// Builds the delete command for a path.
pub fn rm(path: &[u8]) -> (cmd: Vec<u8>)
    ensures
        cmd@ == rm_cmd(path@),
{
    proof {
        reveal_strlit("rm -rf ");
        assert(("rm -rf ").is_ascii()) by {
            assert(forall|i: int| 0 <= i < ("rm -rf ")@.len() ==> (("rm -rf ")@[i] as u32) < 128);
        }
    }
    crate::text::concat_bytes(ascii_bytes("rm -rf "), path)
}

/// The command that creates a directory and its parents.
pub open spec fn mkdir_cmd(path: Seq<u8>) -> Seq<u8> {
    lit_bytes("mkdir -p "@) + path
}

/// Builds the directory-creation command for a path.
pub fn mkdir(path: &[u8]) -> (cmd: Vec<u8>)
    ensures
        cmd@ == mkdir_cmd(path@),
{
    proof {
        reveal_strlit("mkdir -p ");
        assert(("mkdir -p ").is_ascii()) by {
            assert(forall|i: int|
                0 <= i < ("mkdir -p ")@.len() ==> (("mkdir -p ")@[i] as u32) < 128);
        }
    }
    crate::text::concat_bytes(ascii_bytes("mkdir -p "), path)
}

/// The command that creates an empty file or refreshes its timestamps.
pub open spec fn touch_cmd(path: Seq<u8>) -> Seq<u8> {
    lit_bytes("touch "@) + path
}

/// Builds the touch command for a path.
pub fn touch(path: &[u8]) -> (cmd: Vec<u8>)
    ensures
        cmd@ == touch_cmd(path@),
{
    proof {
        reveal_strlit("touch ");
        assert(("touch ").is_ascii()) by {
            assert(forall|i: int| 0 <= i < ("touch ")@.len() ==> (("touch ")@[i] as u32) < 128);
        }
    }
    crate::text::concat_bytes(ascii_bytes("touch "), path)
}

/// The command that downloads a URL to a path.
pub open spec fn wget_cmd(url: Seq<u8>, out: Seq<u8>) -> Seq<u8> {
    lit_bytes("wget "@) + url + lit_bytes(" -O "@) + out
}

/// Builds the download command for a URL and a destination path.
pub fn wget(url: &[u8], out: &[u8]) -> (cmd: Vec<u8>)
    ensures
        cmd@ == wget_cmd(url@, out@),
{
    proof {
        reveal_strlit("wget ");
        assert(("wget ").is_ascii()) by {
            assert(forall|i: int| 0 <= i < ("wget ")@.len() ==> (("wget ")@[i] as u32) < 128);
        }
        reveal_strlit(" -O ");
        assert((" -O ").is_ascii()) by {
            assert(forall|i: int| 0 <= i < (" -O ")@.len() ==> ((" -O ")@[i] as u32) < 128);
        }
    }
    let mut cmd = crate::text::concat_bytes(ascii_bytes("wget "), url);
    crate::text::append_bytes(&mut cmd, ascii_bytes(" -O "));
    crate::text::append_bytes(&mut cmd, out);
    proof {
        assert(cmd@ =~= wget_cmd(url@, out@));
    }
    cmd
}

/// The command that decompresses a gzipped file in place, deleting the
/// compressed file.
pub open spec fn gzip_extract_cmd(path: Seq<u8>) -> Seq<u8> {
    lit_bytes("gzip -d "@) + path
}

/// Builds the decompression command for a path.
pub fn gzip_extract(path: &[u8]) -> (cmd: Vec<u8>)
    ensures
        cmd@ == gzip_extract_cmd(path@),
{
    proof {
        reveal_strlit("gzip -d ");
        assert(("gzip -d ").is_ascii()) by {
            assert(forall|i: int| 0 <= i < ("gzip -d ")@.len() ==> (("gzip -d ")@[i] as u32) < 128);
        }
    }
    crate::text::concat_bytes(ascii_bytes("gzip -d "), path)
}

/// The command that copies the contents of one directory into another,
/// creating the destination first.
pub open spec fn copy_recursive_cmd(from: Seq<u8>, to: Seq<u8>) -> Seq<u8> {
    mkdir_cmd(to) + lit_bytes(" && cp -r "@) + from + lit_bytes("/* "@) + to
}

/// Builds the recursive-copy command for two directories.
pub fn copy_recursive(from: &[u8], to: &[u8]) -> (cmd: Vec<u8>)
    ensures
        cmd@ == copy_recursive_cmd(from@, to@),
{
    proof {
        reveal_strlit(" && cp -r ");
        assert((" && cp -r ").is_ascii()) by {
            assert(forall|i: int|
                0 <= i < (" && cp -r ")@.len() ==> ((" && cp -r ")@[i] as u32) < 128);
        }
        reveal_strlit("/* ");
        assert(("/* ").is_ascii()) by {
            assert(forall|i: int| 0 <= i < ("/* ")@.len() ==> (("/* ")@[i] as u32) < 128);
        }
    }
    let mut cmd = mkdir(to);
    crate::text::append_bytes(&mut cmd, ascii_bytes(" && cp -r "));
    crate::text::append_bytes(&mut cmd, from);
    crate::text::append_bytes(&mut cmd, ascii_bytes("/* "));
    crate::text::append_bytes(&mut cmd, to);
    proof {
        assert(cmd@ =~= copy_recursive_cmd(from@, to@));
    }
    cmd
}

/// The Debian architecture name for a host machine identifier: the common
/// 64-bit identifiers map to their Debian names, anything else falls back
/// to amd64.
pub open spec fn spec_debian_arch(host: Seq<u8>) -> Seq<u8> {
    if host == lit_bytes("x86_64"@) {
        lit_bytes("amd64"@)
    } else if host == lit_bytes("aarch64"@) {
        lit_bytes("aarch64"@)
    } else {
        lit_bytes("amd64"@)
    }
}

/// Maps a host machine identifier to the Debian architecture name used in
/// repository paths.
pub fn get_arch(host_arch: &[u8]) -> (r: Vec<u8>)
    ensures
        r@ == spec_debian_arch(host_arch@),
{
    proof {
        reveal_strlit("x86_64");
        assert(("x86_64").is_ascii()) by {
            assert(forall|i: int| 0 <= i < ("x86_64")@.len() ==> (("x86_64")@[i] as u32) < 128);
        }
        reveal_strlit("aarch64");
        assert(("aarch64").is_ascii()) by {
            assert(forall|i: int| 0 <= i < ("aarch64")@.len() ==> (("aarch64")@[i] as u32) < 128);
        }
        reveal_strlit("amd64");
        assert(("amd64").is_ascii()) by {
            assert(forall|i: int| 0 <= i < ("amd64")@.len() ==> (("amd64")@[i] as u32) < 128);
        }
    }
    if bytes_eq(host_arch, ascii_bytes("aarch64")) {
        vstd::slice::slice_to_vec(ascii_bytes("aarch64"))
    } else {
        vstd::slice::slice_to_vec(ascii_bytes("amd64"))
    }
}

} // verus!
