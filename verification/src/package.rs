//! The integrity rules of profile packages: each file is recorded in the
//! manifest with its SHA-256, and installing a package checks every file
//! against that record.

use vstd::prelude::*;
use crate::escape::hex_text;
use crate::report::sha256;
use crate::structns::contains_text;
use crate::text::{chars_eq_str, chars_of, push_str, string_of};

verus! {

/// One file of a package as its manifest records it.
pub struct ManifestFile {
    pub path: String,
    pub sha256: String,
}

/// A package's manifest: its name, version and files.
pub struct Manifest {
    pub name: String,
    pub version: String,
    pub files: Vec<ManifestFile>,
}

/// The SHA-256 of `data` in lower-case hexadecimal.
pub open spec fn digest_text(data: Seq<u8>) -> Seq<char> {
    hex_text(sha256(data))
}

/// The SHA-256 of `data` in lower-case hexadecimal, as the manifest records
/// it.
pub fn file_digest(data: &Vec<u8>) -> (r: String)
    ensures
        r@ == digest_text(data@),
{
    let d = crate::report::sha256_digest(data);
    crate::escape::hex(d.as_slice())
}

/// A path inside a package stays inside the folder it is installed in: no
/// `..` anywhere, and not absolute.
pub open spec fn safe_path(p: Seq<char>) -> bool {
    !contains_text(p, ".."@) && !(p.len() > 0 && p[0] == '/')
}

/// Whether a path inside a package stays inside the folder it is installed
/// in.
pub fn is_safe_path(p: &str) -> (r: bool)
    ensures
        r == safe_path(p@),
{
    let pv = chars_of(p);
    let dots = chars_of("..");
    let up = crate::watch::find(&pv, &dots, 0).is_some();
    !up && !(pv.len() > 0 && pv[0] == '/')
}

/// The first entry of the package, from position `from` on, whose path is
/// `path`.
pub open spec fn entry_index(entries: Seq<(String, Vec<u8>)>, path: Seq<char>, from: int) -> Option<int>
    decreases entries.len() - from,
{
    if from < 0 || from >= entries.len() {
        None
    } else if entries[from].0@ == path {
        Some(from)
    } else {
        entry_index(entries, path, from + 1)
    }
}

/// The entry `entry_index` finds lies in the package, from `from` on.
proof fn lemma_entry_index_in_range(entries: Seq<(String, Vec<u8>)>, path: Seq<char>, from: int)
    ensures
        entry_index(entries, path, from) matches Some(k) ==> from <= k < entries.len(),
    decreases entries.len() - from,
{
    if 0 <= from < entries.len() && entries[from].0@ != path {
        lemma_entry_index_in_range(entries, path, from + 1);
    }
}

/// The error for a file the manifest lists and the package lacks.
pub open spec fn missing_text(path: Seq<char>) -> Seq<char> {
    "file "@ + path + " listed in the manifest but missing from the package"@
}

/// The error for a file whose bytes do not hash to what the manifest says.
pub open spec fn tampered_text(path: Seq<char>) -> Seq<char> {
    "hash of "@ + path + " does not match (corrupted or tampered package)"@
}

/// The entry of the package that holds the manifest's file `path`, checked
/// against the digest `sha256` the manifest records: its position when the
/// first entry with that path hashes to it; an error when there is no such
/// entry or its bytes hash to something else.
pub fn verified_entry(entries: &Vec<(String, Vec<u8>)>, path: &str, sha256: &str) -> (r: Result<usize, String>)
    ensures
        match entry_index(entries@, path@, 0) {
            None => r matches Err(e) && e@ == missing_text(path@),
            Some(k) => if digest_text(entries@[k].1@) == sha256@ {
                r == Ok::<usize, String>(k as usize)
            } else {
                r matches Err(e) && e@ == tampered_text(path@)
            },
        },
{
    let pv = chars_of(path);
    let mut i: usize = 0;
    while i < entries.len()
        invariant
            i <= entries@.len(),
            pv@ == path@,
            entry_index(entries@, path@, 0) == entry_index(entries@, path@, i as int),
        decreases entries.len() - i,
    {
        if chars_eq_str(&pv, entries[i].0.as_str()) {
            let digest = file_digest(&entries[i].1);
            let dv = chars_of(digest.as_str());
            if chars_eq_str(&dv, sha256) {
                return Ok(i);
            }
            let mut msg: Vec<char> = Vec::new();
            push_str(&mut msg, "hash of ");
            push_str(&mut msg, path);
            push_str(&mut msg, " does not match (corrupted or tampered package)");
            return Err(string_of(&msg));
        }
        i = i + 1;
    }
    let mut msg: Vec<char> = Vec::new();
    push_str(&mut msg, "file ");
    push_str(&mut msg, path);
    push_str(&mut msg, " listed in the manifest but missing from the package");
    Err(string_of(&msg))
}

/// What checking the manifest's file `path`, recorded with digest `sha256`,
/// gives: the position of the entry that holds it, or the error.
pub open spec fn entry_verdict(entries: Seq<(String, Vec<u8>)>, path: Seq<char>, sha256: Seq<char>) -> Result<int, Seq<char>> {
    match entry_index(entries, path, 0) {
        None => Err(missing_text(path)),
        Some(k) => if digest_text(entries[k].1@) == sha256 {
            Ok(k)
        } else {
            Err(tampered_text(path))
        },
    }
}

/// The files of `manifest` checked in their order against the package's
/// entries: the positions of the entries holding the files that passed
/// before the first that failed, and that failure's error (`None` when every
/// file passed, and only then are all of them there).
pub fn install_plan(manifest: &Manifest, entries: &Vec<(String, Vec<u8>)>) -> (r: (Vec<usize>, Option<String>))
    ensures
        r.0@.len() <= manifest.files@.len(),
        forall|i: int| 0 <= i < r.0@.len() ==> entry_verdict(entries@, #[trigger] manifest.files@[i].path@, manifest.files@[i].sha256@)
            == Ok::<int, Seq<char>>(r.0@[i] as int),
        match r.1 {
            None => r.0@.len() == manifest.files@.len(),
            Some(e) => r.0@.len() < manifest.files@.len() && entry_verdict(entries@,
                manifest.files@[r.0@.len() as int].path@, manifest.files@[r.0@.len() as int].sha256@) == Err::<int, Seq<char>>(e@),
        },
{
    let mut ok: Vec<usize> = Vec::new();
    let mut i: usize = 0;
    while i < manifest.files.len()
        invariant
            i <= manifest.files@.len(),
            ok@.len() == i,
            forall|j: int| 0 <= j < i ==> entry_verdict(entries@, #[trigger] manifest.files@[j].path@, manifest.files@[j].sha256@)
                == Ok::<int, Seq<char>>(ok@[j] as int),
        decreases manifest.files.len() - i,
    {
        let f = &manifest.files[i];
        let res = verified_entry(entries, f.path.as_str(), f.sha256.as_str());
        match res {
            Ok(k) => {
                let ghost before = ok@;
                proof {
                    lemma_entry_index_in_range(entries@, f.path@, 0);
                    let kk: int = entry_index(entries@, f.path@, 0)->0;
                    assert(0 <= kk < entries.len());
                    assert(entry_verdict(entries@, f.path@, f.sha256@) == Ok::<int, Seq<char>>(k as int));
                }
                ok.push(k);
                assert forall|j: int| 0 <= j < i + 1 implies entry_verdict(entries@, #[trigger] manifest.files@[j].path@,
                    manifest.files@[j].sha256@) == Ok::<int, Seq<char>>(ok@[j] as int) by {
                    if j < i {
                        assert(ok@[j] == before[j]);
                    }
                }
            },
            Err(e) => {
                return (ok, Some(e));
            },
        }
        i = i + 1;
    }
    (ok, None)
}

/// The position of the first entry of the package whose path is `path`.
pub fn find_entry(entries: &Vec<(String, Vec<u8>)>, path: &str) -> (r: Option<usize>)
    ensures
        match entry_index(entries@, path@, 0) {
            None => r is None,
            Some(k) => r == Some(k as usize),
        },
{
    let pv = chars_of(path);
    let mut i: usize = 0;
    while i < entries.len()
        invariant
            i <= entries@.len(),
            pv@ == path@,
            entry_index(entries@, path@, 0) == entry_index(entries@, path@, i as int),
        decreases entries.len() - i,
    {
        if chars_eq_str(&pv, entries[i].0.as_str()) {
            return Some(i);
        }
        i = i + 1;
    }
    None
}

} // verus!
