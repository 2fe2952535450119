use crate::fileinfo::{Fileinfo, FileinfoView};
use vstd::prelude::*;
use vstd::string::StringSliceAdditionalSpecFns;
use vstd::utf8::encode_utf8;

verus! {

/// Byte path `p` lies in the tree rooted at `root`, compared component by
/// component: `root` is a prefix of `p` that ends at a separator of `p`, or
/// at its end.
pub open spec fn bytes_under(p: Seq<u8>, root: Seq<u8>) -> bool {
    &&& root.len() <= p.len()
    &&& p.take(root.len() as int) == root
    &&& p.len() == root.len() || (root.len() > 0 && root.last() == 47u8) || p[root.len() as int]
        == 47u8
}

/// Path `p` lies in the tree rooted at `root`.
pub open spec fn path_under(p: Seq<char>, root: Seq<char>) -> bool {
    bytes_under(encode_utf8(p), encode_utf8(root))
}

/// Path `p` lies in the tree of one of the ignored roots.
pub open spec fn ignored(p: Seq<char>, ignore_roots: Seq<String>) -> bool {
    exists|k: int| 0 <= k < ignore_roots.len() && path_under(p, #[trigger] ignore_roots[k]@)
}

fn starts_with_dir(p: &[u8], root: &[u8]) -> (r: bool)
    ensures
        r == bytes_under(p@, root@),
{
    let n = root.len();
    if n > p.len() {
        return false;
    }
    let mut i: usize = 0;
    while i < n
        invariant
            n == root@.len(),
            n <= p@.len(),
            i <= n,
            forall|k: int| 0 <= k < i ==> p@[k] == root@[k],
        decreases n - i,
    {
        if p[i] != root[i] {
            assert(p@.take(n as int)[i as int] != root@[i as int]);
            return false;
        }
        i = i + 1;
    }
    assert(p@.take(n as int) =~= root@);
    p.len() == n || (n > 0 && root[n - 1] == 47u8) || p[n] == 47u8
}

/// Whether `path` lies in the tree of one of `ignore_roots`.
pub fn is_ignored(path: &str, ignore_roots: &Vec<String>) -> (r: bool)
    ensures
        r == ignored(path@, ignore_roots@),
{
    let p = path.as_bytes();
    let mut k: usize = 0;
    while k < ignore_roots.len()
        invariant
            k <= ignore_roots.len(),
            p@ == encode_utf8(path@),
            forall|m: int| 0 <= m < k ==> !path_under(path@, #[trigger] ignore_roots@[m]@),
        decreases ignore_roots.len() - k,
    {
        let root = ignore_roots[k].as_str().as_bytes();
        if starts_with_dir(p, root) {
            assert(path_under(path@, ignore_roots@[k as int]@));
            return true;
        }
        k = k + 1;
    }
    false
}

/// What kind of entry a path names, read without following a link.
#[derive(PartialEq, Eq, Structural, Clone, Copy, Debug)]
pub enum EntryKind {
    File,
    Directory,
    Symlink,
    Other,
}

/// What the file system says of an entry, read without following a link.
#[derive(PartialEq, Eq, Structural, Clone, Copy, Debug)]
pub struct EntryMeta {
    pub kind: EntryKind,
    pub length: u64,
}

/// Why an entry could not be processed.
#[derive(PartialEq, Eq, Clone, Debug)]
pub enum FailureCause {
    /// The file system refused: reading metadata, resolving the path or
    /// listing a directory failed. Holds the error's description.
    Fs(String),
    /// The entry is a symbolic link, which is never followed.
    SymlinkSkipped,
}

/// What to do with one entry met during traversal.
#[derive(Debug)]
pub enum Visit {
    /// It lies under an ignored root: emit nothing and do not descend.
    Pruned,
    /// A qualifying file: emit this record.
    Found(Fileinfo),
    /// Not a candidate (too small, or neither file nor directory): emit
    /// nothing.
    Skipped,
    /// Report this path with this cause.
    Failed(String, FailureCause),
    /// A directory: list this canonical path and visit each entry.
    Descend(String),
}

/// The decision that the traversal takes for `path`, given what resolving
/// it to a canonical path and reading its metadata gave. An entry whose
/// canonical path lies under an ignored root is pruned before anything else.
/// A failed metadata read, a symbolic link and a failed resolution are
/// reported, in that order. A file at least `min_size` long becomes a record
/// of its canonical path; a directory is descended into.
pub fn visit(
    path: String,
    canonical: Result<String, String>,
    meta: Result<EntryMeta, String>,
    ignore_roots: &Vec<String>,
    min_size: u64,
) -> (r: Visit)
    ensures
        match canonical {
            Ok(c) => ignored(c@, ignore_roots@),
            Err(_) => false,
        } ==> r is Pruned,
        r matches Visit::Found(f) ==> !ignored(f@.paths[0]@, ignore_roots@) && f@.length
            >= min_size,
        r matches Visit::Failed(_, _) ==> match canonical {
            Ok(c) => !ignored(c@, ignore_roots@),
            Err(_) => true,
        },
        !match canonical {
            Ok(c) => ignored(c@, ignore_roots@),
            Err(_) => false,
        } ==> match (meta, canonical) {
            (Err(e), _) => r == Visit::Failed(path, FailureCause::Fs(e)),
            (Ok(m), _) if m.kind == EntryKind::Symlink => r == Visit::Failed(
                path,
                FailureCause::SymlinkSkipped,
            ),
            (Ok(_), Err(e)) => r == Visit::Failed(path, FailureCause::Fs(e)),
            (Ok(m), Ok(c)) => match m.kind {
                EntryKind::File => if m.length >= min_size {
                    r matches Visit::Found(f) && f@ == (FileinfoView {
                        full_hash: None,
                        partial_hash: None,
                        length: m.length,
                        paths: seq![c],
                    })
                } else {
                    r is Skipped
                },
                EntryKind::Directory => r == Visit::Descend(c),
                _ => r is Skipped,
            },
        },
{
    let pruned = match &canonical {
        Ok(c) => is_ignored(c.as_str(), ignore_roots),
        Err(_) => false,
    };
    if pruned {
        return Visit::Pruned;
    }
    let m = match meta {
        Err(e) => {
            return Visit::Failed(path, FailureCause::Fs(e));
        },
        Ok(m) => m,
    };
    if m.kind == EntryKind::Symlink {
        return Visit::Failed(path, FailureCause::SymlinkSkipped);
    }
    let c = match canonical {
        Err(e) => {
            return Visit::Failed(path, FailureCause::Fs(e));
        },
        Ok(c) => c,
    };
    match m.kind {
        EntryKind::File => {
            if m.length >= min_size {
                Visit::Found(Fileinfo::new(None, None, m.length, c))
            } else {
                Visit::Skipped
            }
        },
        EntryKind::Directory => Visit::Descend(c),
        _ => Visit::Skipped,
    }
}

} // verus!
