use vstd::prelude::*;

verus! {

/// Length of the leading block that a partial hash covers. A file no longer
/// than this is fully described by its partial hash.
pub const BLOCK_SIZE: u64 = 4096;

/// Which part of a file a hash covers.
#[derive(PartialEq, Eq, Structural, Clone, Copy, Debug)]
pub enum HashMode {
    Full,
    Partial,
}

/// A group of one or more paths believed to hold identical content, with the
/// length they share and whichever hashes have been computed for them.
#[derive(Debug)]
pub struct Fileinfo {
    full_hash: Option<u128>,
    partial_hash: Option<u128>,
    length: u64,
    file_paths: Vec<String>,
}

/// The abstract value of a [`Fileinfo`].
pub struct FileinfoView {
    pub full_hash: Option<u128>,
    pub partial_hash: Option<u128>,
    pub length: u64,
    pub paths: Seq<String>,
}

impl FileinfoView {
    /// A live record holds at least one path.
    pub open spec fn wf(self) -> bool {
        self.paths.len() > 0
    }

    /// The key under which records are merged: present only when both hashes
    /// were computed. A record without it is never merged with another.
    pub open spec fn key(self) -> Option<(u128, u128)> {
        match (self.partial_hash, self.full_hash) {
            (Some(p), Some(f)) => Some((p, f)),
            _ => None,
        }
    }

    /// The same record with its paths replaced.
    pub open spec fn with_paths(self, paths: Seq<String>) -> FileinfoView {
        FileinfoView { paths, ..self }
    }

    /// Staged ordering: by full hash when both records have one, else by
    /// partial hash when both have one, else by length.
    pub open spec fn staged_cmp(self, other: FileinfoView) -> core::cmp::Ordering {
        if self.full_hash is Some && other.full_hash is Some {
            cmp_u128(self.full_hash->0, other.full_hash->0)
        } else if self.partial_hash is Some && other.partial_hash is Some {
            cmp_u128(self.partial_hash->0, other.partial_hash->0)
        } else {
            cmp_u128(self.length as u128, other.length as u128)
        }
    }
}

pub open spec fn cmp_u128(a: u128, b: u128) -> core::cmp::Ordering {
    if a < b {
        core::cmp::Ordering::Less
    } else if a == b {
        core::cmp::Ordering::Equal
    } else {
        core::cmp::Ordering::Greater
    }
}

fn compare_u128(a: u128, b: u128) -> (r: core::cmp::Ordering)
    ensures
        r == cmp_u128(a, b),
{
    if a < b {
        core::cmp::Ordering::Less
    } else if a == b {
        core::cmp::Ordering::Equal
    } else {
        core::cmp::Ordering::Greater
    }
}

/// The last component of a path: what follows its last `/`, or the whole
/// path where it has none.
pub open spec fn last_segment(p: Seq<char>) -> Seq<char>
    decreases p.len(),
{
    if p.len() == 0 {
        p
    } else if p.last() == '/' {
        Seq::empty()
    } else {
        last_segment(p.drop_last()).push(p.last())
    }
}

proof fn lemma_last_segment_split(p: Seq<char>, j: int)
    requires
        0 <= j <= p.len(),
        forall|k: int| j <= k < p.len() ==> p[k] != '/',
    ensures
        last_segment(p) == last_segment(p.subrange(0, j)) + p.subrange(j, p.len() as int),
    decreases p.len() - j,
{
    if j == p.len() {
        assert(p.subrange(0, j) == p);
        assert(p.subrange(j, p.len() as int) =~= Seq::<char>::empty());
    } else {
        let q = p.drop_last();
        lemma_last_segment_split(q, j);
        assert(q.subrange(0, j) == p.subrange(0, j));
        assert(q.subrange(j, q.len() as int).push(p.last()) =~= p.subrange(j, p.len() as int));
        assert(p.last() == p[p.len() - 1]);
    }
}

impl View for Fileinfo {
    type V = FileinfoView;

    closed spec fn view(&self) -> FileinfoView {
        FileinfoView {
            full_hash: self.full_hash,
            partial_hash: self.partial_hash,
            length: self.length,
            paths: self.file_paths@,
        }
    }
}

impl Fileinfo {
    /// A record of one path.
    pub fn new(full: Option<u128>, partial: Option<u128>, length: u64, path: String) -> (r: Self)
        ensures
            r@ == (FileinfoView { full_hash: full, partial_hash: partial, length, paths: seq![path] }),
    {
        let mut file_paths = Vec::new();
        file_paths.push(path);
        proof {
            assert(file_paths@ =~= seq![path]);
        }
        Fileinfo { full_hash: full, partial_hash: partial, length, file_paths }
    }

    /// The length shared by the files of this record.
    pub fn get_length(&self) -> (r: u64)
        ensures
            r == self@.length,
    {
        self.length
    }

    /// The hash of the whole content, if it was computed.
    pub fn get_full_hash(&self) -> (r: Option<u128>)
        ensures
            r == self@.full_hash,
    {
        self.full_hash
    }

    pub(crate) fn set_full_hash(&mut self, hash: Option<u128>)
        ensures
            final(self)@ == (FileinfoView { full_hash: hash, ..old(self)@ }),
    {
        self.full_hash = hash;
    }

    /// The hash of the leading block, if it was computed.
    pub fn get_partial_hash(&self) -> (r: Option<u128>)
        ensures
            r == self@.partial_hash,
    {
        self.partial_hash
    }

    pub(crate) fn set_partial_hash(&mut self, hash: Option<u128>)
        ensures
            final(self)@ == (FileinfoView { partial_hash: hash, ..old(self)@ }),
    {
        self.partial_hash = hash;
    }

    /// The last component of the first path recorded. Which path came first
    /// depends on the order of discovery, so the name can vary between runs.
    pub fn get_candidate_name(&self) -> (r: &str)
        requires
            self@.wf(),
        ensures
            r@ == last_segment(self@.paths[0]@),
    {
        let s = self.file_paths[0].as_str();
        let n = s.unicode_len();
        let mut start: usize = n;
        while start > 0
            invariant
                start <= n,
                n == s@.len(),
                forall|k: int| start <= k < n ==> s@[k] != '/',
            ensures
                start <= n,
                forall|k: int| start <= k < n ==> s@[k] != '/',
                start == 0 || s@[start - 1] == '/',
            decreases start,
        {
            if s.get_char(start - 1) == '/' {
                break;
            }
            start = start - 1;
        }
        proof {
            lemma_last_segment_split(s@, start as int);
            let pre = s@.subrange(0, start as int);
            if start > 0 {
                assert(pre.last() == s@[start - 1]);
            } else {
                assert(pre =~= Seq::<char>::empty());
            }
            assert(last_segment(pre) =~= Seq::<char>::empty());
            assert(last_segment(s@) =~= s@.subrange(start as int, n as int));
            assert(self@.paths[0]@ == s@);
        }
        s.substring_char(start, n)
    }

    /// Every path of this record, in the order they were added.
    pub fn get_paths(&self) -> (r: &Vec<String>)
        ensures
            r@ == self@.paths,
    {
        &self.file_paths
    }

    /// Whether this record holds more than one path, that is, duplicates.
    pub fn is_shared(&self) -> (r: bool)
        ensures
            r == (self@.paths.len() > 1),
    {
        self.file_paths.len() > 1
    }

    /// Moves all paths of `other` to the end of this record's paths.
    pub(crate) fn take_paths_of(&mut self, other: &mut Fileinfo)
        ensures
            final(self)@ == old(self)@.with_paths(old(self)@.paths + old(other)@.paths),
            final(other)@ == old(other)@.with_paths(Seq::empty()),
    {
        self.file_paths.append(&mut other.file_paths);
    }
}

impl Fileinfo {
    fn staged_compare(&self, other: &Fileinfo) -> (r: core::cmp::Ordering)
        ensures
            r == self@.staged_cmp(other@),
    {
        match (self.full_hash, other.full_hash) {
            (Some(a), Some(b)) => {
                return compare_u128(a, b);
            },
            _ => {},
        }
        match (self.partial_hash, other.partial_hash) {
            (Some(a), Some(b)) => compare_u128(a, b),
            _ => compare_u128(self.length as u128, other.length as u128),
        }
    }
}

/// Staged equality: the records compare equal in the staged ordering.
impl PartialEq for Fileinfo {
    fn eq(&self, other: &Fileinfo) -> (r: bool) {
        match self.staged_compare(other) {
            core::cmp::Ordering::Equal => true,
            _ => false,
        }
    }
}

impl vstd::std_specs::cmp::PartialEqSpecImpl for Fileinfo {
    open spec fn obeys_eq_spec() -> bool {
        true
    }

    open spec fn eq_spec(&self, other: &Fileinfo) -> bool {
        self@.staged_cmp(other@) == core::cmp::Ordering::Equal
    }
}

impl PartialOrd for Fileinfo {
    fn partial_cmp(&self, other: &Fileinfo) -> (r: Option<core::cmp::Ordering>) {
        Some(self.staged_compare(other))
    }
}

impl vstd::std_specs::cmp::PartialOrdSpecImpl for Fileinfo {
    open spec fn obeys_partial_cmp_spec() -> bool {
        true
    }

    open spec fn partial_cmp_spec(&self, other: &Fileinfo) -> Option<core::cmp::Ordering> {
        Some(self@.staged_cmp(other@))
    }
}

} // verus!
