use crate::consolidate::views;
use crate::fileinfo::{Fileinfo, FileinfoView};
use vstd::prelude::*;

verus! {

/// The unit in which sizes are shown.
#[derive(PartialEq, Eq, Structural, Clone, Copy, Debug)]
pub enum Blocksize {
    Bytes,
    Kilobytes,
    Megabytes,
    Gigabytes,
}

/// How results are rendered.
#[derive(PartialEq, Eq, Structural, Clone, Copy, Debug)]
pub enum PrintFmt {
    Standard,
    Json,
}

/// How much is printed.
#[derive(PartialEq, Eq, Structural, Clone, Copy, Debug)]
pub enum Verbosity {
    Quiet,
    Duplicates,
    All,
}

/// The number of bytes in one unit of `b`.
pub open spec fn divisor_of(b: Blocksize) -> u64 {
    match b {
        Blocksize::Bytes => 1,
        Blocksize::Kilobytes => 1024,
        Blocksize::Megabytes => 1048576,
        Blocksize::Gigabytes => 1073741824,
    }
}

/// The number of bytes in one unit of `b`: a power of 1024.
pub fn display_divisor(b: Blocksize) -> (r: u64)
    ensures
        r == divisor_of(b),
{
    match b {
        Blocksize::Bytes => 1,
        Blocksize::Kilobytes => 1024,
        Blocksize::Megabytes => 1048576,
        Blocksize::Gigabytes => 1073741824,
    }
}

/// A record is shared when it holds more than one path.
pub open spec fn is_shared(r: FileinfoView) -> bool {
    r.paths.len() > 1
}

/// A natural number, or `u64::MAX` where it does not fit.
pub open spec fn capped(n: nat) -> u64 {
    if n <= u64::MAX {
        n as u64
    } else {
        u64::MAX
    }
}

/// The sum of `f` over the records of `s`.
pub open spec fn sum_of(s: Seq<FileinfoView>, f: spec_fn(FileinfoView) -> nat) -> nat
    decreases s.len(),
{
    if s.len() == 0 {
        0
    } else {
        sum_of(s.drop_last(), f) + f(s.last())
    }
}

/// Number of paths of a record.
pub open spec fn instances() -> spec_fn(FileinfoView) -> nat {
    |r: FileinfoView| r.paths.len()
}

/// Bytes over all paths of a record.
pub open spec fn instance_bytes() -> spec_fn(FileinfoView) -> nat {
    |r: FileinfoView| r.paths.len() * (r.length as nat)
}

/// Bytes of one copy of a record, counted for every record where `only` is
/// `None`, else for the records whose sharing it names.
pub open spec fn record_bytes(only: Option<bool>) -> spec_fn(FileinfoView) -> nat {
    |r: FileinfoView|
        if only is None || only == Some(is_shared(r)) {
            r.length as nat
        } else {
            0
        }
}

/// One for a record, counted for every record where `only` is `None`, else
/// for the records whose sharing it names.
pub open spec fn record_count(only: Option<bool>) -> spec_fn(FileinfoView) -> nat {
    |r: FileinfoView|
        if only is None || only == Some(is_shared(r)) {
            1
        } else {
            0
        }
}

/// Paths of shared records.
pub open spec fn shared_instances() -> spec_fn(FileinfoView) -> nat {
    |r: FileinfoView|
        if is_shared(r) {
            r.paths.len()
        } else {
            0
        }
}

spec fn measure(t: int) -> spec_fn(FileinfoView) -> nat {
    if t == 0 {
        instances()
    } else if t == 1 {
        instance_bytes()
    } else if t == 2 {
        record_count(None)
    } else if t == 3 {
        record_bytes(None)
    } else if t == 4 {
        record_count(Some(false))
    } else if t == 5 {
        record_bytes(Some(false))
    } else if t == 6 {
        record_count(Some(true))
    } else if t == 7 {
        record_bytes(Some(true))
    } else {
        shared_instances()
    }
}

/// Totals over the records of a run. Sizes are in units of the chosen block
/// size, rounded down; a total too large for `u64` shows as `u64::MAX`.
#[derive(PartialEq, Eq, Structural, Clone, Copy, Debug)]
pub struct Summary {
    /// Files, counting every copy.
    pub instances: u64,
    /// Size of all files, counting every copy.
    pub instance_size: u64,
    /// Distinct contents.
    pub records: u64,
    /// Size of one copy of each distinct content.
    pub record_size: u64,
    /// Files with no duplicate.
    pub single_records: u64,
    pub single_size: u64,
    /// Contents held by more than one file.
    pub shared_records: u64,
    /// Size of one copy of each content held by more than one file.
    pub shared_size: u64,
    /// Files whose content is held by another file too.
    pub shared_instances: u64,
}

fn add_capped(a: u64, b: u64, ghost_a: Ghost<nat>, ghost_b: Ghost<nat>) -> (r: u64)
    requires
        a == capped(ghost_a@),
        b == capped(ghost_b@),
    ensures
        r == capped(ghost_a@ + ghost_b@),
{
    a.saturating_add(b)
}

/// Totals over `files`, in units of `blocksize`.
pub fn summarize(files: &Vec<Fileinfo>, blocksize: Blocksize) -> (r: Summary)
    ensures
        r.instances == capped(sum_of(views(files@), instances())),
        r.instance_size == capped(sum_of(views(files@), instance_bytes())) / divisor_of(
            blocksize,
        ),
        r.records == capped(sum_of(views(files@), record_count(None))),
        r.record_size == capped(sum_of(views(files@), record_bytes(None))) / divisor_of(blocksize),
        r.single_records == capped(sum_of(views(files@), record_count(Some(false)))),
        r.single_size == capped(sum_of(views(files@), record_bytes(Some(false)))) / divisor_of(
            blocksize,
        ),
        r.shared_records == capped(sum_of(views(files@), record_count(Some(true)))),
        r.shared_size == capped(sum_of(views(files@), record_bytes(Some(true)))) / divisor_of(
            blocksize,
        ),
        r.shared_instances == capped(sum_of(views(files@), shared_instances())),
{
    let ghost s = views(files@);
    let mut totals: Vec<u64> = vec![0u64, 0, 0, 0, 0, 0, 0, 0, 0];
    let mut i: usize = 0;
    while i < files.len()
        invariant
            i <= files.len(),
            s == views(files@),
            totals.len() == 9,
                        forall|t: int| 0 <= t < 9 ==> totals[t] == capped(sum_of(s.take(i as int), #[trigger] measure(t))),
        decreases files.len() - i,
    {
        let f = &files[i];
        let n = f.get_paths().len() as u64;
        let len = f.get_length();
        let shared = n > 1;
        let bytes = match n.checked_mul(len) {
            Some(b) => b,
            None => u64::MAX,
        };
        let ghost r = s[i as int];
        proof {
            assert(s.take(i + 1).drop_last() =~= s.take(i as int));
            assert(s.take(i + 1).last() == r);
            assert(r == f@);
            assert(bytes == capped(r.paths.len() * (r.length as nat))) by (nonlinear_arith)
                requires
                    n == r.paths.len(),
                    len == r.length,
                    bytes == (if n * len <= u64::MAX { n * len } else { u64::MAX as int }),
            ;
        }
        let parts: [u64; 9] = [
            n,
            bytes,
            1,
            len,
            if shared { 0 } else { 1 },
            if shared { 0 } else { len },
            if shared { 1 } else { 0 },
            if shared { len } else { 0 },
            if shared { n } else { 0 },
        ];
        proof {
            assert(parts[0] == capped(measure(0)(r)));
            assert(parts[1] == capped(measure(1)(r)));
            assert(parts[2] == capped(measure(2)(r)));
            assert(parts[3] == capped(measure(3)(r)));
            assert(parts[4] == capped(measure(4)(r)));
            assert(parts[5] == capped(measure(5)(r)));
            assert(parts[6] == capped(measure(6)(r)));
            assert(parts[7] == capped(measure(7)(r)));
            assert(parts[8] == capped(measure(8)(r)));
        }
        let mut t: usize = 0;
        let ghost old_totals = totals@;
        while t < 9
            invariant
                0 <= t <= 9,
                totals.len() == 9,
                                r == s[i as int],
                i < s.len(),
                forall|u: int| 0 <= u < 9 ==> parts[u] == capped((#[trigger] measure(u))(r)),
                forall|u: int| 0 <= u < t ==> totals[u] == capped(sum_of(s.take(i + 1), #[trigger] measure(u))),
                forall|u: int| t <= u < 9 ==> totals[u] == old_totals[u],
                forall|u: int| 0 <= u < 9 ==> old_totals[u] == capped(sum_of(s.take(i as int), #[trigger] measure(u))),
            decreases 9 - t,
        {
            let v = add_capped(
                totals[t],
                parts[t],
                Ghost(sum_of(s.take(i as int), measure(t as int))),
                Ghost(measure(t as int)(r)),
            );
            proof {
                assert(s.take(i + 1).drop_last() =~= s.take(i as int));
                assert(s.take(i + 1).last() == r);
            }
            totals.set(t, v);
            t = t + 1;
        }
        i = i + 1;
    }
    proof {
        assert(s.take(files.len() as int) =~= s);
        assert(totals[0] == capped(sum_of(s, measure(0))));
        assert(totals[1] == capped(sum_of(s, measure(1))));
        assert(totals[2] == capped(sum_of(s, measure(2))));
        assert(totals[3] == capped(sum_of(s, measure(3))));
        assert(totals[4] == capped(sum_of(s, measure(4))));
        assert(totals[5] == capped(sum_of(s, measure(5))));
        assert(totals[6] == capped(sum_of(s, measure(6))));
        assert(totals[7] == capped(sum_of(s, measure(7))));
        assert(totals[8] == capped(sum_of(s, measure(8))));
        assert(measure(0) == instances());
        assert(measure(1) == instance_bytes());
        assert(measure(2) == record_count(None));
        assert(measure(3) == record_bytes(None));
        assert(measure(4) == record_count(Some(false)));
        assert(measure(5) == record_bytes(Some(false)));
        assert(measure(6) == record_count(Some(true)));
        assert(measure(7) == record_bytes(Some(true)));
        assert(measure(8) == shared_instances());
    }
    let d = display_divisor(blocksize);
    Summary {
        instances: totals[0],
        instance_size: totals[1] / d,
        records: totals[2],
        record_size: totals[3] / d,
        single_records: totals[4],
        single_size: totals[5] / d,
        shared_records: totals[6],
        shared_size: totals[7] / d,
        shared_instances: totals[8],
    }
}

/// Whether an answer to "overwrite?" agrees: it starts with `y` or `Y`.
pub fn overwrite_confirmed(answer: &str) -> (r: bool)
    ensures
        r == (answer@.len() > 0 && (answer@[0] == 'y' || answer@[0] == 'Y')),
{
    if answer.unicode_len() == 0 {
        return false;
    }
    let c = answer.get_char(0);
    c == 'y' || c == 'Y'
}

} // verus!
