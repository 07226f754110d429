//! The record model: a command's usage statistics, the entry pairing them
//! with the command line, and the merge algebra that combines concurrent
//! recordings of the same key without losing updates.

use vstd::prelude::*;
use vstd::seq_lib::{commutative_foldr, lemma_fold_right_permutation};

use crate::norm::{normalize, trim_spec};

verus! {

/// Usage statistics of one command: how often it ran and when it last ran
/// (seconds since the Unix epoch).
#[derive(Debug, Clone, Copy, PartialEq, Eq, Structural)]
pub struct CmdData {
    pub count: u64,
    pub last_exec_time: u64,
}

/// A command line paired with its usage statistics. The display text is the
/// raw command line; the storage key is its normalized form.
#[derive(Debug, Clone)]
pub struct CmdRecord {
    pub cmdline: String,
    pub cmd_data: CmdData,
}

/// The merge of existing stored statistics with an incoming recording of the
/// same key: counts add (clamping at `u64::MAX`), the later execution time
/// wins. Commutative and associative, so concurrent writers may apply their
/// merges in any order.
pub open spec fn merge_spec(a: CmdData, b: CmdData) -> CmdData {
    CmdData {
        count: if a.count + b.count > u64::MAX {
            u64::MAX
        } else {
            (a.count + b.count) as u64
        },
        last_exec_time: if a.last_exec_time < b.last_exec_time {
            b.last_exec_time
        } else {
            a.last_exec_time
        },
    }
}

/// `merge_spec` folded over a whole sequence of increments.
pub open spec fn merge_fold(base: CmdData, incs: Seq<CmdData>) -> CmdData {
    incs.fold_right(|x: CmdData, acc: CmdData| merge_spec(acc, x), base)
}

/// Merging the same two values in either order gives the same statistics.
pub proof fn lemma_merge_commutative(a: CmdData, b: CmdData)
    ensures
        merge_spec(a, b) == merge_spec(b, a),
{
}

/// Merging associates: grouping does not change the final statistics.
pub proof fn lemma_merge_associative(a: CmdData, b: CmdData, c: CmdData)
    ensures
        merge_spec(merge_spec(a, b), c) == merge_spec(a, merge_spec(b, c)),
{
}

/// Over any finite multiset of increments to the same key, the merged result
/// is independent of the order in which the increments are applied: any two
/// interleavings of the same recordings end in the same count and time.
pub proof fn lemma_merge_order_independent(base: CmdData, l1: Seq<CmdData>, l2: Seq<CmdData>)
    requires
        l1.to_multiset() == l2.to_multiset(),
    ensures
        merge_fold(base, l1) == merge_fold(base, l2),
{
    let f = |x: CmdData, acc: CmdData| merge_spec(acc, x);
    assert(commutative_foldr(f)) by {
        assert forall|x: CmdData, y: CmdData, v: CmdData| #[trigger] f(x, f(y, v)) == f(
            y,
            f(x, v),
        ) by {}
    }
    lemma_fold_right_permutation(l1, l2, f, base);
}

impl CmdData {
    /// Builds statistics from a count and a last-execution time.
    pub fn new(count: u64, last_exec_time: u64) -> (r: CmdData)
        ensures
            r == (CmdData { count, last_exec_time }),
    {
        CmdData { count, last_exec_time }
    }

    /// Combines these stored statistics with an incoming recording of the
    /// same key.
    pub fn merge(&self, other: &CmdRecord) -> (r: CmdData)
        ensures
            r == merge_spec(*self, other.cmd_data),
    {
        CmdData {
            count: self.count.saturating_add(other.cmd_data.count),
            last_exec_time: if self.last_exec_time < other.cmd_data.last_exec_time {
                other.cmd_data.last_exec_time
            } else {
                self.last_exec_time
            },
        }
    }
}

/// The normalized storage key of an entry.
pub open spec fn key_spec(rec: CmdRecord) -> Seq<char> {
    trim_spec(rec.cmdline@)
}

/// True of entries whose key is empty: they are never persisted.
pub open spec fn ignored_spec(rec: CmdRecord) -> bool {
    key_spec(rec).len() == 0
}

/// Relies on `std::time::SystemTime::now` and `duration_since`: whole seconds
/// of the current wall clock since the Unix epoch, 0 if the clock reads
/// earlier than the epoch. Nothing is promised of the value.
#[verifier::external_body]
fn now_epoch_secs() -> u64 {
    match std::time::SystemTime::now().duration_since(std::time::UNIX_EPOCH) {
        Ok(d) => d.as_secs(),
        Err(_) => 0,
    }
}

impl CmdRecord {
    /// A fresh entry for a command observed right now: one execution, stamped
    /// with the current wall-clock time.
    pub fn new(cmdline: String) -> (r: CmdRecord)
        ensures
            r.cmdline == cmdline,
            r.cmd_data.count == 1,
    {
        CmdRecord { cmdline, cmd_data: CmdData { count: 1, last_exec_time: now_epoch_secs() } }
    }

    /// A fresh entry stamped with the oldest possible time (the epoch), used
    /// when bulk-importing lines that carry no timestamp, so imported lines
    /// do not outrank organically recorded ones.
    pub fn new_epoch(cmdline: String) -> (r: CmdRecord)
        ensures
            r.cmdline == cmdline,
            r.cmd_data == (CmdData { count: 1, last_exec_time: 0 }),
    {
        CmdRecord { cmdline, cmd_data: CmdData { count: 1, last_exec_time: 0 } }
    }

    /// An entry with caller-supplied statistics, as read back from storage or
    /// from a structured import row.
    pub fn new_with_data(cmdline: String, cmd_data: CmdData) -> (r: CmdRecord)
        ensures
            r == (CmdRecord { cmdline, cmd_data }),
    {
        CmdRecord { cmdline, cmd_data }
    }

    /// The raw command line as recorded.
    pub fn cmdline(&self) -> (r: &str)
        ensures
            r@ == self.cmdline@,
    {
        self.cmdline.as_str()
    }

    /// How many times the command has been executed.
    pub fn count(&self) -> (r: u64)
        ensures
            r == self.cmd_data.count,
    {
        self.cmd_data.count
    }

    /// Seconds since the Unix epoch of the most recent execution.
    pub fn last_exec_time(&self) -> (r: u64)
        ensures
            r == self.cmd_data.last_exec_time,
    {
        self.cmd_data.last_exec_time
    }

    /// The normalized storage key of this entry.
    pub fn key(&self) -> (r: &str)
        ensures
            r@ == key_spec(*self),
    {
        normalize(self.cmdline.as_str())
    }

    /// The usage statistics of this entry.
    pub fn data(&self) -> (r: &CmdData)
        ensures
            *r == self.cmd_data,
    {
        &self.cmd_data
    }

    /// True iff the normalized key is empty; such an entry is skipped and
    /// never touches storage.
    pub fn is_ignored(&self) -> (r: bool)
        ensures
            r == ignored_spec(*self),
    {
        self.key().is_empty()
    }
}

} // verus!
