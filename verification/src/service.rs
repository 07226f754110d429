//! The history service's read views: decoding a full-corpus snapshot,
//! computing the corpus-wide maximum count, and stable ordering of entries
//! for retrieval, export and pruning.

use vstd::prelude::*;
use vstd::seq_lib::group_to_multiset_ensures;

use crate::codec::{decode_spec, decode_stats};
use crate::rank::rank_spec;
use crate::record::CmdRecord;
use crate::norm::trim_spec;
use crate::store::{
    db_view, entries_map, entries_wf, import_batch_model, import_rows_items, key_set,
    lemma_entries_map_props, lemma_import_into_empty, Db, StoreError,
};
use crate::text::{candidate_line, candidate_line_spec, parse_selection, parse_selection_spec};

verus! {

/// The entries of a scanned snapshot whose stored values decode, in scan
/// order; values that fail to decode are passed over (and counted by the
/// readers below).
pub open spec fn decoded_records(entries: Seq<(String, Vec<u8>)>) -> Seq<CmdRecord>
    decreases entries.len(),
{
    if entries.len() == 0 {
        Seq::empty()
    } else {
        let p = decoded_records(entries.drop_last());
        match decode_spec(entries.last().1@) {
            Some(d) => p.push(CmdRecord { cmdline: entries.last().0, cmd_data: d }),
            None => p,
        }
    }
}

/// The corpus-wide maximum count across a snapshot (0 for an empty one).
pub open spec fn max_count_of(recs: Seq<CmdRecord>) -> u64
    decreases recs.len(),
{
    if recs.len() == 0 {
        0
    } else {
        let m = max_count_of(recs.drop_last());
        if recs.last().cmd_data.count > m {
            recs.last().cmd_data.count
        } else {
            m
        }
    }
}

/// `recs` is a faithful in-memory copy of the decodable part of the stored
/// mapping `m`: keys appear once, every record carries exactly the decoded
/// statistics of its key, and every decodable key is present.
pub open spec fn snapshot_of(m: Map<Seq<char>, Seq<u8>>, recs: Seq<CmdRecord>) -> bool {
    &&& forall|i: int, j: int| 0 <= i < j < recs.len() ==> recs[i].cmdline@ != recs[j].cmdline@
    &&& forall|i: int|
        0 <= i < recs.len() ==> m.contains_key((#[trigger] recs[i]).cmdline@) && decode_spec(
            m[recs[i].cmdline@],
        ) == Some(recs[i].cmd_data)
    &&& forall|k: Seq<char>|
        #![auto]
        m.contains_key(k) && decode_spec(m[k]) is Some ==> exists|i: int|
            0 <= i < recs.len() && (#[trigger] recs[i]).cmdline@ == k
}

proof fn lemma_decoded_records(entries: Seq<(String, Vec<u8>)>)
    requires
        entries_wf(entries),
    ensures
        snapshot_of(entries_map(entries), decoded_records(entries)),
        decoded_records(entries).len() <= entries.len(),
    decreases entries.len(),
{
    if entries.len() > 0 {
        let pre = entries.drop_last();
        assert(entries_wf(pre)) by {
            assert(forall|i: int| 0 <= i < pre.len() ==> pre[i] == entries[i]);
        }
        lemma_decoded_records(pre);
        lemma_entries_map_props(pre);
        lemma_entries_map_props(entries);
        let last = entries.last();
        let mp = entries_map(pre);
        let m = entries_map(entries);
        let p = decoded_records(pre);
        let recs = decoded_records(entries);
        assert(forall|i: int| 0 <= i < pre.len() ==> pre[i] == entries[i]);
        assert(!mp.contains_key(last.0@)) by {
            if mp.contains_key(last.0@) {
                let i = choose|i: int| 0 <= i < pre.len() && (#[trigger] pre[i]).0@ == last.0@;
                assert(entries[i].0@ == entries[entries.len() - 1].0@);
            }
        }
        assert(m == mp.insert(last.0@, last.1@));
        assert forall|i: int|
            0 <= i < recs.len() implies m.contains_key((#[trigger] recs[i]).cmdline@)
            && decode_spec(m[recs[i].cmdline@]) == Some(recs[i].cmd_data) by {
            if i < p.len() {
                assert(p[i] == recs[i]);
                assert(mp.contains_key(recs[i].cmdline@));
                assert(recs[i].cmdline@ != last.0@);
            }
        }
        assert forall|i: int, j: int|
            0 <= i < j < recs.len() implies recs[i].cmdline@ != recs[j].cmdline@ by {
            if j < p.len() {
                assert(p[i] == recs[i] && p[j] == recs[j]);
            } else {
                assert(p[i] == recs[i]);
                assert(mp.contains_key(recs[i].cmdline@));
            }
        }
        assert forall|k: Seq<char>|
            #![auto]
            m.contains_key(k) && decode_spec(m[k]) is Some implies exists|i: int|
            0 <= i < recs.len() && (#[trigger] recs[i]).cmdline@ == k by {
            if k == last.0@ {
                assert(decode_spec(last.1@) is Some);
                assert(recs[recs.len() - 1].cmdline@ == k);
            } else {
                assert(mp.contains_key(k) && mp[k] == m[k]);
                let i = choose|i: int| 0 <= i < p.len() && (#[trigger] p[i]).cmdline@ == k;
                assert(recs[i].cmdline@ == k);
            }
        }
    }
}

/// The three orders retrieval uses: by rank, highest first, for history and
/// export; by count and then time, least first, for pruning the least
/// useful; by count and then reversed time for pruning the oldest.
#[derive(Debug, Clone, Copy)]
pub enum SortKey {
    RankDesc { corpus_max: u64, now: u64 },
    CountTimeAsc,
    CountAscTimeDesc,
}

/// The "sorts no later than" relation of each order: a total preorder.
pub open spec fn le_spec(key: SortKey, a: CmdRecord, b: CmdRecord) -> bool {
    match key {
        SortKey::RankDesc { corpus_max, now } => rank_spec(a.cmd_data, corpus_max, now)
            >= rank_spec(b.cmd_data, corpus_max, now),
        SortKey::CountTimeAsc => a.cmd_data.count < b.cmd_data.count || (a.cmd_data.count
            == b.cmd_data.count && a.cmd_data.last_exec_time <= b.cmd_data.last_exec_time),
        SortKey::CountAscTimeDesc => a.cmd_data.count < b.cmd_data.count || (a.cmd_data.count
            == b.cmd_data.count && a.cmd_data.last_exec_time >= b.cmd_data.last_exec_time),
    }
}

proof fn lemma_le_total(key: SortKey, a: CmdRecord, b: CmdRecord)
    ensures
        le_spec(key, a, b) || le_spec(key, b, a),
{
}

proof fn lemma_le_trans(key: SortKey, a: CmdRecord, b: CmdRecord, c: CmdRecord)
    requires
        le_spec(key, a, b),
        le_spec(key, b, c),
    ensures
        le_spec(key, a, c),
{
}

fn le_exec(key: &SortKey, a: &CmdRecord, b: &CmdRecord) -> (r: bool)
    ensures
        r == le_spec(*key, *a, *b),
{
    match key {
        SortKey::RankDesc { corpus_max, now } => {
            a.cmd_data.rank(*corpus_max, *now) >= b.cmd_data.rank(*corpus_max, *now)
        },
        SortKey::CountTimeAsc => {
            a.cmd_data.count < b.cmd_data.count || (a.cmd_data.count == b.cmd_data.count
                && a.cmd_data.last_exec_time <= b.cmd_data.last_exec_time)
        },
        SortKey::CountAscTimeDesc => {
            a.cmd_data.count < b.cmd_data.count || (a.cmd_data.count == b.cmd_data.count
                && a.cmd_data.last_exec_time >= b.cmd_data.last_exec_time)
        },
    }
}

/// Ordered according to `key`, earliest-sorting first.
pub open spec fn sorted_by(key: SortKey, s: Seq<CmdRecord>) -> bool {
    forall|i: int, j: int| 0 <= i < j < s.len() ==> le_spec(key, s[i], s[j])
}

/// Sorts the records by the given order. Insertion keeps equal-sorting
/// entries in their incoming order.
pub fn sort_records(v: &mut Vec<CmdRecord>, key: SortKey)
    ensures
        sorted_by(key, final(v)@),
        final(v)@.to_multiset() == old(v)@.to_multiset(),
        final(v)@.len() == old(v)@.len(),
{
    broadcast use group_to_multiset_ensures;

    let n = v.len();
    if n < 2 {
        return ;
    }
    let mut i: usize = 1;
    while i < n
        invariant
            n == v@.len(),
            1 <= i <= n,
            v@.to_multiset() == old(v)@.to_multiset(),
            forall|a: int, b: int| 0 <= a < b < i ==> le_spec(key, v@[a], v@[b]),
        decreases n - i,
    {
        broadcast use group_to_multiset_ensures;

        let ghost before = v@;
        let x = v.remove(i);
        let ghost w = v@;
        proof {
            assert(before.to_multiset().contains(x)) by {
                assert(before[i as int] == x);
            }
            assert(w.to_multiset() == before.to_multiset().remove(x));
            assert(forall|q: int| 0 <= q < i ==> w[q] == before[q]);
        }
        let mut p: usize = i;
        while p > 0 && !le_exec(&key, &v[p - 1], &x)
            invariant
                0 <= p <= i,
                i < n,
                v@ == w,
                w.len() == n - 1,
                forall|q: int| p <= q < i ==> !le_spec(key, w[q], x),
            decreases p,
        {
            p = p - 1;
        }
        v.insert(p, x);
        proof {
            let u = v@;
            assert(u == w.insert(p as int, x));
            assert(u.to_multiset() == w.to_multiset().insert(x));
            assert(u.to_multiset() =~= before.to_multiset());
            assert forall|a: int, b: int| 0 <= a < b < i + 1 implies le_spec(key, u[a], u[b]) by {
                if b < p {
                    assert(u[a] == w[a] && u[b] == w[b]);
                } else if b == p {
                    assert(u[b] == x);
                    assert(le_spec(key, w[p - 1], x));
                    if a < p - 1 {
                        assert(le_spec(key, w[a], w[p - 1]));
                        lemma_le_trans(key, w[a], w[p - 1], x);
                    }
                } else if a == p {
                    assert(u[a] == x && u[b] == w[b - 1]);
                    assert(p <= b - 1 < i);
                    assert(!le_spec(key, w[b - 1], x));
                    lemma_le_total(key, x, w[b - 1]);
                } else if a < p {
                    assert(u[a] == w[a] && u[b] == w[b - 1]);
                    assert(a < b - 1 < i);
                } else {
                    assert(u[a] == w[a - 1] && u[b] == w[b - 1]);
                }
            }
        }
        i = i + 1;
    }
}

impl Db {
    /// Reads the whole corpus in one consistent snapshot: every entry whose
    /// stored value decodes, the corpus-wide maximum count, and how many
    /// stored values had to be skipped as corrupt.
    pub fn get_records(&self) -> (r: Result<(Vec<CmdRecord>, u64, usize), StoreError>)
        ensures
            r matches Ok(t) ==> {
                &&& snapshot_of(self.view_map(), t.0@)
                &&& t.1 == max_count_of(t.0@)
                &&& self.view_map().dom().finite()
                &&& t.0@.len() + t.2 == self.view_map().dom().len()
            },
    {
        let entries = match self.scan_all() {
            Ok(e) => e,
            Err(_) => return Err(StoreError::StorageUnavailable),
        };
        let n = entries.len();
        let mut recs: Vec<CmdRecord> = Vec::new();
        let mut max: u64 = 0;
        let mut skipped: usize = 0;
        let mut i: usize = 0;
        while i < n
            invariant
                n == entries@.len(),
                0 <= i <= n,
                recs@ == decoded_records(entries@.subrange(0, i as int)),
                max == max_count_of(recs@),
                recs@.len() + skipped == i,
            decreases n - i,
        {
            let e = &entries[i];
            let ghost prefix = entries@.subrange(0, i as int);
            match decode_stats(e.1.as_slice()) {
                Some(d) => {
                    let rec = CmdRecord::new_with_data(e.0.clone(), d);
                    if d.count > max {
                        max = d.count;
                    }
                    recs.push(rec);
                    proof {
                        assert(recs@.drop_last() =~= decoded_records(prefix));
                    }
                },
                None => {
                    skipped = skipped + 1;
                },
            }
            proof {
                assert(entries@.subrange(0, i + 1).drop_last() =~= prefix);
                assert(entries@.subrange(0, i + 1).last() == entries@[i as int]);
            }
            i = i + 1;
        }
        proof {
            assert(entries@.subrange(0, n as int) =~= entries@);
            lemma_decoded_records(entries@);
            lemma_entries_map_props(entries@);
        }
        Ok((recs, max, skipped))
    }

    /// The ranked history: the snapshot scored against `now` and the corpus
    /// maximum, highest rank first, entries of equal rank in scan order.
    /// Also reports how many stored values were skipped as corrupt.
    pub fn ranked_history(&self, now: u64) -> (r: Result<(Vec<CmdRecord>, usize), StoreError>)
        ensures
            r matches Ok(t) ==> exists|recs: Seq<CmdRecord>|
                {
                    &&& #[trigger] snapshot_of(self.view_map(), recs)
                    &&& t.0@.to_multiset() == recs.to_multiset()
                    &&& sorted_by(
                        SortKey::RankDesc { corpus_max: max_count_of(recs), now },
                        t.0@,
                    )
                    &&& recs.len() + t.1 == self.view_map().dom().len()
                },
            r matches Ok(t) ==> distinct_cmdlines(t.0@),
    {
        let (mut recs, max, skipped) = match self.get_records() {
            Ok(t) => t,
            Err(e) => return Err(e),
        };
        let ghost snapshot = recs@;
        sort_records(&mut recs, SortKey::RankDesc { corpus_max: max, now });
        proof {
            assert(snapshot_of(self.view_map(), snapshot));
            lemma_permutation_keeps_distinct(snapshot, recs@);
        }
        Ok((recs, skipped))
    }
}

impl Db {
    /// The ranked history as display lines: each entry's raw command line,
    /// highest rank first. Also reports how many stored values were skipped
    /// as corrupt.
    pub fn history(&self, now: u64) -> (r: Result<(Vec<String>, usize), StoreError>)
        ensures
            r matches Ok(t) ==> exists|recs: Seq<CmdRecord>, v: Seq<CmdRecord>|
                #![trigger snapshot_of(self.view_map(), recs), v.to_multiset()]
                {
                    &&& snapshot_of(self.view_map(), recs)
                    &&& v.to_multiset() == recs.to_multiset()
                    &&& sorted_by(SortKey::RankDesc { corpus_max: max_count_of(recs), now }, v)
                    &&& t.0@ == v.map_values(|rc: CmdRecord| rc.cmdline)
                    &&& recs.len() + t.1 == self.view_map().dom().len()
                },
            r matches Ok(t) ==> forall|i: int, j: int|
                0 <= i < j < t.0@.len() ==> (#[trigger] t.0@[i])@ != (#[trigger] t.0@[j])@,
    {
        let (ranked, skipped) = match self.ranked_history(now) {
            Ok(t) => t,
            Err(e) => return Err(e),
        };
        let n = ranked.len();
        let mut lines: Vec<String> = Vec::new();
        let mut i: usize = 0;
        while i < n
            invariant
                n == ranked@.len(),
                0 <= i <= n,
                lines@ == ranked@.subrange(0, i as int).map_values(|rc: CmdRecord| rc.cmdline),
            decreases n - i,
        {
            lines.push(ranked[i].cmdline.clone());
            proof {
                assert(lines@ =~= ranked@.subrange(0, i + 1).map_values(
                    |rc: CmdRecord| rc.cmdline,
                ));
            }
            i = i + 1;
        }
        proof {
            assert(ranked@.subrange(0, n as int) =~= ranked@);
            assert(forall|a: int| 0 <= a < n ==> (#[trigger] lines@[a])@ == ranked@[a].cmdline@);
        }
        Ok((lines, skipped))
    }

    /// The rows of a structured export: the full ranked history, one record
    /// per stored command, in ranked order. The CSV layer renders each as
    /// `cmdline, count, last_exec_time`.
    pub fn export_csv(&self, now: u64) -> (r: Result<(Vec<CmdRecord>, usize), StoreError>)
        ensures
            r matches Ok(t) ==> exists|recs: Seq<CmdRecord>|
                {
                    &&& #[trigger] snapshot_of(self.view_map(), recs)
                    &&& t.0@.to_multiset() == recs.to_multiset()
                    &&& sorted_by(
                        SortKey::RankDesc { corpus_max: max_count_of(recs), now },
                        t.0@,
                    )
                    &&& recs.len() + t.1 == self.view_map().dom().len()
                },
            r matches Ok(t) ==> distinct_cmdlines(t.0@),
    {
        self.ranked_history(now)
    }
}

/// How many entries the stats summary lists at most.
pub const TOP_USED: usize = 5;

/// The corpus summary: how many commands are stored, the most used ones,
/// and the least recently used one.
pub struct HistoryStats {
    pub num_cmds: usize,
    pub top_used: Vec<(u64, String)>,
    pub least_recent: Option<(String, u64)>,
    pub skipped: usize,
}

/// Accumulator entry `a` is taken verbatim from the snapshot: some record
/// carries exactly its count and command line.
pub open spec fn listed_from(recs: Seq<CmdRecord>, top: Seq<(u64, String)>, a: int) -> bool {
    exists|j: int|
        0 <= j < recs.len() && (#[trigger] recs[j]).cmd_data.count == top[a].0 && recs[j].cmdline
            == top[a].1
}

/// Entry `j` of the snapshot appears in the accumulator, count and command
/// line both.
pub open spec fn top_lists(recs: Seq<CmdRecord>, top: Seq<(u64, String)>, j: int) -> bool {
    exists|a: int|
        0 <= a < top.len() && (#[trigger] top[a]).0 == recs[j].cmd_data.count && top[a].1
            == recs[j].cmdline
}

/// `top` lists the most used commands of `recs`: as many as there are, up
/// to `TOP_USED`; ordered by count, largest first; each a distinct command
/// taken verbatim from the snapshot; and no command left out has a count
/// above the smallest listed one.
pub open spec fn top_used_ok(recs: Seq<CmdRecord>, top: Seq<(u64, String)>) -> bool {
    &&& top.len() == if recs.len() < TOP_USED {
        recs.len() as int
    } else {
        TOP_USED as int
    }
    &&& forall|a: int, b: int|
        0 <= a < b < top.len() ==> (#[trigger] top[a]).0 >= (#[trigger] top[b]).0
    &&& forall|a: int, b: int|
        0 <= a < b < top.len() ==> (#[trigger] top[a]).1@ != (#[trigger] top[b]).1@
    &&& forall|a: int| 0 <= a < top.len() ==> #[trigger] listed_from(recs, top, a)
    &&& forall|j: int|
        0 <= j < recs.len() ==> top_lists(recs, top, j) || (#[trigger] recs[j]).cmd_data.count
            <= top[top.len() - 1].0
    &&& recs.len() <= TOP_USED ==> forall|j: int|
        0 <= j < recs.len() ==> #[trigger] top_lists(recs, top, j)
}

/// `lr` names the least recently used entry: the first one attaining the
/// minimum last execution time, or nothing when the corpus is empty.
pub open spec fn least_recent_ok(recs: Seq<CmdRecord>, lr: Option<(String, u64)>) -> bool {
    match lr {
        None => recs.len() == 0,
        Some(p) => exists|i: int|
            {
                &&& 0 <= i < recs.len()
                &&& #[trigger] recs[i].cmdline == p.0
                &&& recs[i].cmd_data.last_exec_time == p.1
                &&& forall|j: int|
                    0 <= j < recs.len() ==> (#[trigger] recs[j]).cmd_data.last_exec_time >= p.1
                &&& forall|j: int|
                    0 <= j < i ==> (#[trigger] recs[j]).cmd_data.last_exec_time > p.1
            },
    }
}

/// The common shape of one accumulator step: the new entry filed at `p`
/// into the count-ordered list.
proof fn lemma_top_insert_sorted(
    prefix: Seq<CmdRecord>,
    rec: CmdRecord,
    old_top: Seq<(u64, String)>,
    p: int,
)
    requires
        top_used_ok(prefix, old_top),
        forall|j: int| 0 <= j < prefix.len() ==> (#[trigger] prefix[j]).cmdline@ != rec.cmdline@,
        0 <= p <= old_top.len(),
        forall|a: int| 0 <= a < p ==> (#[trigger] old_top[a]).0 >= rec.cmd_data.count,
        forall|a: int| p <= a < old_top.len() ==> (#[trigger] old_top[a]).0 < rec.cmd_data.count,
    ensures
        ({
            let cur = prefix.push(rec);
            let ins = old_top.insert(p, (rec.cmd_data.count, rec.cmdline));
            &&& forall|a: int, b: int|
                0 <= a < b < ins.len() ==> (#[trigger] ins[a]).0 >= (#[trigger] ins[b]).0
            &&& forall|a: int, b: int|
                0 <= a < b < ins.len() ==> (#[trigger] ins[a]).1@ != (#[trigger] ins[b]).1@
            &&& forall|a: int| 0 <= a < ins.len() ==> #[trigger] listed_from(cur, ins, a)
        }),
{
    let count = rec.cmd_data.count;
    let cur = prefix.push(rec);
    let i = prefix.len() as int;
    let ins = old_top.insert(p, (count, rec.cmdline));
    assert(forall|a: int| 0 <= a < p ==> ins[a] == old_top[a]);
    assert(forall|a: int| p < a < ins.len() ==> ins[a] == old_top[a - 1]);
    assert(ins[p].0 == count && ins[p].1 == rec.cmdline);
    assert forall|a: int, b: int| 0 <= a < b < ins.len() implies (#[trigger] ins[a]).0
        >= (#[trigger] ins[b]).0 by {
        if b == p {
            assert(ins[a] == old_top[a]);
        } else if a == p && b > p {
            assert(ins[b] == old_top[b - 1]);
            assert(old_top[b - 1].0 < count);
        }
    }
    assert forall|a: int| 0 <= a < ins.len() implies #[trigger] listed_from(cur, ins, a) by {
        if a == p {
            assert(cur[i].cmd_data.count == ins[a].0 && cur[i].cmdline == ins[a].1);
        } else {
            let a0 = if a < p {
                a
            } else {
                a - 1
            };
            assert(listed_from(prefix, old_top, a0));
            let j = choose|j: int|
                0 <= j < prefix.len() && (#[trigger] prefix[j]).cmd_data.count == old_top[a0].0
                    && prefix[j].cmdline == old_top[a0].1;
            assert(cur[j].cmd_data.count == ins[a].0 && cur[j].cmdline == ins[a].1);
        }
    }
    assert forall|a: int, b: int| 0 <= a < b < ins.len() implies (#[trigger] ins[a]).1@ != (
    #[trigger] ins[b]).1@ by {
        if a != p && b != p {
            let a0 = if a < p {
                a
            } else {
                a - 1
            };
            let b0 = if b < p {
                b
            } else {
                b - 1
            };
            assert(ins[a].1 == old_top[a0].1 && ins[b].1 == old_top[b0].1);
            assert(old_top[a0].1@ != old_top[b0].1@);
        } else {
            let c = if a == p {
                b
            } else {
                a
            };
            let c0 = if c < p {
                c
            } else {
                c - 1
            };
            assert(listed_from(prefix, old_top, c0));
            let j = choose|j: int|
                0 <= j < prefix.len() && (#[trigger] prefix[j]).cmd_data.count == old_top[c0].0
                    && prefix[j].cmdline == old_top[c0].1;
            assert(ins[c].1@ == prefix[j].cmdline@);
            assert(ins[p].1@ == rec.cmdline@);
        }
    }
}

/// The accumulator step while the list is not yet full: nothing is dropped.
#[verifier::rlimit(100)]
proof fn lemma_top_insert_short(
    prefix: Seq<CmdRecord>,
    rec: CmdRecord,
    old_top: Seq<(u64, String)>,
    p: int,
)
    requires
        top_used_ok(prefix, old_top),
        forall|j: int| 0 <= j < prefix.len() ==> (#[trigger] prefix[j]).cmdline@ != rec.cmdline@,
        old_top.len() < TOP_USED,
        0 <= p <= old_top.len(),
        forall|a: int| 0 <= a < p ==> (#[trigger] old_top[a]).0 >= rec.cmd_data.count,
        forall|a: int| p <= a < old_top.len() ==> (#[trigger] old_top[a]).0 < rec.cmd_data.count,
    ensures
        top_used_ok(prefix.push(rec), old_top.insert(p, (rec.cmd_data.count, rec.cmdline))),
{
    let count = rec.cmd_data.count;
    let cur = prefix.push(rec);
    let i = prefix.len() as int;
    let ins = old_top.insert(p, (count, rec.cmdline));
    lemma_top_insert_sorted(prefix, rec, old_top, p);
    assert(prefix.len() == old_top.len());
    assert forall|j: int| 0 <= j < cur.len() implies #[trigger] top_lists(cur, ins, j) by {
        if j == i {
            assert(ins[p].0 == cur[j].cmd_data.count && ins[p].1 == cur[j].cmdline);
        } else {
            assert(top_lists(prefix, old_top, j));
            let a = choose|a: int|
                0 <= a < old_top.len() && (#[trigger] old_top[a]).0 == prefix[j].cmd_data.count
                    && old_top[a].1 == prefix[j].cmdline;
            let a1 = if a < p {
                a
            } else {
                a + 1
            };
            assert(ins[a1].0 == cur[j].cmd_data.count && ins[a1].1 == cur[j].cmdline);
        }
    }
}

/// The accumulator step once the list is full: the smallest entry leaves,
/// and anything already left out stays dominated because the smallest kept
/// count never decreases.
#[verifier::rlimit(100)]
proof fn lemma_top_insert_full(
    prefix: Seq<CmdRecord>,
    rec: CmdRecord,
    old_top: Seq<(u64, String)>,
    p: int,
)
    requires
        top_used_ok(prefix, old_top),
        forall|j: int| 0 <= j < prefix.len() ==> (#[trigger] prefix[j]).cmdline@ != rec.cmdline@,
        old_top.len() == TOP_USED,
        0 <= p <= old_top.len(),
        forall|a: int| 0 <= a < p ==> (#[trigger] old_top[a]).0 >= rec.cmd_data.count,
        forall|a: int| p <= a < old_top.len() ==> (#[trigger] old_top[a]).0 < rec.cmd_data.count,
    ensures
        top_used_ok(
            prefix.push(rec),
            old_top.insert(p, (rec.cmd_data.count, rec.cmdline)).drop_last(),
        ),
{
    let count = rec.cmd_data.count;
    let cur = prefix.push(rec);
    let i = prefix.len() as int;
    let ins = old_top.insert(p, (count, rec.cmdline));
    lemma_top_insert_sorted(prefix, rec, old_top, p);
    let new_top = ins.drop_last();
    assert(new_top.len() == TOP_USED);
    assert(forall|a: int| 0 <= a < new_top.len() ==> new_top[a] == ins[a]);
    assert(forall|a: int, b: int|
        0 <= a < b < new_top.len() ==> (#[trigger] new_top[a]).1@ != (#[trigger] new_top[b]).1@);
    assert forall|a: int| 0 <= a < new_top.len() implies #[trigger] listed_from(
        cur,
        new_top,
        a,
    ) by {
        assert(listed_from(cur, ins, a));
        let j = choose|j: int|
            0 <= j < cur.len() && (#[trigger] cur[j]).cmd_data.count == ins[a].0 && cur[j].cmdline
                == ins[a].1;
        assert(cur[j].cmd_data.count == new_top[a].0 && cur[j].cmdline == new_top[a].1);
    }
    assert(ins[ins.len() - 1].0 <= new_top[new_top.len() - 1].0);
    assert(new_top[new_top.len() - 1].0 >= old_top[old_top.len() - 1].0) by {
        if p < TOP_USED {
            assert(new_top[new_top.len() - 1] == ins[TOP_USED - 1]);
            assert(ins[TOP_USED - 1] == old_top[TOP_USED - 2] || ins[TOP_USED - 1] == (
                count,
                rec.cmdline,
            ) || ins[TOP_USED - 1] == old_top[TOP_USED - 1]);
        }
    }
    assert forall|j: int| 0 <= j < cur.len() implies top_lists(cur, new_top, j) || (
    #[trigger] cur[j]).cmd_data.count <= new_top[new_top.len() - 1].0 by {
        if j == i {
            if p < TOP_USED {
                assert(new_top[p].0 == cur[j].cmd_data.count && new_top[p].1 == cur[j].cmdline);
            } else {
                assert(ins[p].0 == count);
                assert(count <= new_top[new_top.len() - 1].0);
            }
        } else {
            if top_lists(prefix, old_top, j) {
                let a = choose|a: int|
                    0 <= a < old_top.len() && (#[trigger] old_top[a]).0 == prefix[j].cmd_data.count
                        && old_top[a].1 == prefix[j].cmdline;
                let a1 = if a < p {
                    a
                } else {
                    a + 1
                };
                assert(ins[a1].0 == cur[j].cmd_data.count && ins[a1].1 == cur[j].cmdline);
                if a1 < new_top.len() {
                    assert(new_top[a1].0 == cur[j].cmd_data.count && new_top[a1].1
                        == cur[j].cmdline);
                } else {
                    assert(a1 == ins.len() - 1);
                    assert(cur[j].cmd_data.count == ins[a1].0);
                }
            } else {
                assert(prefix[j].cmd_data.count <= old_top[old_top.len() - 1].0);
            }
        }
    }
}

/// One step of the bounded top-`TOP_USED` accumulator: files the entry into
/// the list ordered by count (after entries of equal count, so the first
/// seen stays ahead) and drops the smallest once the list is full.
#[verifier::rlimit(100)]
fn top_insert(top: &mut Vec<(u64, String)>, rec: &CmdRecord, Ghost(prefix): Ghost<Seq<CmdRecord>>)
    requires
        top_used_ok(prefix, old(top)@),
        forall|j: int| 0 <= j < prefix.len() ==> (#[trigger] prefix[j]).cmdline@ != rec.cmdline@,
    ensures
        top_used_ok(prefix.push(*rec), final(top)@),
{
    let count = rec.cmd_data.count;
    let mut p: usize = 0;
    while p < top.len() && top[p].0 >= count
        invariant
            0 <= p <= top@.len(),
            forall|a: int| 0 <= a < p ==> (#[trigger] top@[a]).0 >= count,
            top_used_ok(prefix, top@),
        decreases top@.len() - p,
    {
        p = p + 1;
    }
    let ghost old_top = top@;
    top.insert(p, (count, rec.cmdline.clone()));
    if top.len() > TOP_USED {
        top.pop();
        proof {
            assert(top@ =~= old_top.insert(p as int, (count, rec.cmdline)).drop_last());
            lemma_top_insert_full(prefix, *rec, old_top, p as int);
        }
    } else {
        proof {
            assert(top@ =~= old_top.insert(p as int, (count, rec.cmdline)));
            lemma_top_insert_short(prefix, *rec, old_top, p as int);
        }
    }
}

impl Db {
    /// One pass over the corpus: the number of stored commands, the
    /// `TOP_USED` most used ones (ties resolved toward the first seen), the
    /// least recently used entry, and how many stored values were skipped
    /// as corrupt.
    #[verifier::rlimit(100)]
    pub fn stats(&self) -> (r: Result<HistoryStats, StoreError>)
        ensures
            r matches Ok(st) ==> exists|recs: Seq<CmdRecord>|
                {
                    &&& #[trigger] snapshot_of(self.view_map(), recs)
                    &&& st.num_cmds == recs.len()
                    &&& recs.len() + st.skipped == self.view_map().dom().len()
                    &&& top_used_ok(recs, st.top_used@)
                    &&& least_recent_ok(recs, st.least_recent)
                },
    {
        let (recs, _max, skipped) = match self.get_records() {
            Ok(t) => t,
            Err(e) => return Err(e),
        };
        let n = recs.len();
        let mut top: Vec<(u64, String)> = Vec::new();
        let mut least: Option<(String, u64)> = None;
        let mut i: usize = 0;
        while i < n
            invariant
                n == recs@.len(),
                0 <= i <= n,
                distinct_cmdlines(recs@),
                top_used_ok(recs@.subrange(0, i as int), top@),
                least_recent_ok(recs@.subrange(0, i as int), least),
            decreases n - i,
        {
            let ghost prefix = recs@.subrange(0, i as int);
            let rec = &recs[i];
            let time = rec.cmd_data.last_exec_time;
            proof {
                assert(recs@.subrange(0, i + 1) =~= prefix.push(recs@[i as int]));
                assert forall|j: int|
                    0 <= j < prefix.len() implies (#[trigger] prefix[j]).cmdline@
                    != recs@[i as int].cmdline@ by {
                    assert(prefix[j] == recs@[j]);
                }
            }
            top_insert(&mut top, rec, Ghost(prefix));
            match least {
                Some(ref cur_least) => {
                    if time < cur_least.1 {
                        least = Some((rec.cmdline.clone(), time));
                    }
                },
                None => {
                    least = Some((rec.cmdline.clone(), time));
                },
            }
            proof {
                let cur = recs@.subrange(0, i + 1);
                assert(forall|j: int| 0 <= j < i ==> cur[j] == prefix[j]);
                match least {
                    Some(ref p2) => {
                        if least_recent_ok(prefix, least) {
                            let i0 = choose|i0: int|
                                {
                                    &&& 0 <= i0 < prefix.len()
                                    &&& #[trigger] prefix[i0].cmdline == p2.0
                                    &&& prefix[i0].cmd_data.last_exec_time == p2.1
                                    &&& forall|j: int|
                                        0 <= j < prefix.len() ==> (#[trigger] prefix[j]).cmd_data.last_exec_time
                                            >= p2.1
                                    &&& forall|j: int|
                                        0 <= j < i0 ==> (#[trigger] prefix[j]).cmd_data.last_exec_time
                                            > p2.1
                                };
                            assert(cur[i0].cmdline == p2.0);
                        } else {
                            assert(cur[i as int].cmdline == p2.0);
                        }
                    },
                    None => {},
                }
            }
            i = i + 1;
        }
        proof {
            assert(recs@.subrange(0, n as int) =~= recs@);
        }
        Ok(HistoryStats { num_cmds: n, top_used: top, least_recent: least, skipped })
    }
}

/// The keys named by a list of selector lines: each line that parses
/// contributes the text after its first `": "` separator, in order.
pub open spec fn parsed_keys(lines: Seq<Seq<char>>) -> Seq<Seq<char>>
    decreases lines.len(),
{
    if lines.len() == 0 {
        Seq::empty()
    } else {
        let pre = parsed_keys(lines.drop_last());
        match parse_selection_spec(lines.last()) {
            Some(k) => pre.push(k),
            None => pre,
        }
    }
}

impl Db {
    /// The candidate list for interactive pruning: one line per stored
    /// command, `"<count>: <cmdline>"`, ordered least useful first. With
    /// `older` true the order is by count and then time, which puts the
    /// oldest first among equally counted entries; with `older` false it is
    /// by count and then reversed time. Also reports how many stored values
    /// were skipped as corrupt.
    pub fn prune_candidates(&self, older: bool) -> (r: Result<(Vec<String>, usize), StoreError>)
        ensures
            r matches Ok(t) ==> exists|recs: Seq<CmdRecord>, sorted: Seq<CmdRecord>|
                #![trigger snapshot_of(self.view_map(), recs), sorted.to_multiset()]
                {
                    &&& snapshot_of(self.view_map(), recs)
                    &&& sorted.to_multiset() == recs.to_multiset()
                    &&& sorted_by(
                        if older {
                            SortKey::CountTimeAsc
                        } else {
                            SortKey::CountAscTimeDesc
                        },
                        sorted,
                    )
                    &&& t.0@.len() == sorted.len()
                    &&& forall|i: int|
                        0 <= i < sorted.len() ==> (#[trigger] t.0@[i])@ == candidate_line_spec(
                            sorted[i].cmd_data.count,
                            sorted[i].cmdline@,
                        )
                    &&& recs.len() + t.1 == self.view_map().dom().len()
                },
    {
        let (mut recs, _max, skipped) = match self.get_records() {
            Ok(t) => t,
            Err(e) => return Err(e),
        };
        let ghost snapshot = recs@;
        let sort_key = if older {
            SortKey::CountTimeAsc
        } else {
            SortKey::CountAscTimeDesc
        };
        sort_records(&mut recs, sort_key);
        let n = recs.len();
        let mut lines: Vec<String> = Vec::new();
        let mut i: usize = 0;
        while i < n
            invariant
                n == recs@.len(),
                0 <= i <= n,
                lines@.len() == i,
                forall|a: int|
                    0 <= a < i ==> (#[trigger] lines@[a])@ == candidate_line_spec(
                        recs@[a].cmd_data.count,
                        recs@[a].cmdline@,
                    ),
            decreases n - i,
        {
            let rec = &recs[i];
            lines.push(candidate_line(rec.cmd_data.count, rec.cmdline.as_str()));
            i = i + 1;
        }
        proof {
            assert(snapshot_of(self.view_map(), snapshot));
        }
        Ok((lines, skipped))
    }

    /// Deletes the entries the user selected: each selector line is parsed
    /// by splitting once at the first `": "`; lines that do not parse are
    /// skipped rather than aborting the prune; the parsed keys are removed
    /// in one atomic transaction. Returns the keys that were deleted.
    pub fn prune(&mut self, selections: &Vec<String>) -> (r: Result<Vec<String>, StoreError>)
        ensures
            r matches Ok(deleted) ==> {
                &&& deleted@.map_values(|k: String| k@) == parsed_keys(
                    selections@.map_values(|l: String| l@),
                )
                &&& db_view(final(self).db) == db_view(old(self).db).remove_keys(
                    key_set(deleted@),
                )
            },
            r is Err ==> db_view(final(self).db) == db_view(old(self).db),
    {
        let ghost all_lines = selections@.map_values(|l: String| l@);
        let n = selections.len();
        let mut keys: Vec<String> = Vec::new();
        let mut i: usize = 0;
        while i < n
            invariant
                n == selections@.len(),
                all_lines == selections@.map_values(|l: String| l@),
                0 <= i <= n,
                keys@.map_values(|k: String| k@) == parsed_keys(all_lines.subrange(0, i as int)),
            decreases n - i,
        {
            match parse_selection(selections[i].as_str()) {
                Some(key) => {
                    keys.push(key);
                },
                None => {},
            }
            proof {
                assert(all_lines.subrange(0, i + 1).drop_last() =~= all_lines.subrange(
                    0,
                    i as int,
                ));
                assert(all_lines.subrange(0, i + 1).last() == all_lines[i as int]);
                assert(keys@.map_values(|k: String| k@) =~= parsed_keys(
                    all_lines.subrange(0, i + 1),
                ));
            }
            i = i + 1;
        }
        proof {
            assert(all_lines.subrange(0, n as int) =~= all_lines);
        }
        match self.remove_keys(&keys) {
            Ok(()) => Ok(keys),
            Err(e) => Err(e),
        }
    }
}

/// Exporting a snapshot and importing the rows into an empty store
/// reproduces exactly the exported entries: every decodable command of the
/// source, with its statistics unchanged, and nothing else. The snapshot's
/// keys are already normalized (the store only ever writes normalized keys,
/// and normalizing is idempotent), which the premise states.
pub proof fn lemma_export_import_round_trip(m: Map<Seq<char>, Seq<u8>>, recs: Seq<CmdRecord>)
    requires
        snapshot_of(m, recs),
        forall|i: int|
            0 <= i < recs.len() ==> trim_spec((#[trigger] recs[i]).cmdline@) == recs[i].cmdline@
                && recs[i].cmdline@.len() > 0,
    ensures
        ({
            let m2 = import_batch_model(Map::empty(), import_rows_items(recs));
            &&& forall|k: Seq<char>|
                #![auto]
                m2.contains_key(k) <==> (m.contains_key(k) && decode_spec(m[k]) is Some)
            &&& forall|k: Seq<char>|
                #![auto]
                m2.contains_key(k) ==> decode_spec(m2[k]) == decode_spec(m[k])
        }),
{
    let items = import_rows_items(recs);
    let m2 = import_batch_model(Map::empty(), items);
    assert(forall|i: int|
        0 <= i < items.len() ==> (#[trigger] items[i]) == (recs[i].cmdline@, recs[i].cmd_data));
    lemma_import_into_empty(items);
    assert forall|k: Seq<char>|
        #![auto]
        m2.contains_key(k) implies m.contains_key(k) && decode_spec(m[k]) is Some by {
        let i = choose|i: int| 0 <= i < items.len() && (#[trigger] items[i]).0 == k;
        assert(recs[i].cmdline@ == k);
    }
    assert forall|k: Seq<char>|
        #![auto]
        m.contains_key(k) && decode_spec(m[k]) is Some implies m2.contains_key(k) by {
        let i = choose|i: int| 0 <= i < recs.len() && (#[trigger] recs[i]).cmdline@ == k;
        assert(items[i].0 == k);
    }
    assert forall|k: Seq<char>|
        #![auto]
        m2.contains_key(k) implies decode_spec(m2[k]) == decode_spec(m[k]) by {
        let i = choose|i: int| 0 <= i < items.len() && (#[trigger] items[i]).0 == k;
        assert(decode_spec(m2[items[i].0]) == Some(items[i].1));
        assert(decode_spec(m[recs[i].cmdline@]) == Some(recs[i].cmd_data));
    }
}

/// A sequence of records has pairwise distinct command lines.
pub open spec fn distinct_cmdlines(s: Seq<CmdRecord>) -> bool {
    forall|i: int, j: int| 0 <= i < j < s.len() ==> s[i].cmdline@ != s[j].cmdline@
}

/// Reordering a snapshot cannot make two entries share a command line:
/// distinctness of keys survives any permutation, so a sorted view still
/// names every command once.
pub proof fn lemma_permutation_keeps_distinct(s1: Seq<CmdRecord>, s2: Seq<CmdRecord>)
    requires
        s1.to_multiset() == s2.to_multiset(),
        distinct_cmdlines(s1),
    ensures
        distinct_cmdlines(s2),
{
    broadcast use group_to_multiset_ensures;

    assert forall|i: int, j: int|
        0 <= i < j < s2.len() implies s2[i].cmdline@ != s2[j].cmdline@ by {
        if s2[i].cmdline@ == s2[j].cmdline@ {
            let x = s2[i];
            let y = s2[j];
            if x == y {
                assert(s2.remove(i).to_multiset() == s2.to_multiset().remove(x));
                assert(s2.remove(i)[j - 1] == y);
                assert(s2.remove(i).contains(y));
                assert(s2.remove(i).to_multiset().count(y) > 0);
                assert(s1.to_multiset().count(x) >= 2);
                assert(s1.contains(x));
                let a = choose|a: int| 0 <= a < s1.len() && s1[a] == x;
                assert(s1.remove(a).to_multiset() == s1.to_multiset().remove(x));
                assert(s1.remove(a).to_multiset().count(x) > 0);
                assert(s1.remove(a).contains(x));
                let b = choose|b: int| 0 <= b < s1.remove(a).len() && s1.remove(a)[b] == x;
                let b1 = if b < a {
                    b
                } else {
                    b + 1
                };
                assert(s1[b1] == x);
                assert(b1 != a);
                assert(s1[a].cmdline@ == s1[b1].cmdline@);
            } else {
                assert(s2.contains(x));
                assert(s2.to_multiset().count(x) > 0);
                assert(s1.contains(x));
                assert(s2.contains(y)) by {
                    assert(s2[j] == y);
                }
                assert(s2.to_multiset().count(y) > 0);
                assert(s1.contains(y));
                let a = choose|a: int| 0 <= a < s1.len() && s1[a] == x;
                let b = choose|b: int| 0 <= b < s1.len() && s1[b] == y;
                assert(a != b);
                assert(s1[a].cmdline@ == s1[b].cmdline@);
            }
        }
    }
}

} // verus!
