//! The history of discoveries.
//!
//! Records are written and read by the caller.

use crate::clock::{unix_nanos, utc_text, utc_text_of};
use crate::random::{is_random_uuid, random_uuid};
use crate::seqs::{at_most, lemma_filter_around, lemma_filter_nothing};
use crate::text::{lemma_text_total, lemma_text_transitive, text_le, text_not_after};
use crate::vecmap::VecMap;
use vstd::prelude::*;

verus! {

/// A discovery.
pub struct DiscoveryHistoryRecord {
    pub id: u128,
    /// The task that it was part of.
    pub task_id: Option<u128>,
    pub infohash: String,
    pub peers_count: usize,
    /// How many peers each source gave.
    pub source_stats: VecMap<String, usize>,
    pub duration_ms: u64,
    pub success: bool,
    pub error_msg: Option<String>,
    /// The time as text. Later times come later in the order of texts.
    pub timestamp: String,
}

impl DiscoveryHistoryRecord {
    /// A record of a discovery at the time that `timestamp` stands for.
    pub fn made_at(
        infohash: String,
        peers_count: usize,
        source_stats: VecMap<String, usize>,
        duration_ms: u64,
        success: bool,
        error_msg: Option<String>,
        timestamp: String,
    ) -> (r: DiscoveryHistoryRecord)
        ensures
            is_random_uuid(r.id),
            r.task_id is None,
            r.infohash == infohash,
            r.peers_count == peers_count,
            r.source_stats == source_stats,
            r.duration_ms == duration_ms,
            r.success == success,
            r.error_msg == error_msg,
            r.timestamp == timestamp,
    {
        DiscoveryHistoryRecord {
            id: random_uuid(),
            task_id: None,
            infohash,
            peers_count,
            source_stats,
            duration_ms,
            success,
            error_msg,
            timestamp,
        }
    }

    /// A record of a discovery just now.
    pub fn new(
        infohash: String,
        peers_count: usize,
        source_stats: VecMap<String, usize>,
        duration_ms: u64,
        success: bool,
        error_msg: Option<String>,
    ) -> (r: DiscoveryHistoryRecord)
        ensures
            is_random_uuid(r.id),
            r.task_id is None,
            r.infohash == infohash,
            r.peers_count == peers_count,
            r.source_stats == source_stats,
            r.duration_ms == duration_ms,
            r.success == success,
            r.error_msg == error_msg,
            exists|now: u64| r.timestamp@ == #[trigger] utc_text_of(now),
    {
        Self::made_at(
            infohash,
            peers_count,
            source_stats,
            duration_ms,
            success,
            error_msg,
            utc_text(unix_nanos()),
        )
    }
}

/// The records of one time.
pub open spec fn of_time(t: Seq<char>) -> spec_fn(DiscoveryHistoryRecord) -> bool {
    |r: DiscoveryHistoryRecord| r.timestamp@ == t
}

/// Whether `out` has all records of `input`, later ones first, and those of one time in their old
/// order.
pub open spec fn is_newest_first(
    input: Seq<DiscoveryHistoryRecord>,
    out: Seq<DiscoveryHistoryRecord>,
) -> bool {
    &&& out.len() == input.len()
    &&& forall|i: int, j: int|
        #![trigger out[i], out[j]]
        0 <= i <= j < out.len() ==> text_le(out[j].timestamp@, out[i].timestamp@)
    &&& forall|t: Seq<char>| #[trigger] out.filter(of_time(t)) == input.filter(of_time(t))
}

/// The position of the first record that is no earlier than any.
fn newest(records: &Vec<DiscoveryHistoryRecord>) -> (r: usize)
    requires
        records@.len() > 0,
    ensures
        r < records@.len(),
        forall|j: int|
            0 <= j < records@.len() ==> text_le(
                (#[trigger] records@[j]).timestamp@,
                records@[r as int].timestamp@,
            ),
        forall|j: int|
            0 <= j < r ==> (#[trigger] records@[j]).timestamp@ != records@[r as int].timestamp@,
{
    let mut best: usize = 0;
    let mut i: usize = 1;
    proof {
        lemma_text_total(records@[0].timestamp@, records@[0].timestamp@);
    }
    while i < records.len()
        invariant
            best < i <= records@.len(),
            forall|j: int|
                0 <= j < i ==> text_le(
                    (#[trigger] records@[j]).timestamp@,
                    records@[best as int].timestamp@,
                ),
            forall|j: int|
                0 <= j < best ==> (#[trigger] records@[j]).timestamp@
                    != records@[best as int].timestamp@,
        decreases records@.len() - i,
    {
        let later: bool = !text_not_after(
            records[i].timestamp.as_str(),
            records[best].timestamp.as_str(),
        );
        proof {
            let a = records@[i as int].timestamp@;
            let b = records@[best as int].timestamp@;
            lemma_text_total(a, b);
            lemma_text_total(a, a);
            if later {
                assert forall|j: int| 0 <= j < i implies text_le(
                    (#[trigger] records@[j]).timestamp@,
                    a,
                ) && records@[j].timestamp@ != a by {
                    lemma_text_transitive(records@[j].timestamp@, b, a);
                }
            }
        }
        if later {
            best = i;
        }
        i += 1;
    }
    best
}

/// The last `limit` records, later ones first.
pub fn most_recent(records: Vec<DiscoveryHistoryRecord>, limit: usize) -> (r: Vec<
    DiscoveryHistoryRecord,
>)
    ensures
        exists|all: Seq<DiscoveryHistoryRecord>| #[trigger]
            is_newest_first(records@, all) && r@ == all.take(
                at_most(limit as int, all.len() as int),
            ),
{
    let ghost input = records@;
    let mut rest: Vec<DiscoveryHistoryRecord> = records;
    let mut out: Vec<DiscoveryHistoryRecord> = Vec::new();
    proof {
        assert forall|t: Seq<char>| #[trigger]
            out@.filter(of_time(t)) + rest@.filter(of_time(t)) == input.filter(of_time(t)) by {
            lemma_filter_nothing(out@, of_time(t));
            assert(Seq::<DiscoveryHistoryRecord>::empty() + rest@.filter(of_time(t)) =~= rest@.filter(
                of_time(t),
            ));
        }
    }
    while rest.len() > 0
        invariant
            out@.len() + rest@.len() == input.len(),
            forall|i: int, j: int|
                #![trigger out@[i], out@[j]]
                0 <= i <= j < out@.len() ==> text_le(out@[j].timestamp@, out@[i].timestamp@),
            forall|i: int, j: int|
                #![trigger out@[i], rest@[j]]
                0 <= i < out@.len() && 0 <= j < rest@.len() ==> text_le(
                    rest@[j].timestamp@,
                    out@[i].timestamp@,
                ),
            forall|t: Seq<char>| #[trigger]
                out@.filter(of_time(t)) + rest@.filter(of_time(t)) == input.filter(of_time(t)),
        decreases rest@.len(),
    {
        let at: usize = newest(&rest);
        let ghost rest0 = rest@;
        let ghost out0 = out@;
        let record: DiscoveryHistoryRecord = rest.remove(at);
        out.push(record);
        proof {
            let x = rest0[at as int];
            assert(rest@ =~= rest0.remove(at as int));
            assert(out@ =~= out0.push(x));
            assert forall|i: int, j: int|
                #![trigger out@[i], out@[j]]
                0 <= i <= j < out@.len() implies text_le(
                out@[j].timestamp@,
                out@[i].timestamp@,
            ) by {
                if j < out0.len() {
                    assert(out@[i] == out0[i] && out@[j] == out0[j]);
                } else if i < out0.len() {
                    assert(text_le(rest0[at as int].timestamp@, out0[i].timestamp@));
                } else {
                    lemma_text_total(x.timestamp@, x.timestamp@);
                }
            }
            assert forall|i: int, j: int|
                #![trigger out@[i], rest@[j]]
                0 <= i < out@.len() && 0 <= j < rest@.len() implies text_le(
                rest@[j].timestamp@,
                out@[i].timestamp@,
            ) by {
                let k = if j < at {
                    j
                } else {
                    j + 1
                };
                assert(rest@[j] == rest0[k]);
                if i < out0.len() {
                    assert(text_le(rest0[k].timestamp@, out0[i].timestamp@));
                }
            }
            assert forall|t: Seq<char>| #[trigger]
                out@.filter(of_time(t)) + rest@.filter(of_time(t)) == input.filter(of_time(t)) by {
                let p = of_time(t);
                lemma_filter_around(rest0, at as int, p);
                assert(out@.filter(p) =~= if p(x) {
                    out0.filter(p).push(x)
                } else {
                    out0.filter(p)
                }) by {
                    reveal(Seq::filter);
                    assert(out@.drop_last() =~= out0);
                }
                assert(out0.filter(p) + rest0.filter(p) == input.filter(p));
                if p(x) {
                    assert forall|j: int| 0 <= j < rest0.take(at as int).len() implies !p(
                        #[trigger] rest0.take(at as int)[j],
                    ) by {
                        assert(rest0[j].timestamp@ != x.timestamp@);
                    }
                    lemma_filter_nothing(rest0.take(at as int), p);
                    assert(out@.filter(p) + rest@.filter(p) =~= out0.filter(p) + rest0.filter(p));
                } else {
                    assert(rest@.filter(p) =~= rest0.filter(p));
                }
            }
        }
    }
    proof {
        assert forall|t: Seq<char>| #[trigger] out@.filter(of_time(t)) == input.filter(
            of_time(t),
        ) by {
            lemma_filter_nothing(rest@, of_time(t));
            assert(out@.filter(of_time(t)) + rest@.filter(of_time(t)) == input.filter(of_time(t)));
            assert(out@.filter(of_time(t)) + Seq::empty() =~= out@.filter(of_time(t)));
        }
        assert(is_newest_first(input, out@));
    }
    let ghost all = out@;
    if out.len() > limit {
        out.truncate(limit);
    }
    assert(out@ =~= all.take(at_most(limit as int, all.len() as int)));
    out
}

/// The newest records come first, and it is the same records: none is lost, none comes in.
pub proof fn law_newest_come_first(
    input: Seq<DiscoveryHistoryRecord>,
    out: Seq<DiscoveryHistoryRecord>,
    r: DiscoveryHistoryRecord,
    i: int,
    j: int,
)
    requires
        is_newest_first(input, out),
        0 <= i < j < out.len(),
    ensures
        out.len() == input.len(),
        out.contains(r) <==> input.contains(r),
        out[i].timestamp@ == out[j].timestamp@ || !text_le(out[i].timestamp@, out[j].timestamp@),
{
    let t = r.timestamp@;
    let f = of_time(t);
    assert(out.filter(f) == input.filter(f));
    if out.contains(r) {
        let k = choose|k: int| 0 <= k < out.len() && out[k] == r;
        assert(f(out[k]));
        out.lemma_filter_contains(f, k);
        input.lemma_filter_contains_rev(f, r);
    }
    if input.contains(r) {
        let k = choose|k: int| 0 <= k < input.len() && input[k] == r;
        assert(f(input[k]));
        input.lemma_filter_contains(f, k);
        out.lemma_filter_contains_rev(f, r);
    }
    assert(text_le(out[j].timestamp@, out[i].timestamp@));
    crate::text::lemma_text_total(out[i].timestamp@, out[j].timestamp@);
}

} // verus!
