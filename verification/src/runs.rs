//! Coalescing sorted ids into maximal contiguous runs.
//!
//! Every mutating operation of the engine rebuilds reservation rows by
//! merging a sorted sequence of (id, timestamp) pairs into the minimal set of
//! contiguous runs. A merged run keeps the newest timestamp among its ids: a
//! run is only as young as its newest constituent, so it is not prematurely
//! reclaimed.

use vstd::prelude::*;

verus! {

/// One reserved id together with the time its covering row was created.
#[derive(Clone, Copy, PartialEq, Eq, Structural, Debug)]
pub struct IdStamp {
    pub id: i32,
    pub time: i64,
}

/// A maximal contiguous run of ids `[start, start + length)`.
#[derive(Clone, Copy, PartialEq, Eq, Structural, Debug)]
pub struct Run {
    pub start: i32,
    pub length: i32,
    pub time: i64,
}

/// Stamps are in strictly increasing id order.
pub open spec fn stamps_sorted(s: Seq<IdStamp>) -> bool {
    forall|k: int, l: int| 0 <= k < l < s.len() ==> s[k].id < s[l].id
}

/// Every stamped id is a usable content id, leaving room for a run end.
pub open spec fn stamps_in_bounds(s: Seq<IdStamp>) -> bool {
    forall|k: int| 0 <= k < s.len() ==> 1 <= (#[trigger] s[k]).id < i32::MAX
}

/// The set of stamped ids.
pub open spec fn stamp_ids(s: Seq<IdStamp>) -> Set<int> {
    Set::new(|i: int| exists|k: int| 0 <= k < s.len() && s[k].id == i)
}

pub open spec fn run_covers(r: Run, i: int) -> bool {
    r.start <= i < r.start + r.length
}

pub open spec fn run_wf(r: Run) -> bool {
    &&& 1 <= r.start
    &&& 1 <= r.length
    &&& r.start + r.length <= i32::MAX
}

/// Runs are in increasing order and no two are adjacent or overlapping: the
/// decomposition into runs is minimal.
pub open spec fn runs_separated(rs: Seq<Run>) -> bool {
    forall|k: int, l: int|
        0 <= k < l < rs.len() ==> (#[trigger] rs[k]).start + rs[k].length < (#[trigger] rs[l]).start
}

/// The set of ids the runs cover.
pub open spec fn runs_ids(rs: Seq<Run>) -> Set<int> {
    Set::new(|i: int| exists|k: int| 0 <= k < rs.len() && run_covers(rs[k], i))
}

/// `r.time` is the maximum timestamp among the stamps `r` covers.
pub open spec fn run_time_ok(s: Seq<IdStamp>, r: Run) -> bool {
    &&& (forall|j: int|
        0 <= j < s.len() && run_covers(r, (#[trigger] s[j]).id as int) ==> s[j].time <= r.time)
    &&& (exists|j: int| 0 <= j < s.len() && run_covers(r, (#[trigger] s[j]).id as int) && s[j].time == r.time)
}

/// The canonical run decomposition of a sorted stamp sequence: consecutive
/// ids coalesce, and a coalesced run keeps its newest timestamp.
pub open spec fn runs_of(s: Seq<IdStamp>) -> Seq<Run>
    decreases s.len(),
{
    if s.len() == 0 {
        Seq::empty()
    } else {
        let prev = runs_of(s.drop_last());
        let p = s.last();
        if prev.len() > 0 && prev.last().start + prev.last().length == p.id {
            let merged = Run {
                start: prev.last().start,
                length: (prev.last().length + 1) as i32,
                time: if p.time > prev.last().time {
                    p.time
                } else {
                    prev.last().time
                },
            };
            prev.update(prev.len() - 1, merged)
        } else {
            prev.push(Run { start: p.id, length: 1, time: p.time })
        }
    }
}

pub proof fn lemma_stamp_ids_drop_last(s: Seq<IdStamp>)
    requires
        s.len() > 0,
    ensures
        stamp_ids(s) == stamp_ids(s.drop_last()).insert(s.last().id as int),
{
    assert forall|i: int| stamp_ids(s).contains(i) implies stamp_ids(s.drop_last()).insert(
        s.last().id as int,
    ).contains(i) by {
        let k = choose|k: int| 0 <= k < s.len() && s[k].id == i;
        if k < s.len() - 1 {
            assert(0 <= k < s.drop_last().len() && s.drop_last()[k].id == i);
        }
    }
    assert forall|i: int|
        stamp_ids(s.drop_last()).insert(s.last().id as int).contains(i) implies stamp_ids(
        s,
    ).contains(i) by {
        if i == s.last().id as int {
            assert(s[s.len() - 1].id == i);
        } else {
            let k = choose|k: int| 0 <= k < s.drop_last().len() && s.drop_last()[k].id == i;
            assert(s[k].id == i);
        }
    }
    assert(stamp_ids(s) =~= stamp_ids(s.drop_last()).insert(s.last().id as int));
}

/// The properties of the canonical run decomposition: the runs are
/// well-formed, minimal (sorted, non-adjacent), cover exactly the stamped
/// ids, and each carries the newest timestamp among its ids.
pub proof fn lemma_runs_of_props(s: Seq<IdStamp>)
    requires
        stamps_sorted(s),
        stamps_in_bounds(s),
    ensures
        forall|k: int| 0 <= k < runs_of(s).len() ==> run_wf(#[trigger] runs_of(s)[k]),
        runs_separated(runs_of(s)),
        runs_ids(runs_of(s)) == stamp_ids(s),
        forall|k: int| 0 <= k < runs_of(s).len() ==> run_time_ok(s, #[trigger] runs_of(s)[k]),
        runs_of(s).len() == 0 <==> s.len() == 0,
        s.len() > 0 ==> runs_of(s).last().start + runs_of(s).last().length == s.last().id + 1,
    decreases s.len(),
{
    if s.len() == 0 {
        assert(runs_ids(runs_of(s)) =~= stamp_ids(s));
    } else {
        let t = s.drop_last();
        let p = s.last();
        let prev = runs_of(t);
        let rs = runs_of(s);
        assert(stamps_sorted(t) && stamps_in_bounds(t)) by {
            assert(forall|k: int| 0 <= k < t.len() ==> t[k] == s[k]);
        }
        lemma_runs_of_props(t);
        lemma_stamp_ids_drop_last(s);
        assert(forall|k: int| 0 <= k < t.len() ==> t[k] == s[k]);
        // Every id a previous run covers is below p.id.
        assert forall|k: int, i: int|
            0 <= k < prev.len() && run_covers(prev[k], i) implies i < p.id as int by {
            if k < prev.len() - 1 {
                assert(prev[k].start + prev[k].length < prev.last().start);
            }
            assert(i <= t.last().id);
            assert(t.last().id < p.id);
        }
        if prev.len() > 0 && prev.last().start + prev.last().length == p.id {
            let merged = Run {
                start: prev.last().start,
                length: (prev.last().length + 1) as i32,
                time: if p.time > prev.last().time {
                    p.time
                } else {
                    prev.last().time
                },
            };
            assert(rs == prev.update(prev.len() - 1, merged));
            assert(run_wf(merged)) by {
                assert(run_wf(prev.last()));
                assert(prev.last().start + prev.last().length + 1 == p.id + 1 <= i32::MAX);
            }
            assert(forall|k: int| 0 <= k < rs.len() ==> run_wf(#[trigger] rs[k]));
            assert(runs_separated(rs));
            assert(runs_ids(rs) =~= stamp_ids(s)) by {
                assert forall|i: int| runs_ids(rs).contains(i) implies stamp_ids(s).contains(i) by {
                    let k = choose|k: int| 0 <= k < rs.len() && run_covers(rs[k], i);
                    if k < rs.len() - 1 {
                        assert(run_covers(prev[k], i));
                        assert(runs_ids(prev).contains(i));
                    } else {
                        if i == p.id as int {
                        } else {
                            assert(run_covers(prev.last(), i));
                            assert(runs_ids(prev).contains(i));
                        }
                    }
                }
                assert forall|i: int| stamp_ids(s).contains(i) implies runs_ids(rs).contains(i) by {
                    if i == p.id as int {
                        assert(run_covers(merged, i));
                        assert(rs[rs.len() - 1] == merged);
                    } else {
                        assert(stamp_ids(t).contains(i));
                        let k = choose|k: int| 0 <= k < prev.len() && run_covers(prev[k], i);
                        if k < prev.len() - 1 {
                            assert(run_covers(rs[k], i));
                        } else {
                            assert(run_covers(merged, i));
                            assert(rs[rs.len() - 1] == merged);
                        }
                    }
                }
            }
            assert forall|k: int| 0 <= k < rs.len() implies run_time_ok(s, #[trigger] rs[k]) by {
                if k < rs.len() - 1 {
                    assert(run_time_ok(t, prev[k]));
                    assert(rs[k] == prev[k]);
                    assert forall|j: int|
                        0 <= j < s.len() && run_covers(rs[k], (#[trigger] s[j]).id as int) implies s[j].time
                        <= rs[k].time by {
                        assert(s[j].id < p.id);
                        assert(j < t.len());
                        assert(t[j] == s[j]);
                    }
                    let j = choose|j: int|
                        0 <= j < t.len() && run_covers(prev[k], (#[trigger] t[j]).id as int) && t[j].time
                            == prev[k].time;
                    assert(s[j] == t[j]);
                    assert(run_covers(rs[k], s[j].id as int) && s[j].time == rs[k].time);
                } else {
                    assert(rs[k] == merged);
                    assert(run_time_ok(t, prev.last()));
                    assert forall|j: int|
                        0 <= j < s.len() && run_covers(merged, (#[trigger] s[j]).id as int) implies s[j].time
                        <= merged.time by {
                        if j < s.len() - 1 {
                            assert(t[j] == s[j]);
                            assert(s[j].id < p.id);
                            assert(run_covers(prev.last(), s[j].id as int));
                            assert(s[j].time <= prev.last().time);
                        }
                    }
                    if p.time > prev.last().time {
                        assert(run_covers(merged, s[s.len() - 1].id as int) && s[s.len() - 1].time
                            == merged.time);
                    } else {
                        let j = choose|j: int|
                            0 <= j < t.len() && run_covers(prev.last(), (#[trigger] t[j]).id as int)
                                && t[j].time == prev.last().time;
                        assert(s[j] == t[j]);
                        assert(run_covers(merged, s[j].id as int) && s[j].time == merged.time);
                    }
                }
            }
        } else {
            let fresh = Run { start: p.id, length: 1, time: p.time };
            assert(rs == prev.push(fresh));
            assert(run_wf(fresh));
            assert(runs_separated(rs)) by {
                if prev.len() > 0 {
                    assert(prev.last().start + prev.last().length == t.last().id + 1);
                    assert(t.last().id < p.id);
                    assert(prev.last().start + prev.last().length != p.id);
                    assert(prev.last().start + prev.last().length < p.id);
                    assert forall|k: int, l: int| 0 <= k < l < rs.len() implies (#[trigger] rs[k]).start
                        + rs[k].length < (#[trigger] rs[l]).start by {
                        if l < rs.len() - 1 {
                            assert(rs[k] == prev[k] && rs[l] == prev[l]);
                        } else {
                            assert(rs[k] == prev[k]);
                            if k < prev.len() - 1 {
                                assert(prev[k].start + prev[k].length < prev.last().start);
                            }
                        }
                    }
                }
            }
            assert(runs_ids(rs) =~= stamp_ids(s)) by {
                assert forall|i: int| runs_ids(rs).contains(i) implies stamp_ids(s).contains(i) by {
                    let k = choose|k: int| 0 <= k < rs.len() && run_covers(rs[k], i);
                    if k < rs.len() - 1 {
                        assert(run_covers(prev[k], i));
                        assert(runs_ids(prev).contains(i));
                    }
                }
                assert forall|i: int| stamp_ids(s).contains(i) implies runs_ids(rs).contains(i) by {
                    if i == p.id as int {
                        assert(run_covers(fresh, i));
                        assert(rs[rs.len() - 1] == fresh);
                    } else {
                        assert(stamp_ids(t).contains(i));
                        let k = choose|k: int| 0 <= k < prev.len() && run_covers(prev[k], i);
                        assert(run_covers(rs[k], i));
                    }
                }
            }
            assert forall|k: int| 0 <= k < rs.len() implies run_time_ok(s, #[trigger] rs[k]) by {
                if k < rs.len() - 1 {
                    assert(run_time_ok(t, prev[k]));
                    assert(rs[k] == prev[k]);
                    assert forall|j: int|
                        0 <= j < s.len() && run_covers(rs[k], (#[trigger] s[j]).id as int) implies s[j].time
                        <= rs[k].time by {
                        assert(s[j].id < p.id);
                        assert(j < t.len());
                        assert(t[j] == s[j]);
                    }
                    let j = choose|j: int|
                        0 <= j < t.len() && run_covers(prev[k], (#[trigger] t[j]).id as int) && t[j].time
                            == prev[k].time;
                    assert(s[j] == t[j]);
                    assert(run_covers(rs[k], s[j].id as int) && s[j].time == rs[k].time);
                } else {
                    assert(rs[k] == fresh);
                    assert forall|j: int|
                        0 <= j < s.len() && run_covers(fresh, (#[trigger] s[j]).id as int) implies s[j].time
                        <= fresh.time by {
                        if j < s.len() - 1 {
                            assert(t[j] == s[j]);
                            assert(s[j].id < p.id);
                        }
                    }
                    assert(run_covers(fresh, s[s.len() - 1].id as int) && s[s.len() - 1].time
                        == fresh.time);
                }
            }
        }
    }
}

/// Coalesces a sorted stamp sequence into its canonical runs.
pub fn merge_to_runs(stamps: &Vec<IdStamp>) -> (r: Vec<Run>)
    requires
        stamps_sorted(stamps@),
        stamps_in_bounds(stamps@),
    ensures
        r@ == runs_of(stamps@),
{
    let mut runs: Vec<Run> = Vec::new();
    let mut i: usize = 0;
    while i < stamps.len()
        invariant
            0 <= i <= stamps@.len(),
            stamps_sorted(stamps@),
            stamps_in_bounds(stamps@),
            runs@ == runs_of(stamps@.take(i as int)),
        decreases stamps@.len() - i,
    {
        let ghost pre = stamps@.take(i as int);
        proof {
            assert(stamps_sorted(pre) && stamps_in_bounds(pre)) by {
                assert(forall|k: int| 0 <= k < pre.len() ==> pre[k] == stamps@[k]);
            }
            lemma_runs_of_props(pre);
            assert(stamps@.take(i + 1).drop_last() =~= pre);
            assert(stamps@.take(i + 1).last() == stamps@[i as int]);
        }
        let p = stamps[i];
        let n = runs.len();
        if n > 0 {
            let last = runs[n - 1];
            proof {
                assert(run_wf(runs_of(pre)[n - 1]));
            }
            if last.start + last.length == p.id {
                let merged = Run {
                    start: last.start,
                    length: last.length + 1,
                    time: if p.time > last.time {
                        p.time
                    } else {
                        last.time
                    },
                };
                runs.pop();
                runs.push(merged);
                proof {
                    assert(runs@ =~= runs_of(stamps@.take(i + 1)));
                }
            } else {
                runs.push(Run { start: p.id, length: 1, time: p.time });
                proof {
                    assert(runs@ =~= runs_of(stamps@.take(i + 1)));
                }
            }
        } else {
            runs.push(Run { start: p.id, length: 1, time: p.time });
            proof {
                assert(runs@ =~= runs_of(stamps@.take(i + 1)));
            }
        }
        i = i + 1;
    }
    proof {
        assert(stamps@.take(stamps@.len() as int) =~= stamps@);
    }
    runs
}

} // verus!
