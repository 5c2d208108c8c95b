//! Level 1 bisection: find the first tick at which two peers' reported
//! hashes disagree. Peers report every tick, so the first mismatch is found
//! by keeping, per tick, the reports seen so far and whether two of them,
//! from different peers, disagree.
use vstd::prelude::*;
use std::collections::{BTreeMap, HashSet};

verus! {

broadcast use vstd::std_specs::hash::group_hash_axioms, vstd::std_specs::btree::group_btree_axioms;

/// The first tick at which not all reporting peers agree.
#[derive(Debug, Clone, Copy, PartialEq, Eq, Structural)]
pub struct DivergenceTick(pub u64);

/// One peer's hash for one tick: the Level 1 unit of comparison.
#[derive(Debug, Clone, Copy, PartialEq, Eq, Structural)]
pub struct TickHashRecord {
    pub tick: u64,
    pub peer_id: u16,
    pub hash: u64,
}

/// Two different peers reported different hashes for tick `t`. A tick
/// reported by one peer only, or whose peers all agree, does not diverge.
pub open spec fn tick_diverges(records: Seq<TickHashRecord>, t: u64) -> bool {
    exists|i: int, j: int|
        0 <= i < records.len() && 0 <= j < records.len() && #[trigger] records[i].tick == t
            && #[trigger] records[j].tick == t && records[i].peer_id != records[j].peer_id
            && records[i].hash != records[j].hash
}

/// Some diverging tick has not been reported yet.
pub open spec fn has_new_divergence(records: Seq<TickHashRecord>, reported: Set<u64>) -> bool {
    exists|u: u64| #[trigger] tick_diverges(records, u) && !reported.contains(u)
}

/// `t` is the earliest diverging tick that has not been reported yet.
pub open spec fn is_first_new_divergence(
    records: Seq<TickHashRecord>,
    reported: Set<u64>,
    t: u64,
) -> bool {
    &&& tick_diverges(records, t)
    &&& !reported.contains(t)
    &&& forall|u: u64| #[trigger] tick_diverges(records, u) && !reported.contains(u) ==> t <= u
}

/// Some report in `recs` is for tick `t` from peer `p` with hash `h`.
pub open spec fn has_report(recs: Seq<TickHashRecord>, t: u64, p: u16, h: u64) -> bool {
    exists|i: int|
        0 <= i < recs.len() && #[trigger] recs[i].tick == t && recs[i].peer_id == p && recs[i].hash
            == h
}

/// Incremental divergence tracking: for each tick, in tick order, the
/// `(peer, hash)` reports seen so far and whether two of them, from
/// different peers, disagree; plus the diverging ticks already handed out.
pub(crate) struct DivergenceTable {
    by_tick: BTreeMap<u64, (Vec<(u16, u64)>, bool)>,
    checked: HashSet<u64>,
    records: Ghost<Seq<TickHashRecord>>,
}

impl DivergenceTable {
    pub(crate) closed spec fn records(&self) -> Seq<TickHashRecord> {
        self.records@
    }

    pub(crate) closed spec fn reported(&self) -> Set<u64> {
        self.checked@
    }

    pub(crate) closed spec fn wf(&self) -> bool {
        let recs = self.records@;
        let m = self.by_tick@;
        &&& forall|i: int|
            0 <= i < recs.len() ==> m.contains_key(#[trigger] recs[i].tick) && m[recs[i].tick].0@.contains(
                (recs[i].peer_id, recs[i].hash),
            )
        &&& forall|t: u64| #[trigger]
            m.contains_key(t) ==> {
                &&& forall|k: int|
                    0 <= k < m[t].0@.len() ==> has_report(recs, t, #[trigger] m[t].0@[k].0, m[t].0@[k].1)
                &&& (m[t].1 <==> tick_diverges(recs, t))
            }
        &&& forall|t: u64| #[trigger] self.checked@.contains(t) ==> tick_diverges(recs, t)
    }

    pub(crate) fn new() -> (r: Self)
        ensures
            r.wf(),
            r.records() == Seq::<TickHashRecord>::empty(),
            r.reported() == Set::<u64>::empty(),
    {
        DivergenceTable {
            by_tick: BTreeMap::new(),
            checked: HashSet::new(),
            records: Ghost(Seq::empty()),
        }
    }

    /// Records one peer's hash for one tick.
    pub(crate) fn record(&mut self, tick: u64, peer_id: u16, hash: u64)
        requires
            old(self).wf(),
        ensures
            final(self).wf(),
            final(self).records() == old(self).records().push(
                TickHashRecord { tick, peer_id, hash },
            ),
            final(self).reported() == old(self).reported(),
    {
        let ghost old_recs = self.records@;
        let ghost old_m = self.by_tick@;
        let ghost r = TickHashRecord { tick, peer_id, hash };
        let ghost new_recs = old_recs.push(r);
        proof {
            assert forall|u: u64| u != tick implies tick_diverges(new_recs, u) == tick_diverges(
                old_recs,
                u,
            ) by {
                lemma_diverges_other_tick(old_recs, r, u);
            }
            lemma_diverges_same_tick(old_recs, r);
        }
        let (mut reports, flagged) = match self.by_tick.remove(&tick) {
            Some(e) => e,
            None => (Vec::new(), false),
        };
        proof {
            if !old_m.contains_key(tick) {
                assert forall|i: int| 0 <= i < old_recs.len() implies #[trigger] old_recs[i].tick
                    != tick by {
                    assert(old_m.contains_key(old_recs[i].tick));
                }
                assert(!tick_diverges(old_recs, tick));
            } else {
                assert(reports == old_m[tick].0 && flagged == old_m[tick].1);
            }
        }
        let mut found = false;
        let mut k: usize = 0;
        while k < reports.len()
            invariant
                k <= reports@.len(),
                found <==> exists|q: int|
                    0 <= q < k && #[trigger] reports@[q].0 != peer_id && reports@[q].1 != hash,
            decreases reports@.len() - k,
        {
            if reports[k].0 != peer_id && reports[k].1 != hash {
                found = true;
            }
            k = k + 1;
        }
        proof {
            // A disagreeing report from another peer is among this tick's
            // reports exactly when one was seen before.
            if found {
                let q = choose|q: int|
                    0 <= q < reports@.len() && #[trigger] reports@[q].0 != peer_id && reports@[q].1
                        != hash;
                assert(old_m.contains_key(tick));
                assert(has_report(old_recs, tick, reports@[q].0, reports@[q].1));
                let i = choose|i: int|
                    0 <= i < old_recs.len() && #[trigger] old_recs[i].tick == tick
                        && old_recs[i].peer_id == reports@[q].0 && old_recs[i].hash
                        == reports@[q].1;
                assert(old_recs[i].peer_id != peer_id && old_recs[i].hash != hash);
            }
            if exists|i: int|
                0 <= i < old_recs.len() && #[trigger] old_recs[i].tick == tick
                    && old_recs[i].peer_id != peer_id && old_recs[i].hash != hash {
                let i = choose|i: int|
                    0 <= i < old_recs.len() && #[trigger] old_recs[i].tick == tick
                        && old_recs[i].peer_id != peer_id && old_recs[i].hash != hash;
                assert(old_m.contains_key(old_recs[i].tick));
                assert(reports@.contains((old_recs[i].peer_id, old_recs[i].hash)));
                let q = choose|q: int|
                    0 <= q < reports@.len() && reports@[q] == (
                        old_recs[i].peer_id,
                        old_recs[i].hash,
                    );
                assert(reports@[q].0 != peer_id && reports@[q].1 != hash);
                assert(found);
            }
            assert(tick_diverges(new_recs, tick) == (flagged || found));
        }
        let ghost old_reports = reports@;
        reports.push((peer_id, hash));
        let now = flagged || found;
        self.by_tick.insert(tick, (reports, now));
        self.records = Ghost(new_recs);
        proof {
            let m = self.by_tick@;
            assert(m == old_m.insert(tick, (m[tick].0, now)));
            assert(m[tick].0@ == old_reports.push((peer_id, hash)));
            assert forall|i: int|
                0 <= i < new_recs.len() implies m.contains_key(#[trigger] new_recs[i].tick)
                && m[new_recs[i].tick].0@.contains((new_recs[i].peer_id, new_recs[i].hash)) by {
                if i < old_recs.len() {
                    assert(new_recs[i] == old_recs[i]);
                    assert(old_m.contains_key(old_recs[i].tick));
                    if old_recs[i].tick == tick {
                        let q = choose|q: int|
                            0 <= q < old_reports.len() && old_reports[q] == (
                                old_recs[i].peer_id,
                                old_recs[i].hash,
                            );
                        assert(m[tick].0@[q] == old_reports[q]);
                    }
                } else {
                    assert(new_recs[i] == r);
                    assert(m[tick].0@[old_reports.len() as int] == (peer_id, hash));
                }
            }
            assert forall|t: u64| #[trigger] m.contains_key(t) implies {
                &&& forall|k: int|
                    0 <= k < m[t].0@.len() ==> has_report(new_recs, t, #[trigger] m[t].0@[k].0, m[t].0@[k].1)
                &&& (m[t].1 <==> tick_diverges(new_recs, t))
            } by {
                assert forall|k: int| 0 <= k < m[t].0@.len() implies has_report(
                    new_recs,
                    t,
                    #[trigger] m[t].0@[k].0,
                    m[t].0@[k].1,
                ) by {
                    if t == tick && k == old_reports.len() {
                        assert(new_recs[old_recs.len() as int] == r);
                    } else {
                        if t == tick {
                            assert(m[t].0@[k] == old_reports[k]);
                            assert(old_m.contains_key(tick));
                            assert(has_report(old_recs, t, old_m[t].0@[k].0, old_m[t].0@[k].1));
                        } else {
                            assert(old_m.contains_key(t));
                            assert(has_report(old_recs, t, old_m[t].0@[k].0, old_m[t].0@[k].1));
                        }
                        let i = choose|i: int|
                            0 <= i < old_recs.len() && #[trigger] old_recs[i].tick == t
                                && old_recs[i].peer_id == m[t].0@[k].0 && old_recs[i].hash
                                == m[t].0@[k].1;
                        assert(new_recs[i] == old_recs[i]);
                    }
                }
                if t != tick {
                    assert(old_m.contains_key(t));
                }
            }
            assert forall|t: u64| #[trigger]
                self.checked@.contains(t) implies tick_diverges(new_recs, t) by {
                lemma_diverges_grows(old_recs, r, t);
            }
        }
    }

    /// Hands out the earliest diverging tick not handed out before, and
    /// marks it as handed out.
    pub(crate) fn take_first(&mut self) -> (r: Option<u64>)
        requires
            old(self).wf(),
        ensures
            final(self).wf(),
            final(self).records() == old(self).records(),
            match r {
                Some(t) => {
                    &&& is_first_new_divergence(old(self).records(), old(self).reported(), t)
                    &&& final(self).reported() == old(self).reported().insert(t)
                },
                None => {
                    &&& !has_new_divergence(old(self).records(), old(self).reported())
                    &&& final(self).reported() == old(self).reported()
                },
            },
    {
        let ghost recs = self.records@;
        let ghost m = self.by_tick@;
        proof {
            assert forall|u: u64| #[trigger] tick_diverges(recs, u) implies m.contains_key(u) by {
                let (i, j) = choose|i: int, j: int|
                    0 <= i < recs.len() && 0 <= j < recs.len() && #[trigger] recs[i].tick == u
                        && #[trigger] recs[j].tick == u && recs[i].peer_id != recs[j].peer_id
                        && recs[i].hash != recs[j].hash;
                assert(m.contains_key(recs[i].tick));
            }
        }
        let mut found: Option<u64> = None;
        let ghost mut at: int = 0;
        let ghost checked = self.checked@;
        proof {
            lemma_scan_result_all(recs, m, checked);
        }
        for kv in it: self.by_tick.iter()
            invariant
                self.wf(),
                recs == self.records@,
                m == self.by_tick@,
                checked == self.checked@,
                forall|u: u64| #[trigger] tick_diverges(recs, u) ==> m.contains_key(u),
                forall|items: Seq<(&u64, &(Vec<(u16, u64)>, bool))>, f: Option<u64>, w: int|
                    #[trigger] scan_facts(recs, m, checked, items, f, w, items.len() as int)
                        ==> scan_result(recs, checked, f),
                scan_facts(recs, m, checked, it.seq(), found, at, it.index() as int),
        {
            if kv.1.1 && !self.checked.contains(kv.0) {
                let better = match found {
                    None => true,
                    Some(t) => *kv.0 < t,
                };
                if better {
                    found = Some(*kv.0);
                    proof {
                        at = it.index() as int;
                    }
                }
            }
        }
        proof {
            assert(scan_result(recs, checked, found));
        }
        match found {
            Some(t) => {
                self.checked.insert(t);
                Some(t)
            },
            None => None,
        }
    }
}

/// What a walk over the tick table's entries knows after `upto` of them:
/// every entry is in the table and every table entry is among them, and
/// `found` is the least tick walked so far that diverges and was not
/// handed out (at position `at`), or there is none.
pub open spec fn scan_facts(
    recs: Seq<TickHashRecord>,
    m: Map<u64, (Vec<(u16, u64)>, bool)>,
    checked: Set<u64>,
    items: Seq<(&u64, &(Vec<(u16, u64)>, bool))>,
    found: Option<u64>,
    at: int,
    upto: int,
) -> bool {
    &&& 0 <= upto <= items.len()
    &&& forall|t: u64| #[trigger] m.contains_key(t) ==> (m[t].1 <==> tick_diverges(recs, t))
    &&& forall|q: int|
        #![trigger items[q]]
        0 <= q < items.len() ==> m.contains_key(*items[q].0) && m[*items[q].0] == *items[q].1
    &&& forall|k: u64| #[trigger] m.contains_key(k) ==> items.contains((&k, &m[k]))
    &&& match found {
        None => forall|q: int|
            0 <= q < upto ==> !(#[trigger] items[q].1.1 && !checked.contains(*items[q].0)),
        Some(t) => {
            &&& 0 <= at < upto
            &&& *items[at].0 == t
            &&& items[at].1.1
            &&& !checked.contains(t)
            &&& forall|q: int|
                0 <= q < upto && #[trigger] items[q].1.1 && !checked.contains(*items[q].0) ==> t
                    <= *items[q].0
        },
    }
}

/// The outcome a finished walk hands out.
pub open spec fn scan_result(recs: Seq<TickHashRecord>, checked: Set<u64>, found: Option<u64>) -> bool {
    match found {
        None => !has_new_divergence(recs, checked),
        Some(t) => is_first_new_divergence(recs, checked, t),
    }
}

proof fn lemma_scan_result_all(
    recs: Seq<TickHashRecord>,
    m: Map<u64, (Vec<(u16, u64)>, bool)>,
    checked: Set<u64>,
)
    requires
        forall|u: u64| #[trigger] tick_diverges(recs, u) ==> m.contains_key(u),
    ensures
        forall|items: Seq<(&u64, &(Vec<(u16, u64)>, bool))>, f: Option<u64>, w: int|
            #[trigger] scan_facts(recs, m, checked, items, f, w, items.len() as int) ==> scan_result(
                recs,
                checked,
                f,
            ),
{
    assert forall|items: Seq<(&u64, &(Vec<(u16, u64)>, bool))>, f: Option<u64>, w: int|
        #[trigger] scan_facts(recs, m, checked, items, f, w, items.len() as int) implies scan_result(
            recs,
            checked,
            f,
        ) by {
        lemma_scan_result(recs, m, checked, items, f, w);
    }
}

/// A finished walk hands out the earliest new divergence, if there is one.
proof fn lemma_scan_result(
    recs: Seq<TickHashRecord>,
    m: Map<u64, (Vec<(u16, u64)>, bool)>,
    checked: Set<u64>,
    items: Seq<(&u64, &(Vec<(u16, u64)>, bool))>,
    found: Option<u64>,
    at: int,
)
    requires
        forall|u: u64| #[trigger] tick_diverges(recs, u) ==> m.contains_key(u),
        scan_facts(recs, m, checked, items, found, at, items.len() as int),
    ensures
        scan_result(recs, checked, found),
{
    match found {
        Some(t) => {
            assert(m.contains_key(*items[at].0));
            assert forall|u: u64| #[trigger] tick_diverges(recs, u) && !checked.contains(u) implies t
                <= u by {
                assert(m.contains_key(u));
                assert(items.contains((&u, &m[u])));
                let q = choose|q: int| 0 <= q < items.len() && items[q] == (&u, &m[u]);
                assert(m.contains_key(*items[q].0));
                assert(items[q].1.1);
            }
        },
        None => {
            assert forall|u: u64| #[trigger] tick_diverges(recs, u) && !checked.contains(u) implies false by {
                assert(m.contains_key(u));
                assert(items.contains((&u, &m[u])));
                let q = choose|q: int| 0 <= q < items.len() && items[q] == (&u, &m[u]);
                assert(m.contains_key(*items[q].0));
                assert(items[q].1.1);
            }
        },
    }
}

proof fn lemma_diverges_other_tick(recs: Seq<TickHashRecord>, r: TickHashRecord, u: u64)
    requires
        u != r.tick,
    ensures
        tick_diverges(recs.push(r), u) == tick_diverges(recs, u),
{
    let p = recs.push(r);
    if tick_diverges(p, u) {
        let (i, j) = choose|i: int, j: int|
            0 <= i < p.len() && 0 <= j < p.len() && #[trigger] p[i].tick == u && #[trigger] p[j].tick
                == u && p[i].peer_id != p[j].peer_id && p[i].hash != p[j].hash;
        assert(i < recs.len() && j < recs.len());
        assert(recs[i].tick == u && recs[j].tick == u);
    }
    lemma_diverges_grows(recs, r, u);
}

proof fn lemma_diverges_grows(recs: Seq<TickHashRecord>, r: TickHashRecord, u: u64)
    ensures
        tick_diverges(recs, u) ==> tick_diverges(recs.push(r), u),
{
    let p = recs.push(r);
    if tick_diverges(recs, u) {
        let (i, j) = choose|i: int, j: int|
            0 <= i < recs.len() && 0 <= j < recs.len() && #[trigger] recs[i].tick == u
                && #[trigger] recs[j].tick == u && recs[i].peer_id != recs[j].peer_id
                && recs[i].hash != recs[j].hash;
        assert(p[i] == recs[i] && p[j] == recs[j]);
    }
}

/// A new report makes its tick diverge exactly when the tick already
/// diverged, or an earlier report for it came from another peer with
/// another hash.
proof fn lemma_diverges_same_tick(recs: Seq<TickHashRecord>, r: TickHashRecord)
    ensures
        tick_diverges(recs.push(r), r.tick) == (tick_diverges(recs, r.tick) || exists|i: int|
            0 <= i < recs.len() && #[trigger] recs[i].tick == r.tick && recs[i].peer_id
                != r.peer_id && recs[i].hash != r.hash),
{
    let p = recs.push(r);
    let t = r.tick;
    let n = recs.len() as int;
    lemma_diverges_grows(recs, r, t);
    if exists|i: int|
        0 <= i < recs.len() && #[trigger] recs[i].tick == r.tick && recs[i].peer_id != r.peer_id
            && recs[i].hash != r.hash {
        let i = choose|i: int|
            0 <= i < recs.len() && #[trigger] recs[i].tick == r.tick && recs[i].peer_id
                != r.peer_id && recs[i].hash != r.hash;
        assert(p[i] == recs[i] && p[n] == r);
        assert(p[i].tick == t && p[n].tick == t);
    }
    if tick_diverges(p, t) && !tick_diverges(recs, t) {
        let (i, j) = choose|i: int, j: int|
            0 <= i < p.len() && 0 <= j < p.len() && #[trigger] p[i].tick == t && #[trigger] p[j].tick
                == t && p[i].peer_id != p[j].peer_id && p[i].hash != p[j].hash;
        if i < n && j < n {
            assert(p[i] == recs[i] && p[j] == recs[j]);
            assert(recs[i].tick == t && recs[j].tick == t);
        } else if i < n {
            assert(p[i] == recs[i] && j == n);
            assert(recs[i].tick == t);
        } else {
            assert(p[j] == recs[j] && i == n);
            assert(recs[j].tick == t);
        }
    }
}

/// Scans the records and returns the earliest tick at which two peers'
/// hashes disagree. A tick reported by only one peer so far cannot be compared yet
/// and is not flagged. `None` means no divergence was found, not an error.
pub fn find_first_divergence(records: &[TickHashRecord]) -> (r: Option<DivergenceTick>)
    ensures
        match r {
            Some(d) => is_first_new_divergence(records@, Set::empty(), d.0),
            None => !has_new_divergence(records@, Set::empty()),
        },
{
    let mut table = DivergenceTable::new();
    let mut i: usize = 0;
    while i < records.len()
        invariant
            0 <= i <= records@.len(),
            table.wf(),
            table.records() == records@.subrange(0, i as int),
            table.reported() == Set::<u64>::empty(),
        decreases records@.len() - i,
    {
        let rec = records[i];
        table.record(rec.tick, rec.peer_id, rec.hash);
        assert(table.records() =~= records@.subrange(0, i + 1));
        i = i + 1;
    }
    assert(table.records() =~= records@);
    match table.take_first() {
        Some(t) => Some(DivergenceTick(t)),
        None => None,
    }
}

/// A tick reported by one peer only cannot be compared yet, so it never
/// counts as diverging, however many hashes that peer reported for it.
pub proof fn lemma_single_peer_never_diverges(records: Seq<TickHashRecord>, t: u64, p: u16)
    requires
        forall|i: int| 0 <= i < records.len() && #[trigger] records[i].tick == t ==> records[i].peer_id
            == p,
    ensures
        !tick_diverges(records, t),
{
}

/// When exactly one tick diverges, that tick, and no other, is the first
/// divergence: an injected divergence is always found, and never reported
/// at a different tick.
pub proof fn lemma_only_divergence_is_found(records: Seq<TickHashRecord>, d: u64, t: u64)
    requires
        tick_diverges(records, d),
        forall|u: u64| u != d ==> !#[trigger] tick_diverges(records, u),
    ensures
        is_first_new_divergence(records, Set::empty(), t) <==> t == d,
{
}

} // verus!
