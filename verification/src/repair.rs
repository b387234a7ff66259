//! Keeping up the number of replicas: audit, pay, and place again what is missing.
//!
//! One pass goes through all pins. Every replica is audited; the outcome is written back, healthy
//! replicas with a channel are paid, and a pin with too few healthy replicas gets new ones on hosts
//! that hold none of it yet. A pass asks the outside for audits, candidates and placements; what it
//! makes of them is decided here.

use vstd::prelude::*;

use crate::client::{accrue, rent_receipt, ReceiptTerms};
use crate::pinset::{Entry, PinSet, Replica};
use crate::table::Table;
use crate::text::{contains_str, parse_base_units};

verus! {

/// What to do about one pin.
#[derive(Debug, Clone, PartialEq, Eq)]
pub struct RepairPlan {
    /// How many replicas to place; zero if there are enough.
    pub to_place: usize,
    /// Hosts not to place them on: all that are known to hold the object or to have held it.
    pub exclude: Vec<String>,
}

/// The replicas whose host is among those that passed.
pub open spec fn passing(replicas: Seq<Replica>, passed: Seq<Seq<char>>) -> Seq<Replica> {
    replicas.filter(|r: Replica| passed.contains(r.holder@))
}

/// How many replicas are missing.
pub open spec fn shortfall(
    replicas: Seq<Replica>,
    passed: Seq<Seq<char>>,
    desired: nat,
) -> nat {
    if passing(replicas, passed).len() >= desired {
        0
    } else {
        (desired - passing(replicas, passed).len()) as nat
    }
}

/// Decides how many replicas to place, from those that are known and the hosts that passed their
/// audit. Every known host is excluded, healthy or not: a failing one is not asked again in the same
/// pass.
pub fn repair_plan(replicas: &[Replica], healthy: &[String], desired: usize) -> (r: RepairPlan)
    ensures
        r.to_place == shortfall(replicas@, crate::text::texts(healthy@), desired as nat),
        crate::text::texts(r.exclude@) == crate::pinset::holders(replicas@),
{
    let ghost passed = crate::text::texts(healthy@);
    let mut count: usize = 0;
    let mut exclude: Vec<String> = Vec::new();
    let mut i: usize = 0;
    reveal_with_fuel(Seq::filter, 1);
    assert(crate::text::texts(exclude@) =~= crate::pinset::holders(replicas@.take(0)));
    while i < replicas.len()
        invariant
            i <= replicas@.len(),
            count <= i,
            passed == crate::text::texts(healthy@),
            count == passing(replicas@.take(i as int), passed).len(),
            crate::text::texts(exclude@) == crate::pinset::holders(replicas@.take(i as int)),
        decreases replicas@.len() - i,
    {
        reveal_with_fuel(Seq::filter, 1);
        assert(replicas@.take(i + 1).drop_last() =~= replicas@.take(i as int));
        let ghost before = exclude@;
        if contains_str(healthy, replicas[i].holder.as_str()) {
            count += 1;
        }
        exclude.push(replicas[i].holder.clone());
        assert(crate::text::texts(exclude@) =~= crate::text::texts(before).push(
            replicas@[i as int].holder@,
        ));
        assert(crate::pinset::holders(replicas@.take(i + 1)) =~= crate::pinset::holders(
            replicas@.take(i as int),
        ).push(replicas@[i as int].holder@));
        i += 1;
    }
    assert(replicas@.take(i as int) =~= replicas@);
    RepairPlan { to_place: desired.saturating_sub(count), exclude }
}

/// What a pass did.
#[derive(Debug, Clone, Copy, PartialEq, Eq)]
pub struct RepairReport {
    /// Pins looked at.
    pub pins_checked: usize,
    /// Pins that had too few healthy replicas.
    pub pins_repaired: usize,
    /// Replicas placed.
    pub replicas_added: usize,
    /// Replicas that failed their audit.
    pub replicas_unhealthy: usize,
}

impl Default for RepairReport {
    fn default() -> (r: Self)
        ensures
            r == (RepairReport {
                pins_checked: 0,
                pins_repaired: 0,
                replicas_added: 0,
                replicas_unhealthy: 0,
            }),
    {
        RepairReport {
            pins_checked: 0,
            pins_repaired: 0,
            replicas_added: 0,
            replicas_unhealthy: 0,
        }
    }
}

/// The hosts whose audit passed: those of the replicas at whose place `results` is true.
pub open spec fn passed_among(replicas: Seq<Replica>, results: Seq<bool>) -> Seq<Seq<char>>
    decreases replicas.len(),
{
    if replicas.len() == 0 {
        Seq::empty()
    } else {
        let front = passed_among(replicas.drop_last(), results);
        if results[replicas.len() - 1] {
            front.push(replicas.last().holder@)
        } else {
            front
        }
    }
}

/// How many audits failed.
pub open spec fn failed_among(results: Seq<bool>) -> nat {
    results.filter(|ok: bool| !ok).len()
}

fn passed_holders(replicas: &Vec<Replica>, results: &[bool]) -> (r: (Vec<String>, usize))
    requires
        results@.len() == replicas@.len(),
    ensures
        crate::text::texts(r.0@) == passed_among(replicas@, results@),
        r.1 == failed_among(results@),
        r.1 <= results@.len(),
{
    let mut passed: Vec<String> = Vec::new();
    let mut failed: usize = 0;
    let mut i: usize = 0;
    reveal_with_fuel(Seq::filter, 1);
    assert(crate::text::texts(passed@) =~= passed_among(replicas@.take(0), results@));
    while i < replicas.len()
        invariant
            results@.len() == replicas@.len(),
            i <= replicas@.len(),
            failed <= i,
            crate::text::texts(passed@) == passed_among(replicas@.take(i as int), results@),
            failed == failed_among(results@.take(i as int)),
        decreases replicas@.len() - i,
    {
        reveal_with_fuel(Seq::filter, 1);
        assert(replicas@.take(i + 1).drop_last() =~= replicas@.take(i as int));
        assert(results@.take(i + 1).drop_last() =~= results@.take(i as int));
        if results[i] {
            let ghost before = passed@;
            passed.push(replicas[i].holder.clone());
            assert(crate::text::texts(passed@) =~= crate::text::texts(before).push(
                replicas@[i as int].holder@,
            ));
        } else {
            failed += 1;
        }
        i += 1;
    }
    assert(replicas@.take(i as int) =~= replicas@);
    assert(results@.take(i as int) =~= results@);
    (passed, failed)
}

/// A replica is paid: it has a channel, and its host passed the audit.
pub open spec fn is_due(r: Replica, passed: Seq<Seq<char>>) -> bool {
    r.channel_id@.len() > 0 && passed.contains(r.holder@)
}

/// What has accrued on a channel, in thousandths of base units.
pub open spec fn accrued_on(accrued: Map<Seq<char>, u128>, channel: Seq<char>) -> u128 {
    if accrued.contains_key(channel) {
        accrued[channel]
    } else {
        0
    }
}

/// What has accrued per channel after a pin was paid for: on the channel of each replica that is
/// paid, one more hour.
pub open spec fn accrued_after(
    accrued: Map<Seq<char>, u128>,
    replicas: Seq<Replica>,
    passed: Seq<Seq<char>>,
    bytes: u64,
    rate: u128,
) -> Map<Seq<char>, u128>
    decreases replicas.len(),
{
    if replicas.len() == 0 {
        accrued
    } else {
        let a = accrued_after(accrued, replicas.drop_last(), passed, bytes, rate);
        let r = replicas.last();
        if is_due(r, passed) {
            a.insert(
                r.channel_id@,
                crate::client::accrued_with(accrued_on(a, r.channel_id@), bytes, rate) as u128,
            )
        } else {
            a
        }
    }
}

/// A receipt: channel, host, and what the host may claim in all.
pub open spec fn receipt_model(t: ReceiptTerms) -> (Seq<char>, Seq<char>, int) {
    (t.channel_id@, t.holder@, t.cumulative as int)
}

/// The receipts that pay for a pin: one for each replica that is paid, for all that has accrued on
/// its channel.
pub open spec fn receipts_due(
    accrued: Map<Seq<char>, u128>,
    replicas: Seq<Replica>,
    passed: Seq<Seq<char>>,
    bytes: u64,
    rate: u128,
) -> Seq<(Seq<char>, Seq<char>, int)>
    decreases replicas.len(),
{
    if replicas.len() == 0 {
        Seq::empty()
    } else {
        let front = replicas.drop_last();
        let so_far = receipts_due(accrued, front, passed, bytes, rate);
        let r = replicas.last();
        let a = accrued_after(accrued, front, passed, bytes, rate);
        if is_due(r, passed) {
            so_far.push(
                (
                    r.channel_id@,
                    r.holder@,
                    crate::client::accrued_with(accrued_on(a, r.channel_id@), bytes, rate) as int
                        / 1000,
                ),
            )
        } else {
            so_far
        }
    }
}

/// What has accrued so far, by channel. It only ever grows, whatever becomes of rents and sizes, so
/// no receipt is for less than an earlier one.
#[derive(Debug, PartialEq, Eq)]
pub struct RentLedger {
    /// Channel to thousandths of base units.
    pub accrued: Table<u128>,
}

impl Default for RentLedger {
    fn default() -> (r: Self)
        ensures
            r.accrued@ == Map::<Seq<char>, u128>::empty(),
    {
        RentLedger { accrued: Table::new() }
    }
}

impl RentLedger {
    /// The receipts that pay for a pin after a round of audits: each replica that passed and has a
    /// channel is paid for one more hour. Nothing is paid for a pin without rent.
    pub fn settle(&mut self, entry: &Entry, passed: &[String]) -> (r: Vec<ReceiptTerms>)
        ensures
            ({
                let rate = crate::text::base_units(entry.job.rent_per_gb_hour@) as u128;
                let ok = crate::text::texts(passed@);
                if rate == 0 {
                    r@.len() == 0 && final(self).accrued@ == old(self).accrued@
                } else {
                    &&& r@.map_values(|t: ReceiptTerms| receipt_model(t)) == receipts_due(
                        old(self).accrued@,
                        entry.replicas@,
                        ok,
                        entry.job.bytes_len,
                        rate,
                    )
                    &&& final(self).accrued@ == accrued_after(
                        old(self).accrued@,
                        entry.replicas@,
                        ok,
                        entry.job.bytes_len,
                        rate,
                    )
                }
            }),
    {
        let mut out: Vec<ReceiptTerms> = Vec::new();
        let rate: u128 = parse_base_units(entry.job.rent_per_gb_hour.as_str());
        if rate == 0 {
            return out;
        }
        let ghost start = self.accrued@;
        let ghost ok = crate::text::texts(passed@);
        let ghost model = |t: ReceiptTerms| receipt_model(t);
        let bytes: u64 = entry.job.bytes_len;
        let mut i: usize = 0;
        assert(out@.map_values(model) =~= receipts_due(
            start,
            entry.replicas@.take(0),
            ok,
            bytes,
            rate,
        ));
        while i < entry.replicas.len()
            invariant
                i <= entry.replicas@.len(),
                ok == crate::text::texts(passed@),
                model == (|t: ReceiptTerms| receipt_model(t)),
                self.accrued@ == accrued_after(
                    start,
                    entry.replicas@.take(i as int),
                    ok,
                    bytes,
                    rate,
                ),
                out@.map_values(model) == receipts_due(
                    start,
                    entry.replicas@.take(i as int),
                    ok,
                    bytes,
                    rate,
                ),
            decreases entry.replicas@.len() - i,
        {
            assert(entry.replicas@.take(i + 1).drop_last() =~= entry.replicas@.take(i as int));
            let replica = &entry.replicas[i];
            if contains_str(passed, replica.holder.as_str()) {
                let known: u128 = match self.accrued.get(replica.channel_id.as_str()) {
                    Some(a) => *a,
                    None => 0,
                };
                let total: u128 = accrue(known, bytes, rate);
                if let Some(terms) = rent_receipt(replica, total / 1000) {
                    let ghost before = out@;
                    let _ = self.accrued.insert(replica.channel_id.clone(), total);
                    out.push(terms);
                    assert(out@.map_values(model) =~= before.map_values(model).push(
                        receipt_model(terms),
                    ));
                }
            }
            i += 1;
        }
        assert(entry.replicas@.take(i as int) =~= entry.replicas@);
        out
    }
}

/// `replicas`, and behind them each of `fresh` whose host is not among them yet, in order.
pub open spec fn merged(replicas: Seq<Replica>, fresh: Seq<Replica>) -> Seq<Replica>
    decreases fresh.len(),
{
    if fresh.len() == 0 {
        replicas
    } else {
        let so_far = merged(replicas, fresh.drop_last());
        if crate::pinset::holders(so_far).contains(fresh.last().holder@) {
            so_far
        } else {
            so_far.push(fresh.last())
        }
    }
}

fn has_holder(replicas: &Vec<Replica>, holder: &str) -> (r: bool)
    ensures
        r == crate::pinset::holders(replicas@).contains(holder@),
{
    let ghost all = crate::pinset::holders(replicas@);
    let mut i: usize = 0;
    while i < replicas.len()
        invariant
            i <= replicas@.len(),
            all == crate::pinset::holders(replicas@),
            forall|j: int| 0 <= j < i ==> #[trigger] all[j] != holder@,
        decreases replicas@.len() - i,
    {
        assert(all[i as int] == replicas@[i as int].holder@);
        if crate::text::str_eq(replicas[i].holder.as_str(), holder) {
            return true;
        }
        i += 1;
    }
    false
}

/// Adds replicas to those that are known, but none on a host that is known already.
pub fn merge_replicas(replicas: &mut Vec<Replica>, fresh: Vec<Replica>)
    ensures
        final(replicas)@ == merged(old(replicas)@, fresh@),
{
    let ghost start = replicas@;
    let mut i: usize = 0;
    assert(merged(start, fresh@.take(0)) == start);
    while i < fresh.len()
        invariant
            i <= fresh@.len(),
            replicas@ == merged(start, fresh@.take(i as int)),
        decreases fresh@.len() - i,
    {
        assert(fresh@.take(i + 1).drop_last() =~= fresh@.take(i as int));
        if !has_holder(replicas, fresh[i].holder.as_str()) {
            replicas.push(fresh[i].clone());
        }
        i += 1;
    }
    assert(fresh@.take(i as int) =~= fresh@);
}

/// What a round of audits of one pin leads to.
#[derive(Debug, PartialEq, Eq)]
pub struct AuditRound {
    /// The hosts that passed.
    pub healthy: Vec<String>,
    /// The receipts to sign.
    pub receipts: Vec<ReceiptTerms>,
    /// The replicas to place.
    pub plan: RepairPlan,
}

/// A pass through all pins.
#[derive(Debug, PartialEq, Eq)]
pub struct RepairPass {
    /// The pins.
    pub set: PinSet,
    /// What was paid so far.
    pub ledger: RentLedger,
    /// What the pass did so far.
    pub report: RepairReport,
    /// Whether the pins are to be stored.
    pub dirty: bool,
}

impl RepairPass {
    /// A pass that is about to begin.
    pub fn start(set: PinSet, ledger: RentLedger) -> (r: Self)
        ensures
            r.set == set,
            r.ledger == ledger,
            r.report == (RepairReport {
                pins_checked: 0,
                pins_repaired: 0,
                replicas_added: 0,
                replicas_unhealthy: 0,
            }),
            !r.dirty,
    {
        RepairPass { set, ledger, report: RepairReport::default(), dirty: false }
    }

    /// The pins to go through, ascending.
    pub fn cids(&self) -> (r: Vec<String>)
        ensures
            crate::text::texts(r@) == self.set.pins.order(),
            crate::table::ascending(self.set.pins.order()),
            self.set.pins.order().to_set() == self.set.pins@.dom(),
    {
        self.set.pins.keys()
    }

    /// Takes in the audits of one pin, one result per replica: writes the health of each replica
    /// back, settles rent with the healthy ones, and plans what to place. `None` if there is no such
    /// pin.
    pub fn audited(&mut self, cid: &str, results: &[bool]) -> (r: Option<AuditRound>)
        requires
            old(self).set.pins@.contains_key(cid@) ==> {
                &&& results@.len() == old(self).set.pins@[cid@].replicas@.len()
                &&& old(self).report.pins_checked < usize::MAX
                &&& old(self).report.pins_repaired < usize::MAX
                &&& old(self).report.replicas_unhealthy + results@.len() <= usize::MAX
            },
        ensures
            old(self).set.is_keyed() ==> final(self).set.is_keyed(),
            if !old(self).set.pins@.contains_key(cid@) {
                r is None && *final(self) == *old(self)
            } else {
                let before = old(self).set.pins@[cid@];
                let after = final(self).set.pins@[cid@];
                let passed = passed_among(before.replicas@, results@);
                let rate = crate::text::base_units(before.job.rent_per_gb_hour@) as u128;
                let missing = shortfall(
                    before.replicas@,
                    passed,
                    before.job.replication as nat,
                );
                &&& final(self).dirty
                &&& final(self).set.pins@ == old(self).set.pins@.insert(cid@, after)
                &&& final(self).set.pins.order() == old(self).set.pins.order()
                &&& after.job == before.job
                &&& after.replicas@ == crate::pinset::with_health(before.replicas@, passed)
                &&& r matches Some(round) && {
                    &&& crate::text::texts(round.healthy@) == passed
                    &&& round.plan.to_place == missing
                    &&& crate::text::texts(round.plan.exclude@) == crate::pinset::holders(
                        before.replicas@,
                    )
                    &&& if rate == 0 {
                        round.receipts@.len() == 0 && final(self).ledger.accrued@ == old(
                            self,
                        ).ledger.accrued@
                    } else {
                        &&& round.receipts@.map_values(|t: ReceiptTerms| receipt_model(t))
                            == receipts_due(
                            old(self).ledger.accrued@,
                            before.replicas@,
                            passed,
                            before.job.bytes_len,
                            rate,
                        )
                        &&& final(self).ledger.accrued@ == accrued_after(
                            old(self).ledger.accrued@,
                            before.replicas@,
                            passed,
                            before.job.bytes_len,
                            rate,
                        )
                    }
                }
                &&& final(self).report == (RepairReport {
                    pins_checked: (old(self).report.pins_checked + 1) as usize,
                    pins_repaired: (old(self).report.pins_repaired + (if missing > 0 {
                        1int
                    } else {
                        0
                    })) as usize,
                    replicas_added: old(self).report.replicas_added,
                    replicas_unhealthy: (old(self).report.replicas_unhealthy + failed_among(
                        results@,
                    )) as usize,
                })
            },
    {
        let entry = match self.set.get(cid) {
            None => {
                return None;
            },
            Some(e) => e.clone(),
        };
        let (healthy, failed) = passed_holders(&entry.replicas, results);
        self.report.pins_checked = self.report.pins_checked + 1;
        self.report.replicas_unhealthy = self.report.replicas_unhealthy + failed;
        if let Some(e) = self.set.get_mut(cid) {
            e.mark_health(healthy.as_slice());
        }
        self.dirty = true;
        let receipts = self.ledger.settle(&entry, healthy.as_slice());
        let plan = repair_plan(
            entry.replicas.as_slice(),
            healthy.as_slice(),
            entry.job.replication as usize,
        );
        if plan.to_place > 0 {
            self.report.pins_repaired = self.report.pins_repaired + 1;
        }
        Some(AuditRound { healthy, receipts, plan })
    }

    /// Takes in the replicas that were placed for one pin.
    pub fn replicated(&mut self, cid: &str, fresh: Vec<Replica>)
        requires
            old(self).report.replicas_added + fresh@.len() <= usize::MAX,
        ensures
            final(self).ledger == old(self).ledger,
            old(self).set.is_keyed() ==> final(self).set.is_keyed(),
            final(self).report == (RepairReport {
                replicas_added: (old(self).report.replicas_added + fresh@.len()) as usize,
                ..old(self).report
            }),
            if old(self).set.pins@.contains_key(cid@) {
                let before = old(self).set.pins@[cid@];
                let after = final(self).set.pins@[cid@];
                &&& final(self).dirty
                &&& final(self).set.pins@ == old(self).set.pins@.insert(cid@, after)
                &&& final(self).set.pins.order() == old(self).set.pins.order()
                &&& after.job == before.job
                &&& after.replicas@ == merged(before.replicas@, fresh@)
            } else {
                final(self).set == old(self).set && final(self).dirty == old(self).dirty
            },
    {
        self.report.replicas_added = self.report.replicas_added + fresh.len();
        if let Some(e) = self.set.get_mut(cid) {
            merge_replicas(&mut e.replicas, fresh);
            self.dirty = true;
        }
    }
}

/// Seconds between two passes: at least one.
pub fn watch_interval(secs: u64) -> (r: u64)
    ensures
        r == (if secs < 1 {
            1
        } else {
            secs
        }),
{
    if secs < 1 {
        1
    } else {
        secs
    }
}

/// A plan makes up for what is missing and never for more: with it there are at least as many
/// replicas as wanted, and nothing is placed where there are enough.
pub proof fn law_plan_makes_up_the_shortfall(
    replicas: Seq<Replica>,
    passed: Seq<Seq<char>>,
    desired: nat,
)
    ensures
        passing(replicas, passed).len() + shortfall(replicas, passed, desired) >= desired,
        shortfall(replicas, passed, desired) <= desired,
        passing(replicas, passed).len() >= desired <==> shortfall(replicas, passed, desired) == 0,
        passed.len() == 0 ==> shortfall(replicas, passed, desired) == desired,
{
    if passed.len() == 0 {
        let pred = |r: Replica| passed.contains(r.holder@);
        replicas.lemma_all_neg_filter_empty(pred);
    }
}

/// Written back, health counts the replicas whose host passed.
proof fn lemma_health_counts_passing(replicas: Seq<Replica>, passed: Seq<Seq<char>>)
    ensures
        crate::pinset::healthy(crate::pinset::with_health(replicas, passed)).len() == passing(
            replicas,
            passed,
        ).len(),
    decreases replicas.len(),
{
    reveal_with_fuel(Seq::filter, 1);
    let marked = crate::pinset::with_health(replicas, passed);
    if replicas.len() > 0 {
        lemma_health_counts_passing(replicas.drop_last(), passed);
        assert(marked.drop_last() =~= crate::pinset::with_health(replicas.drop_last(), passed));
    }
}

proof fn lemma_all_healthy(replicas: Seq<Replica>)
    requires
        forall|i: int| 0 <= i < replicas.len() ==> (#[trigger] replicas[i]).last_proof_ok,
    ensures
        crate::pinset::healthy(replicas) == replicas,
    decreases replicas.len(),
{
    reveal_with_fuel(Seq::filter, 1);
    if replicas.len() > 0 {
        let front = replicas.drop_last();
        assert forall|i: int| 0 <= i < front.len() implies (#[trigger] front[i]).last_proof_ok by {
            assert(front[i] == replicas[i]);
        }
        lemma_all_healthy(front);
        assert(front.push(replicas.last()) =~= replicas);
    }
}

/// Replicas on hosts that are not known yet, and differ from each other, are all added.
proof fn lemma_merge_fresh(replicas: Seq<Replica>, fresh: Seq<Replica>)
    requires
        crate::pinset::holders(fresh).no_duplicates(),
        forall|i: int|
            0 <= i < fresh.len() ==> !crate::pinset::holders(replicas).contains(
                (#[trigger] fresh[i]).holder@,
            ),
    ensures
        merged(replicas, fresh) == replicas + fresh,
    decreases fresh.len(),
{
    if fresh.len() == 0 {
        assert(replicas + fresh =~= replicas);
    } else {
        let front = fresh.drop_last();
        let last = fresh.last();
        assert(crate::pinset::holders(front) =~= crate::pinset::holders(fresh).drop_last());
        assert forall|i: int| 0 <= i < front.len() implies !crate::pinset::holders(
            replicas,
        ).contains((#[trigger] front[i]).holder@) by {
            assert(front[i] == fresh[i]);
        }
        lemma_merge_fresh(replicas, front);
        let so_far = replicas + front;
        let names = crate::pinset::holders(so_far);
        if names.contains(last.holder@) {
            let k = names.index_of(last.holder@);
            assert(names[k] == last.holder@);
            if k < replicas.len() {
                assert(crate::pinset::holders(replicas)[k] == last.holder@);
                assert(fresh[fresh.len() - 1] == last);
            } else {
                let j = k - replicas.len();
                assert(crate::pinset::holders(fresh)[j] == last.holder@);
                assert(crate::pinset::holders(fresh)[fresh.len() - 1] == last.holder@);
            }
        }
        assert(so_far.push(last) =~= replicas + fresh);
    }
}

/// What is known of a pin stays when replicas are added: those known before come first, unchanged,
/// and a host that is there once is not added again.
pub proof fn law_merging_keeps_known_replicas(replicas: Seq<Replica>, fresh: Seq<Replica>)
    ensures
        replicas.len() <= merged(replicas, fresh).len() <= replicas.len() + fresh.len(),
        merged(replicas, fresh).take(replicas.len() as int) == replicas,
        crate::pinset::holders(replicas).no_duplicates() ==> crate::pinset::holders(
            merged(replicas, fresh),
        ).no_duplicates(),
    decreases fresh.len(),
{
    if fresh.len() == 0 {
        assert(replicas.take(replicas.len() as int) =~= replicas);
    } else {
        let front = fresh.drop_last();
        let so_far = merged(replicas, front);
        law_merging_keeps_known_replicas(replicas, front);
        let all = merged(replicas, fresh);
        assert(all.take(replicas.len() as int) =~= so_far.take(replicas.len() as int));
        if all != so_far {
            assert(crate::pinset::holders(all) =~= crate::pinset::holders(so_far).push(
                fresh.last().holder@,
            ));
        }
    }
}

/// If as many hosts can be found as replicas are missing, and all of them accept, then after the
/// pass as many replicas are healthy as are wanted.
pub proof fn law_repair_restores_the_factor(
    replicas: Seq<Replica>,
    passed: Seq<Seq<char>>,
    desired: nat,
    candidates: Seq<crate::placement::Candidate>,
    answers: Seq<Option<Seq<char>>>,
    fresh: Seq<Replica>,
)
    requires
        ({
            let missing = shortfall(replicas, passed, desired);
            let targets = crate::placement::chosen(
                candidates,
                missing,
                crate::pinset::holders(replicas),
            );
            &&& targets.len() == missing
            &&& answers.len() == missing
            &&& forall|j: int| 0 <= j < answers.len() ==> (#[trigger] answers[j]) is Some
            &&& crate::client::terms_of(fresh) == crate::client::placed(targets, answers)
            &&& forall|i: int| 0 <= i < fresh.len() ==> (#[trigger] fresh[i]).last_proof_ok
        }),
    ensures
        crate::pinset::healthy(
            merged(crate::pinset::with_health(replicas, passed), fresh),
        ).len() >= desired,
{
    let missing = shortfall(replicas, passed, desired);
    let known = crate::pinset::holders(replicas);
    let targets = crate::placement::chosen(candidates, missing, known);
    let marked = crate::pinset::with_health(replicas, passed);
    crate::placement::law_chosen_hosts_are_distinct_candidates(candidates, missing, known);
    crate::client::law_replicas_are_on_distinct_targets(targets, answers);
    lemma_all_accepted(targets, answers);
    assert(crate::pinset::holders(fresh) =~= crate::client::hosts_of(
        crate::client::terms_of(fresh),
    ));
    assert(crate::pinset::holders(marked) =~= known);
    assert forall|i: int| 0 <= i < fresh.len() implies !crate::pinset::holders(marked).contains(
        (#[trigger] fresh[i]).holder@,
    ) by {
        let t = crate::client::placed(targets, answers)[i];
        assert(crate::client::terms_of(fresh)[i] == t);
        assert(crate::client::is_placed_from(targets, answers, t));
        let j = choose|j: int|
            0 <= j < answers.len() && t.0 == #[trigger] targets[j] && answers[j] == Some(t.1);
        assert(targets.contains(targets[j]));
    }
    lemma_merge_fresh(marked, fresh);
    Seq::filter_distributes_over_add(marked, fresh, |r: Replica| r.last_proof_ok);
    lemma_all_healthy(fresh);
    lemma_health_counts_passing(replicas, passed);
    assert(fresh.len() == crate::client::terms_of(fresh).len());
}

proof fn lemma_all_accepted(targets: Seq<Seq<char>>, answers: Seq<Option<Seq<char>>>)
    requires
        forall|j: int| 0 <= j < answers.len() ==> (#[trigger] answers[j]) is Some,
    ensures
        crate::client::placed(targets, answers).len() == answers.len(),
    decreases answers.len(),
{
    if answers.len() > 0 {
        let front = answers.drop_last();
        assert forall|j: int| 0 <= j < front.len() implies (#[trigger] front[j]) is Some by {
            assert(front[j] == answers[j]);
        }
        lemma_all_accepted(targets, front);
        assert(answers[answers.len() - 1] is Some);
    }
}

/// A receipt goes only to a replica of the pin that has a channel and passed its audit.
pub proof fn law_only_passing_replicas_are_paid(
    accrued: Map<Seq<char>, u128>,
    replicas: Seq<Replica>,
    passed: Seq<Seq<char>>,
    bytes: u64,
    rate: u128,
    i: int,
)
    requires
        0 <= i < receipts_due(accrued, replicas, passed, bytes, rate).len(),
    ensures
        exists|j: int|
            0 <= j < replicas.len() && is_due(#[trigger] replicas[j], passed)
                && replicas[j].channel_id@ == receipts_due(
                accrued,
                replicas,
                passed,
                bytes,
                rate,
            )[i].0 && replicas[j].holder@ == receipts_due(
                accrued,
                replicas,
                passed,
                bytes,
                rate,
            )[i].1,
    decreases replicas.len(),
{
    let front = replicas.drop_last();
    let so_far = receipts_due(accrued, front, passed, bytes, rate);
    if i < so_far.len() {
        law_only_passing_replicas_are_paid(accrued, front, passed, bytes, rate, i);
        let j = choose|j: int|
            0 <= j < front.len() && is_due(#[trigger] front[j], passed) && front[j].channel_id@
                == so_far[i].0 && front[j].holder@ == so_far[i].1;
        assert(replicas[j] == front[j]);
    } else {
        assert(is_due(replicas[replicas.len() - 1], passed));
    }
}

/// What has accrued on a channel is never taken back.
pub proof fn law_accrued_rent_never_falls(
    accrued: Map<Seq<char>, u128>,
    replicas: Seq<Replica>,
    passed: Seq<Seq<char>>,
    bytes: u64,
    rate: u128,
    channel: Seq<char>,
)
    ensures
        accrued_on(accrued_after(accrued, replicas, passed, bytes, rate), channel) >= accrued_on(
            accrued,
            channel,
        ),
    decreases replicas.len(),
{
    if replicas.len() > 0 {
        let front = replicas.drop_last();
        law_accrued_rent_never_falls(accrued, front, passed, bytes, rate, channel);
        lemma_accrual(
            accrued_on(accrued_after(accrued, front, passed, bytes, rate), channel),
            bytes,
            rate,
        );
    }
}

/// An hour accrues no less than nothing, and at least a base unit for a GB at any rent, as long as
/// it can be counted.
proof fn lemma_accrual(accrued: u128, bytes: u64, rate: u128)
    ensures
        accrued <= crate::client::accrued_with(accrued, bytes, rate) <= u128::MAX,
        rate > 0 && bytes >= crate::client::GIB && crate::client::accrued_with(
            accrued,
            bytes,
            rate,
        ) < u128::MAX ==> crate::client::accrued_with(accrued, bytes, rate) >= accrued + 1000,
{
    let m = crate::client::milli_gb(bytes);
    assert(rate * m >= 0) by (nonlinear_arith);
    if rate > 0 && bytes >= crate::client::GIB {
        assert(m >= 1000);
        assert(rate * m >= 1000) by (nonlinear_arith)
            requires
                rate >= 1,
                m >= 1000,
        ;
    }
}

/// A receipt claims no more than has accrued on its channel when the pin is paid for, and what had
/// accrued before with an hour on top of it at least.
proof fn lemma_receipt_bounds(
    accrued: Map<Seq<char>, u128>,
    replicas: Seq<Replica>,
    passed: Seq<Seq<char>>,
    bytes: u64,
    rate: u128,
    i: int,
)
    requires
        0 <= i < receipts_due(accrued, replicas, passed, bytes, rate).len(),
    ensures
        ({
            let receipt = receipts_due(accrued, replicas, passed, bytes, rate)[i];
            let before = accrued_on(accrued, receipt.0);
            let after = accrued_on(
                accrued_after(accrued, replicas, passed, bytes, rate),
                receipt.0,
            );
            &&& receipt.2 <= after as int / 1000
            &&& receipt.2 >= before as int / 1000
            &&& rate > 0 && bytes >= crate::client::GIB && after < u128::MAX ==> receipt.2 >= (
            before + 1000) / 1000
        }),
    decreases replicas.len(),
{
    let front = replicas.drop_last();
    let r = replicas.last();
    let so_far = receipts_due(accrued, front, passed, bytes, rate);
    let mid = accrued_after(accrued, front, passed, bytes, rate);
    let receipt = receipts_due(accrued, replicas, passed, bytes, rate)[i];
    if i < so_far.len() {
        lemma_receipt_bounds(accrued, front, passed, bytes, rate, i);
        if is_due(r, passed) {
            lemma_accrual(accrued_on(mid, r.channel_id@), bytes, rate);
        }
    } else {
        law_accrued_rent_never_falls(accrued, front, passed, bytes, rate, r.channel_id@);
        lemma_accrual(accrued_on(mid, r.channel_id@), bytes, rate);
    }
}

/// Receipts rise. Whatever became of a pin between two settlements (other replicas, another size,
/// another rent), a receipt of the later one claims no less from a channel than one of the earlier;
/// and it claims more, if the object has a GB at least and its rent is not zero, as long as the
/// amount can be counted.
pub proof fn law_receipts_rise(
    accrued: Map<Seq<char>, u128>,
    replicas: Seq<Replica>,
    passed: Seq<Seq<char>>,
    bytes: u64,
    rate: u128,
    i: int,
    later: Map<Seq<char>, u128>,
    later_replicas: Seq<Replica>,
    later_passed: Seq<Seq<char>>,
    later_bytes: u64,
    later_rate: u128,
    j: int,
)
    requires
        ({
            let first = receipts_due(accrued, replicas, passed, bytes, rate);
            let second = receipts_due(
                later,
                later_replicas,
                later_passed,
                later_bytes,
                later_rate,
            );
            let after = accrued_after(accrued, replicas, passed, bytes, rate);
            &&& 0 <= i < first.len()
            &&& 0 <= j < second.len()
            &&& first[i].0 == second[j].0
            &&& accrued_on(later, first[i].0) >= accrued_on(after, first[i].0)
        }),
    ensures
        ({
            let first = receipts_due(accrued, replicas, passed, bytes, rate);
            let second = receipts_due(
                later,
                later_replicas,
                later_passed,
                later_bytes,
                later_rate,
            );
            let end = accrued_after(
                later,
                later_replicas,
                later_passed,
                later_bytes,
                later_rate,
            );
            &&& second[j].2 >= first[i].2
            &&& later_rate > 0 && later_bytes >= crate::client::GIB && accrued_on(
                end,
                second[j].0,
            ) < u128::MAX ==> second[j].2 > first[i].2
        }),
{
    lemma_receipt_bounds(accrued, replicas, passed, bytes, rate, i);
    lemma_receipt_bounds(later, later_replicas, later_passed, later_bytes, later_rate, j);
}

/// Two passes in a row: a replica that has a channel and passes both is handed a greater receipt in
/// the second, if its object has a GB at least and its rent is not zero, as long as the
/// amount can be counted.
pub proof fn law_second_pass_pays_more(
    accrued: Map<Seq<char>, u128>,
    replicas: Seq<Replica>,
    passed: Seq<Seq<char>>,
    bytes: u64,
    rate: u128,
    i: int,
    j: int,
)
    requires
        rate > 0,
        bytes >= crate::client::GIB,
        ({
            let once = accrued_after(accrued, replicas, passed, bytes, rate);
            let twice = accrued_after(once, replicas, passed, bytes, rate);
            let first = receipts_due(accrued, replicas, passed, bytes, rate);
            let second = receipts_due(once, replicas, passed, bytes, rate);
            &&& 0 <= i < first.len()
            &&& 0 <= j < second.len()
            &&& first[i].0 == second[j].0
            &&& accrued_on(twice, first[i].0) < u128::MAX
        }),
    ensures
        receipts_due(
            accrued_after(accrued, replicas, passed, bytes, rate),
            replicas,
            passed,
            bytes,
            rate,
        )[j].2 > receipts_due(accrued, replicas, passed, bytes, rate)[i].2,
{
    law_receipts_rise(
        accrued,
        replicas,
        passed,
        bytes,
        rate,
        i,
        accrued_after(accrued, replicas, passed, bytes, rate),
        replicas,
        passed,
        bytes,
        rate,
        j,
    );
}

/// Every replica that is due gets a receipt, in order, whatever has accrued: the receipts of two
/// passes over the same replicas and outcomes are for the same channels and hosts.
pub proof fn law_due_replicas_are_paid_each_pass(
    accrued: Map<Seq<char>, u128>,
    later: Map<Seq<char>, u128>,
    replicas: Seq<Replica>,
    passed: Seq<Seq<char>>,
    bytes: u64,
    rate: u128,
)
    ensures
        ({
            let first = receipts_due(accrued, replicas, passed, bytes, rate);
            let second = receipts_due(later, replicas, passed, bytes, rate);
            let due = replicas.filter(|r: Replica| is_due(r, passed));
            &&& first.len() == second.len() == due.len()
            &&& forall|i: int|
                0 <= i < due.len() ==> (#[trigger] first[i]).0 == second[i].0 && first[i].0
                    == due[i].channel_id@ && first[i].1 == second[i].1 && first[i].1
                    == due[i].holder@
        }),
    decreases replicas.len(),
{
    reveal_with_fuel(Seq::filter, 1);
    if replicas.len() > 0 {
        law_due_replicas_are_paid_each_pass(
            accrued,
            later,
            replicas.drop_last(),
            passed,
            bytes,
            rate,
        );
    }
}

/// A channel that no replica of a pin uses, or whose replicas all failed, accrues nothing for it.
pub proof fn law_unpaid_channels_accrue_nothing(
    accrued: Map<Seq<char>, u128>,
    replicas: Seq<Replica>,
    passed: Seq<Seq<char>>,
    bytes: u64,
    rate: u128,
    channel: Seq<char>,
)
    requires
        forall|j: int|
            0 <= j < replicas.len() && is_due(#[trigger] replicas[j], passed)
                ==> replicas[j].channel_id@ != channel,
    ensures
        accrued_on(accrued_after(accrued, replicas, passed, bytes, rate), channel) == accrued_on(
            accrued,
            channel,
        ),
    decreases replicas.len(),
{
    if replicas.len() > 0 {
        let front = replicas.drop_last();
        assert forall|j: int| 0 <= j < front.len() && is_due(#[trigger] front[j], passed) implies
            front[j].channel_id@ != channel by {
            assert(replicas[j] == front[j]);
        }
        law_unpaid_channels_accrue_nothing(accrued, front, passed, bytes, rate, channel);
        assert(replicas[replicas.len() - 1] == replicas.last());
    }
}

/// The hosts that passed are those of the replicas whose own audit passed, whatever their health
/// was before. If every audit passed they are all the hosts, in order; if none did there are none.
pub proof fn law_passed_hosts_are_those_whose_audit_passed(
    replicas: Seq<Replica>,
    results: Seq<bool>,
    h: Seq<char>,
)
    requires
        results.len() == replicas.len(),
    ensures
        passed_among(replicas, results).contains(h) <==> exists|i: int|
            0 <= i < replicas.len() && (#[trigger] replicas[i]).holder@ == h && results[i],
        (forall|i: int| 0 <= i < results.len() ==> #[trigger] results[i]) ==> passed_among(
            replicas,
            results,
        ) == crate::pinset::holders(replicas),
        (forall|i: int| 0 <= i < results.len() ==> !(#[trigger] results[i])) ==> passed_among(
            replicas,
            results,
        ).len() == 0,
{
    let passed = passed_among(replicas, results);
    let places = law_passed_hosts_keep_their_order(replicas, results);
    if passed.contains(h) {
        let k = passed.index_of(h);
        assert(passed[k] == replicas[places[k]].holder@);
        assert(places.contains(places[k]));
        assert(results[places[k]]);
    }
    if exists|i: int|
        0 <= i < replicas.len() && (#[trigger] replicas[i]).holder@ == h && results[i] {
        let i = choose|i: int|
            0 <= i < replicas.len() && (#[trigger] replicas[i]).holder@ == h && results[i];
        assert(places.contains(i));
        let k = places.index_of(i);
        assert(places[k] == i);
        assert(passed[k] == h);
    }
    if forall|i: int| 0 <= i < results.len() ==> #[trigger] results[i] {
        lemma_all_passed(replicas, results);
    }
    if forall|i: int| 0 <= i < results.len() ==> !(#[trigger] results[i]) {
        if places.len() > 0 {
            assert(places.contains(places[0]));
            assert(!results[places[0]]);
        }
    }
}

/// The hosts that passed are listed in the order of their replicas, once for each that passed, and
/// with the audits that failed they make up all audits.
pub proof fn law_passed_hosts_keep_their_order(
    replicas: Seq<Replica>,
    results: Seq<bool>,
) -> (places: Seq<int>)
    requires
        results.len() == replicas.len(),
    ensures
        passed_among(replicas, results).len() == places.len(),
        places.len() + failed_among(results) == results.len(),
        forall|k: int|
            0 <= k < places.len() ==> 0 <= #[trigger] places[k] < replicas.len() && passed_among(
                replicas,
                results,
            )[k] == replicas[places[k]].holder@,
        forall|k: int, l: int|
            0 <= k < l < places.len() ==> #[trigger] places[k] < #[trigger] places[l],
        forall|j: int|
            0 <= j < replicas.len() ==> (#[trigger] places.contains(j) <==> results[j]),
    decreases replicas.len(),
{
    reveal_with_fuel(Seq::filter, 1);
    if replicas.len() == 0 {
        Seq::empty()
    } else {
        let front = replicas.drop_last();
        let n = front.len() as int;
        lemma_passed_of_longer_results(front, results, results.drop_last());
        let before = law_passed_hosts_keep_their_order(front, results.drop_last());
        let places = if results[n] {
            before.push(n)
        } else {
            before
        };
        assert forall|k: int| 0 <= k < places.len() implies 0 <= #[trigger] places[k]
            < replicas.len() && passed_among(replicas, results)[k]
            == replicas[places[k]].holder@ by {
            if k < before.len() {
                assert(places[k] == before[k]);
                assert(front[before[k]] == replicas[places[k]]);
            }
        }
        assert forall|j: int| 0 <= j < replicas.len() implies (#[trigger] places.contains(j)
            <==> results[j]) by {
            if j < n {
                assert(before.contains(j) <==> results.drop_last()[j]);
                if before.contains(j) {
                    assert(places[before.index_of(j)] == j);
                }
                if places.contains(j) {
                    assert(before[places.index_of(j)] == j);
                }
            } else {
                if results[n] {
                    assert(places[before.len() as int] == n);
                }
                if places.contains(j) && !results[n] {
                    assert(before[places.index_of(j)] == n);
                }
            }
        }
        places
    }
}

proof fn lemma_passed_of_longer_results(
    replicas: Seq<Replica>,
    results: Seq<bool>,
    shorter: Seq<bool>,
)
    requires
        replicas.len() <= shorter.len() <= results.len(),
        shorter == results.take(shorter.len() as int),
    ensures
        passed_among(replicas, results) == passed_among(replicas, shorter),
    decreases replicas.len(),
{
    if replicas.len() > 0 {
        lemma_passed_of_longer_results(replicas.drop_last(), results, shorter);
        assert(shorter[replicas.len() - 1] == results[replicas.len() - 1]);
    }
}

proof fn lemma_all_passed(replicas: Seq<Replica>, results: Seq<bool>)
    requires
        replicas.len() <= results.len(),
        forall|i: int| 0 <= i < results.len() ==> #[trigger] results[i],
    ensures
        passed_among(replicas, results) == crate::pinset::holders(replicas),
    decreases replicas.len(),
{
    if replicas.len() > 0 {
        lemma_all_passed(replicas.drop_last(), results);
        assert(results[replicas.len() - 1]);
    }
    assert(passed_among(replicas, results) =~= crate::pinset::holders(replicas));
}

/// The replicas that count are those whose host passed, each of them once, in order and whatever
/// their health was before. What is placed is what is missing of the wanted number: no more and no
/// less.
pub proof fn law_plan_counts_replicas_that_passed(
    replicas: Seq<Replica>,
    passed: Seq<Seq<char>>,
    desired: nat,
) -> (places: Seq<int>)
    ensures
        passing(replicas, passed).len() == places.len(),
        forall|k: int|
            0 <= k < places.len() ==> 0 <= #[trigger] places[k] < replicas.len() && passing(
                replicas,
                passed,
            )[k] == replicas[places[k]],
        forall|k: int, l: int|
            0 <= k < l < places.len() ==> #[trigger] places[k] < #[trigger] places[l],
        forall|j: int|
            0 <= j < replicas.len() ==> (#[trigger] places.contains(j) <==> passed.contains(
                replicas[j].holder@,
            )),
        places.len() < desired ==> places.len() + shortfall(replicas, passed, desired) == desired,
        places.len() >= desired ==> shortfall(replicas, passed, desired) == 0,
{
    crate::order::lemma_filter_places(replicas, |r: Replica| passed.contains(r.holder@))
}

/// Merging adds behind the known replicas, in order, each fresh one on a host that is not known,
/// the first time that its host comes: all of those and no others.
pub proof fn law_merging_adds_each_new_host(
    replicas: Seq<Replica>,
    fresh: Seq<Replica>,
) -> (places: Seq<int>)
    ensures
        merged(replicas, fresh).len() == replicas.len() + places.len(),
        forall|k: int|
            0 <= k < replicas.len() ==> #[trigger] merged(replicas, fresh)[k] == replicas[k],
        forall|k: int|
            0 <= k < places.len() ==> 0 <= #[trigger] places[k] < fresh.len() && merged(
                replicas,
                fresh,
            )[replicas.len() + k] == fresh[places[k]],
        forall|k: int, l: int|
            0 <= k < l < places.len() ==> #[trigger] places[k] < #[trigger] places[l],
        forall|j: int|
            0 <= j < fresh.len() ==> (#[trigger] places.contains(j) <==> (forall|i: int|
                0 <= i < replicas.len() ==> (#[trigger] replicas[i]).holder@ != fresh[j].holder@)
                && (forall|i: int|
                0 <= i < j ==> (#[trigger] fresh[i]).holder@ != fresh[j].holder@)),
    decreases fresh.len(),
{
    if fresh.len() == 0 {
        Seq::empty()
    } else {
        let front = fresh.drop_last();
        let n = front.len() as int;
        let h = fresh.last().holder@;
        let so_far = merged(replicas, front);
        let names = crate::pinset::holders(so_far);
        let before = law_merging_adds_each_new_host(replicas, front);
        let skipped = names.contains(h);
        let known = exists|i: int| 0 <= i < replicas.len() && (#[trigger] replicas[i]).holder@ == h;
        let seen = exists|i: int| 0 <= i < n && (#[trigger] fresh[i]).holder@ == h;
        assert(skipped <==> known || seen) by {
            if skipped {
                let k = names.index_of(h);
                assert(so_far[k].holder@ == h);
                if k < replicas.len() {
                    assert(replicas[k].holder@ == h);
                } else {
                    let l = k - replicas.len();
                    assert(so_far[replicas.len() + l] == front[before[l]]);
                    assert(fresh[before[l]].holder@ == h);
                }
            }
            if known {
                let i = choose|i: int|
                    0 <= i < replicas.len() && (#[trigger] replicas[i]).holder@ == h;
                assert(so_far[i] == replicas[i]);
                assert(names[i] == h);
            } else if seen {
                let i = choose|i: int| 0 <= i < n && (#[trigger] fresh[i]).holder@ == h;
                let first = lemma_first_on_host(front, i);
                assert(before.contains(first));
                let k = before.index_of(first);
                assert(so_far[replicas.len() + k] == front[before[k]]);
                assert(names[replicas.len() + k] == h);
            }
        }
        let places = if skipped {
            before
        } else {
            before.push(n)
        };
        assert forall|k: int| 0 <= k < replicas.len() implies #[trigger] merged(replicas, fresh)[k]
            == replicas[k] by {
            assert(so_far[k] == replicas[k]);
        }
        assert forall|k: int| 0 <= k < places.len() implies 0 <= #[trigger] places[k] < fresh.len()
            && merged(replicas, fresh)[replicas.len() + k] == fresh[places[k]] by {
            if k < before.len() {
                assert(places[k] == before[k]);
                assert(so_far[replicas.len() + k] == front[before[k]]);
            }
        }
        assert forall|j: int| 0 <= j < fresh.len() implies (#[trigger] places.contains(j) <==> (
        forall|i: int|
            0 <= i < replicas.len() ==> (#[trigger] replicas[i]).holder@ != fresh[j].holder@) && (
        forall|i: int| 0 <= i < j ==> (#[trigger] fresh[i]).holder@ != fresh[j].holder@)) by {
            if j < n {
                assert(before.contains(j) <==> places.contains(j)) by {
                    if before.contains(j) {
                        assert(places[before.index_of(j)] == j);
                    }
                    if places.contains(j) {
                        assert(before[places.index_of(j)] == j);
                    }
                }
                assert(fresh[j] == front[j]);
                if before.contains(j) {
                    assert forall|i: int| 0 <= i < j implies (#[trigger] fresh[i]).holder@
                        != fresh[j].holder@ by {
                        assert(front[i] == fresh[i]);
                    }
                } else if forall|i: int|
                    0 <= i < replicas.len() ==> (#[trigger] replicas[i]).holder@
                        != fresh[j].holder@ {
                    let i = choose|i: int|
                        0 <= i < j && (#[trigger] front[i]).holder@ == front[j].holder@;
                    assert(fresh[i] == front[i]);
                }
            } else if skipped {
                if places.contains(j) {
                    assert(before[places.index_of(j)] == n);
                }
            } else {
                assert(places[before.len() as int] == n);
            }
        }
        places
    }
}

/// The first replica on the host of the one at `i`.
proof fn lemma_first_on_host(c: Seq<Replica>, i: int) -> (first: int)
    requires
        0 <= i < c.len(),
    ensures
        0 <= first <= i,
        c[first].holder@ == c[i].holder@,
        forall|j: int| 0 <= j < first ==> (#[trigger] c[j]).holder@ != c[i].holder@,
    decreases i,
{
    if exists|j: int| 0 <= j < i && (#[trigger] c[j]).holder@ == c[i].holder@ {
        let j = choose|j: int| 0 <= j < i && (#[trigger] c[j]).holder@ == c[i].holder@;
        lemma_first_on_host(c, j)
    } else {
        i
    }
}

/// Paying for one replica more. If it has a channel and its host passed, what accrued on the
/// channel grows by the hour's rent, the size counted in whole thousandths of a GB, as far as a
/// `u128` goes, and one more receipt is for all of that in whole base units. Else nothing changes.
/// For no replicas nothing accrues and no receipt is written.
pub proof fn law_paying_one_replica_more(
    accrued: Map<Seq<char>, u128>,
    replicas: Seq<Replica>,
    r: Replica,
    passed: Seq<Seq<char>>,
    bytes: u64,
    rate: u128,
    milli: nat,
)
    requires
        milli * 1_073_741_824 <= bytes * 1000 < (milli + 1) * 1_073_741_824,
    ensures
        ({
            let none = Seq::<Replica>::empty();
            let all = replicas.push(r);
            let before = accrued_after(accrued, replicas, passed, bytes, rate);
            let after = accrued_after(accrued, all, passed, bytes, rate);
            let paid = receipts_due(accrued, replicas, passed, bytes, rate);
            let all_paid = receipts_due(accrued, all, passed, bytes, rate);
            let known = if before.contains_key(r.channel_id@) {
                before[r.channel_id@] as int
            } else {
                0
            };
            let grown = known + rate * milli;
            &&& accrued_after(accrued, none, passed, bytes, rate) == accrued
            &&& receipts_due(accrued, none, passed, bytes, rate).len() == 0
            &&& if r.channel_id@.len() > 0 && passed.contains(r.holder@) {
                let total = if grown <= u128::MAX {
                    grown
                } else {
                    u128::MAX as int
                };
                &&& after == before.insert(r.channel_id@, total as u128)
                &&& all_paid.len() == paid.len() + 1
                &&& all_paid.drop_last() == paid
                &&& all_paid.last().0 == r.channel_id@
                &&& all_paid.last().1 == r.holder@
                &&& all_paid.last().2 * 1000 <= total < (all_paid.last().2 + 1) * 1000
            } else {
                after == before && all_paid == paid
            }
        }),
{
    let all = replicas.push(r);
    assert(all.drop_last() =~= replicas);
    crate::client::law_size_in_thousandths(bytes, milli);
    let paid = receipts_due(accrued, replicas, passed, bytes, rate);
    let all_paid = receipts_due(accrued, all, passed, bytes, rate);
    assert(rate * milli >= 0) by (nonlinear_arith);
    if r.channel_id@.len() > 0 && passed.contains(r.holder@) {
        assert(all_paid.drop_last() =~= paid);
    }
}

/// A receipt is for the channel, the host and the amount that its terms state.
pub proof fn law_receipts_state_their_terms(t: ReceiptTerms)
    ensures
        receipt_model(t).0 == t.channel_id@,
        receipt_model(t).1 == t.holder@,
        receipt_model(t).2 == t.cumulative,
{
}

} // verus!
