//! What a publisher decides: whom to ask, what to pay, what to challenge, and what to make of the
//! answers.
//!
//! Placing replicas takes a round with each host, and auditing one takes several. The decisions in
//! between are functions of what is known and what came back; asking is left to the caller.
//!
//! Money is counted in integers of base units, 10^18 to the credit.

use vstd::prelude::*;

use crate::audit::{challenge_index, nonce_from_seed, verify, Manifest};
use crate::pinset::{Entry, Replica};
use crate::placement::{fault_domain_from_tags, select, Candidate};
use crate::proto::{
    AuditReq, AuditResp, OfferReq, OfferResp, ReleaseReq, ReleaseResp, RenewReq, StatusReq,
};
use crate::table::Table;
use crate::text::{contains_str, parse_base_units, push_decimal, str_eq};

verus! {

/// Milliseconds to wait for the answer to an offer: the host may fetch the whole object first.
pub const OFFER_TIMEOUT_MS: u64 = 120_000;

/// Milliseconds to wait for the answer to any other request.
pub const PROBE_TIMEOUT_MS: u64 = 15_000;

/// Base units to the credit.
pub const CREDIT: i128 = 1_000_000_000_000_000_000;

/// Bytes to the GB that rent is counted in.
pub const GIB: u128 = 1_073_741_824;

/// Blocks to the hour.
pub const BLOCKS_PER_HOUR: u64 = 360;

/// What is known of the capacity of a node.
#[derive(Debug, PartialEq, Eq)]
pub struct AtlasEntry {
    /// Node id.
    pub node_id: String,
    /// Seconds since it was last seen.
    pub last_seen_secs: u64,
    /// Free memory in MiB.
    pub mem_mb: u32,
    /// What the node says of itself.
    pub tags: Vec<String>,
}

/// A node can be asked to pin: it advertises that it is a host, and is not the publisher itself.
pub open spec fn is_placeable(
    entry: AtlasEntry,
    advertised: Seq<Seq<char>>,
    self_id: Option<String>,
) -> bool {
    &&& advertised.contains(entry.node_id@)
    &&& match self_id {
        Some(id) => id@ != entry.node_id@,
        None => true,
    }
}

/// The nodes of an atlas that can be asked to pin, in its order.
pub open spec fn placeable(
    atlas: Seq<AtlasEntry>,
    advertised: Seq<Seq<char>>,
    self_id: Option<String>,
) -> Seq<AtlasEntry> {
    atlas.filter(|e: AtlasEntry| is_placeable(e, advertised, self_id))
}

/// What a node proved to have delivered: zero if that is not known.
pub open spec fn work_of(work: Map<Seq<char>, u64>, node_id: Seq<char>) -> u64 {
    if work.contains_key(node_id) {
        work[node_id]
    } else {
        0
    }
}

/// `c` is the candidate that an atlas entry makes.
pub open spec fn is_candidate_of(
    c: Candidate,
    entry: AtlasEntry,
    work: Map<Seq<char>, u64>,
) -> bool {
    &&& c.node_id == entry.node_id
    &&& c.delivered_work == work_of(work, entry.node_id@)
    &&& c.last_seen_secs == entry.last_seen_secs
    &&& c.mem_mb == entry.mem_mb
    &&& c.fault_domain@ == crate::placement::tagged_domain(crate::text::texts(entry.tags@))
}

fn can_place(entry: &AtlasEntry, advertised: &[String], self_id: &Option<String>) -> (r: bool)
    ensures
        r == is_placeable(*entry, crate::text::texts(advertised@), *self_id),
{
    if !contains_str(advertised, entry.node_id.as_str()) {
        return false;
    }
    match self_id {
        Some(id) => !str_eq(id.as_str(), entry.node_id.as_str()),
        None => true,
    }
}

/// The nodes whose history decides their rank.
pub fn nodes_to_rank(
    advertised: &[String],
    atlas: &[AtlasEntry],
    self_id: &Option<String>,
) -> (r: Vec<String>)
    ensures
        crate::text::texts(r@) == placeable(
            atlas@,
            crate::text::texts(advertised@),
            *self_id,
        ).map_values(|e: AtlasEntry| e.node_id@),
{
    let ghost ad = crate::text::texts(advertised@);
    let ghost id_of = |e: AtlasEntry| e.node_id@;
    let mut out: Vec<String> = Vec::new();
    let mut i: usize = 0;
    reveal_with_fuel(Seq::filter, 1);
    assert(crate::text::texts(out@) =~= placeable(atlas@.take(0), ad, *self_id).map_values(id_of));
    while i < atlas.len()
        invariant
            i <= atlas@.len(),
            ad == crate::text::texts(advertised@),
            id_of == (|e: AtlasEntry| e.node_id@),
            crate::text::texts(out@) == placeable(
                atlas@.take(i as int),
                ad,
                *self_id,
            ).map_values(id_of),
        decreases atlas@.len() - i,
    {
        reveal_with_fuel(Seq::filter, 1);
        assert(atlas@.take(i + 1).drop_last() =~= atlas@.take(i as int));
        if can_place(&atlas[i], advertised, self_id) {
            let ghost before = out@;
            let ghost kept = placeable(atlas@.take(i as int), ad, *self_id);
            out.push(atlas[i].node_id.clone());
            assert(crate::text::texts(out@) =~= crate::text::texts(before).push(
                atlas@[i as int].node_id@,
            ));
            assert(kept.push(atlas@[i as int]).map_values(id_of) =~= kept.map_values(id_of).push(
                atlas@[i as int].node_id@,
            ));
        }
        i += 1;
    }
    assert(atlas@.take(i as int) =~= atlas@);
    out
}

/// The hosts that could pin an object: those of the atlas that advertise it, but for the publisher
/// itself, each with what it has proven to deliver.
pub fn candidate_hosts(
    advertised: &[String],
    atlas: &[AtlasEntry],
    self_id: &Option<String>,
    work: &Table<u64>,
) -> (r: Vec<Candidate>)
    ensures
        r@.len() == placeable(atlas@, crate::text::texts(advertised@), *self_id).len(),
        forall|i: int|
            0 <= i < r@.len() ==> is_candidate_of(
                #[trigger] r@[i],
                placeable(atlas@, crate::text::texts(advertised@), *self_id)[i],
                work@,
            ),
{
    let ghost ad = crate::text::texts(advertised@);
    let mut out: Vec<Candidate> = Vec::new();
    let mut i: usize = 0;
    reveal_with_fuel(Seq::filter, 1);
    while i < atlas.len()
        invariant
            i <= atlas@.len(),
            ad == crate::text::texts(advertised@),
            out@.len() == placeable(atlas@.take(i as int), ad, *self_id).len(),
            forall|j: int|
                0 <= j < out@.len() ==> is_candidate_of(
                    #[trigger] out@[j],
                    placeable(atlas@.take(i as int), ad, *self_id)[j],
                    work@,
                ),
        decreases atlas@.len() - i,
    {
        reveal_with_fuel(Seq::filter, 1);
        assert(atlas@.take(i + 1).drop_last() =~= atlas@.take(i as int));
        let entry = &atlas[i];
        if can_place(entry, advertised, self_id) {
            let delivered_work: u64 = match work.get(entry.node_id.as_str()) {
                Some(w) => *w,
                None => 0,
            };
            out.push(
                Candidate {
                    node_id: entry.node_id.clone(),
                    delivered_work,
                    last_seen_secs: entry.last_seen_secs,
                    mem_mb: entry.mem_mb,
                    fault_domain: fault_domain_from_tags(entry.tags.as_slice()),
                },
            );
        }
        i += 1;
    }
    assert(atlas@.take(i as int) =~= atlas@);
    out
}

/// A publisher never places a replica on itself, nor on a node that does not advertise.
pub proof fn law_only_other_hosts_are_candidates(
    atlas: Seq<AtlasEntry>,
    advertised: Seq<Seq<char>>,
    self_id: Option<String>,
    i: int,
)
    requires
        0 <= i < placeable(atlas, advertised, self_id).len(),
    ensures
        atlas.contains(placeable(atlas, advertised, self_id)[i]),
        advertised.contains(placeable(atlas, advertised, self_id)[i].node_id@),
        self_id matches Some(id) ==> placeable(atlas, advertised, self_id)[i].node_id@ != id@,
{
    let kept = placeable(atlas, advertised, self_id);
    crate::order::lemma_filter_contains(
        atlas,
        |e: AtlasEntry| is_placeable(e, advertised, self_id),
    );
    assert(kept.contains(kept[i]));
}

/// A product as it is counted: no more than a `u128` holds.
pub open spec fn capped_amount(n: nat) -> nat {
    if n <= u128::MAX {
        n
    } else {
        u128::MAX as nat
    }
}

/// Thousandths of a GB that `bytes` make, rounded down.
pub open spec fn milli_gb(bytes: u64) -> nat {
    (bytes as nat * 1000) / (GIB as nat)
}

/// Thousandths of a GB to lock rent for: rounded up, and at least one.
pub open spec fn milli_gb_to_lock(bytes: u64) -> nat {
    let n = (bytes as nat * 1000 + GIB as nat - 1) as nat / (GIB as nat);
    if n < 1 {
        1
    } else {
        n
    }
}

/// What so many thousandths of a GB cost over so many hours.
pub open spec fn charge(rate: nat, milli: nat, hours: nat) -> nat {
    capped_amount(rate * milli * hours) / 1000
}

/// What to lock in a channel: the rent over the lease, and at least a credit.
pub open spec fn channel_capacity(bytes: u64, rate: u128, lease: u64) -> nat {
    let est = charge(rate as nat, milli_gb_to_lock(bytes), lease as nat);
    if est < CREDIT {
        CREDIT as nat
    } else {
        est
    }
}

/// The rent owed for holding `bytes` over `hours`.
pub open spec fn rent_owed(bytes: u64, hours: u64, rate: u128) -> nat {
    charge(rate as nat, milli_gb(bytes), hours as nat)
}

fn times(a: u128, b: u128) -> (r: u128)
    ensures
        r == capped_amount((a * b) as nat),
{
    match a.checked_mul(b) {
        Some(n) => n,
        None => u128::MAX,
    }
}

/// The charge, from two products that stop at what a `u128` holds.
fn charge_of(rate: u128, milli: u128, hours: u64) -> (r: u128)
    ensures
        r == charge(rate as nat, milli as nat, hours as nat),
        r <= u128::MAX / 1000,
{
    let first: u128 = times(rate, milli);
    let second: u128 = times(first, hours as u128);
    proof {
        let exact = (rate * milli) as nat;
        let h = hours as nat;
        assert(rate * milli >= 0) by (nonlinear_arith);
        assert(exact * h == (rate as nat) * (milli as nat) * h) by (nonlinear_arith)
            requires
                exact == rate * milli,
        ;
        if exact > u128::MAX {
            if h == 0 {
                assert(exact * h == 0 && first * h == 0) by (nonlinear_arith)
                    requires
                        h == 0,
                ;
            } else {
                assert(exact * h >= exact) by (nonlinear_arith)
                    requires
                        h >= 1,
                ;
                assert(first * h >= first) by (nonlinear_arith)
                    requires
                        h >= 1,
                ;
            }
        }
    }
    second / 1000
}

/// What to lock when a rent channel is opened: about the rent that will be owed over the lease,
/// with the size rounded up, and at least a credit so that any channel can be used.
pub fn channel_capacity_for(bytes_len: u64, rent_per_gb_hour_base: u128, lease_hours: u64) -> (r:
    i128)
    ensures
        r == channel_capacity(bytes_len, rent_per_gb_hour_base, lease_hours),
{
    let milli: u128 = ((bytes_len as u128) * 1000 + GIB - 1) / GIB;
    let milli: u128 = if milli < 1 {
        1
    } else {
        milli
    };
    let est: u128 = charge_of(rent_per_gb_hour_base, milli, lease_hours);
    let floor: u128 = 1_000_000_000_000_000_000;
    if est < floor {
        CREDIT
    } else {
        est as i128
    }
}

/// Rent owed for holding `bytes` for `hours` at a rate per GB-hour, with the size rounded down to
/// thousandths of a GB.
pub fn rent_owed_base(bytes: u64, hours: u64, rent_per_gb_hour_base: u128) -> (r: u128)
    ensures
        r == rent_owed(bytes, hours, rent_per_gb_hour_base),
        r <= i128::MAX,
{
    let milli: u128 = (bytes as u128) * 1000 / GIB;
    charge_of(rent_per_gb_hour_base, milli, hours)
}

/// Thousandths of what is owed for holding `bytes` for one more hour, on top of `accrued`.
pub open spec fn accrued_with(accrued: u128, bytes: u64, rate: u128) -> nat {
    capped_amount((accrued + rate * milli_gb(bytes)) as nat)
}

/// Adds an hour of holding `bytes` to what has accrued, in thousandths of base units.
pub fn accrue(accrued: u128, bytes: u64, rent_per_gb_hour_base: u128) -> (r: u128)
    ensures
        r == accrued_with(accrued, bytes, rent_per_gb_hour_base),
{
    let milli: u128 = (bytes as u128) * 1000 / GIB;
    let hour: u128 = times(rent_per_gb_hour_base, milli);
    assert(rent_per_gb_hour_base * milli >= 0) by (nonlinear_arith);
    accrued.saturating_add(hour)
}

/// What has accrued after so many hours at one size and rate, from nothing.
pub open spec fn accrued_over(bytes: u64, hours: nat, rate: u128) -> nat
    decreases hours,
{
    if hours == 0 {
        0
    } else {
        accrued_with(accrued_over(bytes, (hours - 1) as nat, rate) as u128, bytes, rate)
    }
}

/// Hour by hour, at one size and rate, what has accrued is the rent owed for the hours.
pub proof fn law_accrual_is_the_rent_owed(bytes: u64, hours: u64, rate: u128)
    ensures
        accrued_over(bytes, hours as nat, rate) / 1000 == rent_owed(bytes, hours, rate),
{
    lemma_accrued_over(bytes, hours as nat, rate);
}

proof fn lemma_accrued_over(bytes: u64, hours: nat, rate: u128)
    ensures
        accrued_over(bytes, hours, rate) == capped_amount(
            (rate as nat) * milli_gb(bytes) * hours,
        ),
    decreases hours,
{
    let m = milli_gb(bytes);
    let r = rate as nat;
    assert(r * m >= 0) by (nonlinear_arith);
    if hours == 0 {
        assert(r * m * 0 == 0) by (nonlinear_arith);
    } else {
        let before = (hours - 1) as nat;
        lemma_accrued_over(bytes, before, rate);
        assert(r * m * hours == r * m * before + r * m) by (nonlinear_arith)
            requires
                hours == before + 1,
        ;
    }
}

/// The hours from a height to the end of a lease, whole ones, and at least one.
pub open spec fn lease_length(tip: u64, expiry_height: u64) -> u64 {
    let blocks = if expiry_height > tip {
        (expiry_height - tip) as u64
    } else {
        0
    };
    if blocks / BLOCKS_PER_HOUR < 1 {
        1
    } else {
        blocks / BLOCKS_PER_HOUR
    }
}

/// The length of a lease in hours, from the height of the chain.
pub fn lease_hours(tip: u64, expiry_height: u64) -> (r: u64)
    ensures
        r == lease_length(tip, expiry_height),
{
    let hours: u64 = expiry_height.saturating_sub(tip) / BLOCKS_PER_HOUR;
    if hours < 1 {
        1
    } else {
        hours
    }
}

proof fn lemma_charge_grows(rate: nat, milli: nat, hours: nat, rate2: nat, milli2: nat, hours2: nat)
    requires
        rate <= rate2,
        milli <= milli2,
        hours <= hours2,
    ensures
        charge(rate, milli, hours) <= charge(rate2, milli2, hours2),
{
    assert(rate * milli <= rate2 * milli2) by (nonlinear_arith)
        requires
            rate <= rate2,
            milli <= milli2,
    ;
    let a = rate * milli;
    let b = rate2 * milli2;
    assert(a * hours <= b * hours2) by (nonlinear_arith)
        requires
            a <= b,
            hours <= hours2,
    ;
}

/// What is locked in a channel covers the rent owed for every number of hours within the lease.
pub proof fn law_channel_covers_the_rent(bytes: u64, rate: u128, lease: u64, hours: u64)
    requires
        hours <= lease,
    ensures
        rent_owed(bytes, hours, rate) <= channel_capacity(bytes, rate, lease),
{
    lemma_charge_grows(
        rate as nat,
        milli_gb(bytes),
        hours as nat,
        rate as nat,
        milli_gb_to_lock(bytes),
        lease as nat,
    );
}

/// A channel locks at least a credit, and no less for a larger object, a higher rate or a longer
/// lease.
pub proof fn law_channel_capacity_grows(
    bytes: u64,
    rate: u128,
    lease: u64,
    bytes2: u64,
    rate2: u128,
    lease2: u64,
)
    requires
        bytes <= bytes2,
        rate <= rate2,
        lease <= lease2,
    ensures
        CREDIT <= channel_capacity(bytes, rate, lease) <= channel_capacity(bytes2, rate2, lease2),
{
    lemma_charge_grows(
        rate as nat,
        milli_gb_to_lock(bytes),
        lease as nat,
        rate2 as nat,
        milli_gb_to_lock(bytes2),
        lease2 as nat,
    );
}

/// Rent owed does not fall as hours pass, sizes grow or rates rise.
pub proof fn law_rent_owed_grows(
    bytes: u64,
    hours: u64,
    rate: u128,
    bytes2: u64,
    hours2: u64,
    rate2: u128,
)
    requires
        bytes <= bytes2,
        hours <= hours2,
        rate <= rate2,
    ensures
        rent_owed(bytes, hours, rate) <= rent_owed(bytes2, hours2, rate2),
{
    lemma_charge_grows(
        rate as nat,
        milli_gb(bytes),
        hours as nat,
        rate2 as nat,
        milli_gb(bytes2),
        hours2 as nat,
    );
}

/// Whole GB are charged exactly: the rate times the GB times the hours. Nothing is owed at a rate
/// of zero or for no time.
pub proof fn law_rent_is_exact_for_whole_gb(gb: u64, hours: u64, rate: u128)
    requires
        gb * GIB <= u64::MAX,
        (rate as nat) * (gb as nat * 1000) * (hours as nat) <= u128::MAX,
    ensures
        rent_owed((gb * GIB) as u64, hours, rate) == (rate as nat) * (gb as nat) * (hours as nat),
        rent_owed((gb * GIB) as u64, hours, 0) == 0,
        rent_owed((gb * GIB) as u64, 0, rate) == 0,
{
    let bytes = (gb * GIB) as u64;
    let g = gb as nat;
    let h = hours as nat;
    let r = rate as nat;
    assert(milli_gb(bytes) == g * 1000);
    assert(r * (g * 1000) * h == 1000 * (r * g * h)) by (nonlinear_arith);
    let m = milli_gb(bytes);
    assert(0 * m * h == 0) by (nonlinear_arith);
    assert(r * m * 0 == 0) by (nonlinear_arith);
}

/// An amount as a signed number: what a `u128` holds beyond `i128::MAX` wraps round.
pub open spec fn as_signed(n: u128) -> int {
    if n <= i128::MAX {
        n as int
    } else {
        n - 0x1_0000_0000_0000_0000_0000_0000_0000_0000int
    }
}

/// A receipt to sign: the holder of a channel may claim `cumulative` from it in all.
#[derive(Debug, PartialEq, Eq)]
pub struct ReceiptTerms {
    /// The channel.
    pub channel_id: String,
    /// The host that is paid.
    pub holder: String,
    /// What the host may claim in all, in base units.
    pub cumulative: i128,
}

/// The receipt that pays a replica `cumulative_base` in all; `None` if it has no channel.
pub fn rent_receipt(replica: &Replica, cumulative_base: u128) -> (r: Option<ReceiptTerms>)
    ensures
        if replica.channel_id@.len() == 0 {
            r is None
        } else {
            r matches Some(t) && {
                &&& t.channel_id == replica.channel_id
                &&& t.holder == replica.holder
                &&& t.cumulative == as_signed(cumulative_base)
            }
        },
{
    if replica.channel_id.as_str().is_empty() {
        return None;
    }
    let top: u128 = 0x7fff_ffff_ffff_ffff_ffff_ffff_ffff_ffff;
    let cumulative: i128 = if cumulative_base <= top {
        cumulative_base as i128
    } else {
        -((u128::MAX - cumulative_base) as i128) - 1
    };
    Some(
        ReceiptTerms {
            channel_id: replica.channel_id.clone(),
            holder: replica.holder.clone(),
            cumulative,
        },
    )
}

/// Rent is paid through a channel: the rate is not zero, and the lease has an end.
pub open spec fn is_paid(req: OfferReq) -> bool {
    crate::text::base_units(req.rent_per_gb_hour@) > 0 && req.expiry_height > 0
}

/// Why nothing can be placed without hosts to ask.
pub open spec fn no_hosts() -> Seq<char> {
    "no eligible pinning hosts found (none advertised pin:host)"@
}

/// The replicas that come of asking hosts in turn. An answer is `None` if the host declined or
/// could not be asked, and the channel opened to it otherwise, empty if there is none.
pub open spec fn placed(
    targets: Seq<Seq<char>>,
    answers: Seq<Option<Seq<char>>>,
) -> Seq<(Seq<char>, Seq<char>)>
    decreases answers.len(),
{
    if answers.len() == 0 {
        Seq::empty()
    } else {
        let so_far = placed(targets, answers.drop_last());
        match answers.last() {
            Some(channel) => so_far.push((targets[answers.len() - 1], channel)),
            None => so_far,
        }
    }
}

/// Hosts and channels of a list of replicas.
pub open spec fn terms_of(replicas: Seq<Replica>) -> Seq<(Seq<char>, Seq<char>)> {
    replicas.map_values(|r: Replica| (r.holder@, r.channel_id@))
}

/// An answer as it is noted.
spec fn noted(channel: Option<String>) -> Option<Seq<char>> {
    match channel {
        Some(id) => Some(id@),
        None => None,
    }
}

/// What to do next to place replicas.
#[derive(Debug, PartialEq, Eq)]
pub enum PlacementStep {
    /// Send a host the offer.
    Offer(String),
    /// Open a rent channel to a host that accepted.
    OpenChannel(String),
    /// Nothing: every host was asked.
    Done,
}

/// Placing replicas of one object: hosts are asked one after the other, and to each that accepts a
/// rent channel is opened if rent is paid.
pub struct Replication {
    request: OfferReq,
    targets: Vec<String>,
    place: usize,
    opening: bool,
    accepted: Vec<Replica>,
    answers: Ghost<Seq<Option<Seq<char>>>>,
}

impl Replication {
    #[verifier::type_invariant]
    closed spec fn well_formed(self) -> bool {
        &&& self.answers@.len() == self.place
        &&& self.place <= self.targets@.len()
        &&& self.opening ==> self.place < self.targets@.len() && is_paid(self.request)
        &&& terms_of(self.accepted@) == placed(crate::text::texts(self.targets@), self.answers@)
        &&& forall|i: int|
            0 <= i < self.accepted@.len() ==> (#[trigger] self.accepted@[i]).last_proof_ok
    }

    /// The offer that hosts are sent.
    pub closed spec fn request(self) -> OfferReq {
        self.request
    }

    /// The hosts to ask, in turn.
    pub closed spec fn targets(self) -> Seq<Seq<char>> {
        crate::text::texts(self.targets@)
    }

    /// What came of the hosts asked so far.
    pub closed spec fn answers(self) -> Seq<Option<Seq<char>>> {
        self.answers@
    }

    /// The host whose turn it is has accepted, and a channel to it is being opened.
    pub closed spec fn opening(self) -> bool {
        self.opening
    }

    /// Some host is still to be asked or paid.
    pub open spec fn unfinished(self) -> bool {
        self.answers().len() < self.targets().len()
    }

    /// Chooses the hosts to ask: up to `replication` of the candidates, none of them excluded.
    pub fn start(
        request: OfferReq,
        replication: usize,
        candidates: &[Candidate],
        exclude: &[String],
    ) -> (r: Result<Self, String>)
        ensures
            ({
                let chosen = crate::placement::chosen(
                    candidates@,
                    replication as nat,
                    crate::text::texts(exclude@),
                );
                if chosen.len() == 0 {
                    r matches Err(e) && e@ == no_hosts()
                } else {
                    r matches Ok(p) && {
                        &&& p.request() == request
                        &&& p.targets() == chosen
                        &&& p.answers().len() == 0
                        &&& !p.opening()
                    }
                }
            }),
    {
        let targets = select(candidates, replication, exclude);
        assert(crate::text::texts(targets@).len() == targets@.len());
        if targets.len() == 0 {
            return Err(
                "no eligible pinning hosts found (none advertised pin:host)".to_string(),
            );
        }
        let accepted: Vec<Replica> = Vec::new();
        assert(terms_of(accepted@) =~= Seq::<(Seq<char>, Seq<char>)>::empty());
        Ok(
            Replication {
                request,
                targets,
                place: 0,
                opening: false,
                accepted,
                answers: Ghost(Seq::empty()),
            },
        )
    }

    /// What to do next.
    pub fn step(&self) -> (r: PlacementStep)
        ensures
            if !self.unfinished() {
                r is Done
            } else if self.opening() {
                r matches PlacementStep::OpenChannel(host) && host@
                    == self.targets()[self.answers().len() as int]
            } else {
                r matches PlacementStep::Offer(host) && host@
                    == self.targets()[self.answers().len() as int]
            },
    {
        proof {
            use_type_invariant(self);
        }
        if self.place == self.targets.len() {
            PlacementStep::Done
        } else if self.opening {
            PlacementStep::OpenChannel(self.targets[self.place].clone())
        } else {
            PlacementStep::Offer(self.targets[self.place].clone())
        }
    }

    /// The offer to send.
    pub fn offer_request(&self) -> (r: OfferReq)
        ensures
            r == self.request(),
    {
        self.request.clone()
    }

    /// What to lock in the channel that is being opened, from the height of the chain.
    pub fn channel_amount(&self, tip: u64) -> (r: i128)
        ensures
            r == channel_capacity(
                self.request().bytes_len,
                crate::text::base_units(self.request().rent_per_gb_hour@) as u128,
                lease_length(tip, self.request().expiry_height),
            ),
    {
        let rate: u128 = parse_base_units(self.request.rent_per_gb_hour.as_str());
        channel_capacity_for(
            self.request.bytes_len,
            rate,
            lease_hours(tip, self.request.expiry_height),
        )
    }

    /// Goes on after a host was sent the offer. `reply` is `None` if it could not be asked. A host
    /// that accepted is paid next if rent is paid, and is a replica without channel otherwise.
    pub fn offer_answered(self, reply: &Option<OfferResp>) -> (r: Self)
        requires
            self.unfinished(),
            !self.opening(),
        ensures
            r.request() == self.request(),
            r.targets() == self.targets(),
            ({
                let accepted = reply matches Some(resp) && resp.accepted;
                if accepted && is_paid(self.request()) {
                    r.opening() && r.answers() == self.answers()
                } else {
                    &&& !r.opening()
                    &&& r.answers() == self.answers().push(
                        if accepted {
                            Some(Seq::empty())
                        } else {
                            None
                        },
                    )
                }
            }),
            r.opening() <==> (reply matches Some(resp) && resp.accepted)
                && crate::text::base_units(self.request().rent_per_gb_hour@) >= 1
                && self.request().expiry_height != 0,
    {
        let accepted = match reply {
            Some(resp) => resp.accepted,
            None => false,
        };
        if !accepted {
            return self.advanced(None);
        }
        let rate: u128 = parse_base_units(self.request.rent_per_gb_hour.as_str());
        if rate > 0 && self.request.expiry_height > 0 {
            proof {
                use_type_invariant(&self);
            }
            let Replication { request, targets, place, opening: _, accepted, answers } = self;
            Replication { request, targets, place, opening: true, accepted, answers }
        } else {
            self.advanced(Some(String::new()))
        }
    }

    /// Goes on after a channel was opened, or could not be: a replica stands without one.
    pub fn channel_answered(self, channel_id: Option<String>) -> (r: Self)
        requires
            self.unfinished(),
            self.opening(),
        ensures
            r.request() == self.request(),
            r.targets() == self.targets(),
            !r.opening(),
            r.answers() == self.answers().push(
                Some(
                    match channel_id {
                        Some(id) => id@,
                        None => Seq::empty(),
                    },
                ),
            ),
    {
        let id = match channel_id {
            Some(id) => id,
            None => String::new(),
        };
        self.advanced(Some(id))
    }

    /// Notes what came of the host whose turn it is.
    fn advanced(self, channel: Option<String>) -> (r: Self)
        requires
            self.unfinished(),
        ensures
            r.request() == self.request(),
            r.targets() == self.targets(),
            !r.opening(),
            r.answers() == self.answers().push(noted(channel)),
    {
        proof {
            use_type_invariant(&self);
        }
        let Replication { request, targets, place, opening: _, accepted, answers } = self;
        let ghost all = crate::text::texts(targets@);
        let ghost before = accepted@;
        let ghost known = answers@.push(noted(channel));
        let mut accepted = accepted;
        assert(known.drop_last() =~= answers@);
        assert(place < targets.len());
        if let Some(id) = channel {
            let ghost text = id@;
            let replica = Replica {
                holder: targets[place].clone(),
                channel_id: id,
                last_proof_ok: true,
            };
            accepted.push(replica);
            assert(terms_of(accepted@) =~= terms_of(before).push((all[place as int], text)));
        }
        Replication {
            request,
            targets,
            place: place + 1,
            opening: false,
            accepted,
            answers: Ghost(known),
        }
    }

    /// The replicas that were placed.
    pub fn into_replicas(self) -> (r: Vec<Replica>)
        ensures
            terms_of(r@) == placed(self.targets(), self.answers()),
            forall|i: int| 0 <= i < r@.len() ==> (#[trigger] r@[i]).last_proof_ok,
    {
        proof {
            use_type_invariant(&self);
        }
        let Replication { accepted, .. } = self;
        accepted
    }
}

/// The hosts of placed replicas.
pub open spec fn hosts_of(terms: Seq<(Seq<char>, Seq<char>)>) -> Seq<Seq<char>> {
    terms.map_values(|t: (Seq<char>, Seq<char>)| t.0)
}

/// A host that was asked accepted, and this is the replica on it.
pub open spec fn is_placed_from(
    targets: Seq<Seq<char>>,
    answers: Seq<Option<Seq<char>>>,
    replica: (Seq<char>, Seq<char>),
) -> bool {
    exists|j: int|
        0 <= j < answers.len() && replica.0 == #[trigger] targets[j] && answers[j] == Some(
            replica.1,
        )
}

/// Replicas are placed on hosts that were to be asked, on each at most once, and only on those that
/// accepted.
pub proof fn law_replicas_are_on_distinct_targets(
    targets: Seq<Seq<char>>,
    answers: Seq<Option<Seq<char>>>,
)
    requires
        targets.no_duplicates(),
        answers.len() <= targets.len(),
    ensures
        placed(targets, answers).len() <= answers.len(),
        hosts_of(placed(targets, answers)).no_duplicates(),
        forall|i: int|
            0 <= i < placed(targets, answers).len() ==> is_placed_from(
                targets,
                answers,
                #[trigger] placed(targets, answers)[i],
            ),
        forall|j: int|
            0 <= j < answers.len() && answers[j] is Some ==> hosts_of(
                placed(targets, answers),
            ).contains(#[trigger] targets[j]),
    decreases answers.len(),
{
    let all = placed(targets, answers);
    if answers.len() > 0 {
        let front = answers.drop_last();
        let so_far = placed(targets, front);
        let last = answers.len() - 1;
        law_replicas_are_on_distinct_targets(targets, front);
        assert forall|i: int| 0 <= i < all.len() implies is_placed_from(
            targets,
            answers,
            #[trigger] all[i],
        ) by {
            if i < so_far.len() {
                assert(is_placed_from(targets, front, so_far[i]));
                let j = choose|j: int|
                    0 <= j < front.len() && so_far[i].0 == #[trigger] targets[j] && front[j] == Some(
                        so_far[i].1,
                    );
                assert(answers[j] == front[j]);
                assert(all[i] == so_far[i]);
            } else {
                assert(all[i].0 == targets[last]);
            }
        }
        let hosts = hosts_of(all);
        assert forall|a: int, b: int|
            0 <= a < hosts.len() && 0 <= b < hosts.len() && a != b implies hosts[a] != hosts[b] by {
            let lo = if a < b { a } else { b };
            let hi = if a < b { b } else { a };
            assert(hosts_of(so_far)[lo] == hosts[lo]);
            if hi < so_far.len() {
                assert(hosts_of(so_far)[hi] == hosts[hi]);
            } else {
                assert(is_placed_from(targets, front, so_far[lo]));
                let j = choose|j: int|
                    0 <= j < front.len() && so_far[lo].0 == #[trigger] targets[j] && front[j]
                        == Some(so_far[lo].1);
                assert(targets[j] != targets[last]);
            }
        }
        assert forall|j: int| 0 <= j < answers.len() && answers[j] is Some implies hosts.contains(
            #[trigger] targets[j],
        ) by {
            if j < last {
                assert(front[j] == answers[j]);
                assert(hosts_of(so_far).contains(targets[j]));
                let i = hosts_of(so_far).index_of(targets[j]);
                assert(hosts[i] == targets[j]);
            } else {
                assert(hosts[so_far.len() as int] == targets[last]);
            }
        }
    } else {
        assert(hosts_of(all) =~= Seq::<Seq<char>>::empty());
    }
}

/// What an audit nonce is hashed from: beacon, object, chunk and a salt that is drawn for the
/// occasion, with colons between them.
pub open spec fn nonce_seed(
    beacon_hash: Seq<char>,
    cid: Seq<char>,
    index: nat,
    salt: Seq<u8>,
) -> Seq<u8> {
    vstd::utf8::encode_utf8(beacon_hash) + seq![0x3au8] + vstd::utf8::encode_utf8(cid)
        + seq![0x3au8] + vstd::utf8::encode_utf8(crate::text::decimal(index)) + seq![0x3au8] + salt
}

/// The nonce of a challenge.
pub open spec fn challenge_nonce(
    beacon_hash: Seq<char>,
    cid: Seq<char>,
    index: nat,
    salt: Seq<u8>,
) -> Seq<char> {
    crate::digest::hex_encoded(
        crate::digest::sha256(nonce_seed(beacon_hash, cid, index, salt)),
    )
}

/// With a new salt the nonce is hashed from something new, even for the same beacon, object and
/// chunk: two rounds share a nonce only if their salts are the same or SHA-256 collides.
pub proof fn law_new_salt_new_nonce(
    beacon_hash: Seq<char>,
    cid: Seq<char>,
    index: nat,
    a: Seq<u8>,
    b: Seq<u8>,
)
    ensures
        nonce_seed(beacon_hash, cid, index, a) == nonce_seed(beacon_hash, cid, index, b) <==> a
            == b,
        challenge_nonce(beacon_hash, cid, index, a) == challenge_nonce(
            beacon_hash,
            cid,
            index,
            b,
        ) <==> crate::digest::sha256(nonce_seed(beacon_hash, cid, index, a))
            == crate::digest::sha256(nonce_seed(beacon_hash, cid, index, b)),
{
    let x = nonce_seed(beacon_hash, cid, index, a);
    let y = nonce_seed(beacon_hash, cid, index, b);
    let n = (x.len() - a.len()) as int;
    assert(x.skip(n) =~= a);
    if x == y {
        assert(y.skip(n) =~= b);
    }
    if challenge_nonce(beacon_hash, cid, index, a) == challenge_nonce(beacon_hash, cid, index, b) {
        crate::digest::law_hex_is_injective(
            crate::digest::sha256(x),
            crate::digest::sha256(y),
        );
    }
}

fn nonce_seed_bytes(beacon_hash: &str, cid: &str, index: u64, salt: &[u8]) -> (r: Vec<u8>)
    ensures
        r@ == nonce_seed(beacon_hash@, cid@, index as nat, salt@),
{
    let mut digits = String::new();
    push_decimal(&mut digits, index as u128);
    assert(digits@ =~= crate::text::decimal(index as nat));
    let mut out: Vec<u8> = Vec::new();
    out.extend_from_slice(beacon_hash.as_bytes());
    out.push(0x3a);
    out.extend_from_slice(cid.as_bytes());
    out.push(0x3a);
    out.extend_from_slice(digits.as_str().as_bytes());
    out.push(0x3a);
    out.extend_from_slice(salt);
    assert(out@ =~= nonce_seed(beacon_hash@, cid@, index as nat, salt@));
    out
}

/// A challenge to a host, and the chunk that its answer is held against.
#[derive(Debug, PartialEq, Eq)]
pub struct Challenge {
    /// Content identifier of the challenged chunk.
    pub chunk_cid: String,
    /// The request to send.
    pub request: AuditReq,
}

/// The challenge that a beacon makes of an object; `None` if the object has no chunks, for then
/// nothing can be proven of it. The salt goes into the nonce and is to be drawn anew each time, so
/// that no old answer fits. Beacon, identifier and salt must be short enough to be hashed together
/// with a chunk number.
pub fn challenge(
    manifest: &Manifest,
    beacon_hash: &str,
    salt: &[u8],
    caps: &str,
    cid: &str,
) -> (r: Option<Challenge>)
    requires
        manifest.chunks@.len() > 0 ==> crate::digest::hashable(
            (crate::audit::challenge_seed(beacon_hash@, cid@).len() + 22 + salt@.len()) as int,
        ),
    ensures
        r is None <==> manifest.chunks@.len() == 0,
        r matches Some(c) ==> {
            let index = crate::audit::challenged(beacon_hash@, cid@, manifest.chunks@.len());
            &&& index < manifest.chunks@.len()
            &&& c.chunk_cid@ == manifest.chunks@[index as int]@
            &&& c.request.caps@ == caps@
            &&& c.request.cid@ == cid@
            &&& c.request.chunk_index == index
            &&& c.request.nonce@ == challenge_nonce(beacon_hash@, cid@, index, salt@)
            &&& c.request.nonce@.len() == 64
            &&& crate::audit::nonce_bytes(c.request.nonce@).len() == 32
        },
{
    if manifest.chunks.len() == 0 {
        return None;
    }
    let index: u64 = challenge_index(beacon_hash, cid, manifest.chunks.len());
    let seed = nonce_seed_bytes(beacon_hash, cid, index, salt);
    proof {
        crate::text::lemma_decimal_length(index);
        assert(seed@.len() <= crate::audit::challenge_seed(beacon_hash@, cid@).len() + 22
            + salt@.len());
    }
    let nonce = nonce_from_seed(seed.as_slice());
    proof {
        crate::digest::law_hex_round_trip(crate::digest::sha256(seed@));
        crate::digest::law_hex_length(crate::digest::sha256(seed@));
    }
    Some(
        Challenge {
            chunk_cid: manifest.chunks[index as usize].clone(),
            request: AuditReq {
                caps: caps.to_string(),
                cid: cid.to_string(),
                nonce,
                chunk_index: index,
            },
        },
    )
}

/// Checks the chunk that answers are held against: its own content identifier must be the one that
/// the manifest lists.
pub fn check_chunk(challenge: &Challenge, actual_cid: &str) -> (r: Result<(), String>)
    ensures
        if actual_cid@ == challenge.chunk_cid@ {
            r is Ok
        } else {
            r matches Err(e) && e@ == "local chunk failed CID verification — cannot audit"@
        },
{
    if str_eq(actual_cid, challenge.chunk_cid.as_str()) {
        Ok(())
    } else {
        Err("local chunk failed CID verification — cannot audit".to_string())
    }
}

/// Whether an answer proves that the host holds the challenged chunk. No proof proves nothing.
pub fn audit_verdict(challenge: &Challenge, chunk: &[u8], reply: &AuditResp) -> (r: bool)
    requires
        reply.proof is Some ==> crate::digest::hashable(
            (chunk@ + crate::audit::nonce_bytes(challenge.request.nonce@)).len() as int,
        ),
    ensures
        r == (reply.proof matches Some(p) && crate::audit::accepted(
            chunk@,
            challenge.request.nonce@,
            p@,
        )),
{
    match &reply.proof {
        Some(p) => verify(chunk, challenge.request.nonce.as_str(), p.as_str()),
        None => false,
    }
}

/// Whatever the beacon and the salt, an object with chunks can be audited, and who has its chunks
/// passes: the challenged chunk is one that the manifest lists, and its digest under the nonce of
/// the challenge is accepted.
pub proof fn law_holder_of_the_chunks_passes(
    cid: Seq<char>,
    chunk_count: nat,
    beacon_hash: Seq<char>,
    salt: Seq<u8>,
    chunk: Seq<u8>,
)
    requires
        chunk_count > 0,
    ensures
        ({
            let index = crate::audit::challenged(beacon_hash, cid, chunk_count);
            let nonce = challenge_nonce(beacon_hash, cid, index, salt);
            &&& index < chunk_count
            &&& crate::audit::accepted(chunk, nonce, crate::audit::proof_of(chunk, nonce))
        }),
{
}

/// The request to extend a lease.
pub fn renew_request(caps: &str, cid: &str, new_expiry_height: u64, rent_per_gb_hour: &str) -> (r:
    RenewReq)
    ensures
        r.caps@ == caps@,
        r.cid@ == cid@,
        r.expiry_height == new_expiry_height,
        r.rent_per_gb_hour@ == rent_per_gb_hour@,
{
    RenewReq {
        caps: caps.to_string(),
        cid: cid.to_string(),
        expiry_height: new_expiry_height,
        rent_per_gb_hour: rent_per_gb_hour.to_string(),
    }
}

/// The offer of an object.
pub fn offer_request(
    caps: &str,
    cid: &str,
    bytes_len: u64,
    rent_per_gb_hour: &str,
    expiry_height: u64,
) -> (r: OfferReq)
    ensures
        r.caps@ == caps@,
        r.cid@ == cid@,
        r.bytes_len == bytes_len,
        r.rent_per_gb_hour@ == rent_per_gb_hour@,
        r.expiry_height == expiry_height,
{
    OfferReq {
        caps: caps.to_string(),
        cid: cid.to_string(),
        bytes_len,
        rent_per_gb_hour: rent_per_gb_hour.to_string(),
        expiry_height,
    }
}

/// The request to drop an object.
pub fn release_request(caps: &str, cid: &str) -> (r: ReleaseReq)
    ensures
        r.caps@ == caps@,
        r.cid@ == cid@,
{
    ReleaseReq { caps: caps.to_string(), cid: cid.to_string() }
}

/// The question whether an object is held.
pub fn status_request(caps: &str, cid: &str) -> (r: StatusReq)
    ensures
        r.caps@ == caps@,
        r.cid@ == cid@,
{
    StatusReq { caps: caps.to_string(), cid: cid.to_string() }
}

/// The channel to let expire once a host was asked to drop an object: the one to that host, if it
/// dropped the object and there is one.
pub fn channel_to_settle(replica: &Replica, reply: &ReleaseResp) -> (r: Option<String>)
    ensures
        if reply.released && replica.channel_id@.len() > 0 {
            r == Some(replica.channel_id)
        } else {
            r is None
        },
{
    if reply.released && !replica.channel_id.as_str().is_empty() {
        Some(replica.channel_id.clone())
    } else {
        None
    }
}

/// Whether a file is larger than a publisher is willing to load; a limit of zero is none.
pub fn exceeds_limit(len: u64, max_size: u64) -> (r: bool)
    ensures
        r == (max_size > 0 && len > max_size),
{
    max_size > 0 && len > max_size
}

/// The height that the lease of a new pin runs to: so many blocks from the tip; zero, which is
/// open-ended, if no blocks are asked for or the tip is not known.
pub fn lease_end(tip: Option<u64>, blocks: u64) -> (r: u64)
    requires
        tip matches Some(height) ==> height + blocks <= u64::MAX,
    ensures
        r == (match tip {
            Some(height) if blocks > 0 => (height + blocks) as u64,
            _ => 0,
        }),
{
    match tip {
        Some(height) if blocks > 0 => height + blocks,
        _ => 0,
    }
}

/// The height to renew a lease to: so many blocks from the tip, which counts as zero if it is not
/// known.
pub fn renewal_end(tip: Option<u64>, blocks: u64) -> (r: u64)
    requires
        tip matches Some(height) ==> height + blocks <= u64::MAX,
    ensures
        r == (match tip {
            Some(height) => (height + blocks) as u64,
            None => blocks,
        }),
{
    match tip {
        Some(height) => height + blocks,
        None => blocks,
    }
}

/// The rent to renew at: the new one, or the one that the pin has.
pub fn renewal_rent(new_rent: Option<String>, entry: &Entry) -> (r: String)
    ensures
        r@ == (match new_rent {
            Some(rent) => rent@,
            None => entry.job.rent_per_gb_hour@,
        }),
{
    match new_rent {
        Some(rent) => rent,
        None => entry.job.rent_per_gb_hour.clone(),
    }
}

/// `known`, and behind it each of `more` that is not in it yet, in order.
pub open spec fn joined(known: Seq<Seq<char>>, more: Seq<Seq<char>>) -> Seq<Seq<char>>
    decreases more.len(),
{
    if more.len() == 0 {
        known
    } else {
        let so_far = joined(known, more.drop_last());
        if so_far.contains(more.last()) {
            so_far
        } else {
            so_far.push(more.last())
        }
    }
}

/// The holders to ask about an object: those that advertise it, then those recorded that do not.
pub fn known_holders(advertised: Vec<String>, entry: Option<&Entry>) -> (r: Vec<String>)
    ensures
        crate::text::texts(r@) == (match entry {
            Some(e) => joined(
                crate::text::texts(advertised@),
                crate::pinset::holders(e.replicas@),
            ),
            None => crate::text::texts(advertised@),
        }),
{
    let ghost known = crate::text::texts(advertised@);
    let mut all = advertised;
    if let Some(e) = entry {
        let ghost more = crate::pinset::holders(e.replicas@);
        let mut i: usize = 0;
        assert(joined(known, more.take(0)) == known);
        while i < e.replicas.len()
            invariant
                i <= e.replicas@.len(),
                more == crate::pinset::holders(e.replicas@),
                crate::text::texts(all@) == joined(known, more.take(i as int)),
            decreases e.replicas@.len() - i,
        {
            let holder = &e.replicas[i].holder;
            assert(more.take(i + 1).drop_last() =~= more.take(i as int));
            assert(more.take(i + 1).last() == holder@);
            if !contains_str(all.as_slice(), holder.as_str()) {
                let ghost before = all@;
                all.push(holder.clone());
                assert(crate::text::texts(all@) =~= crate::text::texts(before).push(holder@));
            }
            i += 1;
        }
        assert(more.take(i as int) =~= more);
    }
    all
}

/// Every holder that advertises or is recorded is asked, and no other.
pub proof fn law_every_known_holder_is_asked(
    known: Seq<Seq<char>>,
    more: Seq<Seq<char>>,
    holder: Seq<char>,
)
    ensures
        joined(known, more).contains(holder) <==> known.contains(holder) || more.contains(holder),
    decreases more.len(),
{
    if more.len() > 0 {
        let front = more.drop_last();
        let last = more.last();
        let so_far = joined(known, front);
        law_every_known_holder_is_asked(known, front, holder);
        assert(more.contains(holder) <==> front.contains(holder) || holder == last) by {
            if front.contains(holder) {
                assert(more[front.index_of(holder)] == holder);
            }
            if more.contains(holder) && holder != last {
                assert(front[more.index_of(holder)] == holder);
            }
            assert(more[more.len() - 1] == last);
        }
        let all = joined(known, more);
        if !so_far.contains(last) {
            assert(all[so_far.len() as int] == last);
            if so_far.contains(holder) {
                assert(all[so_far.index_of(holder)] == holder);
            }
            if all.contains(holder) && holder != last {
                assert(so_far[all.index_of(holder)] == holder);
            }
        }
    }
}

/// A size in thousandths of a GB is counted down to the last whole one: so many are in it, and one
/// more would be too many.
pub proof fn law_size_is_counted_to_a_thousandth(bytes: u64)
    ensures
        milli_gb(bytes) * 1_073_741_824 <= bytes * 1000 < (milli_gb(bytes) + 1) * 1_073_741_824,
{
    let n = bytes as nat * 1000;
    let g = 1_073_741_824nat;
    assert((n / g) * g <= n < (n / g + 1) * g) by (nonlinear_arith)
        requires
            g == 1_073_741_824,
    ;
}

/// The thousandths of a GB in a size are the one number that fits it.
pub proof fn law_size_in_thousandths(bytes: u64, milli: nat)
    requires
        milli * 1_073_741_824 <= bytes * 1000 < (milli + 1) * 1_073_741_824,
    ensures
        milli_gb(bytes) == milli,
{
    law_size_is_counted_to_a_thousandth(bytes);
}

/// The size that rent is locked for covers the whole object, in at least one thousandth of a GB
/// and in no more of them than it takes.
pub proof fn law_locked_size_covers_the_object(bytes: u64)
    ensures
        milli_gb_to_lock(bytes) >= 1,
        bytes * 1000 <= milli_gb_to_lock(bytes) * 1_073_741_824,
        milli_gb_to_lock(bytes) > 1 ==> (milli_gb_to_lock(bytes) - 1) * 1_073_741_824 < bytes
            * 1000,
{
    let n = (bytes as nat * 1000 + 1_073_741_823) as nat;
    let g = 1_073_741_824nat;
    assert((n / g) * g <= n < (n / g + 1) * g) by (nonlinear_arith)
        requires
            g == 1_073_741_824,
    ;
}

/// A charge is the rate times the thousandths of a GB times the hours, in whole base units: what is
/// left out is less than one. Where the product is more than a `u128` holds, the largest `u128`
/// stands for it.
pub proof fn law_charge_is_exact_to_a_base_unit(rate: nat, milli: nat, hours: nat)
    ensures
        rate * milli * hours <= u128::MAX ==> charge(rate, milli, hours) * 1000 <= rate * milli
            * hours < (charge(rate, milli, hours) + 1) * 1000,
        rate * milli * hours > u128::MAX ==> charge(rate, milli, hours) * 1000 <= u128::MAX < (
        charge(rate, milli, hours) + 1) * 1000,
{
}

/// The rent owed is the rate times the size in whole thousandths of a GB times the hours, exact to
/// a base unit, or as much as can be counted.
pub proof fn law_rent_owed_is_rate_times_size_times_hours(
    bytes: u64,
    hours: u64,
    rate: u128,
    milli: nat,
)
    requires
        milli * 1_073_741_824 <= bytes * 1000 < (milli + 1) * 1_073_741_824,
    ensures
        ({
            let product = (rate as nat) * milli * (hours as nat);
            let owed = rent_owed(bytes, hours, rate);
            &&& product <= u128::MAX ==> owed * 1000 <= product < (owed + 1) * 1000
            &&& product > u128::MAX ==> owed * 1000 <= u128::MAX < (owed + 1) * 1000
        }),
{
    law_size_in_thousandths(bytes, milli);
    law_charge_is_exact_to_a_base_unit(rate as nat, milli, hours as nat);
}

/// Whatever is large enough to count at all, a thousandth of a GB, owes more than nothing at any
/// rent above zero once a thousand hours have passed; what is smaller owes nothing.
pub proof fn law_every_countable_object_owes_rent(bytes: u64, hours: u64, rate: u128)
    ensures
        bytes * 1000 >= 1_073_741_824 && rate > 0 && hours >= 1000 ==> rent_owed(
            bytes,
            hours,
            rate,
        ) > 0,
        bytes * 1000 < 1_073_741_824 ==> rent_owed(bytes, hours, rate) == 0,
{
    let m = milli_gb(bytes);
    let r = rate as nat;
    let h = hours as nat;
    law_size_is_counted_to_a_thousandth(bytes);
    law_charge_is_exact_to_a_base_unit(r, m, h);
    if bytes * 1000 >= 1_073_741_824 && rate > 0 && hours >= 1000 {
        assert(m >= 1);
        assert(r * m >= 1) by (nonlinear_arith)
            requires
                r >= 1,
                m >= 1,
        ;
        let p = r * m;
        assert(p * h >= 1000) by (nonlinear_arith)
            requires
                p >= 1,
                h >= 1000,
        ;
    }
    if bytes * 1000 < 1_073_741_824 {
        assert(m == 0);
        assert(r * 0 * h == 0) by (nonlinear_arith);
    }
}

/// An hour adds the rate times the size in whole thousandths of a GB to what has accrued, as far as
/// a `u128` goes.
pub proof fn law_an_hour_accrues_its_rent(accrued: u128, bytes: u64, rate: u128, milli: nat)
    requires
        milli * 1_073_741_824 <= bytes * 1000 < (milli + 1) * 1_073_741_824,
    ensures
        accrued + rate * milli <= u128::MAX ==> accrued_with(accrued, bytes, rate) == accrued + rate
            * milli,
        accrued + rate * milli > u128::MAX ==> accrued_with(accrued, bytes, rate) == u128::MAX,
        milli > 0 && rate > 0 && accrued < u128::MAX ==> accrued_with(accrued, bytes, rate)
            > accrued,
{
    law_size_in_thousandths(bytes, milli);
    assert(rate * milli >= 0) by (nonlinear_arith);
    if milli > 0 && rate > 0 {
        assert(rate * milli >= 1) by (nonlinear_arith)
            requires
                rate >= 1,
                milli >= 1,
        ;
    }
}

/// What is locked is a credit at least. Where the rent over the lease, the size rounded up, is
/// more than that, it is that rent, exact to a base unit, or as much as can be counted.
pub proof fn law_channel_locks_the_rent_of_the_lease(
    bytes: u64,
    rate: u128,
    lease: u64,
    milli: nat,
)
    requires
        milli >= 1,
        bytes * 1000 <= milli * 1_073_741_824,
        milli > 1 ==> (milli - 1) * 1_073_741_824 < bytes * 1000,
    ensures
        ({
            let product = (rate as nat) * milli * (lease as nat);
            let locked = channel_capacity(bytes, rate, lease);
            let credit = 1_000_000_000_000_000_000nat;
            &&& locked >= credit
            &&& product < (credit + 1) * 1000 ==> locked == credit
            &&& (credit + 1) * 1000 <= product <= u128::MAX ==> locked * 1000 <= product < (locked
                + 1) * 1000
            &&& product > u128::MAX ==> locked * 1000 <= u128::MAX < (locked + 1) * 1000
        }),
{
    law_locked_size_covers_the_object(bytes);
    assert(milli_gb_to_lock(bytes) == milli);
    law_charge_is_exact_to_a_base_unit(rate as nat, milli, lease as nat);
}

/// A lease lasts as many whole hours of 360 blocks as are left of it, and counts as one hour if
/// less is left.
pub proof fn law_lease_is_whole_hours(tip: u64, expiry_height: u64)
    ensures
        lease_length(tip, expiry_height) >= 1,
        expiry_height < tip + 720 ==> lease_length(tip, expiry_height) == 1,
        expiry_height >= tip + 360 ==> tip + lease_length(tip, expiry_height) * 360
            <= expiry_height < tip + (lease_length(tip, expiry_height) + 1) * 360,
{
}

/// An amount keeps its value as a signed number as far as that can hold it, and is 2^128 less
/// beyond; either way it is within the range of an `i128`.
pub proof fn law_signed_amounts(n: u128)
    ensures
        i128::MIN <= as_signed(n) <= i128::MAX,
        as_signed(n) == n || as_signed(n) + u128::MAX + 1 == n,
{
}

/// The nodes that can be asked to pin are those of the atlas, in its order, that advertise and are
/// not the publisher: all of them.
pub proof fn law_every_other_host_is_a_candidate(
    atlas: Seq<AtlasEntry>,
    advertised: Seq<Seq<char>>,
    self_id: Option<String>,
) -> (places: Seq<int>)
    ensures
        placeable(atlas, advertised, self_id).len() == places.len(),
        forall|k: int|
            0 <= k < places.len() ==> 0 <= #[trigger] places[k] < atlas.len() && placeable(
                atlas,
                advertised,
                self_id,
            )[k] == atlas[places[k]],
        forall|k: int, l: int|
            0 <= k < l < places.len() ==> #[trigger] places[k] < #[trigger] places[l],
        forall|j: int|
            0 <= j < atlas.len() ==> (#[trigger] places.contains(j) <==> (exists|i: int|
                0 <= i < advertised.len() && #[trigger] advertised[i] == atlas[j].node_id@) && !(
            self_id is Some && self_id->0@ == atlas[j].node_id@)),
{
    let places = crate::order::lemma_filter_places(
        atlas,
        |e: AtlasEntry| is_placeable(e, advertised, self_id),
    );
    assert forall|j: int| 0 <= j < atlas.len() implies (#[trigger] places.contains(j) <==> (
    exists|i: int| 0 <= i < advertised.len() && #[trigger] advertised[i] == atlas[j].node_id@) && !(
    self_id is Some && self_id->0@ == atlas[j].node_id@)) by {
        assert(places.contains(j) <==> is_placeable(atlas[j], advertised, self_id));
        if advertised.contains(atlas[j].node_id@) {
            assert(advertised[advertised.index_of(atlas[j].node_id@)] == atlas[j].node_id@);
        }
    }
    places
}

/// A candidate carries what the atlas says of its node and the work that the node delivered, none
/// if none is known. Two candidates of one atlas entry and one history are alike.
pub proof fn law_candidates_carry_what_is_known(
    a: Candidate,
    b: Candidate,
    entry: AtlasEntry,
    work: Map<Seq<char>, u64>,
)
    requires
        is_candidate_of(a, entry, work),
        is_candidate_of(b, entry, work),
    ensures
        a.node_id@ == entry.node_id@,
        a.last_seen_secs == entry.last_seen_secs,
        a.mem_mb == entry.mem_mb,
        a.delivered_work == b.delivered_work,
        a.fault_domain@ == b.fault_domain@,
        work.contains_key(entry.node_id@) ==> a.delivered_work == work[entry.node_id@],
        !work.contains_key(entry.node_id@) ==> a.delivered_work == 0,
        crate::placement::tagged_domain(crate::text::texts(entry.tags@)) == a.fault_domain@,
{
}

/// Any rent opens a channel: an offer whose rent writes an amount of one base unit or more, and
/// whose lease has an end, is paid; one that writes nothing, or has no end, is not.
pub proof fn law_any_rent_opens_a_channel(req: OfferReq, n: u128)
    requires
        req.rent_per_gb_hour@ == crate::text::decimal(n as nat),
    ensures
        is_paid(req) <==> n >= 1 && req.expiry_height != 0,
{
    crate::text::law_base_units_of_decimal(n);
}

/// Whether an offer is paid depends only on whether its rent reads as more than nothing and its
/// lease has an end: not on how much the rent is, when the lease ends, or anything else it says.
pub proof fn law_paid_offers_have_rent_and_an_end(a: OfferReq, b: OfferReq)
    requires
        crate::text::base_units(a.rent_per_gb_hour@) >= 1 <==> crate::text::base_units(
            b.rent_per_gb_hour@,
        ) >= 1,
        a.expiry_height != 0 <==> b.expiry_height != 0,
    ensures
        is_paid(a) <==> is_paid(b),
        is_paid(a) <==> crate::text::base_units(a.rent_per_gb_hour@) >= 1 && a.expiry_height != 0,
{
}

/// The replicas placed are one for each host that accepted, in the order of asking, on the channel
/// that was opened to it.
pub proof fn law_each_acceptance_is_a_replica(
    targets: Seq<Seq<char>>,
    answers: Seq<Option<Seq<char>>>,
) -> (places: Seq<int>)
    requires
        answers.len() <= targets.len(),
    ensures
        placed(targets, answers).len() == places.len(),
        forall|k: int|
            0 <= k < places.len() ==> 0 <= #[trigger] places[k] < answers.len() && placed(
                targets,
                answers,
            )[k].0 == targets[places[k]] && Some(placed(targets, answers)[k].1)
                == answers[places[k]],
        forall|k: int, l: int|
            0 <= k < l < places.len() ==> #[trigger] places[k] < #[trigger] places[l],
        forall|j: int|
            0 <= j < answers.len() ==> (#[trigger] places.contains(j) <==> answers[j] is Some),
    decreases answers.len(),
{
    if answers.len() == 0 {
        Seq::empty()
    } else {
        let front = answers.drop_last();
        let n = front.len() as int;
        let before = law_each_acceptance_is_a_replica(targets, front);
        let places = if answers[n] is Some {
            before.push(n)
        } else {
            before
        };
        assert forall|k: int| 0 <= k < places.len() implies 0 <= #[trigger] places[k]
            < answers.len() && placed(targets, answers)[k].0 == targets[places[k]] && Some(
            placed(targets, answers)[k].1,
        ) == answers[places[k]] by {
            if k < before.len() {
                assert(places[k] == before[k]);
                assert(front[before[k]] == answers[places[k]]);
            }
        }
        assert forall|j: int| 0 <= j < answers.len() implies (#[trigger] places.contains(j)
            <==> answers[j] is Some) by {
            if j < n {
                assert(before.contains(j) <==> front[j] is Some);
                if before.contains(j) {
                    assert(places[before.index_of(j)] == j);
                }
                if places.contains(j) {
                    assert(before[places.index_of(j)] == j);
                }
            } else {
                if answers[n] is Some {
                    assert(places[before.len() as int] == n);
                }
                if places.contains(j) && answers[n] is None {
                    assert(before[places.index_of(j)] == n);
                }
            }
        }
        places
    }
}

/// The terms of replicas are the host and the channel of each, place by place.
pub proof fn law_terms_stand_in_place(replicas: Seq<Replica>)
    ensures
        terms_of(replicas).len() == replicas.len(),
        forall|i: int|
            0 <= i < replicas.len() ==> (#[trigger] terms_of(replicas)[i]).0
                == replicas[i].holder@ && terms_of(replicas)[i].1 == replicas[i].channel_id@,
{
}

/// What a nonce is hashed from holds, one behind the other and nothing else: the beacon, a colon,
/// the object, a colon, the number of the chunk, a colon, and the salt. The nonce is its SHA-256
/// digest in hexadecimal.
pub proof fn law_nonce_covers_all_that_was_asked(
    beacon_hash: Seq<char>,
    cid: Seq<char>,
    index: nat,
    salt: Seq<u8>,
)
    ensures
        ({
            let seed = nonce_seed(beacon_hash, cid, index, salt);
            let a = vstd::utf8::encode_utf8(beacon_hash).len() as int;
            let b = a + 1 + vstd::utf8::encode_utf8(cid).len();
            let c = b + 1 + vstd::utf8::encode_utf8(crate::text::decimal(index)).len();
            &&& seed.len() == c + 1 + salt.len()
            &&& seed.take(a) == vstd::utf8::encode_utf8(beacon_hash)
            &&& seed.subrange(a + 1, b) == vstd::utf8::encode_utf8(cid)
            &&& seed.subrange(b + 1, c) == vstd::utf8::encode_utf8(crate::text::decimal(index))
            &&& seed.skip(c + 1) == salt
            &&& seed[a] as int == ':' as int
            &&& seed[b] as int == ':' as int
            &&& seed[c] as int == ':' as int
            &&& challenge_nonce(beacon_hash, cid, index, salt) == crate::digest::hex_encoded(
                crate::digest::sha256(seed),
            )
        }),
{
    let seed = nonce_seed(beacon_hash, cid, index, salt);
    let a = vstd::utf8::encode_utf8(beacon_hash).len() as int;
    let b = a + 1 + vstd::utf8::encode_utf8(cid).len();
    let c = b + 1 + vstd::utf8::encode_utf8(crate::text::decimal(index)).len();
    assert(seed.take(a) =~= vstd::utf8::encode_utf8(beacon_hash));
    assert(seed.subrange(a + 1, b) =~= vstd::utf8::encode_utf8(cid));
    assert(seed.subrange(b + 1, c) =~= vstd::utf8::encode_utf8(crate::text::decimal(index)));
    assert(seed.skip(c + 1) =~= salt);
}

/// The holders to ask are those known, in their order, then each other one the first time that it
/// comes: all of those and no others.
pub proof fn law_holders_are_asked_once_in_order(
    known: Seq<Seq<char>>,
    more: Seq<Seq<char>>,
) -> (places: Seq<int>)
    ensures
        joined(known, more).len() == known.len() + places.len(),
        forall|k: int| 0 <= k < known.len() ==> #[trigger] joined(known, more)[k] == known[k],
        forall|k: int|
            0 <= k < places.len() ==> 0 <= #[trigger] places[k] < more.len() && joined(known, more)[
                known.len() + k] == more[places[k]],
        forall|k: int, l: int|
            0 <= k < l < places.len() ==> #[trigger] places[k] < #[trigger] places[l],
        forall|j: int|
            0 <= j < more.len() ==> (#[trigger] places.contains(j) <==> !known.contains(more[j])
                && forall|i: int| 0 <= i < j ==> #[trigger] more[i] != more[j]),
    decreases more.len(),
{
    if more.len() == 0 {
        Seq::empty()
    } else {
        let front = more.drop_last();
        let n = front.len() as int;
        let last = more.last();
        let so_far = joined(known, front);
        let before = law_holders_are_asked_once_in_order(known, front);
        let skipped = so_far.contains(last);
        law_every_known_holder_is_asked(known, front, last);
        let places = if skipped {
            before
        } else {
            before.push(n)
        };
        assert forall|k: int| 0 <= k < known.len() implies #[trigger] joined(known, more)[k]
            == known[k] by {
            assert(so_far[k] == known[k]);
        }
        assert forall|k: int| 0 <= k < places.len() implies 0 <= #[trigger] places[k] < more.len()
            && joined(known, more)[known.len() + k] == more[places[k]] by {
            if k < before.len() {
                assert(places[k] == before[k]);
                assert(so_far[known.len() + k] == front[before[k]]);
            }
        }
        assert forall|j: int| 0 <= j < more.len() implies (#[trigger] places.contains(j)
            <==> !known.contains(more[j]) && forall|i: int|
            0 <= i < j ==> #[trigger] more[i] != more[j]) by {
            if j < n {
                assert(before.contains(j) <==> places.contains(j)) by {
                    if before.contains(j) {
                        assert(places[before.index_of(j)] == j);
                    }
                    if places.contains(j) {
                        assert(before[places.index_of(j)] == j);
                    }
                }
                assert(more[j] == front[j]);
                if before.contains(j) {
                    assert forall|i: int| 0 <= i < j implies #[trigger] more[i] != more[j] by {
                        assert(front[i] == more[i]);
                    }
                } else if !known.contains(more[j]) {
                    let i = choose|i: int| 0 <= i < j && #[trigger] front[i] == front[j];
                    assert(more[i] == front[i]);
                }
            } else if skipped {
                if places.contains(j) {
                    assert(before[places.index_of(j)] == n);
                }
                if !known.contains(last) {
                    let i = front.index_of(last);
                    assert(more[i] == last);
                }
            } else {
                assert(places[before.len() as int] == n);
                assert forall|i: int| 0 <= i < j implies #[trigger] more[i] != more[j] by {
                    assert(front[i] == more[i]);
                    assert(front.contains(front[i]));
                }
            }
        }
        places
    }
}

/// Placing is not done before every host that was chosen has been asked.
pub proof fn law_every_chosen_host_is_asked(p: Replication)
    ensures
        p.unfinished() <==> p.answers().len() < p.targets().len(),
{
}

} // verus!
