//! What a host decides: which requests it looks at, what it accepts, what it proves, what it drops.
//!
//! A request may need several rounds with the outside: a block height, a fetched object, a blob.
//! Each decision is a function from the state of the host and what came back to the next state and
//! what to do next. Reading, fetching and replying is left to the caller.

use vstd::prelude::*;

use crate::audit::{prove, Manifest};
use crate::config::{over_capacity_reason, HostConfig};
use crate::digest::{from_hex, parse_node_id, to_hex};
use crate::held::{HeldEntry, HeldSet};
use crate::metrics::HostMetrics;
use crate::proto::{
    service_for, AuditReq, AuditResp, OfferReq, OfferResp, ReleaseReq, ReleaseResp, RenewReq,
    RenewResp, StatusResp, ABILITY_AUDIT, ABILITY_READ, ABILITY_RELEASE, ABILITY_RENEW,
    ABILITY_STORE, SERVICE_HOST, TOPIC_PREFIX,
};
use crate::text::{push_decimal, str_eq, strip_prefix, trim};

verus! {

/// What a request asks for.
#[derive(Debug, Clone, Copy, PartialEq, Eq, Structural)]
pub enum Action {
    /// Fetch and hold an object.
    Offer,
    /// Prove that an object is held.
    Audit,
    /// Say whether an object is held.
    Status,
    /// Extend a lease.
    Renew,
    /// Drop an object.
    Release,
}

/// The action that a name stands for.
pub open spec fn action_named(name: Seq<char>) -> Option<Action> {
    if name == "offer"@ {
        Some(Action::Offer)
    } else if name == "audit"@ {
        Some(Action::Audit)
    } else if name == "status"@ {
        Some(Action::Status)
    } else if name == "renew"@ {
        Some(Action::Renew)
    } else if name == "release"@ {
        Some(Action::Release)
    } else {
        None
    }
}

/// The name of the action on a topic: the topic without its prefix.
pub open spec fn action_name(topic: Seq<char>) -> Seq<char> {
    if crate::text::has_prefix(topic, TOPIC_PREFIX@) {
        topic.skip(TOPIC_PREFIX@.len() as int)
    } else {
        topic
    }
}

/// The ability that an action needs.
pub open spec fn ability(action: Action) -> Seq<char> {
    match action {
        Action::Offer => ABILITY_STORE@,
        Action::Audit => ABILITY_AUDIT@,
        Action::Status => ABILITY_READ@,
        Action::Renew => ABILITY_RENEW@,
        Action::Release => ABILITY_RELEASE@,
    }
}

/// The ability that an action needs.
pub fn ability_for(action: Action) -> (r: &'static str)
    ensures
        r@ == ability(action),
{
    match action {
        Action::Offer => ABILITY_STORE,
        Action::Audit => ABILITY_AUDIT,
        Action::Status => ABILITY_READ,
        Action::Renew => ABILITY_RENEW,
        Action::Release => ABILITY_RELEASE,
    }
}

/// A request that is fit to be authorized.
#[derive(Debug, PartialEq, Eq)]
pub struct Screened {
    /// What it asks for.
    pub action: Action,
    /// The node that sent it.
    pub sender: [u8; 32],
    /// Its payload.
    pub payload: Vec<u8>,
}

/// The first reason for which a request is turned down before it is authorized.
pub open spec fn screening_fault(
    topic: Seq<char>,
    from_hex: Seq<char>,
    payload_hex: Seq<char>,
) -> Option<Seq<char>> {
    if crate::digest::hex_decoded(payload_hex) is None {
        Some("payload hex"@)
    } else if crate::digest::node_id(from_hex) is None {
        Some("bad sender id"@)
    } else if action_named(action_name(topic)) is None {
        Some("unknown pin action '"@ + action_name(topic) + "'"@)
    } else {
        None
    }
}

fn read_action(name: &str) -> (r: Option<Action>)
    ensures
        r == action_named(name@),
{
    if str_eq(name, "offer") {
        Some(Action::Offer)
    } else if str_eq(name, "audit") {
        Some(Action::Audit)
    } else if str_eq(name, "status") {
        Some(Action::Status)
    } else if str_eq(name, "renew") {
        Some(Action::Renew)
    } else if str_eq(name, "release") {
        Some(Action::Release)
    } else {
        None
    }
}

/// Looks at a request before it is authorized: the payload and the sender must be hexadecimal, the
/// sender a node id, and the topic must name an action.
pub fn screen(topic: &str, from: &str, payload_hex: &str) -> (r: Result<Screened, String>)
    ensures
        match screening_fault(topic@, from@, payload_hex@) {
            Some(reason) => r matches Err(e) && e@ == reason,
            None => r matches Ok(s) && {
                &&& action_named(action_name(topic@)) == Some(s.action)
                &&& crate::digest::node_id(from@) == Some(s.sender@)
                &&& crate::digest::hex_decoded(payload_hex@) == Some(s.payload@)
            },
        },
{
    let payload = match from_hex(payload_hex) {
        Some(p) => p,
        None => {
            return Err("payload hex".to_string());
        },
    };
    let sender = match parse_node_id(from) {
        Some(id) => id,
        None => {
            return Err("bad sender id".to_string());
        },
    };
    let name = match strip_prefix(topic, TOPIC_PREFIX) {
        Some(rest) => rest,
        None => topic,
    };
    match read_action(name) {
        Some(action) => Ok(Screened { action, sender, payload }),
        None => {
            let mut reason = String::new();
            reason.append("unknown pin action '");
            reason.append(name);
            reason.append("'");
            assert(reason@ =~= "unknown pin action '"@ + action_name(topic@) + "'"@);
            Err(reason)
        },
    }
}

/// Looks at a request as it comes from the mesh, with its payload as plain bytes. The payload
/// reaches the action unchanged.
pub fn screen_payload(topic: &str, from: &str, payload: &[u8]) -> (r: Result<Screened, String>)
    requires
        2 * payload@.len() <= isize::MAX,
    ensures
        match screening_fault(topic@, from@, crate::digest::hex_encoded(payload@)) {
            Some(reason) => r matches Err(e) && e@ == reason && reason != "payload hex"@,
            None => r matches Ok(s) && {
                &&& action_named(action_name(topic@)) == Some(s.action)
                &&& crate::digest::node_id(from@) == Some(s.sender@)
                &&& s.payload@ == payload@
            },
        },
{
    proof {
        crate::digest::law_hex_round_trip(payload@);
        reveal_strlit("payload hex");
        reveal_strlit("bad sender id");
        reveal_strlit("unknown pin action '");
        assert("payload hex"@[0] == 'p');
        assert(("unknown pin action '"@ + action_name(topic@) + "'"@)[0] == 'u');
        assert("bad sender id"@[0] == 'b');
    }
    screen(topic, from, to_hex(payload).as_str())
}

/// The answer to a request that failed, whatever it asked for.
#[derive(Debug, PartialEq, Eq)]
pub struct NegativeReply {
    /// Always false.
    pub accepted: bool,
    /// Always false.
    pub held: bool,
    /// Always false.
    pub released: bool,
    /// Always false.
    pub renewed: bool,
    /// Why the request failed.
    pub reason: String,
}

/// The answer to a request that failed for a reason.
pub fn negative_reply(reason: String) -> (r: NegativeReply)
    ensures
        r == (NegativeReply {
            accepted: false,
            held: false,
            released: false,
            renewed: false,
            reason,
        }),
{
    NegativeReply { accepted: false, held: false, released: false, renewed: false, reason }
}

/// Why a request is not authorized.
#[derive(Debug, PartialEq, Eq)]
pub enum Denial {
    /// The payload names no capability chain.
    MissingCaps,
    /// The capability chain cannot be read.
    BadCapability,
    /// The capability chain does not grant the action, for the reason given.
    Denied(String),
}

/// What a request is told that is not authorized.
pub open spec fn denial_reason(d: Denial) -> Seq<char> {
    match d {
        Denial::MissingCaps => "payload missing caps"@,
        Denial::BadCapability => "bad capability"@,
        Denial::Denied(e) => "denied: "@ + e@,
    }
}

/// The identities and nonces in a list of revocations, without those whose identity is no node id.
pub open spec fn revocations(pairs: Seq<(String, u64)>) -> Seq<(Seq<u8>, u64)>
    decreases pairs.len(),
{
    if pairs.len() == 0 {
        Seq::empty()
    } else {
        let front = revocations(pairs.drop_last());
        match crate::digest::node_id(pairs.last().0@) {
            Some(id) => front.push((id, pairs.last().1)),
            None => front,
        }
    }
}

/// The revoked capabilities that a node reports, by issuer and nonce.
#[derive(Debug, PartialEq, Eq)]
pub struct Revoked {
    issuers: Vec<[u8; 32]>,
    nonces: Vec<u64>,
}

impl View for Revoked {
    type V = Seq<(Seq<u8>, u64)>;

    closed spec fn view(&self) -> Seq<(Seq<u8>, u64)> {
        Seq::new(self.issuers@.len(), |i: int| (self.issuers@[i]@, self.nonces@[i]))
    }
}

impl Revoked {
    #[verifier::type_invariant]
    closed spec fn well_formed(self) -> bool {
        self.issuers@.len() == self.nonces@.len()
    }

    /// The revocations in a report. An issuer that is no node id is passed over.
    pub fn from_pairs(pairs: &[(String, u64)]) -> (r: Self)
        ensures
            r@ == revocations(pairs@),
    {
        let mut issuers: Vec<[u8; 32]> = Vec::new();
        let mut nonces: Vec<u64> = Vec::new();
        let mut i: usize = 0;
        let ghost mut seen: Seq<(Seq<u8>, u64)> = Seq::empty();
        while i < pairs.len()
            invariant
                i <= pairs@.len(),
                issuers@.len() == nonces@.len(),
                seen == revocations(pairs@.take(i as int)),
                seen.len() == issuers@.len(),
                forall|j: int|
                    0 <= j < seen.len() ==> #[trigger] seen[j] == (issuers@[j]@, nonces@[j]),
            decreases pairs@.len() - i,
        {
            assert(pairs@.take(i + 1).drop_last() =~= pairs@.take(i as int));
            let pair = &pairs[i];
            if let Some(id) = parse_node_id(pair.0.as_str()) {
                issuers.push(id);
                nonces.push(pair.1);
                proof {
                    seen = seen.push((id@, pair.1));
                }
            }
            i += 1;
        }
        let r = Revoked { issuers, nonces };
        assert(pairs@.take(i as int) =~= pairs@);
        assert(r@ =~= seen);
        r
    }

    /// Whether a capability is revoked.
    pub fn is_revoked(&self, issuer: &[u8; 32], nonce: u64) -> (r: bool)
        ensures
            r == self@.contains((issuer@, nonce)),
    {
        proof {
            use_type_invariant(self);
        }
        let mut i: usize = 0;
        while i < self.issuers.len()
            invariant
                i <= self.issuers@.len(),
                self.issuers@.len() == self.nonces@.len(),
                forall|j: int| 0 <= j < i ==> #[trigger] self@[j] != (issuer@, nonce),
            decreases self.issuers@.len() - i,
        {
            let same = same_id(&self.issuers[i], issuer);
            if same && self.nonces[i] == nonce {
                assert(self@[i as int] == (issuer@, nonce));
                return true;
            }
            i += 1;
        }
        proof {
            assert(!self@.contains((issuer@, nonce)));
        }
        false
    }
}

fn same_id(a: &[u8; 32], b: &[u8; 32]) -> (r: bool)
    ensures
        r == (a@ == b@),
{
    let mut i: usize = 0;
    while i < 32
        invariant
            i <= 32,
            forall|j: int| 0 <= j < i ==> a@[j] == b@[j],
        decreases 32 - i,
    {
        if a[i] != b[i] {
            return false;
        }
        i += 1;
    }
    assert(a@ =~= b@);
    true
}

/// A capability is revoked exactly if the report lists its issuer, in any spelling of its node id,
/// with its nonce.
pub proof fn law_revocation_is_by_issuer_and_nonce(
    pairs: Seq<(String, u64)>,
    issuer: Seq<u8>,
    nonce: u64,
)
    ensures
        revocations(pairs).contains((issuer, nonce)) <==> exists|i: int|
            0 <= i < pairs.len() && crate::digest::node_id((#[trigger] pairs[i]).0@) == Some(issuer)
                && pairs[i].1 == nonce,
    decreases pairs.len(),
{
    if pairs.len() > 0 {
        let front = pairs.drop_last();
        let known = revocations(front);
        law_revocation_is_by_issuer_and_nonce(front, issuer, nonce);
        let all = revocations(pairs);
        if all.contains((issuer, nonce)) {
            let j = all.index_of((issuer, nonce));
            if j < known.len() {
                assert(known[j] == (issuer, nonce));
                assert(known.contains((issuer, nonce)));
                let i = choose|i: int|
                    0 <= i < front.len() && crate::digest::node_id((#[trigger] front[i]).0@) == Some(
                        issuer,
                    ) && front[i].1 == nonce;
                assert(pairs[i] == front[i]);
            } else {
                assert(pairs[pairs.len() - 1] == pairs.last());
            }
        }
        if exists|i: int|
            0 <= i < pairs.len() && crate::digest::node_id((#[trigger] pairs[i]).0@) == Some(issuer)
                && pairs[i].1 == nonce {
            let i = choose|i: int|
                0 <= i < pairs.len() && crate::digest::node_id((#[trigger] pairs[i]).0@) == Some(
                    issuer,
                ) && pairs[i].1 == nonce;
            if i < front.len() {
                assert(front[i] == pairs[i]);
                assert(known.contains((issuer, nonce)));
                let j = known.index_of((issuer, nonce));
                assert(all[j] == (issuer, nonce));
            } else {
                assert(all[known.len() as int] == (issuer, nonce));
            }
        }
    }
}

/// Abilities do not stand in for each other: two actions need the same one only if they are the
/// same, or if both commit the host to hold an object.
pub proof fn law_abilities_are_separate(a: Action, b: Action)
    ensures
        ability(a) == ability(b) <==> a == b || {
            &&& a == Action::Offer || a == Action::Renew
            &&& b == Action::Offer || b == Action::Renew
        },
{
    reveal_strlit("pin:store");
    reveal_strlit("pin:audit");
    reveal_strlit("pin:read");
    reveal_strlit("pin:release");
    assert(ABILITY_STORE@[4] == 's');
    assert(ABILITY_AUDIT@[4] == 'a');
    assert(ABILITY_READ@.len() == 8);
    assert(ABILITY_RELEASE@.len() == 11);
    assert(ABILITY_READ@[4] == 'r');
    assert(ABILITY_RELEASE@[4] == 'r');
}

/// An action is known by one name only.
pub proof fn law_action_names_are_distinct(a: Seq<char>, b: Seq<char>)
    requires
        action_named(a) is Some,
        action_named(a) == action_named(b),
    ensures
        a == b,
{
}

/// What a host decides on: its limits, the pins that it holds, and its counters.
#[derive(Debug, PartialEq, Eq)]
pub struct HostState {
    /// Its limits.
    pub cfg: HostConfig,
    /// The pins that it holds.
    pub held: HeldSet,
    /// Its counters.
    pub metrics: HostMetrics,
}

/// What came of fetching an object.
#[derive(Debug, PartialEq, Eq)]
pub enum Fetched {
    /// The object.
    Object(Vec<u8>),
    /// Nothing, for the reason given.
    Failed(String),
    /// Nothing in time.
    TimedOut,
}

/// A host may answer an audit for `cid`: it holds it.
pub open spec fn may_prove(held: Map<Seq<char>, HeldEntry>, cid: Seq<char>) -> bool {
    held.contains_key(cid)
}

/// Whether a host may answer an audit for `cid`: only for what it has committed to hold itself, so
/// that no copy of another host can stand in for its own.
pub fn audit_held_locally(held: &HeldSet, cid: &str) -> (r: bool)
    ensures
        r == may_prove(held.entries@, cid@),
{
    held.contains(cid)
}

/// The answer to an offer that was not accepted.
pub open spec fn declined(resp: OfferResp, reason: Seq<char>) -> bool {
    &&& !resp.accepted
    &&& resp.stored_bytes == 0
    &&& resp.reason matches Some(s) && s@ == reason
}

fn decline(reason: String) -> (r: OfferResp)
    ensures
        declined(r, reason@),
{
    OfferResp { accepted: false, stored_bytes: 0, reason: Some(reason) }
}

/// The answer to an audit without a proof.
pub open spec fn unproven(resp: AuditResp, reason: Seq<char>) -> bool {
    &&& resp.proof is None
    &&& resp.reason matches Some(s) && s@ == reason
}

fn no_proof(reason: String) -> (r: AuditResp)
    ensures
        unproven(r, reason@),
{
    AuditResp { proof: None, reason: Some(reason) }
}

/// Why a fetched object is turned down that is larger than a host accepts.
pub open spec fn fetched_too_large(actual: nat, max: nat) -> Seq<char> {
    "fetched object is "@ + crate::text::decimal(actual) + " bytes, over host max "@
        + crate::text::decimal(max)
}

/// What would be held with an object of `actual` bytes under `cid`.
pub open spec fn total_with(
    held: Map<Seq<char>, HeldEntry>,
    cid: Seq<char>,
    actual: nat,
) -> nat {
    crate::held::total(held.remove(cid)) + actual
}

/// Holding an object of `actual` bytes under `cid` would take a host over its space.
pub open spec fn is_over_budget(
    cfg: HostConfig,
    held: Map<Seq<char>, HeldEntry>,
    cid: Seq<char>,
    actual: nat,
) -> bool {
    total_with(held, cid, actual) > cfg.capacity_bytes
}

/// Why a fetched object is turned down, if it is: it is larger than the host accepts, or does not
/// fit in the space left. An object that was held already is never turned down.
pub open spec fn fetched_fault(
    cfg: HostConfig,
    held: Map<Seq<char>, HeldEntry>,
    cid: Seq<char>,
    already_held: bool,
    actual: nat,
) -> Option<Seq<char>> {
    if already_held {
        None
    } else if actual > cfg.max_object_bytes {
        Some(fetched_too_large(actual, cfg.max_object_bytes as nat))
    } else if is_over_budget(cfg, held, cid, actual) {
        Some(
            crate::config::over_capacity(
                actual,
                total_with(held, cid, actual),
                cfg.capacity_bytes as nat,
            ),
        )
    } else {
        None
    }
}

/// Why an offer failed whose object did not come in time.
pub open spec fn fetch_timed_out(secs: nat) -> Seq<char> {
    "fetch timed out after "@ + crate::text::decimal(secs) + "s"@
}

/// The record of an accepted offer.
pub open spec fn is_commitment(
    e: HeldEntry,
    req: OfferReq,
    publisher: Seq<char>,
    pinned_at: u64,
    actual: nat,
    now: u64,
) -> bool {
    &&& e.bytes == actual
    &&& e.rent_per_gb_hour@ == req.rent_per_gb_hour@
    &&& e.expiry_height == req.expiry_height
    &&& e.pinned_at == pinned_at
    &&& e.last_access == now
    &&& e.publisher@ == publisher
}

/// What is left of `m` once garbage is collected at a height.
pub open spec fn after_gc(
    m: Map<Seq<char>, HeldEntry>,
    capacity: u64,
    height: u64,
) -> Map<Seq<char>, HeldEntry> {
    let live = crate::held::unexpired(m, height);
    live.remove_keys(crate::held::eviction(live, capacity, height).to_set())
}

/// The height that a renewal takes a lease to: the one asked for, if it is later. A pin without an
/// end keeps having none.
pub open spec fn renewed_expiry(current: u64, asked: u64) -> u64 {
    if current == 0 {
        0
    } else if asked > current {
        asked
    } else {
        current
    }
}

/// A lease to `a` ends no earlier than one to `b`; zero stands for no end at all.
pub open spec fn ends_no_earlier(a: u64, b: u64) -> bool {
    a == 0 || (b != 0 && a >= b)
}

/// The record of a renewed pin.
pub open spec fn is_renewal(before: HeldEntry, req: RenewReq, now: u64, after: HeldEntry) -> bool {
    &&& after.bytes == before.bytes
    &&& after.rent_per_gb_hour@ == (if crate::text::trimmed(req.rent_per_gb_hour@).len() == 0 {
        before.rent_per_gb_hour@
    } else {
        req.rent_per_gb_hour@
    })
    &&& after.expiry_height == renewed_expiry(before.expiry_height, req.expiry_height)
    &&& after.pinned_at == before.pinned_at
    &&& after.last_access == now
    &&& after.publisher == before.publisher
}

/// The pins with one of them noted as used at `now`, if it is held.
pub open spec fn touched(
    m: Map<Seq<char>, HeldEntry>,
    cid: Seq<char>,
    now: u64,
) -> Map<Seq<char>, HeldEntry> {
    if m.contains_key(cid) {
        m.insert(cid, HeldEntry { last_access: now, ..m[cid] })
    } else {
        m
    }
}

impl HostState {
    /// A host with nothing counted yet.
    pub fn new(cfg: HostConfig, held: HeldSet) -> (r: Self)
        ensures
            r.cfg == cfg,
            r.held == held,
            r.metrics == (HostMetrics {
                offers_accepted: 0,
                offers_declined: 0,
                offers_failed: 0,
                audits_passed: 0,
                audits_failed: 0,
                releases: 0,
                gc_evictions: 0,
                auth_denied: 0,
            }),
    {
        HostState { cfg, held, metrics: HostMetrics::new() }
    }

    /// Turns down a request that is not authorized. A chain that does not grant the action is
    /// counted; a chain that is missing or cannot be read is not.
    pub fn deny(&mut self, denial: Denial) -> (r: NegativeReply)
        ensures
            r.reason@ == denial_reason(denial),
            !r.accepted && !r.held && !r.released && !r.renewed,
            final(self).cfg == old(self).cfg,
            final(self).held == old(self).held,
            final(self).metrics == (if denial is Denied {
                HostMetrics {
                    auth_denied: crate::metrics::moved(old(self).metrics.auth_denied, 1),
                    ..old(self).metrics
                }
            } else {
                old(self).metrics
            }),
    {
        let reason = match denial {
            Denial::MissingCaps => "payload missing caps".to_string(),
            Denial::BadCapability => "bad capability".to_string(),
            Denial::Denied(e) => {
                self.metrics.auth_deny();
                let mut text = String::new();
                text.append("denied: ");
                text.append(e.as_str());
                assert(text@ =~= "denied: "@ + e@);
                text
            },
        };
        negative_reply(reason)
    }

    /// Decides on an offer before any fetch. An object that is held already is always to be fetched
    /// again, and nothing changes. Otherwise pins whose lease has run out at `height` are dropped
    /// first, so that their space counts as free, and the offer is held against the limits of the
    /// host. `None` means that the object is to be fetched.
    pub fn offer_admission(&mut self, req: &OfferReq, height: u64) -> (r: Option<OfferResp>)
        ensures
            if old(self).held.entries@.contains_key(req.cid@) {
                r is None && *final(self) == *old(self)
            } else {
                let live = crate::held::unexpired(old(self).held.entries@, height);
                let held_bytes = crate::held::capped(crate::held::total(live));
                &&& final(self).cfg == old(self).cfg
                &&& final(self).held.entries@ == live
                &&& final(self).held.version == old(self).held.version
                &&& match crate::config::refusal(
                    old(self).cfg,
                    req.bytes_len,
                    req.rent_per_gb_hour@,
                    held_bytes,
                ) {
                    None => r is None && final(self).metrics == old(self).metrics,
                    Some(reason) => {
                        &&& r matches Some(resp) && declined(resp, reason)
                        &&& final(self).metrics == (HostMetrics {
                            offers_declined: crate::metrics::moved(
                                old(self).metrics.offers_declined,
                                1,
                            ),
                            ..old(self).metrics
                        })
                    },
                }
            },
    {
        if self.held.contains(req.cid.as_str()) {
            return None;
        }
        let _ = self.held.drop_expired(height);
        let held_bytes: u64 = self.held.total_bytes();
        match self.cfg.admit_offer(req.bytes_len, req.rent_per_gb_hour.as_str(), held_bytes) {
            Ok(()) => None,
            Err(reason) => {
                self.metrics.offer_declined();
                Some(decline(reason))
            },
        }
    }

    /// Concludes an offer once its object was fetched or not. `already_held` says whether the
    /// object was held when the offer came in; if it was not, an object is turned down that is
    /// larger than the host accepts or does not fit in the space left, whatever size was declared.
    /// An object that is taken is recorded with its actual size, and its service is to be
    /// advertised. One that is held keeps when it was accepted and from whom.
    pub fn offer_conclusion(
        &mut self,
        req: &OfferReq,
        publisher: &str,
        already_held: bool,
        fetched: &Fetched,
        now: u64,
    ) -> (r: OfferResp)
        ensures
            final(self).cfg == old(self).cfg,
            final(self).held.version == old(self).held.version,
            match *fetched {
                Fetched::Failed(e) => {
                    &&& declined(r, "fetch failed: "@ + e@)
                    &&& final(self).held == old(self).held
                    &&& final(self).metrics == (HostMetrics {
                        offers_failed: crate::metrics::moved(old(self).metrics.offers_failed, 1),
                        ..old(self).metrics
                    })
                },
                Fetched::TimedOut => {
                    &&& declined(r, fetch_timed_out(old(self).cfg.fetch_timeout_secs as nat))
                    &&& final(self).held == old(self).held
                    &&& final(self).metrics == (HostMetrics {
                        offers_failed: crate::metrics::moved(old(self).metrics.offers_failed, 1),
                        ..old(self).metrics
                    })
                },
                Fetched::Object(bytes) => match fetched_fault(
                    old(self).cfg,
                    old(self).held.entries@,
                    req.cid@,
                    already_held,
                    bytes@.len(),
                ) {
                    Some(reason) => {
                        &&& declined(r, reason)
                        &&& final(self).held == old(self).held
                        &&& final(self).metrics == (HostMetrics {
                            offers_declined: crate::metrics::moved(
                                old(self).metrics.offers_declined,
                                1,
                            ),
                            ..old(self).metrics
                        })
                    },
                    None => {
                        let before = old(self).held.entries@;
                        let after = final(self).held.entries@[req.cid@];
                        &&& r == (OfferResp {
                            accepted: true,
                            stored_bytes: bytes@.len() as u64,
                            reason: None,
                        })
                        &&& final(self).held.entries@ == before.insert(req.cid@, after)
                        &&& if before.contains_key(req.cid@) {
                            is_commitment(
                                after,
                                *req,
                                before[req.cid@].publisher@,
                                before[req.cid@].pinned_at,
                                bytes@.len(),
                                now,
                            )
                        } else {
                            is_commitment(after, *req, publisher@, now, bytes@.len(), now)
                        }
                        &&& final(self).metrics == (HostMetrics {
                            offers_accepted: crate::metrics::moved(
                                old(self).metrics.offers_accepted,
                                1,
                            ),
                            ..old(self).metrics
                        })
                    },
                },
            },
    {
        let actual: u64 = match fetched {
            Fetched::Failed(e) => {
                self.metrics.offer_failed();
                let mut reason = String::new();
                reason.append("fetch failed: ");
                reason.append(e.as_str());
                assert(reason@ =~= "fetch failed: "@ + e@);
                return decline(reason);
            },
            Fetched::TimedOut => {
                self.metrics.offer_failed();
                let mut reason = String::new();
                reason.append("fetch timed out after ");
                push_decimal(&mut reason, self.cfg.fetch_timeout_secs as u128);
                reason.append("s");
                assert(reason@ =~= fetch_timed_out(self.cfg.fetch_timeout_secs as nat));
                return decline(reason);
            },
            Fetched::Object(bytes) => bytes.len() as u64,
        };
        if !already_held {
            if let Some(reason) = self.fetched_reason(req.cid.as_str(), actual) {
                self.metrics.offer_declined();
                return decline(reason);
            }
        }
        let entry = HeldEntry {
            bytes: actual,
            rent_per_gb_hour: req.rent_per_gb_hour.clone(),
            expiry_height: req.expiry_height,
            pinned_at: now,
            last_access: now,
            publisher: publisher.to_string(),
        };
        self.held.insert(req.cid.clone(), entry);
        self.metrics.offer_accepted();
        assert(self.held.entries@ =~= old(self).held.entries@.insert(
            req.cid@,
            self.held.entries@[req.cid@],
        ));
        OfferResp { accepted: true, stored_bytes: actual, reason: None }
    }

    /// Why a fetched object that was not held is turned down, if it is.
    fn fetched_reason(&self, cid: &str, actual: u64) -> (r: Option<String>)
        ensures
            match fetched_fault(self.cfg, self.held.entries@, cid@, false, actual as nat) {
                Some(reason) => r matches Some(s) && s@ == reason,
                None => r is None,
            },
    {
        if actual > self.cfg.max_object_bytes {
            let mut reason = String::new();
            reason.append("fetched object is ");
            push_decimal(&mut reason, actual as u128);
            reason.append(" bytes, over host max ");
            push_decimal(&mut reason, self.cfg.max_object_bytes as u128);
            assert(reason@ =~= fetched_too_large(actual as nat, self.cfg.max_object_bytes as nat));
            return Some(reason);
        }
        let all: u128 = self.held.exact_total();
        let others: u128 = match self.held.entries.get(cid) {
            Some(e) => {
                proof {
                    crate::held::law_total_without_one(self.held.entries@, cid@);
                }
                all - e.bytes as u128
            },
            None => {
                assert(self.held.entries@.remove(cid@) =~= self.held.entries@);
                all
            },
        };
        let projected: u128 = others + actual as u128;
        if projected > self.cfg.capacity_bytes as u128 {
            let capacity: u64 = self.cfg.capacity_bytes;
            return Some(over_capacity_reason(actual, projected, capacity));
        }
        None
    }

    /// Decides before anything is read whether an audit is answered at all. `None` means that the
    /// manifest of the object is to be read.
    pub fn audit_gate(&mut self, cid: &str) -> (r: Option<AuditResp>)
        ensures
            final(self).cfg == old(self).cfg,
            final(self).held == old(self).held,
            if may_prove(old(self).held.entries@, cid@) {
                r is None && final(self).metrics == old(self).metrics
            } else {
                &&& r matches Some(resp) && unproven(resp, "not held locally"@)
                &&& final(self).metrics == (HostMetrics {
                    audits_failed: crate::metrics::moved(old(self).metrics.audits_failed, 1),
                    ..old(self).metrics
                })
            },
    {
        if audit_held_locally(&self.held, cid) {
            None
        } else {
            self.metrics.audit_failed();
            Some(no_proof("not held locally".to_string()))
        }
    }

    /// Picks the chunk that an audit asks for, once the manifest was read or not. `Ok` is the
    /// content identifier of the chunk to be read. The manifest tells the size of a pin that was
    /// recorded without one.
    pub fn audit_chunk(
        &mut self,
        cid: &str,
        manifest: &Option<Manifest>,
        chunk_index: u64,
    ) -> (r: Result<String, AuditResp>)
        ensures
            final(self).cfg == old(self).cfg,
            final(self).held.version == old(self).held.version,
            final(self).held.entries@ == (match *manifest {
                Some(m) => crate::held::learned(old(self).held.entries@, cid@, m.total_size),
                None => old(self).held.entries@,
            }),
            match *manifest {
                Some(m) if chunk_index < m.chunks@.len() => {
                    &&& r matches Ok(chunk) && chunk@ == m.chunks@[chunk_index as int]@
                    &&& final(self).metrics == old(self).metrics
                },
                _ => {
                    &&& r matches Err(resp) && unproven(
                        resp,
                        if *manifest is None {
                            "manifest unavailable"@
                        } else {
                            "chunk index out of range"@
                        },
                    )
                    &&& final(self).metrics == (HostMetrics {
                        audits_failed: crate::metrics::moved(old(self).metrics.audits_failed, 1),
                        ..old(self).metrics
                    })
                },
            },
    {
        match manifest {
            None => {
                self.metrics.audit_failed();
                Err(no_proof("manifest unavailable".to_string()))
            },
            Some(m) => {
                self.held.learn_size(cid, m.total_size);
                if chunk_index < m.chunks.len() as u64 {
                    Ok(m.chunks[chunk_index as usize].clone())
                } else {
                    self.metrics.audit_failed();
                    Err(no_proof("chunk index out of range".to_string()))
                }
            },
        }
    }

    /// Concludes an audit once the chunk was read or not. A chunk and the nonce together must be
    /// short enough to be hashed.
    pub fn audit_conclusion(
        &mut self,
        req: &AuditReq,
        chunk: &Result<Vec<u8>, String>,
        now: u64,
    ) -> (r: AuditResp)
        requires
            chunk matches Ok(bytes) ==> crate::digest::hashable(
                (bytes@ + crate::audit::nonce_bytes(req.nonce@)).len() as int,
            ),
        ensures
            final(self).cfg == old(self).cfg,
            final(self).held.version == old(self).held.version,
            match *chunk {
                Ok(bytes) => {
                    &&& r.proof matches Some(p) && p@ == crate::audit::proof_of(
                        bytes@,
                        req.nonce@,
                    )
                    &&& r.reason is None
                    &&& final(self).held.entries@ == touched(
                        old(self).held.entries@,
                        req.cid@,
                        now,
                    )
                    &&& final(self).metrics == (HostMetrics {
                        audits_passed: crate::metrics::moved(old(self).metrics.audits_passed, 1),
                        ..old(self).metrics
                    })
                },
                Err(e) => {
                    &&& unproven(r, "chunk unavailable: "@ + e@)
                    &&& final(self).held == old(self).held
                    &&& final(self).metrics == (HostMetrics {
                        audits_failed: crate::metrics::moved(old(self).metrics.audits_failed, 1),
                        ..old(self).metrics
                    })
                },
            },
    {
        match chunk {
            Ok(bytes) => {
                self.metrics.audit_passed();
                self.held.touch(req.cid.as_str(), now);
                AuditResp {
                    proof: Some(prove(bytes.as_slice(), req.nonce.as_str())),
                    reason: None,
                }
            },
            Err(e) => {
                self.metrics.audit_failed();
                let mut reason = String::new();
                reason.append("chunk unavailable: ");
                reason.append(e.as_str());
                assert(reason@ =~= "chunk unavailable: "@ + e@);
                no_proof(reason)
            },
        }
    }

    /// Decides before anything is read whether an object is held. `None` means that its manifest is
    /// to be read.
    pub fn status_gate(&self, cid: &str) -> (r: Option<StatusResp>)
        ensures
            r == (if self.held.entries@.contains_key(cid@) {
                None
            } else {
                Some(StatusResp { held: false, bytes: 0 })
            }),
    {
        if self.held.contains(cid) {
            None
        } else {
            Some(StatusResp { held: false, bytes: 0 })
        }
    }

    /// Concludes a status request once the manifest was read or not. The manifest tells the size of
    /// a pin that was recorded without one.
    pub fn status_conclusion(
        &mut self,
        cid: &str,
        manifest: &Option<Manifest>,
        now: u64,
    ) -> (r: StatusResp)
        ensures
            final(self).cfg == old(self).cfg,
            final(self).metrics == old(self).metrics,
            final(self).held.version == old(self).held.version,
            match *manifest {
                Some(m) => {
                    &&& r == (StatusResp { held: true, bytes: m.total_size })
                    &&& final(self).held.entries@ == touched(
                        crate::held::learned(old(self).held.entries@, cid@, m.total_size),
                        cid@,
                        now,
                    )
                },
                None => {
                    &&& r == (StatusResp { held: false, bytes: 0 })
                    &&& final(self).held == old(self).held
                },
            },
    {
        match manifest {
            Some(m) => {
                self.held.learn_size(cid, m.total_size);
                self.held.touch(cid, now);
                StatusResp { held: true, bytes: m.total_size }
            },
            None => StatusResp { held: false, bytes: 0 },
        }
    }

    /// Extends the lease of an object that is held. A lease is never cut short, and one without an
    /// end keeps having none. A blank rent keeps the old one. An object that is not held stays so.
    pub fn renew(&mut self, req: &RenewReq, now: u64) -> (r: RenewResp)
        ensures
            final(self).cfg == old(self).cfg,
            final(self).metrics == old(self).metrics,
            final(self).held.version == old(self).held.version,
            if old(self).held.entries@.contains_key(req.cid@) {
                let before = old(self).held.entries@[req.cid@];
                let after = final(self).held.entries@[req.cid@];
                &&& is_renewal(before, *req, now, after)
                &&& final(self).held.entries@ == old(self).held.entries@.insert(req.cid@, after)
                &&& r == (RenewResp {
                    renewed: true,
                    expiry_height: after.expiry_height,
                    reason: None,
                })
            } else {
                &&& final(self).held.entries@ == old(self).held.entries@
                &&& !r.renewed && r.expiry_height == 0
                &&& r.reason matches Some(s) && s@ == "not held locally"@
            },
    {
        let fresh_rent = !trim(req.rent_per_gb_hour.as_str()).is_empty();
        match self.held.entries.get_mut(req.cid.as_str()) {
            None => RenewResp {
                renewed: false,
                expiry_height: 0,
                reason: Some("not held locally".to_string()),
            },
            Some(entry) => {
                if entry.expiry_height != 0 && req.expiry_height > entry.expiry_height {
                    entry.expiry_height = req.expiry_height;
                }
                if fresh_rent {
                    entry.rent_per_gb_hour = req.rent_per_gb_hour.clone();
                }
                entry.last_access = now;
                let expiry_height: u64 = entry.expiry_height;
                RenewResp { renewed: true, expiry_height, reason: None }
            },
        }
    }

    /// Drops an object and says whether it was held. The set is then to be stored, and the request
    /// answered with [`HostState::release_conclusion`] once that succeeded.
    pub fn release(&mut self, req: &ReleaseReq) -> (r: bool)
        ensures
            r == old(self).held.entries@.contains_key(req.cid@),
            final(self).held.entries@ == old(self).held.entries@.remove(req.cid@),
            final(self).held.version == old(self).held.version,
            final(self).cfg == old(self).cfg,
            final(self).metrics == old(self).metrics,
    {
        let was_held = self.held.contains(req.cid.as_str());
        let _ = self.held.remove(req.cid.as_str());
        was_held
    }

    /// Answers a release request after the set was stored.
    pub fn release_conclusion(&mut self, was_held: bool) -> (r: ReleaseResp)
        ensures
            r == (ReleaseResp { released: was_held, reason: None }),
            final(self).cfg == old(self).cfg,
            final(self).held == old(self).held,
            final(self).metrics == (if was_held {
                HostMetrics {
                    releases: crate::metrics::moved(old(self).metrics.releases, 1),
                    ..old(self).metrics
                }
            } else {
                old(self).metrics
            }),
    {
        if was_held {
            self.metrics.release();
        }
        ReleaseResp { released: was_held, reason: None }
    }

    /// Drops what has expired at `height`, then what has to go for the rest to fit. The pins are
    /// listed in the order in which they went.
    pub fn collect_garbage(&mut self, height: u64) -> (r: Vec<String>)
        ensures
            final(self).cfg == old(self).cfg,
            final(self).held.version == old(self).held.version,
            final(self).held.entries@ == after_gc(
                old(self).held.entries@,
                old(self).cfg.capacity_bytes,
                height,
            ),
            crate::text::texts(r@) == crate::held::expired_among(
                old(self).held.entries@,
                old(self).held.entries.order(),
                height,
            ) + crate::held::eviction(
                crate::held::unexpired(old(self).held.entries@, height),
                old(self).cfg.capacity_bytes,
                height,
            ),
            final(self).metrics == (HostMetrics {
                gc_evictions: crate::metrics::moved(
                    old(self).metrics.gc_evictions,
                    r@.len() as u64,
                ),
                ..old(self).metrics
            }),
    {
        let mut dropped = self.held.drop_expired(height);
        let mut victims = self.held.evict_to_fit(self.cfg.capacity_bytes, height);
        self.held.remove_all(victims.as_slice());
        let ghost first = dropped@;
        let ghost second = victims@;
        dropped.append(&mut victims);
        assert(crate::text::texts(first + second) =~= crate::text::texts(first)
            + crate::text::texts(second));
        self.metrics.add_evictions(dropped.len() as u64);
        dropped
    }

    /// The services to advertise: that of a host, then one for each object held, in ascending order
    /// of identifiers.
    pub fn services(&self) -> (r: Vec<String>)
        ensures
            crate::text::texts(r@) == seq![SERVICE_HOST@] + self.held.entries.order().map_values(
                |cid: Seq<char>| crate::proto::service_name(cid),
            ),
            crate::table::ascending(self.held.entries.order()),
            self.held.entries.order().to_set() == self.held.entries@.dom(),
    {
        let ghost order = self.held.entries.order();
        let cids = self.held.entries.keys();
        let mut out: Vec<String> = Vec::new();
        out.push(SERVICE_HOST.to_string());
        let ghost name = |cid: Seq<char>| crate::proto::service_name(cid);
        let mut i: usize = 0;
        assert(crate::text::texts(out@) =~= seq![SERVICE_HOST@] + order.take(0).map_values(name));
        while i < cids.len()
            invariant
                i <= cids@.len(),
                order == crate::text::texts(cids@),
                name == (|cid: Seq<char>| crate::proto::service_name(cid)),
                crate::text::texts(out@) == seq![SERVICE_HOST@] + order.take(i as int).map_values(
                    name,
                ),
            decreases cids@.len() - i,
        {
            let ghost before = out@;
            let service = service_for(cids[i].as_str());
            let ghost text = service@;
            out.push(service);
            proof {
                assert(crate::text::texts(out@) =~= crate::text::texts(before).push(text));
                assert(order.take(i + 1) =~= order.take(i as int).push(order[i as int]));
                assert(order.take(i + 1).map_values(name) =~= order.take(i as int).map_values(
                    name,
                ).push(text));
                assert(crate::text::texts(out@) =~= seq![SERVICE_HOST@] + order.take(
                    i + 1,
                ).map_values(name));
            }
            i += 1;
        }
        assert(order.take(i as int) =~= order);
        out
    }
}

/// Whether a topic belongs to this protocol.
pub fn serves(topic: &str) -> (r: bool)
    ensures
        r == crate::text::has_prefix(topic@, TOPIC_PREFIX@),
{
    strip_prefix(topic, TOPIC_PREFIX).is_some()
}

/// Reads the identity that a node reports of itself.
pub fn host_identity(node_id: &str) -> (r: Result<[u8; 32], String>)
    ensures
        match crate::digest::node_id(node_id@) {
            Some(id) => r matches Ok(bytes) && bytes@ == id,
            None => r matches Err(e) && e@ == "node returned a malformed node id"@,
        },
{
    match parse_node_id(node_id) {
        Some(id) => Ok(id),
        None => Err("node returned a malformed node id".to_string()),
    }
}

/// An object that was released cannot be proven any more; whatever else is held still can.
pub proof fn law_released_pin_cannot_be_proven(
    m: Map<Seq<char>, HeldEntry>,
    released: Seq<char>,
    cid: Seq<char>,
)
    ensures
        may_prove(m.remove(released), cid) <==> may_prove(m, cid) && cid != released,
{
}

/// A host that holds nothing proves nothing.
pub proof fn law_empty_host_proves_nothing(cid: Seq<char>)
    ensures
        !may_prove(Map::<Seq<char>, HeldEntry>::empty(), cid),
{
}

/// Garbage collection drops what has expired and what is evicted, and leaves every other record as
/// it was. What it dropped cannot be proven any more.
pub proof fn law_gc_drops_only_garbage(
    m: Map<Seq<char>, HeldEntry>,
    capacity: u64,
    height: u64,
    cid: Seq<char>,
)
    ensures
        ({
            let live = crate::held::unexpired(m, height);
            let evicted = crate::held::eviction(live, capacity, height);
            let left = after_gc(m, capacity, height);
            &&& left.contains_key(cid) <==> m.contains_key(cid) && !crate::held::expired_at(
                m[cid],
                height,
            ) && !evicted.contains(cid)
            &&& left.contains_key(cid) ==> left[cid] == m[cid]
            &&& m.contains_key(cid) && crate::held::expired_at(m[cid], height) ==> !may_prove(
                left,
                cid,
            )
            &&& evicted.contains(cid) ==> !may_prove(left, cid)
        }),
{
}

/// After garbage collection nothing held has expired, and what is held fits in the space of the
/// host.
pub proof fn law_gc_fits_capacity(m: Map<Seq<char>, HeldEntry>, capacity: u64, height: u64)
    requires
        m.dom().finite(),
    ensures
        after_gc(m, capacity, height).dom().finite(),
        crate::held::total(after_gc(m, capacity, height)) <= capacity,
        forall|k: Seq<char>| #[trigger]
            after_gc(m, capacity, height).contains_key(k) ==> !crate::held::expired_at(
                after_gc(m, capacity, height)[k],
                height,
            ),
{
    let live = crate::held::unexpired(m, height);
    assert(live.dom().subset_of(m.dom()));
    vstd::set_lib::lemma_len_subset(live.dom(), m.dom());
    let v = crate::held::eviction(live, capacity, height);
    crate::held::law_an_eviction_exists(live, capacity, height);
    crate::held::law_total_after_drop(live, v);
    crate::held::law_eviction_fits(live, capacity, height, v);
}

/// Collecting garbage again at the same height drops nothing more.
pub proof fn law_gc_is_idempotent(m: Map<Seq<char>, HeldEntry>, capacity: u64, height: u64)
    requires
        m.dom().finite(),
    ensures
        after_gc(after_gc(m, capacity, height), capacity, height) == after_gc(
            m,
            capacity,
            height,
        ),
{
    let once = after_gc(m, capacity, height);
    law_gc_fits_capacity(m, capacity, height);
    let live = crate::held::unexpired(once, height);
    assert(live =~= once);
    let v = crate::held::eviction(live, capacity, height);
    crate::held::law_an_eviction_exists(live, capacity, height);
    crate::held::law_no_eviction_when_it_fits(live, capacity, height, v);
    assert(after_gc(once, capacity, height) =~= once);
}

/// An object that is accepted and was not held is within the size limit, and never takes the host
/// over its space, whatever size was declared.
pub proof fn law_admitted_offer_fits(
    cfg: HostConfig,
    held: Map<Seq<char>, HeldEntry>,
    cid: Seq<char>,
    entry: HeldEntry,
)
    requires
        held.dom().finite(),
        fetched_fault(cfg, held, cid, false, entry.bytes as nat) is None,
    ensures
        entry.bytes <= cfg.max_object_bytes,
        crate::held::total(crate::held::recorded(held, cid, entry)) <= cfg.capacity_bytes,
{
    crate::held::law_recording_counts_once(held, cid, entry);
}

/// A renewal never cuts a lease short: it ends no earlier than before, and no earlier than a height
/// that was asked for; and a pin that had not expired at a height has not expired there after.
pub proof fn law_renewal_never_shortens(
    before: HeldEntry,
    req: RenewReq,
    now: u64,
    after: HeldEntry,
    height: u64,
)
    requires
        is_renewal(before, req, now, after),
    ensures
        ends_no_earlier(after.expiry_height, before.expiry_height),
        req.expiry_height != 0 ==> ends_no_earlier(after.expiry_height, req.expiry_height),
        !crate::held::expired_at(before, height) ==> !crate::held::expired_at(after, height),
{
}

/// Noting a use changes no size, so the total stays what it was.
pub proof fn law_touching_keeps_the_total(
    m: Map<Seq<char>, HeldEntry>,
    cid: Seq<char>,
    now: u64,
)
    requires
        m.dom().finite(),
    ensures
        crate::held::total(touched(m, cid, now)) == crate::held::total(m),
{
    if m.contains_key(cid) {
        crate::held::law_total_after_insert(
            m,
            cid,
            HeldEntry { last_access: now, ..m[cid] },
        );
    }
}

/// Each action goes by one name, and no other text names an action.
pub proof fn law_actions_go_by_their_names(name: Seq<char>)
    ensures
        action_named(name) == Some(Action::Offer) <==> name == "offer"@,
        action_named(name) == Some(Action::Audit) <==> name == "audit"@,
        action_named(name) == Some(Action::Status) <==> name == "status"@,
        action_named(name) == Some(Action::Renew) <==> name == "renew"@,
        action_named(name) == Some(Action::Release) <==> name == "release"@,
        action_named(name) is None <==> name != "offer"@ && name != "audit"@ && name != "status"@
            && name != "renew"@ && name != "release"@,
{
    reveal_strlit("offer");
    reveal_strlit("audit");
    reveal_strlit("status");
    reveal_strlit("renew");
    reveal_strlit("release");
    assert("offer"@[0] == 'o' && "audit"@[0] == 'a' && "status"@[0] == 's');
    assert("renew"@.len() == 5 && "release"@.len() == 7 && "renew"@[0] == 'r');
    assert("release"@[0] == 'r');
}

/// What stands behind `pin/` on a topic is the name of the action, whole; a topic that does not
/// begin so is all name.
pub proof fn law_topics_name_their_action(topic: Seq<char>, name: Seq<char>)
    ensures
        topic == seq!['p', 'i', 'n', '/'] + name ==> action_name(topic) == name,
        topic.len() < 4 || topic.take(4) != seq!['p', 'i', 'n', '/'] ==> action_name(topic)
            == topic,
{
    reveal_strlit("pin/");
    assert(TOPIC_PREFIX@ =~= seq!['p', 'i', 'n', '/']);
    if topic == seq!['p', 'i', 'n', '/'] + name {
        assert(topic.take(4) =~= TOPIC_PREFIX@);
        assert(topic.skip(4) =~= name);
    }
}

/// The ability that each action needs.
pub proof fn law_actions_need_their_abilities()
    ensures
        ability(Action::Offer) == "pin:store"@,
        ability(Action::Renew) == "pin:store"@,
        ability(Action::Status) == "pin:read"@,
        ability(Action::Audit) == "pin:audit"@,
        ability(Action::Release) == "pin:release"@,
{
}

/// A request goes on to be authorized exactly if its payload is hexadecimal, its sender is a node
/// id, and its topic names an action. One that does not is told the first of these that fails.
pub proof fn law_requests_are_screened_in_order(
    topic: Seq<char>,
    from_hex: Seq<char>,
    payload_hex: Seq<char>,
)
    ensures
        ({
            let fault = screening_fault(topic, from_hex, payload_hex);
            let readable = crate::digest::hex_decoded(payload_hex) is Some;
            let known = crate::digest::hex_decoded(from_hex) is Some && from_hex.len() == 64;
            let named = action_named(action_name(topic)) is Some;
            &&& fault is None <==> readable && known && named
            &&& !readable ==> fault == Some("payload hex"@)
            &&& readable && !known ==> fault == Some("bad sender id"@)
            &&& readable && known && !named ==> fault == Some(
                "unknown pin action '"@ + action_name(topic) + "'"@,
            )
        }),
{
    crate::digest::law_hexadecimal_texts(from_hex);
}

/// What a request is told that is not authorized.
pub proof fn law_denials_say_why(d: Denial, e: String)
    ensures
        d is MissingCaps ==> denial_reason(d) == "payload missing caps"@,
        d is BadCapability ==> denial_reason(d) == "bad capability"@,
        denial_reason(Denial::Denied(e)) == "denied: "@ + e@,
{
}

/// An offer that was declined stores nothing and says why; an audit without proof says why. What is
/// told fixes the reason.
pub proof fn law_refused_requests_say_why(
    offer: OfferResp,
    audit: AuditResp,
    reason: Seq<char>,
    other: Seq<char>,
)
    ensures
        declined(offer, reason) ==> !offer.accepted && offer.stored_bytes == 0
            && offer.reason is Some && offer.reason->0@ == reason,
        declined(offer, reason) && declined(offer, other) ==> reason == other,
        unproven(audit, reason) ==> audit.proof is None && audit.reason is Some
            && audit.reason->0@ == reason,
        unproven(audit, reason) && unproven(audit, other) ==> reason == other,
{
}

/// A host may prove exactly what it holds, whatever the record of it says.
pub proof fn law_a_host_proves_what_it_holds(
    m: Map<Seq<char>, HeldEntry>,
    cid: Seq<char>,
    entry: HeldEntry,
    other: Seq<char>,
)
    ensures
        may_prove(m.insert(cid, entry), cid),
        may_prove(m.insert(cid, entry), other) <==> other == cid || may_prove(m, other),
        may_prove(m, cid) <==> m.dom().contains(cid),
{
}

/// A fetched object is taken exactly if it was held already, or if it is within the size limit and
/// fits beside all other pins. One that is not is told the first of size and space that it fails
/// by, with the numbers.
pub proof fn law_fetched_objects_are_held_to_the_limits(
    cfg: HostConfig,
    held: Map<Seq<char>, HeldEntry>,
    cid: Seq<char>,
    already_held: bool,
    actual: nat,
)
    ensures
        ({
            let fault = fetched_fault(cfg, held, cid, already_held, actual);
            let others = crate::held::total(held.remove(cid));
            let size = crate::text::decimal(actual);
            &&& fault is None <==> already_held || (actual <= cfg.max_object_bytes && others
                + actual <= cfg.capacity_bytes)
            &&& !already_held && actual > cfg.max_object_bytes ==> fault == Some(
                "fetched object is "@ + size + " bytes, over host max "@ + crate::text::decimal(
                    cfg.max_object_bytes as nat,
                ),
            )
            &&& !already_held && actual <= cfg.max_object_bytes && others + actual
                > cfg.capacity_bytes ==> fault == Some(
                "insufficient capacity: holding "@ + size + " more bytes would reach "@
                    + crate::text::decimal(others + actual) + ", over the host budget of "@
                    + crate::text::decimal(cfg.capacity_bytes as nat),
            )
            &&& fetch_timed_out(actual) == "fetch timed out after "@ + size + "s"@
        }),
{
}

/// An accepted offer is recorded on the terms that it offered, with the size that was fetched, the
/// publisher, and when it was accepted and used. Two records of one acceptance are alike.
pub proof fn law_commitments_keep_the_terms(
    e: HeldEntry,
    req: OfferReq,
    publisher: Seq<char>,
    pinned_at: u64,
    actual: nat,
    now: u64,
    n: u128,
)
    requires
        is_commitment(e, req, publisher, pinned_at, actual, now),
    ensures
        e.bytes == actual,
        e.rent_per_gb_hour@ == req.rent_per_gb_hour@,
        req.rent_per_gb_hour@ == crate::text::decimal(n as nat) ==> crate::text::base_units(
            e.rent_per_gb_hour@,
        ) == n,
        e.expiry_height == req.expiry_height,
        e.pinned_at == pinned_at,
        e.last_access == now,
        e.publisher@ == publisher,
{
    crate::text::law_base_units_of_decimal(n);
}

/// Collecting garbage keeps a pin, as it was, exactly if its lease has no end or ends above the
/// height, and it is not among what is evicted from such pins for the rest to fit.
pub proof fn law_gc_keeps_live_pins_that_fit(
    m: Map<Seq<char>, HeldEntry>,
    capacity: u64,
    height: u64,
    cid: Seq<char>,
)
    ensures
        ({
            let live = m.remove_keys(
                Set::new(|k: Seq<char>| 0 < m[k].expiry_height <= height),
            );
            let left = after_gc(m, capacity, height);
            &&& left.contains_key(cid) <==> {
                &&& m.contains_key(cid)
                &&& m[cid].expiry_height == 0 || m[cid].expiry_height > height
                &&& !crate::held::eviction(live, capacity, height).contains(cid)
            }
            &&& left.contains_key(cid) ==> left[cid] == m[cid]
        }),
{
    let live = m.remove_keys(Set::new(|k: Seq<char>| 0 < m[k].expiry_height <= height));
    assert(crate::held::unexpired(m, height) =~= live);
}

/// A set that fits once the expired pins are out loses nothing more.
pub proof fn law_gc_evicts_only_for_space(
    m: Map<Seq<char>, HeldEntry>,
    capacity: u64,
    height: u64,
    cid: Seq<char>,
)
    requires
        m.dom().finite(),
        crate::held::total(m) <= capacity,
        m.contains_key(cid),
        m[cid].expiry_height == 0 || m[cid].expiry_height > height,
    ensures
        after_gc(m, capacity, height).contains_key(cid),
        after_gc(m, capacity, height)[cid] == m[cid],
{
    let live = crate::held::unexpired(m, height);
    assert(live.dom().subset_of(m.dom()));
    vstd::set_lib::lemma_len_subset(live.dom(), m.dom());
    crate::held::law_dropping_pins_adds_nothing(
        m,
        Set::new(|k: Seq<char>| crate::held::expired_at(m[k], height)),
    );
    crate::held::law_an_eviction_exists(live, capacity, height);
    let v = crate::held::eviction(live, capacity, height);
    crate::held::law_no_eviction_when_it_fits(live, capacity, height, v);
}

/// A renewal takes the rent that it asks for, whatever the rent was before: as it is written if any
/// of it is not white space, and the old one if all of it is. A rent written in decimal is recorded
/// as that many base units.
pub proof fn law_renewal_takes_the_rent_asked_for(
    before: HeldEntry,
    req: RenewReq,
    now: u64,
    after: HeldEntry,
    n: u128,
)
    requires
        is_renewal(before, req, now, after),
    ensures
        (exists|i: int|
            0 <= i < req.rent_per_gb_hour@.len() && !crate::text::white_space(
                #[trigger] req.rent_per_gb_hour@[i],
            )) ==> after.rent_per_gb_hour@ == req.rent_per_gb_hour@,
        (forall|i: int|
            0 <= i < req.rent_per_gb_hour@.len() ==> crate::text::white_space(
                #[trigger] req.rent_per_gb_hour@[i],
            )) ==> after.rent_per_gb_hour@ == before.rent_per_gb_hour@,
        req.rent_per_gb_hour@ == crate::text::decimal(n as nat) ==> after.rent_per_gb_hour@
            == req.rent_per_gb_hour@ && crate::text::base_units(after.rent_per_gb_hour@) == n,
{
    crate::text::law_blank_texts_are_white_space(req.rent_per_gb_hour@);
    crate::text::lemma_decimal_has_no_space(n as nat);
    crate::text::law_base_units_of_decimal(n);
}

/// A renewal sets the end of the lease to the later of the one that it had and the one asked for,
/// leaves one without an end as it is, and notes the use. Nothing else of the record changes but
/// the rent.
pub proof fn law_renewal_extends_the_lease_only(
    before: HeldEntry,
    req: RenewReq,
    now: u64,
    after: HeldEntry,
)
    requires
        is_renewal(before, req, now, after),
    ensures
        before.expiry_height == 0 <==> after.expiry_height == 0,
        before.expiry_height != 0 ==> {
            &&& after.expiry_height >= before.expiry_height
            &&& after.expiry_height >= req.expiry_height
            &&& after.expiry_height == before.expiry_height || after.expiry_height
                == req.expiry_height
        },
        after.bytes == before.bytes,
        after.pinned_at == before.pinned_at,
        after.last_access == now,
        after.publisher@ == before.publisher@,
{
}

/// Two renewals of one pin, one after the other, leave it with the rent of the second unless that
/// is blank, and with the latest of the ends.
pub proof fn law_later_renewal_decides(
    before: HeldEntry,
    first: RenewReq,
    earlier: u64,
    between: HeldEntry,
    second: RenewReq,
    now: u64,
    after: HeldEntry,
)
    requires
        is_renewal(before, first, earlier, between),
        is_renewal(between, second, now, after),
        exists|i: int|
            0 <= i < second.rent_per_gb_hour@.len() && !crate::text::white_space(
                #[trigger] second.rent_per_gb_hour@[i],
            ),
    ensures
        after.rent_per_gb_hour@ == second.rent_per_gb_hour@,
        before.expiry_height != 0 ==> after.expiry_height >= first.expiry_height
            && after.expiry_height >= second.expiry_height && after.expiry_height
            >= before.expiry_height,
{
    law_renewal_takes_the_rent_asked_for(between, second, now, after, 0);
}

/// Noting a use sets when one pin was last used, and changes nothing else of it or of any other
/// pin.
pub proof fn law_touching_notes_the_use_only(
    m: Map<Seq<char>, HeldEntry>,
    cid: Seq<char>,
    now: u64,
    k: Seq<char>,
)
    ensures
        touched(m, cid, now).contains_key(k) <==> m.contains_key(k),
        m.contains_key(k) && k != cid ==> touched(m, cid, now)[k] == m[k],
        m.contains_key(cid) ==> {
            let after = touched(m, cid, now)[cid];
            &&& after.last_access == now
            &&& after.bytes == m[cid].bytes
            &&& after.rent_per_gb_hour@ == m[cid].rent_per_gb_hour@
            &&& after.expiry_height == m[cid].expiry_height
            &&& after.pinned_at == m[cid].pinned_at
            &&& after.publisher@ == m[cid].publisher@
        },
{
}

} // verus!
