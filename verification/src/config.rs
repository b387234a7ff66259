//! What a host is willing to hold: limits on size, rent and space, and the admission rule.
//!
//! Whoever may store on a host can ask it to fetch and hold anything, so its limits are explicit.
//! Each of them can be set by the operator; what is not set, or cannot be read, keeps its default.

use vstd::prelude::*;

use crate::text::{parse_base_units, parse_u128, parse_u64, parse_usize, push_decimal, trim};

verus! {

/// Largest object that a host accepts by default: 2 GiB.
pub const DEFAULT_MAX_OBJECT_BYTES: u64 = 2_147_483_648;

/// Space that a host gives to pins by default: 64 GiB.
pub const DEFAULT_CAPACITY_BYTES: u64 = 68_719_476_736;

/// Least rent that a host asks for by default, in base units per GB-hour: none.
pub const DEFAULT_MIN_RENT_PER_GB_HOUR: u128 = 0;

/// Requests that a host serves at once by default.
pub const DEFAULT_MAX_CONCURRENT: usize = 8;

/// Seconds after which a host gives up fetching an object by default.
pub const DEFAULT_FETCH_TIMEOUT_SECS: u64 = 180;

/// Reply tokens that a host remembers by default.
pub const DEFAULT_SEEN_WINDOW: usize = 65_536;

/// The limits of a host.
#[derive(Debug, PartialEq, Eq, Clone, Copy)]
pub struct HostConfig {
    /// Largest object accepted, in bytes.
    pub max_object_bytes: u64,
    /// Space for all pins together, in bytes.
    pub capacity_bytes: u64,
    /// Least rent accepted, in base units per GB-hour.
    pub min_rent_per_gb_hour: u128,
    /// Requests served at once.
    pub max_concurrent: usize,
    /// Seconds after which fetching an object is given up.
    pub fetch_timeout_secs: u64,
    /// Reply tokens remembered.
    pub seen_window: usize,
}

/// The settings of an operator as text; `None` where nothing is set.
#[derive(Debug, PartialEq, Eq, Default)]
pub struct HostEnv {
    /// Largest object accepted, `CE_PIN_MAX_OBJECT_BYTES`.
    pub max_object_bytes: Option<String>,
    /// Space for all pins, `CE_PIN_CAPACITY_BYTES`.
    pub capacity_bytes: Option<String>,
    /// Least rent accepted, `CE_PIN_MIN_RENT`.
    pub min_rent: Option<String>,
    /// Requests served at once, `CE_PIN_MAX_CONCURRENT`.
    pub max_concurrent: Option<String>,
    /// Seconds until a fetch is given up, `CE_PIN_FETCH_TIMEOUT_SECS`.
    pub fetch_timeout_secs: Option<String>,
    /// Reply tokens remembered, `CE_PIN_SEEN_WINDOW`.
    pub seen_window: Option<String>,
}

/// The number that a setting gives, if it is there and is a number of at most `max`.
pub open spec fn setting(value: Option<String>, max: nat) -> Option<nat> {
    match value {
        Some(s) => crate::text::bounded_number(crate::text::trimmed(s@), max),
        None => None,
    }
}

/// What a setting makes of a default: the number that it gives, or `least` if that is more.
pub open spec fn resolved(value: Option<String>, max: nat, least: nat, default: nat) -> nat {
    match setting(value, max) {
        Some(n) => if n < least {
            least
        } else {
            n
        },
        None => default,
    }
}

impl Default for HostConfig {
    fn default() -> (r: Self)
        ensures
            r.max_object_bytes == DEFAULT_MAX_OBJECT_BYTES,
            r.capacity_bytes == DEFAULT_CAPACITY_BYTES,
            r.min_rent_per_gb_hour == DEFAULT_MIN_RENT_PER_GB_HOUR,
            r.max_concurrent == DEFAULT_MAX_CONCURRENT,
            r.fetch_timeout_secs == DEFAULT_FETCH_TIMEOUT_SECS,
            r.seen_window == DEFAULT_SEEN_WINDOW,
    {
        HostConfig {
            max_object_bytes: DEFAULT_MAX_OBJECT_BYTES,
            capacity_bytes: DEFAULT_CAPACITY_BYTES,
            min_rent_per_gb_hour: DEFAULT_MIN_RENT_PER_GB_HOUR,
            max_concurrent: DEFAULT_MAX_CONCURRENT,
            fetch_timeout_secs: DEFAULT_FETCH_TIMEOUT_SECS,
            seen_window: DEFAULT_SEEN_WINDOW,
        }
    }
}

/// Why an object larger than a host accepts is turned down.
pub open spec fn too_large(declared: nat, max: nat) -> Seq<char> {
    "object too large: "@ + crate::text::decimal(declared) + " bytes exceeds host max "@
        + crate::text::decimal(max) + " bytes"@
}

/// Why a rent below the minimum of a host is turned down.
pub open spec fn rent_too_low(rent: nat, min: nat) -> Seq<char> {
    "rent too low: "@ + crate::text::decimal(rent) + " base/GB-hour is below host minimum "@
        + crate::text::decimal(min)
}

/// Why an object that the space left cannot take is turned down.
pub open spec fn over_capacity(declared: nat, projected: nat, capacity: nat) -> Seq<char> {
    "insufficient capacity: holding "@ + crate::text::decimal(declared)
        + " more bytes would reach "@ + crate::text::decimal(projected)
        + ", over the host budget of "@ + crate::text::decimal(capacity)
}

/// The first reason for which an offer is turned down; `None` if it is admitted.
pub open spec fn refusal(
    cfg: HostConfig,
    declared: u64,
    rent: Seq<char>,
    held: u64,
) -> Option<Seq<char>> {
    let rate = crate::text::base_units(rent);
    let projected = crate::held::capped((held + declared) as nat);
    if declared > cfg.max_object_bytes {
        Some(too_large(declared as nat, cfg.max_object_bytes as nat))
    } else if rate < cfg.min_rent_per_gb_hour {
        Some(rent_too_low(rate, cfg.min_rent_per_gb_hour as nat))
    } else if projected > cfg.capacity_bytes {
        Some(over_capacity(declared as nat, projected as nat, cfg.capacity_bytes as nat))
    } else {
        None
    }
}

pub(crate) fn over_capacity_reason(bytes: u64, projected: u128, capacity: u64) -> (r: String)
    ensures
        r@ == over_capacity(bytes as nat, projected as nat, capacity as nat),
{
    let mut reason = String::new();
    reason.append("insufficient capacity: holding ");
    push_decimal(&mut reason, bytes as u128);
    reason.append(" more bytes would reach ");
    push_decimal(&mut reason, projected);
    reason.append(", over the host budget of ");
    push_decimal(&mut reason, capacity as u128);
    assert(reason@ =~= over_capacity(bytes as nat, projected as nat, capacity as nat));
    reason
}

fn read_u64(value: &Option<String>) -> (r: Option<u64>)
    ensures
        match setting(*value, u64::MAX as nat) {
            Some(n) => r == Some(n as u64),
            None => r is None,
        },
{
    match value {
        Some(s) => parse_u64(trim(s.as_str())),
        None => None,
    }
}

fn read_u128(value: &Option<String>) -> (r: Option<u128>)
    ensures
        match setting(*value, u128::MAX as nat) {
            Some(n) => r == Some(n as u128),
            None => r is None,
        },
{
    match value {
        Some(s) => parse_u128(trim(s.as_str())),
        None => None,
    }
}

fn read_usize(value: &Option<String>) -> (r: Option<usize>)
    ensures
        match setting(*value, usize::MAX as nat) {
            Some(n) => r == Some(n as usize),
            None => r is None,
        },
{
    match value {
        Some(s) => parse_usize(trim(s.as_str())),
        None => None,
    }
}

impl HostConfig {
    /// The limits that the settings of an operator ask for. At least one request is served at a
    /// time, a fetch has at least a second, and at least 1024 reply tokens are remembered.
    pub fn from_env(env: &HostEnv) -> (r: Self)
        ensures
            r.max_object_bytes == resolved(
                env.max_object_bytes,
                u64::MAX as nat,
                0,
                DEFAULT_MAX_OBJECT_BYTES as nat,
            ),
            r.capacity_bytes == resolved(
                env.capacity_bytes,
                u64::MAX as nat,
                0,
                DEFAULT_CAPACITY_BYTES as nat,
            ),
            r.min_rent_per_gb_hour == resolved(
                env.min_rent,
                u128::MAX as nat,
                0,
                DEFAULT_MIN_RENT_PER_GB_HOUR as nat,
            ),
            r.max_concurrent == resolved(
                env.max_concurrent,
                usize::MAX as nat,
                1,
                DEFAULT_MAX_CONCURRENT as nat,
            ),
            r.fetch_timeout_secs == resolved(
                env.fetch_timeout_secs,
                u64::MAX as nat,
                1,
                DEFAULT_FETCH_TIMEOUT_SECS as nat,
            ),
            r.seen_window == resolved(
                env.seen_window,
                usize::MAX as nat,
                1024,
                DEFAULT_SEEN_WINDOW as nat,
            ),
    {
        let mut c = HostConfig::default();
        if let Some(v) = read_u64(&env.max_object_bytes) {
            c.max_object_bytes = v;
        }
        if let Some(v) = read_u64(&env.capacity_bytes) {
            c.capacity_bytes = v;
        }
        if let Some(v) = read_u128(&env.min_rent) {
            c.min_rent_per_gb_hour = v;
        }
        if let Some(v) = read_usize(&env.max_concurrent) {
            c.max_concurrent = if v < 1 {
                1
            } else {
                v
            };
        }
        if let Some(v) = read_u64(&env.fetch_timeout_secs) {
            c.fetch_timeout_secs = if v < 1 {
                1
            } else {
                v
            };
        }
        if let Some(v) = read_usize(&env.seen_window) {
            c.seen_window = if v < 1024 {
                1024
            } else {
                v
            };
        }
        c
    }

    /// Decides before any fetch whether an object of `declared_bytes` at a rent is taken while
    /// `held_bytes` are held. Size is looked at first, then rent, then space. A rent that cannot be
    /// read counts as zero.
    pub fn admit_offer(
        &self,
        declared_bytes: u64,
        rent_per_gb_hour: &str,
        held_bytes: u64,
    ) -> (r: Result<(), String>)
        ensures
            match refusal(*self, declared_bytes, rent_per_gb_hour@, held_bytes) {
                None => r is Ok,
                Some(reason) => r matches Err(e) && e@ == reason,
            },
    {
        if declared_bytes > self.max_object_bytes {
            let mut reason = String::new();
            reason.append("object too large: ");
            push_decimal(&mut reason, declared_bytes as u128);
            reason.append(" bytes exceeds host max ");
            push_decimal(&mut reason, self.max_object_bytes as u128);
            reason.append(" bytes");
            assert(reason@ =~= too_large(declared_bytes as nat, self.max_object_bytes as nat));
            return Err(reason);
        }
        let rent: u128 = parse_base_units(rent_per_gb_hour);
        if rent < self.min_rent_per_gb_hour {
            let mut reason = String::new();
            reason.append("rent too low: ");
            push_decimal(&mut reason, rent);
            reason.append(" base/GB-hour is below host minimum ");
            push_decimal(&mut reason, self.min_rent_per_gb_hour);
            assert(reason@ =~= rent_too_low(rent as nat, self.min_rent_per_gb_hour as nat));
            return Err(reason);
        }
        let projected: u64 = held_bytes.saturating_add(declared_bytes);
        if projected > self.capacity_bytes {
            return Err(
                over_capacity_reason(declared_bytes, projected as u128, self.capacity_bytes),
            );
        }
        Ok(())
    }
}

/// An admitted object is within the size limit, pays at least the minimum, and fits in the space
/// that is left; and every such object is admitted.
pub proof fn law_admission(cfg: HostConfig, declared: u64, rent: Seq<char>, held: u64)
    ensures
        refusal(cfg, declared, rent, held) is None <==> {
            &&& declared <= cfg.max_object_bytes
            &&& crate::text::base_units(rent) >= cfg.min_rent_per_gb_hour
            &&& crate::held::capped((held + declared) as nat) <= cfg.capacity_bytes
        },
        refusal(cfg, declared, rent, held) is None && cfg.capacity_bytes < u64::MAX ==> held
            + declared <= cfg.capacity_bytes,
{
}

/// A smaller object, at no less rent and with no more held, is admitted wherever a larger one is.
pub proof fn law_admission_is_monotone(
    cfg: HostConfig,
    declared: u64,
    rent: Seq<char>,
    held: u64,
    smaller: u64,
    better: Seq<char>,
    less: u64,
)
    requires
        refusal(cfg, declared, rent, held) is None,
        smaller <= declared,
        crate::text::base_units(better) >= crate::text::base_units(rent),
        less <= held,
    ensures
        refusal(cfg, smaller, better, less) is None,
{
}

/// A rent that cannot be read does not get past a host that asks for rent.
pub proof fn law_unreadable_rent_is_no_way_in(
    cfg: HostConfig,
    declared: u64,
    rent: Seq<char>,
    held: u64,
)
    requires
        cfg.min_rent_per_gb_hour > 0,
        crate::text::bounded_number(crate::text::trimmed(rent), u128::MAX as nat) is None,
    ensures
        refusal(cfg, declared, rent, held) is Some,
{
}

/// A setting that is absent, or whose text without outer white space is no number within the
/// range, leaves the default. One that is a number counts as that number, or as the least that is
/// allowed if it is below.
pub proof fn law_settings_that_can_be_read_count(
    value: Option<String>,
    max: nat,
    least: nat,
    default: nat,
    n: nat,
)
    requires
        least <= max,
    ensures
        value is None ==> resolved(value, max, least, default) == default,
        value is Some && crate::text::number_of(crate::text::trimmed(value->0@)) is None
            ==> resolved(value, max, least, default) == default,
        value is Some && crate::text::number_of(crate::text::trimmed(value->0@)) == Some(n) ==> {
            &&& n > max ==> resolved(value, max, least, default) == default
            &&& least <= n <= max ==> resolved(value, max, least, default) == n
            &&& n < least ==> resolved(value, max, least, default) == least
        },
{
}

/// A number that is set by writing it in decimal, with white space around it or none, is what
/// counts if it is within its range.
pub proof fn law_settings_read_back(
    value: String,
    before: Seq<char>,
    n: nat,
    after: Seq<char>,
    max: nat,
    least: nat,
    default: nat,
)
    requires
        value@ == before + crate::text::decimal(n) + after,
        forall|i: int|
            0 <= i < before.len() ==> crate::text::white_space(#[trigger] before[i]),
        forall|i: int| 0 <= i < after.len() ==> crate::text::white_space(#[trigger] after[i]),
        least <= n <= max,
    ensures
        resolved(Some(value), max, least, default) == n,
{
    crate::text::lemma_decimal_has_no_space(n);
    crate::text::law_padding_is_trimmed(before, crate::text::decimal(n), after);
    crate::text::law_decimal_reads_back(n);
}

/// An offer is admitted exactly if its size is within the limit, its rent at least the minimum, and
/// it fits beside what is held; a host whose space is the largest `u64` never runs out.
pub proof fn law_offers_within_all_limits_are_admitted(
    cfg: HostConfig,
    declared: u64,
    rent: Seq<char>,
    held: u64,
)
    ensures
        refusal(cfg, declared, rent, held) is None <==> {
            &&& declared <= cfg.max_object_bytes
            &&& crate::text::base_units(rent) >= cfg.min_rent_per_gb_hour
            &&& held + declared <= cfg.capacity_bytes || cfg.capacity_bytes == u64::MAX
        },
{
}

/// An offer that is turned down is told why: of size, rent and space the first that it fails by,
/// with what it asked for and what the host allows.
pub proof fn law_refusals_say_why(
    cfg: HostConfig,
    declared: u64,
    rent: Seq<char>,
    held: u64,
    rate: u128,
)
    requires
        rate == crate::text::base_units(rent),
    ensures
        ({
            let size = crate::text::decimal(declared as nat);
            let max = crate::text::decimal(cfg.max_object_bytes as nat);
            let offered = crate::text::decimal(rate as nat);
            let min = crate::text::decimal(cfg.min_rent_per_gb_hour as nat);
            let space = crate::text::decimal(cfg.capacity_bytes as nat);
            let reason = refusal(cfg, declared, rent, held);
            &&& declared > cfg.max_object_bytes ==> reason == Some(
                "object too large: "@ + size + " bytes exceeds host max "@ + max + " bytes"@,
            )
            &&& declared <= cfg.max_object_bytes && rate < cfg.min_rent_per_gb_hour ==> reason
                == Some(
                "rent too low: "@ + offered + " base/GB-hour is below host minimum "@ + min,
            )
            &&& declared <= cfg.max_object_bytes && rate >= cfg.min_rent_per_gb_hour
                && cfg.capacity_bytes < held + declared <= u64::MAX ==> reason == Some(
                "insufficient capacity: holding "@ + size + " more bytes would reach "@
                    + crate::text::decimal((held + declared) as nat) + ", over the host budget of "@
                    + space,
            )
            &&& declared <= cfg.max_object_bytes && rate >= cfg.min_rent_per_gb_hour
                && cfg.capacity_bytes < u64::MAX < held + declared ==> reason == Some(
                "insufficient capacity: holding "@ + size + " more bytes would reach "@
                    + crate::text::decimal(u64::MAX as nat) + ", over the host budget of "@ + space,
            )
        }),
{
}

} // verus!
