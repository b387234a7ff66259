//! The messages between publishers and hosts on the `pin/*` topics.
//!
//! Every request carries `caps`, a hexadecimal capability chain, which the host checks before it
//! acts. What an action needs is named by an ability, a plain string.

use vstd::prelude::*;

verus! {

/// What every topic of this protocol begins with.
pub const TOPIC_PREFIX: &'static str = "pin/";

/// Ability to have a host hold an object.
pub const ABILITY_STORE: &'static str = "pin:store";

/// Ability to ask whether a host holds an object.
pub const ABILITY_READ: &'static str = "pin:read";

/// Ability to challenge a host to prove that it holds an object.
pub const ABILITY_AUDIT: &'static str = "pin:audit";

/// Ability to have a host drop an object.
pub const ABILITY_RELEASE: &'static str = "pin:release";

/// Ability to extend a lease: whoever renews commits the host again, as by storing.
pub const ABILITY_RENEW: &'static str = "pin:store";

/// The service that every host advertises.
pub const SERVICE_HOST: &'static str = "pin:host";

/// The service that a holder of an object advertises.
pub open spec fn service_name(cid: Seq<char>) -> Seq<char> {
    "pin:"@ + cid
}

/// The service that a holder of `cid` advertises.
pub fn service_for(cid: &str) -> (r: String)
    ensures
        r@ == service_name(cid@),
{
    let mut name = String::new();
    name.append("pin:");
    name.append(cid);
    assert(name@ =~= service_name(cid@));
    name
}

/// Different objects have different services, and no object but one named `host` has the service
/// of the hosts.
pub proof fn law_services_are_distinct(a: Seq<char>, b: Seq<char>)
    ensures
        service_name(a) == service_name(b) <==> a == b,
        service_name(a) == SERVICE_HOST@ <==> a == "host"@,
{
    reveal_strlit("pin:");
    reveal_strlit("pin:host");
    reveal_strlit("host");
    assert(service_name(a).skip(4) =~= a);
    assert(service_name(b).skip(4) =~= b);
    assert(SERVICE_HOST@.skip(4) =~= "host"@);
    assert("pin:"@ + "host"@ =~= SERVICE_HOST@);
}

/// Asks a host to fetch an object and hold it.
#[derive(Debug, PartialEq, Eq)]
pub struct OfferReq {
    /// Capability chain that grants `pin:store`.
    pub caps: String,
    /// The object.
    pub cid: String,
    /// Its size in bytes, as the publisher says.
    pub bytes_len: u64,
    /// Rent offered in base units per GB-hour, a decimal string.
    pub rent_per_gb_hour: String,
    /// Block height up to which rent is guaranteed.
    pub expiry_height: u64,
}

impl Clone for OfferReq {
    fn clone(&self) -> (r: Self)
        ensures
            r == *self,
    {
        OfferReq {
            caps: self.caps.clone(),
            cid: self.cid.clone(),
            bytes_len: self.bytes_len,
            rent_per_gb_hour: self.rent_per_gb_hour.clone(),
            expiry_height: self.expiry_height,
        }
    }
}

/// Answers an [`OfferReq`].
#[derive(Debug, Clone, PartialEq, Eq)]
pub struct OfferResp {
    /// Whether the host holds the object.
    pub accepted: bool,
    /// Its size as fetched; zero if it was not accepted.
    pub stored_bytes: u64,
    /// Why it was not accepted.
    pub reason: Option<String>,
}

/// Asks a host to extend the lease of an object that it holds.
#[derive(Debug, Clone, PartialEq, Eq)]
pub struct RenewReq {
    /// Capability chain that grants `pin:store`.
    pub caps: String,
    /// The object.
    pub cid: String,
    /// Block height to extend the lease to.
    pub expiry_height: u64,
    /// New rent; blank to keep the old one.
    pub rent_per_gb_hour: String,
}

/// Answers a [`RenewReq`].
#[derive(Debug, Clone, PartialEq, Eq)]
pub struct RenewResp {
    /// Whether the lease was renewed.
    pub renewed: bool,
    /// The height that it now runs to; zero if it was not renewed.
    pub expiry_height: u64,
    /// Why it was not renewed.
    pub reason: Option<String>,
}

/// Challenges a host to prove that it holds an object.
#[derive(Debug, Clone, PartialEq, Eq)]
pub struct AuditReq {
    /// Capability chain that grants `pin:audit`.
    pub caps: String,
    /// The object.
    pub cid: String,
    /// Hexadecimal nonce that goes into the proof.
    pub nonce: String,
    /// The chunk to prove.
    pub chunk_index: u64,
}

/// Answers an [`AuditReq`].
#[derive(Debug, Clone, PartialEq, Eq)]
pub struct AuditResp {
    /// The proof, hexadecimal.
    pub proof: Option<String>,
    /// Why there is none.
    pub reason: Option<String>,
}

/// Asks a host to drop an object.
#[derive(Debug, Clone, PartialEq, Eq)]
pub struct ReleaseReq {
    /// Capability chain that grants `pin:release`.
    pub caps: String,
    /// The object.
    pub cid: String,
}

/// Answers a [`ReleaseReq`].
#[derive(Debug, Clone, PartialEq, Eq)]
pub struct ReleaseResp {
    /// Whether the host held the object and dropped it.
    pub released: bool,
    /// Why it did not.
    pub reason: Option<String>,
}

/// Asks whether a host holds an object.
#[derive(Debug, Clone, PartialEq, Eq)]
pub struct StatusReq {
    /// Capability chain that grants `pin:read`.
    pub caps: String,
    /// The object.
    pub cid: String,
}

/// Answers a [`StatusReq`].
#[derive(Debug, Clone, PartialEq, Eq)]
pub struct StatusResp {
    /// Whether the host holds the object and can serve it.
    pub held: bool,
    /// Its size in bytes; zero if it is not held.
    pub bytes: u64,
}

impl Default for OfferResp {
    fn default() -> (r: Self)
        ensures
            r == (OfferResp { accepted: false, stored_bytes: 0, reason: None }),
    {
        OfferResp { accepted: false, stored_bytes: 0, reason: None }
    }
}

impl Default for RenewResp {
    fn default() -> (r: Self)
        ensures
            r == (RenewResp { renewed: false, expiry_height: 0, reason: None }),
    {
        RenewResp { renewed: false, expiry_height: 0, reason: None }
    }
}

impl Default for AuditResp {
    fn default() -> (r: Self)
        ensures
            r == (AuditResp { proof: None, reason: None }),
    {
        AuditResp { proof: None, reason: None }
    }
}

impl Default for ReleaseResp {
    fn default() -> (r: Self)
        ensures
            r == (ReleaseResp { released: false, reason: None }),
    {
        ReleaseResp { released: false, reason: None }
    }
}

impl Default for StatusResp {
    fn default() -> (r: Self)
        ensures
            r == (StatusResp { held: false, bytes: 0 }),
    {
        StatusResp { held: false, bytes: 0 }
    }
}

/// The service of an object is its identifier behind `pin:`, whole and unchanged.
pub proof fn law_service_names_the_object(cid: Seq<char>)
    ensures
        service_name(cid).len() == cid.len() + 4,
        service_name(cid).skip(4) == cid,
        service_name(cid).take(4) == seq!['p', 'i', 'n', ':'],
{
    reveal_strlit("pin:");
    assert(service_name(cid).skip(4) =~= cid);
    assert(service_name(cid).take(4) =~= seq!['p', 'i', 'n', ':']);
}

} // verus!
