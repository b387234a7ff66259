use ce_pin::proto::{
    service_for, AuditResp, OfferResp, ReleaseResp, RenewResp, StatusResp, ABILITY_AUDIT,
    ABILITY_READ, ABILITY_RELEASE, ABILITY_RENEW, ABILITY_STORE, SERVICE_HOST, TOPIC_PREFIX,
};

#[test]
fn service_strings_are_cid_namespaced() {
    assert_eq!(service_for("abc123"), "pin:abc123");
    assert_ne!(service_for("abc123"), SERVICE_HOST);
}

#[test]
fn only_an_object_named_host_meets_the_service_of_hosts() {
    assert_eq!(service_for("host"), SERVICE_HOST);
    assert_ne!(service_for("hosts"), SERVICE_HOST);
    assert_ne!(service_for(""), SERVICE_HOST);
    assert_ne!(service_for("a"), service_for("b"));
}

#[test]
fn names_on_the_wire() {
    assert_eq!(TOPIC_PREFIX, "pin/");
    assert_eq!(ABILITY_STORE, "pin:store");
    assert_eq!(ABILITY_READ, "pin:read");
    assert_eq!(ABILITY_AUDIT, "pin:audit");
    assert_eq!(ABILITY_RELEASE, "pin:release");
    assert_eq!(ABILITY_RENEW, ABILITY_STORE);
    assert_eq!(SERVICE_HOST, "pin:host");
}

#[test]
fn replies_are_negative_by_default() {
    assert_eq!(
        OfferResp::default(),
        OfferResp { accepted: false, stored_bytes: 0, reason: None }
    );
    assert_eq!(
        RenewResp::default(),
        RenewResp { renewed: false, expiry_height: 0, reason: None }
    );
    assert_eq!(AuditResp::default(), AuditResp { proof: None, reason: None });
    assert_eq!(ReleaseResp::default(), ReleaseResp { released: false, reason: None });
    assert_eq!(StatusResp::default(), StatusResp { held: false, bytes: 0 });
}
