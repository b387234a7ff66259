//! The held-set: the pins that a host has committed to keep.
//!
//! Each pin has a record of its size, rent, lease and last use. The records decide what is billed,
//! what has expired, and what goes first when space runs out. The set is modelled by the map
//! `h.entries@` from content identifier to record.
//!
//! Rent is a decimal string of base units per GB-hour, never a float.

use vstd::prelude::*;

use crate::order::{sorted, Ranked};
use crate::table::Table;
use crate::text::{parse_base_units, str_precedes};

verus! {

/// Version of the stored form of a held-set.
pub const HELD_SCHEMA_VERSION: u32 = 1;

/// What a host records of one pin.
#[derive(Debug, PartialEq, Eq)]
pub struct HeldEntry {
    /// Size of the object as fetched, in bytes.
    pub bytes: u64,
    /// Agreed rent in base units per GB-hour, a decimal string.
    pub rent_per_gb_hour: String,
    /// Block height up to which rent is guaranteed; zero for an open-ended pin.
    pub expiry_height: u64,
    /// Unix seconds at which the pin was accepted.
    pub pinned_at: u64,
    /// Unix seconds of the last use.
    pub last_access: u64,
    /// Node id of the publisher that asked for the pin.
    pub publisher: String,
}

impl Clone for HeldEntry {
    fn clone(&self) -> (r: Self)
        ensures
            r == *self,
    {
        HeldEntry {
            bytes: self.bytes,
            rent_per_gb_hour: self.rent_per_gb_hour.clone(),
            expiry_height: self.expiry_height,
            pinned_at: self.pinned_at,
            last_access: self.last_access,
            publisher: self.publisher.clone(),
        }
    }
}

impl HeldEntry {
    /// The rent rate in base units; zero if the stored text is absent or malformed.
    pub fn rent_base(&self) -> (r: u128)
        ensures
            r == crate::text::base_units(self.rent_per_gb_hour@),
    {
        parse_base_units(self.rent_per_gb_hour.as_str())
    }

    /// The record of a pin of which nothing but its identifier is known.
    pub fn default_record() -> (r: Self)
        ensures
            unaccounted(r),
    {
        HeldEntry {
            bytes: 0,
            rent_per_gb_hour: String::new(),
            expiry_height: 0,
            pinned_at: 0,
            last_access: 0,
            publisher: String::new(),
        }
    }
}

/// A record with nothing in it.
pub open spec fn unaccounted(e: HeldEntry) -> bool {
    &&& e.bytes == 0
    &&& e.rent_per_gb_hour@.len() == 0
    &&& e.expiry_height == 0
    &&& e.pinned_at == 0
    &&& e.last_access == 0
    &&& e.publisher@.len() == 0
}

/// The lease of a pin has run out at a height. Open-ended pins never expire.
pub open spec fn expired_at(e: HeldEntry, height: u64) -> bool {
    e.expiry_height != 0 && e.expiry_height <= height
}

fn is_expired(e: &HeldEntry, height: u64) -> (r: bool)
    ensures
        r == expired_at(*e, height),
{
    e.expiry_height != 0 && e.expiry_height <= height
}

/// The sizes of the pins listed in `keys`, added up.
pub open spec fn bytes_of(m: Map<Seq<char>, HeldEntry>, keys: Seq<Seq<char>>) -> nat
    decreases keys.len(),
{
    if keys.len() == 0 {
        0
    } else {
        bytes_of(m, keys.drop_last()) + m[keys.last()].bytes as nat
    }
}

/// The sizes of all pins of `m`, added up.
pub open spec fn total(m: Map<Seq<char>, HeldEntry>) -> nat
    decreases m.dom().len(),
    when m.dom().finite()
{
    if m.dom().len() == 0 {
        0
    } else {
        let k = m.dom().choose();
        m[k].bytes as nat + total(m.remove(k))
    }
}

/// A total as a host counts it: no more than a `u64` holds.
pub open spec fn capped(n: nat) -> u64 {
    if n <= u64::MAX {
        n as u64
    } else {
        u64::MAX
    }
}

/// The pins with `entry` recorded for `cid`. A pin that is held already keeps when it was accepted
/// and from whom.
pub open spec fn recorded(
    m: Map<Seq<char>, HeldEntry>,
    cid: Seq<char>,
    entry: HeldEntry,
) -> Map<Seq<char>, HeldEntry> {
    if m.contains_key(cid) {
        m.insert(
            cid,
            HeldEntry { pinned_at: m[cid].pinned_at, publisher: m[cid].publisher, ..entry },
        )
    } else {
        m.insert(cid, entry)
    }
}

/// The pins with the size of one of them filled in, if it is held without one.
pub open spec fn learned(
    m: Map<Seq<char>, HeldEntry>,
    cid: Seq<char>,
    bytes: u64,
) -> Map<Seq<char>, HeldEntry> {
    if m.contains_key(cid) && m[cid].bytes == 0 {
        m.insert(cid, HeldEntry { bytes, ..m[cid] })
    } else {
        m
    }
}

/// A total is one pin and the total of the others, whichever pin is taken out.
pub proof fn law_total_without_one(m: Map<Seq<char>, HeldEntry>, k: Seq<char>)
    requires
        m.dom().finite(),
        m.contains_key(k),
    ensures
        total(m) == m[k].bytes + total(m.remove(k)),
    decreases m.dom().len(),
{
    let c = m.dom().choose();
    assert(m.dom().contains(k));
    assert(m.dom().contains(c));
    if c != k {
        law_total_without_one(m.remove(c), k);
        law_total_without_one(m.remove(k), c);
        assert(m.remove(c).remove(k) =~= m.remove(k).remove(c));
    }
}

/// Recording a pin adds its size and takes away the size that it had before.
pub proof fn law_total_after_insert(m: Map<Seq<char>, HeldEntry>, k: Seq<char>, e: HeldEntry)
    requires
        m.dom().finite(),
    ensures
        total(m.insert(k, e)) == total(m.remove(k)) + e.bytes,
        !m.contains_key(k) ==> total(m.insert(k, e)) == total(m) + e.bytes,
        m.contains_key(k) ==> total(m.insert(k, e)) + m[k].bytes == total(m) + e.bytes,
{
    law_total_without_one(m.insert(k, e), k);
    assert(m.insert(k, e).remove(k) =~= m.remove(k));
    if m.contains_key(k) {
        law_total_without_one(m, k);
    } else {
        assert(m.remove(k) =~= m);
    }
}

/// Recording a pin counts its new size once, whether or not it was held before.
pub proof fn law_recording_counts_once(
    m: Map<Seq<char>, HeldEntry>,
    cid: Seq<char>,
    entry: HeldEntry,
)
    requires
        m.dom().finite(),
    ensures
        recorded(m, cid, entry).dom().finite(),
        total(recorded(m, cid, entry)) == total(m.remove(cid)) + entry.bytes,
{
    law_total_after_insert(m, cid, recorded(m, cid, entry)[cid]);
}

/// Recording a pin twice is recording it once, with what came last.
pub proof fn law_recording_again_refreshes(
    m: Map<Seq<char>, HeldEntry>,
    cid: Seq<char>,
    first: HeldEntry,
    second: HeldEntry,
)
    ensures
        ({
            let once = recorded(m, cid, first);
            let twice = recorded(once, cid, second);
            &&& twice.dom() == once.dom()
            &&& twice[cid].bytes == second.bytes
            &&& twice[cid].rent_per_gb_hour == second.rent_per_gb_hour
            &&& twice[cid].expiry_height == second.expiry_height
            &&& twice[cid].last_access == second.last_access
            &&& twice[cid].pinned_at == once[cid].pinned_at
            &&& twice[cid].publisher == once[cid].publisher
            &&& recorded(twice, cid, second) == twice
        }),
{
    let once = recorded(m, cid, first);
    let twice = recorded(once, cid, second);
    assert(twice.dom() =~= once.dom());
    assert(recorded(twice, cid, second) =~= twice);
}

/// Learning a size adds it to the total if the pin had none, and changes nothing otherwise.
pub proof fn law_learning_fills_in_sizes(
    m: Map<Seq<char>, HeldEntry>,
    cid: Seq<char>,
    bytes: u64,
)
    requires
        m.dom().finite(),
    ensures
        learned(m, cid, bytes).dom() == m.dom(),
        m.contains_key(cid) && m[cid].bytes == 0 ==> total(learned(m, cid, bytes)) == total(m)
            + bytes && learned(m, cid, bytes)[cid].bytes == bytes,
        !(m.contains_key(cid) && m[cid].bytes == 0) ==> learned(m, cid, bytes) == m,
{
    if m.contains_key(cid) {
        law_total_after_insert(m, cid, HeldEntry { bytes, ..m[cid] });
    }
    assert(learned(m, cid, bytes).dom() =~= m.dom());
}

/// Whatever list names every pin once, the sizes along it add up to the total.
pub proof fn law_total_along_any_list(m: Map<Seq<char>, HeldEntry>, keys: Seq<Seq<char>>)
    requires
        keys.no_duplicates(),
        keys.to_set() == m.dom(),
    ensures
        m.dom().finite(),
        total(m) == bytes_of(m, keys),
    decreases keys.len(),
{
    vstd::seq_lib::seq_to_set_is_finite(keys);
    keys.unique_seq_to_set();
    if keys.len() > 0 {
        let k = keys.last();
        let front = keys.drop_last();
        let rest = m.remove(k);
        assert(keys.contains(k));
        assert(m.dom().contains(k));
        assert(front.to_set() =~= rest.dom()) by {
            assert forall|x: Seq<char>| front.to_set().contains(x) <==> rest.dom().contains(x) by {
                if front.contains(x) {
                    let i = front.index_of(x);
                    assert(keys[i] == x);
                    assert(keys[keys.len() - 1] == k);
                    assert(keys.to_set().contains(x));
                }
                if rest.dom().contains(x) {
                    assert(keys.to_set().contains(x));
                    let i = keys.index_of(x);
                    assert(front[i] == x);
                }
            }
        }
        law_total_along_any_list(rest, front);
        law_total_without_one(m, k);
        lemma_bytes_of_same(m, rest, front);
    }
}

/// Lists along which two maps agree add up to the same.
proof fn lemma_bytes_of_same(
    m: Map<Seq<char>, HeldEntry>,
    n: Map<Seq<char>, HeldEntry>,
    keys: Seq<Seq<char>>,
)
    requires
        forall|i: int| 0 <= i < keys.len() ==> m[#[trigger] keys[i]] == n[keys[i]],
    ensures
        bytes_of(m, keys) == bytes_of(n, keys),
    decreases keys.len(),
{
    if keys.len() > 0 {
        lemma_bytes_of_same(m, n, keys.drop_last());
    }
}

/// The pins of `m` whose lease has not run out at a height.
pub open spec fn unexpired(m: Map<Seq<char>, HeldEntry>, height: u64) -> Map<
    Seq<char>,
    HeldEntry,
> {
    m.remove_keys(Set::new(|k: Seq<char>| expired_at(m[k], height)))
}

/// The identifiers among `order` whose lease has run out at a height, in their order.
pub open spec fn expired_among(
    m: Map<Seq<char>, HeldEntry>,
    order: Seq<Seq<char>>,
    height: u64,
) -> Seq<Seq<char>> {
    order.filter(|k: Seq<char>| expired_at(m[k], height))
}

/// `a` is given up before `b`: expired pins first, then the lowest rent, then the least recently
/// used, then by identifier.
pub open spec fn goes_before(
    m: Map<Seq<char>, HeldEntry>,
    height: u64,
    a: Seq<char>,
    b: Seq<char>,
) -> bool {
    let x = m[a];
    let y = m[b];
    let x_rent = crate::text::base_units(x.rent_per_gb_hour@);
    let y_rent = crate::text::base_units(y.rent_per_gb_hour@);
    if expired_at(x, height) != expired_at(y, height) {
        expired_at(x, height)
    } else if x_rent != y_rent {
        x_rent < y_rent
    } else if x.last_access != y.last_access {
        x.last_access < y.last_access
    } else {
        crate::text::precedes(a, b)
    }
}

/// How much must be given up for the total to come down to `target`.
pub open spec fn excess(m: Map<Seq<char>, HeldEntry>, target: u64) -> nat {
    if total(m) <= target {
        0
    } else {
        (total(m) - target) as nat
    }
}

/// `v` is what an eviction down to `target` gives up: pins that are held, each once, in the order
/// in which pins are given up, none of them behind a pin that stays, and no more than it takes.
pub open spec fn is_eviction(
    m: Map<Seq<char>, HeldEntry>,
    target: u64,
    height: u64,
    v: Seq<Seq<char>>,
) -> bool {
    &&& v.no_duplicates()
    &&& v.to_set().subset_of(m.dom())
    &&& forall|i: int, j: int|
        0 <= i < j < v.len() ==> goes_before(m, height, #[trigger] v[i], #[trigger] v[j])
    &&& forall|i: int, k: Seq<char>|
        0 <= i < v.len() && #[trigger] m.contains_key(k) && !v.contains(k) ==> goes_before(
            m,
            height,
            #[trigger] v[i],
            k,
        )
    &&& bytes_of(m, v) >= excess(m, target)
    &&& v.len() > 0 ==> bytes_of(m, v.drop_last()) < excess(m, target)
}

/// What an eviction down to `target` gives up.
pub open spec fn eviction(
    m: Map<Seq<char>, HeldEntry>,
    target: u64,
    height: u64,
) -> Seq<Seq<char>> {
    choose|v: Seq<Seq<char>>| is_eviction(m, target, height, v)
}

proof fn lemma_goes_before_asymmetric(
    m: Map<Seq<char>, HeldEntry>,
    height: u64,
    a: Seq<char>,
    b: Seq<char>,
)
    requires
        goes_before(m, height, a, b),
    ensures
        !goes_before(m, height, b, a),
{
    if crate::text::precedes(a, b) {
        crate::text::lemma_precedes_asymmetric(a, b);
    }
}

/// There is one eviction only.
pub proof fn law_eviction_is_unique(
    m: Map<Seq<char>, HeldEntry>,
    target: u64,
    height: u64,
    v: Seq<Seq<char>>,
)
    requires
        is_eviction(m, target, height, v),
    ensures
        v == eviction(m, target, height),
{
    let w = eviction(m, target, height);
    if v.len() <= w.len() {
        lemma_evictions_agree(m, target, height, v, w, v.len() as int);
    } else {
        lemma_evictions_agree(m, target, height, v, w, w.len() as int);
    }
    if v.len() < w.len() {
        assert(w.drop_last().take(v.len() as int) =~= v);
        lemma_bytes_of_prefix(m, w.drop_last(), v.len() as int);
    } else if w.len() < v.len() {
        assert(v.drop_last().take(w.len() as int) =~= w);
        lemma_bytes_of_prefix(m, v.drop_last(), w.len() as int);
    } else {
        assert(v.take(v.len() as int) =~= v);
        assert(w.take(v.len() as int) =~= w);
    }
}

proof fn lemma_evictions_agree(
    m: Map<Seq<char>, HeldEntry>,
    target: u64,
    height: u64,
    v: Seq<Seq<char>>,
    w: Seq<Seq<char>>,
    n: int,
)
    requires
        is_eviction(m, target, height, v),
        is_eviction(m, target, height, w),
        0 <= n <= v.len(),
        n <= w.len(),
    ensures
        v.take(n) == w.take(n),
    decreases n,
{
    if n > 0 {
        let i = n - 1;
        lemma_evictions_agree(m, target, height, v, w, i);
        if v[i] != w[i] {
            lemma_earlier_of_two(m, target, height, v, w, i);
            lemma_earlier_of_two(m, target, height, w, v, i);
            lemma_goes_before_asymmetric(m, height, v[i], w[i]);
        }
        assert(v.take(n) =~= v.take(i).push(v[i]));
        assert(w.take(n) =~= w.take(i).push(w[i]));
    }
}

/// Where two evictions first differ, the pin of the second goes before that of the first.
proof fn lemma_earlier_of_two(
    m: Map<Seq<char>, HeldEntry>,
    target: u64,
    height: u64,
    v: Seq<Seq<char>>,
    w: Seq<Seq<char>>,
    i: int,
)
    requires
        is_eviction(m, target, height, v),
        is_eviction(m, target, height, w),
        0 <= i < v.len(),
        i < w.len(),
        v.take(i) == w.take(i),
        v[i] != w[i],
    ensures
        goes_before(m, height, w[i], v[i]),
{
    assert(v.to_set().contains(v[i]));
    assert(m.contains_key(v[i]));
    if w.contains(v[i]) {
        let j = w.index_of(v[i]);
        assert(w[j] == v[i]);
        if j < i {
            assert(v.take(i)[j] == w.take(i)[j]);
            assert(v[j] == v[i]);
        }
    }
}

proof fn lemma_bytes_of_prefix(m: Map<Seq<char>, HeldEntry>, s: Seq<Seq<char>>, n: int)
    requires
        0 <= n <= s.len(),
    ensures
        bytes_of(m, s.take(n)) <= bytes_of(m, s),
    decreases s.len(),
{
    if n == s.len() {
        assert(s.take(n) =~= s);
    } else {
        assert(s.drop_last().take(n) =~= s.take(n));
        lemma_bytes_of_prefix(m, s.drop_last(), n);
    }
}

proof fn lemma_goes_before_transitive(
    m: Map<Seq<char>, HeldEntry>,
    height: u64,
    a: Seq<char>,
    b: Seq<char>,
    c: Seq<char>,
)
    requires
        goes_before(m, height, a, b),
        goes_before(m, height, b, c),
    ensures
        goes_before(m, height, a, c),
{
    if crate::text::precedes(a, b) && crate::text::precedes(b, c) {
        crate::text::lemma_precedes_transitive(a, b, c);
    }
}

/// `order` lists every pin of `m` once, in the order in which pins are given up.
spec fn is_giving_order(
    m: Map<Seq<char>, HeldEntry>,
    height: u64,
    order: Seq<Seq<char>>,
) -> bool {
    &&& order.no_duplicates()
    &&& order.to_set() == m.dom()
    &&& forall|i: int, j: int|
        0 <= i < j < order.len() ==> goes_before(
            m,
            height,
            #[trigger] order[i],
            #[trigger] order[j],
        )
}

/// How many leading pins of `order` go before `k`.
spec fn giving_place(
    m: Map<Seq<char>, HeldEntry>,
    height: u64,
    order: Seq<Seq<char>>,
    k: Seq<char>,
) -> int
    decreases order.len(),
{
    if order.len() > 0 && goes_before(m, height, order[0], k) {
        1 + giving_place(m, height, order.drop_first(), k)
    } else {
        0
    }
}

proof fn lemma_giving_place(
    m: Map<Seq<char>, HeldEntry>,
    height: u64,
    order: Seq<Seq<char>>,
    k: Seq<char>,
)
    ensures
        0 <= giving_place(m, height, order, k) <= order.len(),
        forall|j: int|
            0 <= j < giving_place(m, height, order, k) ==> goes_before(
                m,
                height,
                #[trigger] order[j],
                k,
            ),
        giving_place(m, height, order, k) < order.len() ==> !goes_before(
            m,
            height,
            order[giving_place(m, height, order, k)],
            k,
        ),
    decreases order.len(),
{
    if order.len() > 0 && goes_before(m, height, order[0], k) {
        let rest = order.drop_first();
        lemma_giving_place(m, height, rest, k);
        assert forall|j: int| 0 <= j < giving_place(m, height, order, k) implies goes_before(
            m,
            height,
            #[trigger] order[j],
            k,
        ) by {
            if j > 0 {
                assert(rest[j - 1] == order[j]);
            }
        }
    }
}

/// The pins of any held-set can be listed in the order in which they are given up.
proof fn lemma_giving_order_exists(m: Map<Seq<char>, HeldEntry>, height: u64) -> (order: Seq<
    Seq<char>,
>)
    requires
        m.dom().finite(),
    ensures
        is_giving_order(m, height, order),
    decreases m.dom().len(),
{
    if m.dom().len() == 0 {
        let order = Seq::<Seq<char>>::empty();
        assert(order.to_set() =~= m.dom());
        order
    } else {
        let k = m.dom().choose();
        assert(m.dom().contains(k));
        let rest = m.remove(k);
        let front = lemma_giving_order_exists(rest, height);
        assert forall|i: int| 0 <= i < front.len() implies rest.contains_key(#[trigger] front[i])
            by {
            assert(front.contains(front[i]));
            assert(front.to_set().contains(front[i]));
        }
        let at = giving_place(m, height, front, k);
        lemma_giving_place(m, height, front, k);
        let order = front.insert(at, k);
        assert forall|j: int| at <= j < front.len() implies goes_before(
            m,
            height,
            k,
            #[trigger] front[j],
        ) by {
            assert(rest.contains_key(front[at]));
            crate::text::lemma_precedes_total(front[at], k);
            if j > at {
                assert(goes_before(rest, height, front[at], front[j]));
                assert(rest.contains_key(front[j]));
                assert(goes_before(m, height, front[at], front[j]));
                lemma_goes_before_transitive(m, height, k, front[at], front[j]);
            }
        }
        assert forall|i: int, j: int| 0 <= i < j < order.len() implies goes_before(
            m,
            height,
            #[trigger] order[i],
            #[trigger] order[j],
        ) by {
            let a = if i < at { i } else { i - 1 };
            let b = if j < at { j } else { j - 1 };
            if i != at {
                assert(order[i] == front[a]);
            }
            if j != at {
                assert(order[j] == front[b]);
            }
            if i != at && j != at {
                assert(goes_before(rest, height, front[a], front[b]));
                assert(rest.contains_key(front[a]) && rest.contains_key(front[b]));
            }
        }
        assert forall|i: int, j: int|
            0 <= i < order.len() && 0 <= j < order.len() && i != j implies order[i] != order[j] by {
            if i < j {
                lemma_goes_before_asymmetric(m, height, order[i], order[j]);
            } else {
                lemma_goes_before_asymmetric(m, height, order[j], order[i]);
            }
        }
        assert forall|x: Seq<char>| order.to_set().contains(x) <==> m.dom().contains(x) by {
            crate::table::lemma_insert_contains(front, at, k, x);
            assert(front.to_set().contains(x) <==> rest.dom().contains(x));
        }
        assert(order.to_set() =~= m.dom());
        order
    }
}

/// The leading pins of a list in giving order that it takes to free what is in excess are an
/// eviction.
proof fn lemma_prefix_is_eviction(
    m: Map<Seq<char>, HeldEntry>,
    target: u64,
    height: u64,
    order: Seq<Seq<char>>,
    n: int,
)
    requires
        is_giving_order(m, height, order),
        0 <= n <= order.len(),
        bytes_of(m, order.take(n)) >= excess(m, target),
        n > 0 ==> bytes_of(m, order.take(n - 1)) < excess(m, target),
    ensures
        is_eviction(m, target, height, order.take(n)),
{
    let v = order.take(n);
    if n > 0 {
        assert(v.drop_last() =~= order.take(n - 1));
    }
    assert forall|x: Seq<char>| v.to_set().contains(x) implies m.dom().contains(x) by {
        assert(order[v.index_of(x)] == x);
        assert(order.to_set().contains(x));
    }
    assert forall|a: int, k: Seq<char>|
        0 <= a < v.len() && #[trigger] m.contains_key(k) && !v.contains(k) implies goes_before(
        m,
        height,
        #[trigger] v[a],
        k,
    ) by {
        assert(order.to_set().contains(k));
        let b = order.index_of(k);
        assert(order[b] == k);
        if b < n {
            assert(v[b] == k);
        }
        assert(order[a] == v[a]);
    }
    assert forall|a: int, b: int| 0 <= a < b < v.len() implies goes_before(
        m,
        height,
        #[trigger] v[a],
        #[trigger] v[b],
    ) by {
        assert(order[a] == v[a] && order[b] == v[b]);
    }
}

/// From any held-set something can be evicted, nothing if it fits; [`eviction`] is that.
pub proof fn law_an_eviction_exists(m: Map<Seq<char>, HeldEntry>, target: u64, height: u64)
    requires
        m.dom().finite(),
    ensures
        is_eviction(m, target, height, eviction(m, target, height)),
{
    let order = lemma_giving_order_exists(m, height);
    law_total_along_any_list(m, order);
    assert(order.take(order.len() as int) =~= order);
    let n = lemma_shortest_prefix(m, order, excess(m, target), order.len() as int);
    lemma_prefix_is_eviction(m, target, height, order, n);
}

proof fn lemma_shortest_prefix(
    m: Map<Seq<char>, HeldEntry>,
    order: Seq<Seq<char>>,
    need: nat,
    n: int,
) -> (k: int)
    requires
        0 <= n <= order.len(),
        bytes_of(m, order.take(n)) >= need,
    ensures
        0 <= k <= n,
        bytes_of(m, order.take(k)) >= need,
        k > 0 ==> bytes_of(m, order.take(k - 1)) < need,
    decreases n,
{
    if n > 0 && bytes_of(m, order.take(n - 1)) >= need {
        lemma_shortest_prefix(m, order, need, n - 1)
    } else {
        n
    }
}

/// What is left once the pins listed in `v` are dropped adds up to the total less their sizes.
pub proof fn law_total_after_drop(m: Map<Seq<char>, HeldEntry>, v: Seq<Seq<char>>)
    requires
        m.dom().finite(),
        v.no_duplicates(),
        v.to_set().subset_of(m.dom()),
    ensures
        m.remove_keys(v.to_set()).dom().finite(),
        total(m.remove_keys(v.to_set())) + bytes_of(m, v) == total(m),
    decreases v.len(),
{
    if v.len() == 0 {
        assert(m.remove_keys(v.to_set()) =~= m);
    } else {
        let front = v.drop_last();
        let k = v.last();
        assert forall|x: Seq<char>| front.to_set().contains(x) implies m.dom().contains(x) by {
            assert(v[front.index_of(x)] == x);
            assert(v.to_set().contains(x));
        }
        law_total_after_drop(m, front);
        let rest = m.remove_keys(front.to_set());
        assert(v.contains(k));
        assert(v.to_set().contains(k));
        assert(!front.contains(k)) by {
            if front.contains(k) {
                assert(v[front.index_of(k)] == v[v.len() - 1]);
            }
        }
        assert(rest.contains_key(k));
        law_total_without_one(rest, k);
        assert(rest.remove(k) =~= m.remove_keys(v.to_set())) by {
            assert forall|x: Seq<char>| v.to_set().contains(x) <==> front.to_set().contains(x) || x
                == k by {
                if v.contains(x) && x != k {
                    assert(front[v.index_of(x)] == x);
                }
                if front.contains(x) {
                    assert(v[front.index_of(x)] == x);
                }
            }
        }
    }
}

/// An eviction brings the total down to the target.
pub proof fn law_eviction_fits(
    m: Map<Seq<char>, HeldEntry>,
    target: u64,
    height: u64,
    v: Seq<Seq<char>>,
)
    requires
        m.dom().finite(),
        is_eviction(m, target, height, v),
    ensures
        total(m.remove_keys(v.to_set())) <= target,
{
    law_total_after_drop(m, v);
}

/// Nothing is evicted from a set that fits.
pub proof fn law_no_eviction_when_it_fits(
    m: Map<Seq<char>, HeldEntry>,
    target: u64,
    height: u64,
    v: Seq<Seq<char>>,
)
    requires
        is_eviction(m, target, height, v),
        total(m) <= target,
    ensures
        v.len() == 0,
{
}

/// A live pin is evicted only if every expired pin is evicted ahead of it.
pub proof fn law_expired_pins_go_first(
    m: Map<Seq<char>, HeldEntry>,
    target: u64,
    height: u64,
    v: Seq<Seq<char>>,
    live: int,
    gone: Seq<char>,
)
    requires
        is_eviction(m, target, height, v),
        0 <= live < v.len(),
        !expired_at(m[v[live]], height),
        m.contains_key(gone),
        expired_at(m[gone], height),
    ensures
        v.contains(gone),
        v.index_of(gone) < live,
{
    if v.contains(gone) {
        let i = v.index_of(gone);
        assert(v[i] == gone);
        if i > live {
            assert(goes_before(m, height, v[live], v[i]));
        }
    }
}

/// Between pins that are both expired or both live, one that stays pays no less than one that is
/// evicted, and if it pays the same it was used no earlier.
pub proof fn law_kept_pins_are_worth_more(
    m: Map<Seq<char>, HeldEntry>,
    target: u64,
    height: u64,
    v: Seq<Seq<char>>,
    i: int,
    kept: Seq<char>,
)
    requires
        is_eviction(m, target, height, v),
        0 <= i < v.len(),
        m.contains_key(kept),
        !v.contains(kept),
        expired_at(m[kept], height) == expired_at(m[v[i]], height),
    ensures
        ({
            let kept_rent = crate::text::base_units(m[kept].rent_per_gb_hour@);
            let evicted_rent = crate::text::base_units(m[v[i]].rent_per_gb_hour@);
            &&& kept_rent >= evicted_rent
            &&& kept_rent == evicted_rent ==> m[kept].last_access >= m[v[i]].last_access
        }),
{
    assert(goes_before(m, height, v[i], kept));
}

/// What decides the place of a pin in the order in which pins are given up.
struct EvictionKey {
    expired: bool,
    rent: u128,
    last_access: u64,
    cid: String,
    bytes: u64,
}

impl Ranked for EvictionKey {
    closed spec fn before(self, other: Self) -> bool {
        if self.expired != other.expired {
            self.expired
        } else if self.rent != other.rent {
            self.rent < other.rent
        } else if self.last_access != other.last_access {
            self.last_access < other.last_access
        } else {
            crate::text::precedes(self.cid@, other.cid@)
        }
    }

    proof fn before_irreflexive(a: Self) {
        crate::text::lemma_precedes_irreflexive(a.cid@);
    }

    proof fn before_transitive(a: Self, b: Self, c: Self) {
        if crate::text::precedes(a.cid@, b.cid@) && crate::text::precedes(b.cid@, c.cid@) {
            crate::text::lemma_precedes_transitive(a.cid@, b.cid@, c.cid@);
        }
    }

    proof fn not_before_transitive(a: Self, b: Self, c: Self) {
        crate::text::lemma_not_precedes_transitive(a.cid@, b.cid@, c.cid@);
    }

    fn is_before(&self, other: &Self) -> (r: bool) {
        if self.expired != other.expired {
            self.expired
        } else if self.rent != other.rent {
            self.rent < other.rent
        } else if self.last_access != other.last_access {
            self.last_access < other.last_access
        } else {
            str_precedes(self.cid.as_str(), other.cid.as_str())
        }
    }
}

impl EvictionKey {
    /// The key is that of a pin of `m`.
    spec fn is_key_in(self, m: Map<Seq<char>, HeldEntry>, height: u64) -> bool {
        let e = m[self.cid@];
        &&& m.contains_key(self.cid@)
        &&& self.expired == expired_at(e, height)
        &&& self.rent == crate::text::base_units(e.rent_per_gb_hour@)
        &&& self.last_access == e.last_access
        &&& self.bytes == e.bytes
    }
}

spec fn cids(keys: Seq<EvictionKey>) -> Seq<Seq<char>> {
    keys.map_values(|k: EvictionKey| k.cid@)
}

/// Sorting the keys of all pins lists the pins in the order in which they are given up.
proof fn lemma_sorted_keys(
    m: Map<Seq<char>, HeldEntry>,
    height: u64,
    keys: Seq<EvictionKey>,
    out: Seq<EvictionKey>,
)
    requires
        forall|i: int| 0 <= i < keys.len() ==> (#[trigger] keys[i]).is_key_in(m, height),
        cids(keys).no_duplicates(),
        cids(keys).to_set() == m.dom(),
        crate::order::sorting_of(keys, out),
    ensures
        forall|i: int| 0 <= i < out.len() ==> (#[trigger] out[i]).is_key_in(m, height),
        cids(out).no_duplicates(),
        cids(out).to_set() == m.dom(),
        forall|i: int, j: int|
            0 <= i < j < out.len() ==> goes_before(
                m,
                height,
                #[trigger] cids(out)[i],
                #[trigger] cids(out)[j],
            ),
{
    vstd::seq_lib::to_multiset_len(keys);
    vstd::seq_lib::to_multiset_len(out);
    assert forall|x: EvictionKey| #[trigger] out.contains(x) <==> keys.contains(x) by {
        vstd::seq_lib::to_multiset_contains(keys, x);
        vstd::seq_lib::to_multiset_contains(out, x);
    }
    assert forall|i: int| 0 <= i < out.len() implies (#[trigger] out[i]).is_key_in(m, height) by {
        assert(out.contains(out[i]));
        assert(keys[keys.index_of(out[i])] == out[i]);
    }
    assert forall|x: Seq<char>| cids(out).to_set().contains(x) <==> cids(keys).to_set().contains(
        x,
    ) by {
        if cids(out).contains(x) {
            let k = out[cids(out).index_of(x)];
            assert(out.contains(k));
            assert(cids(keys)[keys.index_of(k)] == x);
        }
        if cids(keys).contains(x) {
            let k = keys[cids(keys).index_of(x)];
            assert(keys.contains(k));
            assert(out.contains(k));
            assert(cids(out)[out.index_of(k)] == x);
        }
    }
    assert(cids(out).to_set() =~= cids(keys).to_set());
    // As many places as identifiers: no identifier fills two.
    cids(keys).unique_seq_to_set();
    assert(cids(out).to_set().len() == cids(out).len());
    vstd::seq_lib::seq_to_set_is_finite(cids(out));
    cids(out).lemma_no_dup_set_cardinality();
    assert forall|i: int, j: int| 0 <= i < j < out.len() implies goes_before(
        m,
        height,
        #[trigger] cids(out)[i],
        #[trigger] cids(out)[j],
    ) by {
        assert(!out[j].before(out[i]));
        assert(out[i].is_key_in(m, height) && out[j].is_key_in(m, height));
        assert(cids(out)[i] != cids(out)[j]);
        crate::text::lemma_precedes_total(out[i].cid@, out[j].cid@);
    }
}

proof fn lemma_pushed_set(s: Seq<Seq<char>>, k: Seq<char>)
    ensures
        s.push(k).to_set() == s.to_set().insert(k),
{
    let t = s.push(k);
    assert forall|x: Seq<char>| t.to_set().contains(x) <==> s.to_set().contains(x) || x == k by {
        if t.contains(x) && x != k {
            assert(s[t.index_of(x)] == x);
        }
        if s.contains(x) {
            assert(t[s.index_of(x)] == x);
        }
        assert(t[s.len() as int] == k);
    }
    assert(t.to_set() =~= s.to_set().insert(k));
}

/// The expired pins among a list are those of the list that have expired.
proof fn lemma_expired_among(m: Map<Seq<char>, HeldEntry>, order: Seq<Seq<char>>, height: u64)
    ensures
        forall|k: Seq<char>| #[trigger]
            expired_among(m, order, height).contains(k) <==> order.contains(k) && expired_at(
                m[k],
                height,
            ),
{
    let pred = |k: Seq<char>| expired_at(m[k], height);
    crate::order::lemma_filter_contains(order, pred);
}

/// The pins that a host holds, by content identifier.
#[derive(Debug, PartialEq, Eq)]
pub struct HeldSet {
    /// Version of the stored form that the set was read from; zero if none.
    pub version: u32,
    /// Content identifier to record.
    pub entries: Table<HeldEntry>,
}

impl Default for HeldSet {
    fn default() -> (r: Self)
        ensures
            r.version == 0,
            r.entries@ == Map::<Seq<char>, HeldEntry>::empty(),
    {
        HeldSet { version: 0, entries: Table::new() }
    }
}

impl Clone for HeldSet {
    fn clone(&self) -> (r: Self)
        ensures
            r.version == self.version,
            r.entries@ == self.entries@,
            r.entries.order() == self.entries.order(),
    {
        let entries = self.entries.clone();
        assert(entries@ =~= self.entries@) by {
            assert forall|k: Seq<char>| entries@.contains_key(k) implies #[trigger] entries@[k]
                == self.entries@[k] by {
                assert(cloned(self.entries@[k], entries@[k]));
            }
        }
        HeldSet { version: self.version, entries }
    }
}

impl HeldSet {
    /// Whether a content identifier is held.
    pub fn contains(&self, cid: &str) -> (r: bool)
        ensures
            r == self.entries@.contains_key(cid@),
    {
        self.entries.contains_key(cid)
    }

    /// The number of pins held.
    pub fn len(&self) -> (r: usize)
        ensures
            r == self.entries@.dom().len(),
    {
        self.entries.len()
    }

    /// Whether nothing is held.
    pub fn is_empty(&self) -> (r: bool)
        ensures
            r == (self.entries@ == Map::<Seq<char>, HeldEntry>::empty()),
    {
        self.entries.is_empty()
    }

    /// The bytes held in all.
    pub(crate) fn exact_total(&self) -> (r: u128)
        ensures
            self.entries@.dom().finite(),
            r == total(self.entries@),
            r <= 0xffff_ffff_ffff_fffe_0000_0000_0000_0001,
    {
        let ghost m = self.entries@;
        let ghost order = self.entries.order();
        proof {
            use_type_invariant(&self.entries);
            self.entries.lemma_order();
            law_total_along_any_list(m, order);
        }
        let mut sum: u128 = 0;
        let mut i: usize = 0;
        let n: usize = self.entries.len();
        while i < n
            invariant
                m == self.entries@,
                order == self.entries.order(),
                n == order.len(),
                i <= n,
                sum == bytes_of(m, order.take(i as int)),
                sum <= i * u64::MAX,
            decreases n - i,
        {
            let e = self.entries.value_at(i);
            assert(order.take(i + 1).drop_last() =~= order.take(i as int));
            sum = sum + e.bytes as u128;
            i += 1;
        }
        assert(order.take(i as int) =~= order);
        sum
    }

    /// The bytes held in all, or `u64::MAX` if they are more than that.
    pub fn total_bytes(&self) -> (r: u64)
        ensures
            self.entries@.dom().finite(),
            r == capped(total(self.entries@)),
    {
        let sum: u128 = self.exact_total();
        if sum <= u64::MAX as u128 {
            sum as u64
        } else {
            u64::MAX
        }
    }

    /// Records a pin. Of one that is held already, size, terms and last use are brought up to date;
    /// when it was accepted, and from whom, stays.
    pub fn insert(&mut self, cid: String, entry: HeldEntry)
        ensures
            final(self).entries@ == recorded(old(self).entries@, cid@, entry),
            final(self).version == old(self).version,
    {
        let entry = match self.entries.get(cid.as_str()) {
            Some(known) => HeldEntry {
                bytes: entry.bytes,
                rent_per_gb_hour: entry.rent_per_gb_hour,
                expiry_height: entry.expiry_height,
                pinned_at: known.pinned_at,
                last_access: entry.last_access,
                publisher: known.publisher.clone(),
            },
            None => entry,
        };
        let _ = self.entries.insert(cid, entry);
    }

    /// Fills in the size of a pin that was recorded without one. Does nothing if it is not held or
    /// has a size.
    pub fn learn_size(&mut self, cid: &str, bytes: u64)
        ensures
            final(self).entries@ == learned(old(self).entries@, cid@, bytes),
            final(self).version == old(self).version,
    {
        if let Some(e) = self.entries.get_mut(cid) {
            if e.bytes == 0 {
                e.bytes = bytes;
            }
        }
        assert(self.entries@ =~= learned(old(self).entries@, cid@, bytes));
    }

    /// Notes that a pin was used at `now`. Does nothing if it is not held.
    pub fn touch(&mut self, cid: &str, now: u64)
        ensures
            final(self).version == old(self).version,
            !old(self).entries@.contains_key(cid@) ==> final(self).entries@ == old(self).entries@,
            old(self).entries@.contains_key(cid@) ==> final(self).entries@ == old(
                self,
            ).entries@.insert(
                cid@,
                (HeldEntry { last_access: now, ..old(self).entries@[cid@] }),
            ),
    {
        if let Some(e) = self.entries.get_mut(cid) {
            e.last_access = now;
        }
    }

    /// Drops a pin and says how many bytes that freed; none if it was not held.
    pub fn remove(&mut self, cid: &str) -> (r: u64)
        ensures
            final(self).entries@ == old(self).entries@.remove(cid@),
            final(self).version == old(self).version,
            r == (if old(self).entries@.contains_key(cid@) {
                old(self).entries@[cid@].bytes
            } else {
                0
            }),
    {
        match self.entries.remove(cid) {
            Some(e) => e.bytes,
            None => 0,
        }
    }

    /// The identifiers whose lease has run out at a height, ascending.
    pub fn expired(&self, current_height: u64) -> (r: Vec<String>)
        ensures
            crate::text::texts(r@) == expired_among(
                self.entries@,
                self.entries.order(),
                current_height,
            ),
            crate::table::ascending(self.entries.order()),
            self.entries.order().to_set() == self.entries@.dom(),
    {
        let ghost m = self.entries@;
        let ghost order = self.entries.order();
        proof {
            use_type_invariant(&self.entries);
            self.entries.lemma_order();
        }
        let mut out: Vec<String> = Vec::new();
        let mut i: usize = 0;
        let n: usize = self.entries.len();
        reveal_with_fuel(Seq::filter, 1);
        assert(crate::text::texts(out@) =~= expired_among(m, order.take(0), current_height));
        while i < n
            invariant
                m == self.entries@,
                order == self.entries.order(),
                n == order.len(),
                i <= n,
                crate::text::texts(out@) == expired_among(m, order.take(i as int), current_height),
            decreases n - i,
        {
            reveal_with_fuel(Seq::filter, 1);
            assert(order.take(i + 1).drop_last() =~= order.take(i as int));
            if is_expired(self.entries.value_at(i), current_height) {
                let ghost before = out@;
                let cid = self.entries.key_at(i).clone();
                let ghost text = cid@;
                out.push(cid);
                assert(crate::text::texts(out@) =~= crate::text::texts(before).push(text));
            }
            i += 1;
        }
        assert(order.take(i as int) =~= order);
        out
    }

    /// Drops every pin in a list.
    pub fn remove_all(&mut self, cids: &[String])
        ensures
            final(self).entries@ == old(self).entries@.remove_keys(
                crate::text::texts(cids@).to_set(),
            ),
            final(self).version == old(self).version,
    {
        let ghost m = self.entries@;
        let ghost all = crate::text::texts(cids@);
        let mut i: usize = 0;
        assert(m.remove_keys(all.take(0).to_set()) =~= m);
        while i < cids.len()
            invariant
                i <= cids@.len(),
                all == crate::text::texts(cids@),
                self.entries@ == m.remove_keys(all.take(i as int).to_set()),
                self.version == old(self).version,
            decreases cids@.len() - i,
        {
            let _ = self.remove(cids[i].as_str());
            proof {
                let k = all[i as int];
                let done = all.take(i as int);
                let next = all.take(i + 1);
                assert(next =~= done.push(k));
                lemma_pushed_set(done, k);
                assert(m.remove_keys(done.to_set()).remove(k) =~= m.remove_keys(next.to_set()));
            }
            i += 1;
        }
        assert(all.take(i as int) =~= all);
    }

    /// Drops the pins whose lease has run out at a height and lists them, ascending.
    pub fn drop_expired(&mut self, current_height: u64) -> (r: Vec<String>)
        ensures
            final(self).entries@ == unexpired(old(self).entries@, current_height),
            final(self).version == old(self).version,
            crate::text::texts(r@) == expired_among(
                old(self).entries@,
                old(self).entries.order(),
                current_height,
            ),
    {
        let gone = self.expired(current_height);
        self.remove_all(gone.as_slice());
        proof {
            lemma_expired_among(old(self).entries@, old(self).entries.order(), current_height);
            assert(self.entries@ =~= unexpired(old(self).entries@, current_height));
        }
        gone
    }

    /// Completes a set as it was read from storage. A set without version and without records is
    /// of the oldest form, which listed identifiers only: each of those gets an empty record.
    pub fn migrated(self, legacy_cids: Vec<String>) -> (r: Self)
        ensures
            r.version == HELD_SCHEMA_VERSION,
            if self.version == 0 && self.entries@.dom().len() == 0 {
                &&& r.entries@.dom() == crate::text::texts(legacy_cids@).to_set()
                &&& forall|k: Seq<char>| #[trigger]
                    r.entries@.contains_key(k) ==> unaccounted(r.entries@[k])
            } else {
                r.entries@ == self.entries@
            },
    {
        let mut set = self;
        if set.version == 0 && set.entries.len() == 0 {
            let ghost all = crate::text::texts(legacy_cids@);
            let mut i: usize = 0;
            proof {
                use_type_invariant(&set.entries);
                set.entries.lemma_order();
                assert(set.entries@.dom() =~= all.take(0).to_set());
            }
            while i < legacy_cids.len()
                invariant
                    i <= legacy_cids@.len(),
                    all == crate::text::texts(legacy_cids@),
                    set.entries@.dom() == all.take(i as int).to_set(),
                    forall|k: Seq<char>| #[trigger]
                        set.entries@.contains_key(k) ==> unaccounted(set.entries@[k]),
                decreases legacy_cids@.len() - i,
            {
                let _ = set.entries.insert(legacy_cids[i].clone(), HeldEntry::default_record());
                proof {
                    let k = all[i as int];
                    let done = all.take(i as int);
                    let next = all.take(i + 1);
                    assert(next =~= done.push(k));
                    lemma_pushed_set(done, k);
                    assert(set.entries@.dom() =~= next.to_set());
                }
                i += 1;
            }
            assert(all.take(i as int) =~= all);
        }
        set.version = HELD_SCHEMA_VERSION;
        set
    }

    /// The keys of all pins.
    fn eviction_keys(&self, current_height: u64) -> (r: Vec<EvictionKey>)
        ensures
            forall|i: int|
                0 <= i < r@.len() ==> (#[trigger] r@[i]).is_key_in(self.entries@, current_height),
            cids(r@).no_duplicates(),
            cids(r@).to_set() == self.entries@.dom(),
    {
        let ghost order = self.entries.order();
        proof {
            use_type_invariant(&self.entries);
            self.entries.lemma_order();
        }
        let mut out: Vec<EvictionKey> = Vec::new();
        let mut i: usize = 0;
        let n: usize = self.entries.len();
        assert(cids(out@) =~= order.take(0));
        while i < n
            invariant
                order == self.entries.order(),
                n == order.len(),
                i <= n,
                cids(out@) == order.take(i as int),
                forall|j: int| 0 <= j < n ==> self.entries@.contains_key(#[trigger] order[j]),
                forall|j: int|
                    0 <= j < out@.len() ==> (#[trigger] out@[j]).is_key_in(
                        self.entries@,
                        current_height,
                    ),
            decreases n - i,
        {
            let e = self.entries.value_at(i);
            let key = EvictionKey {
                expired: is_expired(e, current_height),
                rent: e.rent_base(),
                last_access: e.last_access,
                cid: self.entries.key_at(i).clone(),
                bytes: e.bytes,
            };
            let ghost before = out@;
            assert(self.entries@.contains_key(order[i as int]));
            out.push(key);
            assert(cids(out@) =~= cids(before).push(order[i as int]));
            assert(order.take(i + 1) =~= order.take(i as int).push(order[i as int]));
            i += 1;
        }
        assert(order.take(i as int) =~= order);
        out
    }

    /// Chooses what to drop so that the total comes down to `target_bytes`: expired pins first,
    /// then those of the lowest rent, then the least recently used, then by identifier. The pins
    /// are listed in the order in which they go; nothing is dropped here. A set that fits loses
    /// nothing.
    pub fn evict_to_fit(&self, target_bytes: u64, current_height: u64) -> (r: Vec<String>)
        ensures
            self.entries@.dom().finite(),
            is_eviction(self.entries@, target_bytes, current_height, crate::text::texts(r@)),
            crate::text::texts(r@) == eviction(self.entries@, target_bytes, current_height),
    {
        let ghost m = self.entries@;
        let total: u128 = self.exact_total();
        let mut victims: Vec<String> = Vec::new();
        let keys = self.eviction_keys(current_height);
        let ranked = sorted(keys);
        let ghost all = cids(ranked@);
        let ghost need = excess(m, target_bytes);
        proof {
            lemma_sorted_keys(m, current_height, keys@, ranked@);
            law_total_along_any_list(m, all);
            assert(crate::text::texts(victims@) =~= all.take(0));
        }
        let mut need_to_free: u128 = if total <= target_bytes as u128 {
            0
        } else {
            total - target_bytes as u128
        };
        let mut i: usize = 0;
        while i < ranked.len() && need_to_free > 0
            invariant
                all == cids(ranked@),
                i <= ranked@.len(),
                crate::text::texts(victims@) == all.take(i as int),
                need_to_free == (if bytes_of(m, all.take(i as int)) >= need {
                    0
                } else {
                    need - bytes_of(m, all.take(i as int))
                }),
                i > 0 ==> bytes_of(m, all.take(i - 1)) < need,
                forall|j: int|
                    0 <= j < ranked@.len() ==> (#[trigger] ranked@[j]).is_key_in(
                        m,
                        current_height,
                    ),
            decreases ranked@.len() - i,
        {
            let ghost before = victims@;
            let ghost k = all[i as int];
            assert(ranked@[i as int].is_key_in(m, current_height));
            victims.push(ranked[i].cid.clone());
            assert(crate::text::texts(victims@) =~= crate::text::texts(before).push(k));
            assert(all.take(i + 1) =~= all.take(i as int).push(k));
            assert(all.take(i + 1).drop_last() =~= all.take(i as int));
            need_to_free = need_to_free.saturating_sub(ranked[i].bytes as u128);
            i += 1;
        }
        proof {
            let v = all.take(i as int);
            if i == all.len() {
                assert(v =~= all);
            }
            lemma_prefix_is_eviction(m, target_bytes, current_height, all, i as int);
            law_eviction_is_unique(m, target_bytes, current_height, v);
        }
        victims
    }
}

/// A lease runs out at the height that it names and stays run out above it; one that names zero
/// never does.
pub proof fn law_leases_run_out_at_their_height(e: HeldEntry, height: u64)
    ensures
        expired_at(e, height) <==> 0 < e.expiry_height <= height,
{
}

/// What stays of the pins when the expired ones are dropped is every pin that is open-ended or has
/// a lease beyond the height, with its record as it was.
pub proof fn law_live_pins_stay_as_they_were(
    m: Map<Seq<char>, HeldEntry>,
    height: u64,
    k: Seq<char>,
)
    ensures
        unexpired(m, height).contains_key(k) <==> m.contains_key(k) && (m[k].expiry_height == 0
            || m[k].expiry_height > height),
        unexpired(m, height).contains_key(k) ==> unexpired(m, height)[k] == m[k],
{
}

/// The pins listed as expired are those at the places of the list whose lease names a height that
/// is not zero and has been reached, in their order.
pub proof fn law_expired_pins_are_listed_in_order(
    m: Map<Seq<char>, HeldEntry>,
    order: Seq<Seq<char>>,
    height: u64,
) -> (places: Seq<int>)
    ensures
        expired_among(m, order, height).len() == places.len(),
        forall|k: int|
            0 <= k < places.len() ==> 0 <= #[trigger] places[k] < order.len() && expired_among(
                m,
                order,
                height,
            )[k] == order[places[k]],
        forall|k: int, l: int|
            0 <= k < l < places.len() ==> #[trigger] places[k] < #[trigger] places[l],
        forall|j: int|
            0 <= j < order.len() ==> (#[trigger] places.contains(j) <==> m[order[j]].expiry_height
                != 0 && m[order[j]].expiry_height <= height),
{
    crate::order::lemma_filter_places(order, |k: Seq<char>| expired_at(m[k], height))
}

/// A host that holds nothing holds no bytes, and one pin is counted with its size.
pub proof fn law_total_of_none_and_one(k: Seq<char>, e: HeldEntry)
    ensures
        total(Map::<Seq<char>, HeldEntry>::empty()) == 0,
        total(Map::<Seq<char>, HeldEntry>::empty().insert(k, e)) == e.bytes,
{
    let none = Map::<Seq<char>, HeldEntry>::empty();
    assert(none.dom() =~= Set::<Seq<char>>::empty());
    law_total_after_insert(none, k, e);
}

/// A total is counted as it is up to the largest `u64`, and as that beyond.
pub proof fn law_totals_stop_at_the_largest(n: nat)
    ensures
        n <= 0xffff_ffff_ffff_ffff ==> capped(n) == n,
        n > 0xffff_ffff_ffff_ffff ==> capped(n) == 0xffff_ffff_ffff_ffff,
{
}

/// Recording touches one pin only. A pin that is new is recorded as it comes; one that is held
/// takes the size, the terms and the last use of the new record, and keeps the rest.
pub proof fn law_recording_touches_one_pin(
    m: Map<Seq<char>, HeldEntry>,
    cid: Seq<char>,
    entry: HeldEntry,
    k: Seq<char>,
)
    ensures
        recorded(m, cid, entry).contains_key(k) <==> m.contains_key(k) || k == cid,
        k != cid && m.contains_key(k) ==> recorded(m, cid, entry)[k] == m[k],
        !m.contains_key(cid) ==> recorded(m, cid, entry)[cid] == entry,
        m.contains_key(cid) ==> {
            let after = recorded(m, cid, entry)[cid];
            &&& after.bytes == entry.bytes
            &&& after.rent_per_gb_hour@ == entry.rent_per_gb_hour@
            &&& after.expiry_height == entry.expiry_height
            &&& after.last_access == entry.last_access
            &&& after.pinned_at == m[cid].pinned_at
            &&& after.publisher@ == m[cid].publisher@
        },
{
}

/// Learning a size touches nothing but the size of one pin.
pub proof fn law_learning_touches_one_size(
    m: Map<Seq<char>, HeldEntry>,
    cid: Seq<char>,
    bytes: u64,
    k: Seq<char>,
)
    requires
        m.contains_key(k),
    ensures
        learned(m, cid, bytes).contains_key(k),
        k != cid || m[k].bytes != 0 ==> learned(m, cid, bytes)[k] == m[k],
        k == cid && m[k].bytes == 0 ==> {
            let after = learned(m, cid, bytes)[k];
            &&& after.bytes == bytes
            &&& after.rent_per_gb_hour@ == m[k].rent_per_gb_hour@
            &&& after.expiry_height == m[k].expiry_height
            &&& after.pinned_at == m[k].pinned_at
            &&& after.last_access == m[k].last_access
            &&& after.publisher@ == m[k].publisher@
        },
{
}

/// An eviction gives up pins that are held, each once, until the rest fits, and stops there: with
/// the last of them kept the rest would not fit. Nothing is given up if everything fits.
pub proof fn law_eviction_stops_once_the_rest_fits(
    m: Map<Seq<char>, HeldEntry>,
    target: u64,
    height: u64,
)
    requires
        m.dom().finite(),
    ensures
        ({
            let v = eviction(m, target, height);
            &&& v.no_duplicates()
            &&& forall|i: int| 0 <= i < v.len() ==> m.contains_key(#[trigger] v[i])
            &&& total(m.remove_keys(v.to_set())) <= target
            &&& v.len() > 0 ==> total(m.remove_keys(v.drop_last().to_set())) > target
            &&& v.len() == 0 <==> total(m) <= target
        }),
{
    let v = eviction(m, target, height);
    law_an_eviction_exists(m, target, height);
    law_total_after_drop(m, v);
    assert forall|i: int| 0 <= i < v.len() implies m.contains_key(#[trigger] v[i]) by {
        assert(v.to_set().contains(v[i]));
    }
    if v.len() > 0 {
        let front = v.drop_last();
        assert forall|x: Seq<char>| front.to_set().contains(x) implies m.dom().contains(x) by {
            assert(v[front.index_of(x)] == x);
            assert(v.to_set().contains(x));
        }
        law_total_after_drop(m, front);
    } else {
        assert(m.remove_keys(v.to_set()) =~= m);
    }
}

/// What is given up comes before what is given up later and before what stays: a pin whose lease
/// has run out before one whose lease has not; between two of a kind the one of lower rent; at
/// equal rent the one used longer ago; and at equal use the one whose identifier comes first.
pub proof fn law_least_worth_keeping_goes_first(
    m: Map<Seq<char>, HeldEntry>,
    target: u64,
    height: u64,
    i: int,
    k: Seq<char>,
)
    requires
        m.dom().finite(),
        0 <= i < eviction(m, target, height).len(),
        m.contains_key(k),
        !eviction(m, target, height).take(i + 1).contains(k),
    ensures
        ({
            let a = eviction(m, target, height)[i];
            let gone_a = 0 < m[a].expiry_height <= height;
            let gone_k = 0 < m[k].expiry_height <= height;
            let rent_a = crate::text::base_units(m[a].rent_per_gb_hour@);
            let rent_k = crate::text::base_units(m[k].rent_per_gb_hour@);
            &&& gone_k ==> gone_a
            &&& gone_a == gone_k ==> rent_a <= rent_k
            &&& gone_a == gone_k && rent_a == rent_k ==> m[a].last_access <= m[k].last_access
            &&& gone_a == gone_k && rent_a == rent_k && m[a].last_access == m[k].last_access
                ==> crate::text::precedes(a, k)
        }),
{
    let v = eviction(m, target, height);
    law_an_eviction_exists(m, target, height);
    if v.contains(k) {
        let j = v.index_of(k);
        if j <= i {
            assert(v.take(i + 1)[j] == k);
        }
        assert(goes_before(m, height, v[i], v[j]));
    } else {
        assert(goes_before(m, height, v[i], k));
    }
}

/// The record of a pin of which nothing is known is worth nothing, is of no size, and never
/// expires.
pub proof fn law_unaccounted_pins_are_empty(e: HeldEntry, height: u64)
    requires
        unaccounted(e),
    ensures
        e.bytes == 0,
        e.rent_per_gb_hour@ == Seq::<char>::empty(),
        e.expiry_height == 0,
        e.pinned_at == 0,
        e.last_access == 0,
        e.publisher@ == Seq::<char>::empty(),
        crate::text::base_units(e.rent_per_gb_hour@) == 0,
        !expired_at(e, height),
{
    crate::text::law_blank_texts_are_white_space(e.rent_per_gb_hour@);
    assert(e.rent_per_gb_hour@ =~= Seq::<char>::empty());
    assert(e.publisher@ =~= Seq::<char>::empty());
}

/// Whatever pins are dropped, the total of the rest is no more than it was.
pub proof fn law_dropping_pins_adds_nothing(m: Map<Seq<char>, HeldEntry>, gone: Set<Seq<char>>)
    requires
        m.dom().finite(),
    ensures
        total(m.remove_keys(gone)) <= total(m),
    decreases m.dom().len(),
{
    if exists|k: Seq<char>| #[trigger] m.contains_key(k) && gone.contains(k) {
        let k = choose|k: Seq<char>| #[trigger] m.contains_key(k) && gone.contains(k);
        law_total_without_one(m, k);
        law_dropping_pins_adds_nothing(m.remove(k), gone);
        assert(m.remove(k).remove_keys(gone) =~= m.remove_keys(gone));
    } else {
        assert(m.remove_keys(gone) =~= m);
    }
}

} // verus!
