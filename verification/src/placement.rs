//! Replica placement: which hosts to ask to pin an object.
//!
//! Hosts are ranked by the work that they have proven to deliver, then by how recently they were
//! seen, then by free memory. Replicas are spread over fault domains, so that the loss of one
//! region or network does not take every copy with it.

use vstd::prelude::*;

use crate::order::{sorted, Ranked};
use crate::text::{contains_str, str_precedes, strip_prefix, trim};

verus! {

/// A host that could pin an object, with the signals that it is ranked by.
#[derive(Debug, PartialEq, Eq)]
pub struct Candidate {
    /// Node id of the host, 64 hexadecimal digits.
    pub node_id: String,
    /// Work that the host has proven to deliver; more is better.
    pub delivered_work: u64,
    /// Seconds since the host was last seen; fewer is better.
    pub last_seen_secs: u64,
    /// Free memory in MiB; more is better.
    pub mem_mb: u32,
    /// Region, zone or network of the host; blank if unknown.
    pub fault_domain: String,
}

impl Clone for Candidate {
    fn clone(&self) -> (r: Self)
        ensures
            r == *self,
    {
        Candidate {
            node_id: self.node_id.clone(),
            delivered_work: self.delivered_work,
            last_seen_secs: self.last_seen_secs,
            mem_mb: self.mem_mb,
            fault_domain: self.fault_domain.clone(),
        }
    }
}

impl Ranked for Candidate {
    /// More delivered work first, then the more recently seen, then the roomier, then by node id.
    open spec fn before(self, other: Self) -> bool {
        if self.delivered_work != other.delivered_work {
            self.delivered_work > other.delivered_work
        } else if self.last_seen_secs != other.last_seen_secs {
            self.last_seen_secs < other.last_seen_secs
        } else if self.mem_mb != other.mem_mb {
            self.mem_mb > other.mem_mb
        } else {
            crate::text::precedes(self.node_id@, other.node_id@)
        }
    }

    proof fn before_irreflexive(a: Self) {
        crate::text::lemma_precedes_irreflexive(a.node_id@);
    }

    proof fn before_transitive(a: Self, b: Self, c: Self) {
        if crate::text::precedes(a.node_id@, b.node_id@) && crate::text::precedes(
            b.node_id@,
            c.node_id@,
        ) {
            crate::text::lemma_precedes_transitive(a.node_id@, b.node_id@, c.node_id@);
        }
    }

    proof fn not_before_transitive(a: Self, b: Self, c: Self) {
        crate::text::lemma_not_precedes_transitive(a.node_id@, b.node_id@, c.node_id@);
    }

    fn is_before(&self, other: &Self) -> (r: bool) {
        if self.delivered_work != other.delivered_work {
            self.delivered_work > other.delivered_work
        } else if self.last_seen_secs != other.last_seen_secs {
            self.last_seen_secs < other.last_seen_secs
        } else if self.mem_mb != other.mem_mb {
            self.mem_mb > other.mem_mb
        } else {
            str_precedes(self.node_id.as_str(), other.node_id.as_str())
        }
    }
}

/// The candidates, best first. Candidates that nothing tells apart keep their order.
pub fn rank(candidates: &[Candidate]) -> (r: Vec<Candidate>)
    ensures
        r@ == crate::order::sorted_seq(candidates@),
        crate::order::sorting_of(candidates@, r@),
{
    let mut copy: Vec<Candidate> = Vec::new();
    let mut i: usize = 0;
    while i < candidates.len()
        invariant
            i <= candidates@.len(),
            copy@ == candidates@.take(i as int),
        decreases candidates@.len() - i,
    {
        copy.push(candidates[i].clone());
        i += 1;
    }
    assert(candidates@.take(i as int) =~= candidates@);
    sorted(copy)
}

/// Two candidates are tied only if every signal and the node id are the same: candidates of
/// different nodes always have an order.
pub proof fn law_only_equal_signals_tie(a: Candidate, b: Candidate)
    ensures
        crate::order::tied(a, b) <==> {
            &&& a.delivered_work == b.delivered_work
            &&& a.last_seen_secs == b.last_seen_secs
            &&& a.mem_mb == b.mem_mb
            &&& a.node_id@ == b.node_id@
        },
{
    crate::text::lemma_precedes_total(a.node_id@, b.node_id@);
    crate::text::lemma_precedes_irreflexive(a.node_id@);
}

/// The node ids of a list of candidates.
pub open spec fn ids(c: Seq<Candidate>) -> Seq<Seq<char>> {
    c.map_values(|x: Candidate| x.node_id@)
}

/// What a candidate counts towards when replicas are spread.
pub enum Bucket {
    /// A named fault domain.
    Domain(Seq<char>),
    /// A single node, whose domain is unknown.
    Node(Seq<char>),
}

/// The bucket that a candidate counts towards: its fault domain, or a bucket of its own if that
/// is unknown.
pub open spec fn domain(c: Candidate) -> Bucket {
    if crate::text::trimmed(c.fault_domain@).len() == 0 {
        Bucket::Node(c.node_id@)
    } else {
        Bucket::Domain(c.fault_domain@)
    }
}

/// A host of unknown domain has a bucket of its own: no other node shares it, whatever domain it
/// names.
pub proof fn law_unknown_domains_are_not_shared(a: Candidate, b: Candidate)
    requires
        crate::text::trimmed(a.fault_domain@).len() == 0,
        a.node_id@ != b.node_id@,
    ensures
        domain(a) != domain(b),
{
}

/// The buckets of a list of candidates.
pub open spec fn domains(c: Seq<Candidate>) -> Seq<Bucket> {
    c.map_values(|x: Candidate| domain(x))
}

/// The candidates that are not excluded, in their order.
pub open spec fn eligible(c: Seq<Candidate>, exclude: Seq<Seq<char>>) -> Seq<Candidate> {
    c.filter(|x: Candidate| !exclude.contains(x.node_id@))
}

/// Walking `c` in order, each candidate that shares neither node nor fault domain with one taken
/// before it.
pub open spec fn spread(c: Seq<Candidate>) -> Seq<Candidate>
    decreases c.len(),
{
    if c.len() == 0 {
        c
    } else {
        let taken = spread(c.drop_last());
        if ids(taken).contains(c.last().node_id@) || domains(taken).contains(domain(c.last())) {
            taken
        } else {
            taken.push(c.last())
        }
    }
}

/// `picked`, and behind it each node of `c` that is not in it yet, in order.
pub open spec fn topped_up(picked: Seq<Seq<char>>, c: Seq<Candidate>) -> Seq<Seq<char>>
    decreases c.len(),
{
    if c.len() == 0 {
        picked
    } else {
        let so_far = topped_up(picked, c.drop_last());
        if so_far.contains(c.last().node_id@) {
            so_far
        } else {
            so_far.push(c.last().node_id@)
        }
    }
}

/// The first `n` of a list, or all of it if it is shorter.
pub open spec fn first_n<A>(s: Seq<A>, n: nat) -> Seq<A> {
    if s.len() <= n {
        s
    } else {
        s.take(n as int)
    }
}

/// The nodes chosen among ranked, eligible candidates: one per fault domain, best first, then the
/// best of the rest, up to `n` in all.
pub open spec fn selection(ranked: Seq<Candidate>, n: nat) -> Seq<Seq<char>> {
    first_n(topped_up(first_n(ids(spread(ranked)), n), ranked), n)
}

/// The hosts chosen for an object: what [`select`] returns.
pub open spec fn chosen(
    candidates: Seq<Candidate>,
    n: nat,
    exclude: Seq<Seq<char>>,
) -> Seq<Seq<char>> {
    selection(eligible(crate::order::sorted_seq(candidates), exclude), n)
}

/// What a walk has taken after `i` candidates begins what it takes in all.
proof fn lemma_spread_prefix(c: Seq<Candidate>, i: int)
    requires
        0 <= i <= c.len(),
    ensures
        spread(c.take(i)).len() <= spread(c).len(),
        spread(c.take(i)) == spread(c).take(spread(c.take(i)).len() as int),
    decreases c.len() - i,
{
    if i == c.len() {
        assert(c.take(i) =~= c);
        assert(spread(c).take(spread(c).len() as int) =~= spread(c));
    } else {
        lemma_spread_prefix(c, i + 1);
        assert(c.take(i + 1).drop_last() =~= c.take(i));
        let k = spread(c.take(i)).len() as int;
        assert(spread(c.take(i)) =~= spread(c.take(i + 1)).take(k));
        assert(spread(c.take(i)) =~= spread(c).take(k));
    }
}

/// What a top-up holds after `i` candidates begins what it holds in all.
proof fn lemma_topped_up_prefix(picked: Seq<Seq<char>>, c: Seq<Candidate>, i: int)
    requires
        0 <= i <= c.len(),
    ensures
        topped_up(picked, c.take(i)).len() <= topped_up(picked, c).len(),
        topped_up(picked, c.take(i)) == topped_up(picked, c).take(
            topped_up(picked, c.take(i)).len() as int,
        ),
    decreases c.len() - i,
{
    if i == c.len() {
        assert(c.take(i) =~= c);
        assert(topped_up(picked, c).take(topped_up(picked, c).len() as int) =~= topped_up(
            picked,
            c,
        ));
    } else {
        lemma_topped_up_prefix(picked, c, i + 1);
        assert(c.take(i + 1).drop_last() =~= c.take(i));
        let k = topped_up(picked, c.take(i)).len() as int;
        assert(topped_up(picked, c.take(i)) =~= topped_up(picked, c.take(i + 1)).take(k));
        assert(topped_up(picked, c.take(i)) =~= topped_up(picked, c).take(k));
    }
}

fn eligible_of(ranked: Vec<Candidate>, exclude: &[String]) -> (r: Vec<Candidate>)
    ensures
        r@ == eligible(ranked@, crate::text::texts(exclude@)),
{
    let mut out: Vec<Candidate> = Vec::new();
    let mut i: usize = 0;
    let ghost ex = crate::text::texts(exclude@);
    reveal_with_fuel(Seq::filter, 1);
    while i < ranked.len()
        invariant
            i <= ranked@.len(),
            ex == crate::text::texts(exclude@),
            out@ == eligible(ranked@.take(i as int), ex),
        decreases ranked@.len() - i,
    {
        reveal_with_fuel(Seq::filter, 1);
        assert(ranked@.take(i + 1).drop_last() =~= ranked@.take(i as int));
        if !contains_str(exclude, ranked[i].node_id.as_str()) {
            out.push(ranked[i].clone());
        }
        i += 1;
    }
    assert(ranked@.take(i as int) =~= ranked@);
    out
}

/// The named domains of a list of candidates are `names`, and the nodes of unknown domain are among
/// its nodes.
spec fn used_by(names: Seq<Seq<char>>, taken: Seq<Candidate>) -> bool {
    &&& forall|d: Seq<char>| #[trigger]
        names.contains(d) <==> domains(taken).contains(Bucket::Domain(d))
    &&& forall|id: Seq<char>|
        #[trigger] domains(taken).contains(Bucket::Node(id)) ==> ids(taken).contains(id)
}

proof fn lemma_used_by_push(names: Seq<Seq<char>>, taken: Seq<Candidate>, c: Candidate)
    requires
        used_by(names, taken),
    ensures
        domain(c) is Node ==> used_by(names, taken.push(c)),
        domain(c) matches Bucket::Domain(d) ==> used_by(names.push(d), taken.push(c)),
{
    let all = taken.push(c);
    assert(domains(all) =~= domains(taken).push(domain(c)));
    assert(ids(all) =~= ids(taken).push(c.node_id@));
    assert forall|b: Bucket| domains(all).contains(b) <==> domains(taken).contains(b) || b
        == domain(c) by {
        lemma_push_contains(domains(taken), domain(c), b);
    }
    assert forall|id: Seq<char>| ids(all).contains(id) <==> ids(taken).contains(id) || id
        == c.node_id@ by {
        lemma_push_contains(ids(taken), c.node_id@, id);
    }
    if let Bucket::Domain(d) = domain(c) {
        assert forall|x: Seq<char>| #[trigger] names.push(d).contains(x) <==> domains(all).contains(
            Bucket::Domain(x),
        ) by {
            lemma_push_contains(names, d, x);
            assert(names.contains(x) <==> domains(taken).contains(Bucket::Domain(x)));
        }
    }
}

proof fn lemma_push_contains<A>(s: Seq<A>, x: A, y: A)
    ensures
        s.push(x).contains(y) <==> s.contains(y) || y == x,
{
    let t = s.push(x);
    assert(t[s.len() as int] == x);
    if s.contains(y) {
        assert(t[s.index_of(y)] == y);
    }
    if t.contains(y) && y != x {
        assert(s[t.index_of(y)] == y);
    }
}

/// One host per fault domain, best first, at most `n`.
fn pick_spread(ranked: &Vec<Candidate>, n: usize) -> (r: Vec<String>)
    ensures
        crate::text::texts(r@) == first_n(ids(spread(ranked@)), n as nat),
{
    let mut picked: Vec<String> = Vec::new();
    let mut used: Vec<String> = Vec::new();
    let mut i: usize = 0;
    assert(spread(ranked@.take(0)) =~= Seq::<Candidate>::empty());
    assert(crate::text::texts(picked@) =~= ids(Seq::<Candidate>::empty()));
    assert(domains(Seq::<Candidate>::empty()) =~= Seq::<Bucket>::empty());
    while i < ranked.len() && picked.len() < n
        invariant
            i <= ranked@.len(),
            picked@.len() <= n,
            crate::text::texts(picked@) == ids(spread(ranked@.take(i as int))),
            used_by(crate::text::texts(used@), spread(ranked@.take(i as int))),
        decreases ranked@.len() - i,
    {
        let c = &ranked[i];
        let ghost taken = spread(ranked@.take(i as int));
        assert(ranked@.take(i + 1).drop_last() =~= ranked@.take(i as int));
        let known = !trim(c.fault_domain.as_str()).is_empty();
        let domain_taken = known && contains_str(used.as_slice(), c.fault_domain.as_str());
        if !domain_taken && !contains_str(picked.as_slice(), c.node_id.as_str()) {
            let ghost picked_before = picked@;
            let ghost used_before = used@;
            proof {
                assert(ids(taken.push(*c)) =~= ids(taken).push(c.node_id@));
                assert(!domains(taken).contains(domain(*c)));
                lemma_used_by_push(crate::text::texts(used@), taken, *c);
            }
            picked.push(c.node_id.clone());
            if known {
                used.push(c.fault_domain.clone());
                assert(crate::text::texts(used@) =~= crate::text::texts(used_before).push(
                    c.fault_domain@,
                ));
            }
            assert(crate::text::texts(picked@) =~= crate::text::texts(picked_before).push(
                c.node_id@,
            ));
        }
        i += 1;
    }
    proof {
        lemma_spread_prefix(ranked@, i as int);
        let part = spread(ranked@.take(i as int));
        assert(crate::text::texts(picked@).len() == picked@.len());
        assert(ids(part) =~= ids(spread(ranked@)).take(part.len() as int));
        if i == ranked@.len() {
            assert(ranked@.take(i as int) =~= ranked@);
        }
        assert(crate::text::texts(picked@) =~= first_n(ids(spread(ranked@)), n as nat));
    }
    picked
}

/// Fills `picked` up to `n` with the best hosts that are not in it yet.
fn top_up(picked: Vec<String>, ranked: &Vec<Candidate>, n: usize) -> (r: Vec<String>)
    requires
        picked@.len() <= n,
    ensures
        crate::text::texts(r@) == first_n(
            topped_up(crate::text::texts(picked@), ranked@),
            n as nat,
        ),
{
    let ghost start = crate::text::texts(picked@);
    let mut out = picked;
    let mut i: usize = 0;
    assert(topped_up(start, ranked@.take(0)) == start);
    while i < ranked.len() && out.len() < n
        invariant
            i <= ranked@.len(),
            out@.len() <= n,
            crate::text::texts(out@) == topped_up(start, ranked@.take(i as int)),
        decreases ranked@.len() - i,
    {
        let c = &ranked[i];
        assert(ranked@.take(i + 1).drop_last() =~= ranked@.take(i as int));
        if !contains_str(out.as_slice(), c.node_id.as_str()) {
            let ghost out_before = out@;
            out.push(c.node_id.clone());
            assert(crate::text::texts(out@) =~= crate::text::texts(out_before).push(c.node_id@));
        }
        i += 1;
    }
    proof {
        lemma_topped_up_prefix(start, ranked@, i as int);
        assert(crate::text::texts(out@).len() == out@.len());
        if i == ranked@.len() {
            assert(ranked@.take(i as int) =~= ranked@);
        }
        assert(crate::text::texts(out@) =~= first_n(topped_up(start, ranked@), n as nat));
    }
    out
}

/// Picks up to `n` distinct hosts, best first, none of them in `exclude`.
///
/// The best host of each fault domain comes first; if there are fewer domains than `n`, the best of
/// the remaining hosts follow, whatever their domain.
pub fn select(candidates: &[Candidate], n: usize, exclude: &[String]) -> (r: Vec<String>)
    ensures
        crate::text::texts(r@) == chosen(candidates@, n as nat, crate::text::texts(exclude@)),
{
    let ranked = eligible_of(rank(candidates), exclude);
    let picked = pick_spread(&ranked, n);
    assert(crate::text::texts(picked@).len() == picked@.len());
    top_up(picked, &ranked, n)
}

/// The value of the first tag that begins with `prefix`.
pub open spec fn tag_value(tags: Seq<Seq<char>>, prefix: Seq<char>) -> Option<Seq<char>>
    decreases tags.len(),
{
    if tags.len() == 0 {
        None
    } else if crate::text::has_prefix(tags[0], prefix) {
        Some(tags[0].skip(prefix.len() as int))
    } else {
        tag_value(tags.drop_first(), prefix)
    }
}

/// The fault domain that tags name: a region before a zone, a zone before a network.
pub open spec fn tagged_domain(tags: Seq<Seq<char>>) -> Seq<char> {
    match (tag_value(tags, "region:"@), tag_value(tags, "zone:"@), tag_value(tags, "asn:"@)) {
        (Some(region), _, _) => region,
        (None, Some(zone), _) => zone,
        (None, None, Some(asn)) => asn,
        (None, None, None) => Seq::empty(),
    }
}

fn find_tag(tags: &[String], prefix: &str) -> (r: Option<String>)
    ensures
        match tag_value(crate::text::texts(tags@), prefix@) {
            Some(v) => r matches Some(s) && s@ == v,
            None => r is None,
        },
{
    let ghost all = crate::text::texts(tags@);
    let mut i: usize = 0;
    assert(all.skip(0) =~= all);
    while i < tags.len()
        invariant
            i <= tags@.len(),
            all == crate::text::texts(tags@),
            tag_value(all, prefix@) == tag_value(all.skip(i as int), prefix@),
        decreases tags@.len() - i,
    {
        assert(all.skip(i as int)[0] == tags@[i as int]@);
        assert(all.skip(i as int).drop_first() =~= all.skip(i + 1));
        if let Some(rest) = strip_prefix(tags[i].as_str(), prefix) {
            return Some(rest.to_string());
        }
        i += 1;
    }
    None
}

/// The fault domain that a host names in its tags: `region:<x>`, else `zone:<x>`, else `asn:<x>`,
/// else the empty string.
pub fn fault_domain_from_tags(tags: &[String]) -> (r: String)
    ensures
        r@ == tagged_domain(crate::text::texts(tags@)),
{
    if let Some(region) = find_tag(tags, "region:") {
        return region;
    }
    if let Some(zone) = find_tag(tags, "zone:") {
        return zone;
    }
    if let Some(asn) = find_tag(tags, "asn:") {
        return asn;
    }
    String::new()
}

proof fn lemma_ids_contains(c: Seq<Candidate>, i: int)
    requires
        0 <= i < c.len(),
    ensures
        ids(c).contains(c[i].node_id@),
        domains(c).contains(domain(c[i])),
{
    assert(ids(c)[i] == c[i].node_id@);
    assert(domains(c)[i] == domain(c[i]));
}

/// Spreading takes one host per fault domain and none twice, takes only what it is given, and
/// leaves a candidate out only if its node or its domain is taken already.
pub proof fn law_spread_is_one_per_domain(c: Seq<Candidate>)
    ensures
        ids(spread(c)).no_duplicates(),
        domains(spread(c)).no_duplicates(),
        forall|x: Candidate| #[trigger] spread(c).contains(x) ==> c.contains(x),
        forall|i: int|
            0 <= i < c.len() ==> ids(spread(c)).contains((#[trigger] c[i]).node_id@) || domains(
                spread(c),
            ).contains(domain(c[i])),
    decreases c.len(),
{
    if c.len() > 0 {
        let front = c.drop_last();
        let x = c.last();
        let taken = spread(front);
        law_spread_is_one_per_domain(front);
        if spread(c) != taken {
            assert(ids(spread(c)) =~= ids(taken).push(x.node_id@));
            assert(domains(spread(c)) =~= domains(taken).push(domain(x)));
        }
        assert forall|y: Candidate| #[trigger] spread(c).contains(y) implies c.contains(y) by {
            let k = spread(c).index_of(y);
            if k < taken.len() {
                assert(taken.contains(y)) by {
                    assert(taken[k] == y);
                }
                assert(front.contains(y));
                let j = front.index_of(y);
                assert(c[j] == y);
            } else {
                assert(y == x);
                assert(c[c.len() - 1] == y);
            }
        }
        assert forall|i: int| 0 <= i < c.len() implies ids(spread(c)).contains(
            (#[trigger] c[i]).node_id@,
        ) || domains(spread(c)).contains(domain(c[i])) by {
            if i < front.len() {
                assert(c[i] == front[i]);
                if ids(taken).contains(c[i].node_id@) {
                    let k = ids(taken).index_of(c[i].node_id@);
                    assert(ids(spread(c))[k] == c[i].node_id@);
                } else {
                    let k = domains(taken).index_of(domain(c[i]));
                    assert(domains(spread(c))[k] == domain(c[i]));
                }
            } else if spread(c) != taken {
                lemma_ids_contains(spread(c), taken.len() as int);
            }
        }
    } else {
        assert(ids(spread(c)) =~= Seq::<Seq<char>>::empty());
        assert(domains(spread(c)) =~= Seq::<Bucket>::empty());
    }
}

/// A top-up begins with what was picked, repeats nothing, and holds every node.
proof fn lemma_topped_up(picked: Seq<Seq<char>>, c: Seq<Candidate>)
    requires
        picked.no_duplicates(),
    ensures
        picked.len() <= topped_up(picked, c).len(),
        topped_up(picked, c).take(picked.len() as int) == picked,
        topped_up(picked, c).no_duplicates(),
        forall|id: Seq<char>| #[trigger]
            topped_up(picked, c).contains(id) <==> picked.contains(id) || ids(c).contains(id),
    decreases c.len(),
{
    let all = topped_up(picked, c);
    if c.len() == 0 {
        assert(picked.take(picked.len() as int) =~= picked);
        assert(ids(c) =~= Seq::<Seq<char>>::empty());
    } else {
        let front = c.drop_last();
        let last = c.last().node_id@;
        let so_far = topped_up(picked, front);
        lemma_topped_up(picked, front);
        assert(all.take(picked.len() as int) =~= so_far.take(picked.len() as int));
        assert(ids(c) =~= ids(front).push(last));
        assert forall|id: Seq<char>| #[trigger] all.contains(id) <==> picked.contains(id) || ids(
            c,
        ).contains(id) by {
            assert(so_far.contains(id) <==> picked.contains(id) || ids(front).contains(id));
            assert(ids(c).contains(id) <==> ids(front).contains(id) || id == last) by {
                if ids(front).contains(id) {
                    assert(ids(c)[ids(front).index_of(id)] == id);
                }
                assert(ids(c)[front.len() as int] == last);
                if ids(c).contains(id) && id != last {
                    assert(ids(front)[ids(c).index_of(id)] == id);
                }
            }
            if !so_far.contains(last) {
                assert(all == so_far.push(last));
                assert(all[so_far.len() as int] == last);
                if so_far.contains(id) {
                    assert(all[so_far.index_of(id)] == id);
                }
                if all.contains(id) && id != last {
                    assert(so_far[all.index_of(id)] == id);
                }
            }
        }
    }
}

proof fn lemma_first_n_no_duplicates<A>(s: Seq<A>, n: nat)
    requires
        s.no_duplicates(),
    ensures
        first_n(s, n).no_duplicates(),
        first_n(s, n).len() <= n,
        forall|x: A| #[trigger] first_n(s, n).contains(x) ==> s.contains(x),
{
    let t = first_n(s, n);
    assert forall|x: A| #[trigger] t.contains(x) implies s.contains(x) by {
        assert(s[t.index_of(x)] == x);
    }
}

/// An eligible candidate is a candidate that is not excluded.
proof fn lemma_eligible(c: Seq<Candidate>, exclude: Seq<Seq<char>>)
    ensures
        forall|x: Candidate| #[trigger]
            eligible(c, exclude).contains(x) <==> c.contains(x) && !exclude.contains(x.node_id@),
{
    crate::order::lemma_filter_contains(c, |x: Candidate| !exclude.contains(x.node_id@));
}

/// At most `n` hosts are chosen, none twice, none excluded, each of them a candidate.
pub proof fn law_chosen_hosts_are_distinct_candidates(
    candidates: Seq<Candidate>,
    n: nat,
    exclude: Seq<Seq<char>>,
)
    ensures
        chosen(candidates, n, exclude).len() <= n,
        chosen(candidates, n, exclude).no_duplicates(),
        forall|id: Seq<char>| #[trigger]
            chosen(candidates, n, exclude).contains(id) ==> !exclude.contains(id) && ids(
                candidates,
            ).contains(id),
{
    let sorted = crate::order::sorted_seq(candidates);
    let ranked = eligible(sorted, exclude);
    let lead = first_n(ids(spread(ranked)), n);
    law_spread_is_one_per_domain(ranked);
    lemma_first_n_no_duplicates(ids(spread(ranked)), n);
    lemma_topped_up(lead, ranked);
    let all = topped_up(lead, ranked);
    lemma_first_n_no_duplicates(all, n);
    lemma_eligible(sorted, exclude);
    crate::order::lemma_sorted_seq_contains(candidates);
    assert forall|id: Seq<char>| #[trigger]
        chosen(candidates, n, exclude).contains(id) implies !exclude.contains(id) && ids(
        candidates,
    ).contains(id) by {
        assert(all.contains(id));
        assert(ids(ranked).contains(id)) by {
            if lead.contains(id) {
                assert(ids(spread(ranked)).contains(id));
                let k = ids(spread(ranked)).index_of(id);
                let x = spread(ranked)[k];
                assert(spread(ranked).contains(x));
                assert(ranked.contains(x));
                lemma_ids_contains(ranked, ranked.index_of(x));
            }
        }
        let x = ranked[ids(ranked).index_of(id)];
        assert(x.node_id@ == id);
        assert(ranked.contains(x));
        assert(sorted.contains(x));
        assert(candidates.contains(x));
        lemma_ids_contains(candidates, candidates.index_of(x));
    }
}

/// The factor is filled: fewer than `n` hosts are chosen only if every candidate that is not
/// excluded is among them.
pub proof fn law_chosen_hosts_fill_the_factor(
    candidates: Seq<Candidate>,
    n: nat,
    exclude: Seq<Seq<char>>,
)
    ensures
        chosen(candidates, n, exclude).len() == n || forall|i: int|
            0 <= i < candidates.len() && !exclude.contains((#[trigger] candidates[i]).node_id@)
                ==> chosen(candidates, n, exclude).contains(candidates[i].node_id@),
{
    let sorted = crate::order::sorted_seq(candidates);
    let ranked = eligible(sorted, exclude);
    let lead = first_n(ids(spread(ranked)), n);
    law_spread_is_one_per_domain(ranked);
    lemma_first_n_no_duplicates(ids(spread(ranked)), n);
    lemma_topped_up(lead, ranked);
    lemma_eligible(sorted, exclude);
    crate::order::lemma_sorted_seq_contains(candidates);
    if chosen(candidates, n, exclude).len() != n {
        assert forall|i: int|
            0 <= i < candidates.len() && !exclude.contains(
                (#[trigger] candidates[i]).node_id@,
            ) implies chosen(candidates, n, exclude).contains(candidates[i].node_id@) by {
            let x = candidates[i];
            assert(candidates.contains(x));
            assert(sorted.contains(x));
            assert(ranked.contains(x));
            lemma_ids_contains(ranked, ranked.index_of(x));
            assert(topped_up(lead, ranked).contains(x.node_id@));
        }
    }
}

proof fn lemma_spread_begins_with_best(c: Seq<Candidate>)
    requires
        c.len() > 0,
    ensures
        spread(c).len() > 0,
        spread(c)[0] == c[0],
    decreases c.len(),
{
    let front = c.drop_last();
    if c.len() == 1 {
        assert(front =~= Seq::<Candidate>::empty());
        assert(spread(front) =~= Seq::<Candidate>::empty());
        assert(ids(spread(front)) =~= Seq::<Seq<char>>::empty());
        assert(domains(spread(front)) =~= Seq::<Bucket>::empty());
    } else {
        lemma_spread_begins_with_best(front);
    }
}

/// The choice leads with one host per fault domain: as many as there are, up to `n`, best first.
pub proof fn law_chosen_hosts_lead_with_distinct_domains(ranked: Seq<Candidate>, n: nat)
    ensures
        first_n(selection(ranked, n), first_n(spread(ranked), n).len()) == first_n(
            ids(spread(ranked)),
            n,
        ),
        n > 0 && ranked.len() > 0 ==> selection(ranked, n).len() > 0 && selection(ranked, n)[0]
            == ranked[0].node_id@,
{
    let lead = first_n(ids(spread(ranked)), n);
    law_spread_is_one_per_domain(ranked);
    lemma_first_n_no_duplicates(ids(spread(ranked)), n);
    lemma_topped_up(lead, ranked);
    let all = topped_up(lead, ranked);
    let k = first_n(spread(ranked), n).len();
    assert(k == lead.len());
    assert(first_n(first_n(all, n), k) =~= all.take(k as int));
    if ranked.len() > 0 {
        lemma_spread_begins_with_best(ranked);
        if n > 0 {
            assert(lead[0] == ranked[0].node_id@);
            assert(all.take(k as int)[0] == lead[0]);
        }
    }
}

/// If some eligible host differs from the best one in node and in fault domain, then a choice of
/// two or more hosts begins with two hosts of different domains: no single domain holds every copy.
pub proof fn law_no_single_domain_holds_every_copy(ranked: Seq<Candidate>, n: nat, other: int)
    requires
        n >= 2,
        0 < other < ranked.len(),
        ranked[other].node_id@ != ranked[0].node_id@,
        domain(ranked[other]) != domain(ranked[0]),
    ensures
        spread(ranked).len() >= 2,
        domain(spread(ranked)[0]) != domain(spread(ranked)[1]),
        selection(ranked, n).len() >= 2,
        selection(ranked, n)[0] == spread(ranked)[0].node_id@,
        selection(ranked, n)[1] == spread(ranked)[1].node_id@,
{
    law_chosen_hosts_lead_with_distinct_domains(ranked, n);
    law_spread_is_one_per_domain(ranked);
    let s = spread(ranked);
    lemma_spread_begins_with_best(ranked);
    let x = ranked[other];
    if ids(s).contains(x.node_id@) {
        let k = ids(s).index_of(x.node_id@);
        assert(s[k].node_id@ == x.node_id@);
        assert(k >= 1);
    } else {
        let k = domains(s).index_of(domain(x));
        assert(domain(s[k]) == domain(x));
        assert(k >= 1);
    }
    assert(domains(s)[0] != domains(s)[1]);
    let lead = first_n(ids(s), n);
    let k = first_n(s, n).len();
    assert(first_n(selection(ranked, n), k)[0] == lead[0]);
    assert(first_n(selection(ranked, n), k)[1] == lead[1]);
}

/// Where every host has a fault domain of its own, the choice is the best `n`.
pub proof fn law_distinct_domains_choose_best_first(ranked: Seq<Candidate>, n: nat)
    requires
        ids(ranked).no_duplicates(),
        domains(ranked).no_duplicates(),
    ensures
        selection(ranked, n) == first_n(ids(ranked), n),
{
    lemma_spread_of_distinct(ranked);
    let lead = first_n(ids(ranked), n);
    law_spread_is_one_per_domain(ranked);
    lemma_first_n_no_duplicates(ids(ranked), n);
    lemma_topped_up(lead, ranked);
    let all = topped_up(lead, ranked);
    if ids(ranked).len() <= n {
        // Every node is picked already, so the top-up adds none.
        if all.len() > lead.len() {
            let extra = all[lead.len() as int];
            assert(all.contains(extra));
            assert(lead.contains(extra));
            assert(all.take(lead.len() as int)[lead.index_of(extra)] == extra);
        }
        assert(all =~= lead);
    } else {
        assert(first_n(all, n) =~= all.take(lead.len() as int));
    }
}

proof fn lemma_spread_of_distinct(c: Seq<Candidate>)
    requires
        ids(c).no_duplicates(),
        domains(c).no_duplicates(),
    ensures
        spread(c) == c,
    decreases c.len(),
{
    if c.len() > 0 {
        let front = c.drop_last();
        assert(ids(front) =~= ids(c).drop_last());
        assert(domains(front) =~= domains(c).drop_last());
        lemma_spread_of_distinct(front);
        let n = front.len() as int;
        if ids(front).contains(c.last().node_id@) {
            let k = ids(front).index_of(c.last().node_id@);
            assert(ids(c)[k] == ids(c)[n]);
        }
        if domains(front).contains(domain(c.last())) {
            let k = domains(front).index_of(domain(c.last()));
            assert(domains(c)[k] == domains(c)[n]);
        }
        assert(front.push(c.last()) =~= c);
    }
}

/// Of two ranked hosts the one in front has delivered at least as much work; where that is equal,
/// it was seen at least as recently; where that is equal too, it has at least as much memory; and
/// where all three are equal, its node id does not come behind the other's. Ranking loses no
/// candidate and adds none.
pub proof fn law_ranked_hosts_are_best_first(candidates: Seq<Candidate>, i: int, j: int)
    requires
        0 <= i < j < candidates.len(),
    ensures
        crate::order::sorted_seq(candidates).len() == candidates.len(),
        crate::order::sorted_seq(candidates).to_multiset() == candidates.to_multiset(),
        ({
            let first = crate::order::sorted_seq(candidates)[i];
            let second = crate::order::sorted_seq(candidates)[j];
            &&& first.delivered_work >= second.delivered_work
            &&& first.delivered_work == second.delivered_work ==> first.last_seen_secs
                <= second.last_seen_secs
            &&& first.delivered_work == second.delivered_work && first.last_seen_secs
                == second.last_seen_secs ==> first.mem_mb >= second.mem_mb
            &&& first.delivered_work == second.delivered_work && first.last_seen_secs
                == second.last_seen_secs && first.mem_mb == second.mem_mb ==> first.node_id@
                == second.node_id@ || crate::text::precedes(first.node_id@, second.node_id@)
        }),
{
    crate::order::law_sorted_values_are_in_order(candidates, candidates[i]);
    let first = crate::order::sorted_seq(candidates)[i];
    let second = crate::order::sorted_seq(candidates)[j];
    assert(!second.before(first));
    crate::text::lemma_precedes_total(first.node_id@, second.node_id@);
}

/// Two hosts that each name a fault domain count towards the same one exactly if they name it by
/// the same text.
pub proof fn law_named_domains_go_by_their_text(a: Candidate, b: Candidate)
    requires
        exists|i: int|
            0 <= i < a.fault_domain@.len() && !crate::text::white_space(
                #[trigger] a.fault_domain@[i],
            ),
        exists|i: int|
            0 <= i < b.fault_domain@.len() && !crate::text::white_space(
                #[trigger] b.fault_domain@[i],
            ),
    ensures
        domain(a) == domain(b) <==> a.fault_domain@ == b.fault_domain@,
{
    crate::text::law_blank_texts_are_white_space(a.fault_domain@);
    crate::text::law_blank_texts_are_white_space(b.fault_domain@);
}

/// A host whose fault domain is nothing but white space counts towards a domain of its own: no
/// host of another node counts towards it.
pub proof fn law_blank_domains_stand_alone(a: Candidate, b: Candidate)
    requires
        forall|i: int|
            0 <= i < a.fault_domain@.len() ==> crate::text::white_space(
                #[trigger] a.fault_domain@[i],
            ),
        a.node_id@ != b.node_id@,
    ensures
        domain(a) != domain(b),
{
    crate::text::law_blank_texts_are_white_space(a.fault_domain@);
}

/// Two candidates are of one node, or name one fault domain that is not blank.
pub open spec fn rivals(a: Candidate, b: Candidate) -> bool {
    ||| a.node_id@ == b.node_id@
    ||| crate::text::is_named(a.fault_domain@) && a.fault_domain@ == b.fault_domain@
}

proof fn lemma_rivals(a: Candidate, b: Candidate)
    ensures
        rivals(a, b) <==> a.node_id@ == b.node_id@ || domain(a) == domain(b),
{
    crate::text::law_blank_texts_are_white_space(a.fault_domain@);
    crate::text::law_blank_texts_are_white_space(b.fault_domain@);
}

/// Spreading takes, in order, each candidate that is no rival of one taken before it: all of those
/// and no others.
pub proof fn law_spread_takes_all_but_rivals(c: Seq<Candidate>) -> (places: Seq<int>)
    ensures
        spread(c).len() == places.len(),
        forall|k: int|
            0 <= k < places.len() ==> 0 <= #[trigger] places[k] < c.len() && spread(c)[k]
                == c[places[k]],
        forall|k: int, l: int|
            0 <= k < l < places.len() ==> #[trigger] places[k] < #[trigger] places[l],
        forall|j: int|
            0 <= j < c.len() ==> (#[trigger] places.contains(j) <==> forall|k: int|
                0 <= k < places.len() && #[trigger] places[k] < j ==> !rivals(c[places[k]], c[j])),
    decreases c.len(),
{
    if c.len() == 0 {
        Seq::empty()
    } else {
        let front = c.drop_last();
        let n = front.len() as int;
        let x = c.last();
        let taken = spread(front);
        let before = law_spread_takes_all_but_rivals(front);
        let skipped = ids(taken).contains(x.node_id@) || domains(taken).contains(domain(x));
        assert(skipped <==> exists|k: int|
            0 <= k < before.len() && rivals(c[#[trigger] before[k]], x)) by {
            if ids(taken).contains(x.node_id@) {
                let k = ids(taken).index_of(x.node_id@);
                assert(taken[k] == c[before[k]]);
            } else if domains(taken).contains(domain(x)) {
                let k = domains(taken).index_of(domain(x));
                assert(taken[k] == c[before[k]]);
                lemma_rivals(c[before[k]], x);
            }
            if exists|k: int| 0 <= k < before.len() && rivals(c[#[trigger] before[k]], x) {
                let k = choose|k: int| 0 <= k < before.len() && rivals(c[#[trigger] before[k]], x);
                assert(taken[k] == c[before[k]]);
                lemma_rivals(taken[k], x);
                lemma_ids_contains(taken, k);
            }
        }
        let places = if skipped {
            before
        } else {
            before.push(n)
        };
        assert forall|j: int| 0 <= j < c.len() implies (#[trigger] places.contains(j)
            <==> forall|k: int|
            0 <= k < places.len() && #[trigger] places[k] < j ==> !rivals(c[places[k]], c[j])) by {
            if j < n {
                assert(before.contains(j) <==> places.contains(j)) by {
                    if before.contains(j) {
                        assert(places[before.index_of(j)] == j);
                    }
                    if places.contains(j) {
                        assert(before[places.index_of(j)] == j);
                    }
                }
                assert(c[j] == front[j]);
                if before.contains(j) {
                    assert forall|k: int|
                        0 <= k < places.len() && #[trigger] places[k] < j implies !rivals(
                        c[places[k]],
                        c[j],
                    ) by {
                        assert(before[k] == places[k]);
                        assert(c[before[k]] == front[before[k]]);
                    }
                } else {
                    let k = choose|k: int|
                        0 <= k < before.len() && #[trigger] before[k] < j && rivals(
                            front[before[k]],
                            front[j],
                        );
                    assert(places[k] == before[k]);
                    assert(c[places[k]] == front[before[k]]);
                }
            } else if skipped {
                let k = choose|k: int| 0 <= k < before.len() && rivals(c[#[trigger] before[k]], x);
                assert(places[k] < j);
                if places.contains(j) {
                    assert(before[places.index_of(j)] == n);
                }
            } else {
                assert(places[before.len() as int] == n);
                assert forall|k: int|
                    0 <= k < places.len() && #[trigger] places[k] < j implies !rivals(
                    c[places[k]],
                    c[j],
                ) by {
                    assert(before[k] == places[k]);
                }
            }
        }
        places
    }
}

/// A top-up adds, in order, each node that was not picked, the first time that it comes: all of
/// those and no others.
pub proof fn law_top_up_adds_each_missing_node(
    picked: Seq<Seq<char>>,
    c: Seq<Candidate>,
) -> (places: Seq<int>)
    ensures
        topped_up(picked, c).len() == picked.len() + places.len(),
        forall|k: int| 0 <= k < picked.len() ==> #[trigger] topped_up(picked, c)[k] == picked[k],
        forall|k: int|
            0 <= k < places.len() ==> 0 <= #[trigger] places[k] < c.len() && topped_up(picked, c)[
                picked.len() + k] == c[places[k]].node_id@,
        forall|k: int, l: int|
            0 <= k < l < places.len() ==> #[trigger] places[k] < #[trigger] places[l],
        forall|j: int|
            0 <= j < c.len() ==> (#[trigger] places.contains(j) <==> !picked.contains(c[j].node_id@)
                && forall|i: int| 0 <= i < j ==> (#[trigger] c[i]).node_id@ != c[j].node_id@),
    decreases c.len(),
{
    if c.len() == 0 {
        Seq::empty()
    } else {
        let front = c.drop_last();
        let n = front.len() as int;
        let id = c.last().node_id@;
        let so_far = topped_up(picked, front);
        let before = law_top_up_adds_each_missing_node(picked, front);
        let skipped = so_far.contains(id);
        assert(skipped <==> picked.contains(id) || exists|i: int|
            0 <= i < n && (#[trigger] c[i]).node_id@ == id) by {
            if skipped {
                let k = so_far.index_of(id);
                if k < picked.len() {
                    assert(picked[k] == id);
                } else {
                    let l = k - picked.len();
                    assert(so_far[picked.len() + l] == front[before[l]].node_id@);
                    assert(c[before[l]].node_id@ == id);
                }
            }
            if picked.contains(id) {
                assert(so_far[picked.index_of(id)] == id);
            } else if exists|i: int| 0 <= i < n && (#[trigger] c[i]).node_id@ == id {
                let i = choose|i: int| 0 <= i < n && (#[trigger] c[i]).node_id@ == id;
                let first = lemma_first_of_node(front, i);
                assert(before.contains(first));
                let k = before.index_of(first);
                assert(so_far[picked.len() + k] == front[before[k]].node_id@);
            }
        }
        let places = if skipped {
            before
        } else {
            before.push(n)
        };
        assert forall|k: int| 0 <= k < places.len() implies 0 <= #[trigger] places[k] < c.len()
            && topped_up(picked, c)[picked.len() + k] == c[places[k]].node_id@ by {
            if k < before.len() {
                assert(places[k] == before[k]);
                assert(so_far[picked.len() + k] == front[before[k]].node_id@);
            }
        }
        assert forall|k: int| 0 <= k < picked.len() implies #[trigger] topped_up(picked, c)[k]
            == picked[k] by {
            assert(so_far[k] == picked[k]);
        }
        assert forall|j: int| 0 <= j < c.len() implies (#[trigger] places.contains(j)
            <==> !picked.contains(c[j].node_id@) && forall|i: int|
            0 <= i < j ==> (#[trigger] c[i]).node_id@ != c[j].node_id@) by {
            if j < n {
                assert(before.contains(j) <==> places.contains(j)) by {
                    if before.contains(j) {
                        assert(places[before.index_of(j)] == j);
                    }
                    if places.contains(j) {
                        assert(before[places.index_of(j)] == j);
                    }
                }
                assert(c[j] == front[j]);
                if before.contains(j) {
                    assert forall|i: int| 0 <= i < j implies (#[trigger] c[i]).node_id@
                        != c[j].node_id@ by {
                        assert(front[i] == c[i]);
                    }
                } else if !picked.contains(c[j].node_id@) {
                    let i = choose|i: int|
                        0 <= i < j && (#[trigger] front[i]).node_id@ == front[j].node_id@;
                    assert(c[i] == front[i]);
                }
            } else if skipped {
                if places.contains(j) {
                    assert(before[places.index_of(j)] == n);
                }
            } else {
                assert(places[before.len() as int] == n);
            }
        }
        places
    }
}

/// The first candidate of the node of the one at `i`.
proof fn lemma_first_of_node(c: Seq<Candidate>, i: int) -> (first: int)
    requires
        0 <= i < c.len(),
    ensures
        0 <= first <= i,
        c[first].node_id@ == c[i].node_id@,
        forall|j: int| 0 <= j < first ==> (#[trigger] c[j]).node_id@ != c[i].node_id@,
    decreases i,
{
    if exists|j: int| 0 <= j < i && (#[trigger] c[j]).node_id@ == c[i].node_id@ {
        let j = choose|j: int| 0 <= j < i && (#[trigger] c[j]).node_id@ == c[i].node_id@;
        lemma_first_of_node(c, j)
    } else {
        i
    }
}

/// The hosts chosen among ranked ones are those at the places `lead`, then those at the places
/// `rest`, both ascending, `n` in all or as many as there are nodes. The leading places are those
/// of hosts with no rival at an earlier leading place, up to `n` of them. The remaining places are
/// those at which a node comes first that does not lead, until there are `n`.
pub proof fn law_choice_spreads_then_fills(ranked: Seq<Candidate>, n: nat) -> (r: (
    Seq<int>,
    Seq<int>,
))
    ensures
        selection(ranked, n).len() == r.0.len() + r.1.len() <= n,
        forall|k: int|
            0 <= k < r.0.len() ==> 0 <= #[trigger] r.0[k] < ranked.len() && selection(ranked, n)[k]
                == ranked[r.0[k]].node_id@,
        forall|k: int|
            0 <= k < r.1.len() ==> 0 <= #[trigger] r.1[k] < ranked.len() && selection(ranked, n)[
                r.0.len() + k] == ranked[r.1[k]].node_id@,
        forall|k: int, l: int| 0 <= k < l < r.0.len() ==> #[trigger] r.0[k] < #[trigger] r.0[l],
        forall|k: int, l: int| 0 <= k < l < r.1.len() ==> #[trigger] r.1[k] < #[trigger] r.1[l],
        // No two leading hosts are rivals.
        forall|k: int, l: int|
            0 <= k < l < r.0.len() ==> !rivals(
                ranked[#[trigger] r.0[k]],
                ranked[#[trigger] r.0[l]],
            ),
        // A host that does not lead has a rival that leads and stands before it, or comes behind
        // `n` leading hosts.
        forall|j: int|
            0 <= j < ranked.len() && !(#[trigger] r.0.contains(j)) ==> (exists|k: int|
                0 <= k < r.0.len() && #[trigger] r.0[k] < j && rivals(ranked[r.0[k]], ranked[j]))
                || (r.0.len() == n && forall|k: int| 0 <= k < r.0.len() ==> #[trigger] r.0[k] < j),
        // What fills up is the first host of a node that does not lead.
        forall|k: int, l: int|
            0 <= k < r.1.len() && 0 <= l < r.0.len() ==> ranked[#[trigger] r.1[k]].node_id@
                != ranked[#[trigger] r.0[l]].node_id@,
        forall|k: int, i: int|
            0 <= k < r.1.len() && 0 <= i < r.1[k] ==> ranked[#[trigger] r.1[k]].node_id@ != (
            #[trigger] ranked[i]).node_id@,
        // A host that was not chosen is of a node that was, or comes behind `n` chosen ones.
        forall|j: int|
            0 <= j < ranked.len() && !selection(ranked, n).contains(
                (#[trigger] ranked[j]).node_id@,
            ) ==> selection(ranked, n).len() == n && forall|k: int|
                0 <= k < r.1.len() ==> #[trigger] r.1[k] < j,
{
    let taken = law_spread_takes_all_but_rivals(ranked);
    let spread_ids = ids(spread(ranked));
    let led = first_n(spread_ids, n);
    let lead = first_n(taken, n);
    let added = law_top_up_adds_each_missing_node(led, ranked);
    let all = topped_up(led, ranked);
    let rest = first_n(added, (n - lead.len()) as nat);
    let out = selection(ranked, n);
    assert(lead.len() == led.len());
    assert(out.len() == lead.len() + rest.len());
    assert forall|k: int| 0 <= k < lead.len() implies 0 <= #[trigger] lead[k] < ranked.len()
        && out[k] == ranked[lead[k]].node_id@ by {
        assert(lead[k] == taken[k]);
        assert(spread(ranked)[k] == ranked[taken[k]]);
        assert(spread_ids[k] == ranked[taken[k]].node_id@);
        assert(all[k] == led[k]);
    }
    assert forall|k: int| 0 <= k < rest.len() implies 0 <= #[trigger] rest[k] < ranked.len()
        && out[lead.len() + k] == ranked[rest[k]].node_id@ by {
        assert(rest[k] == added[k]);
        assert(all[led.len() + k] == ranked[added[k]].node_id@);
    }
    assert forall|k: int, l: int| 0 <= k < l < lead.len() implies #[trigger] lead[k]
        < #[trigger] lead[l] && !rivals(ranked[lead[k]], ranked[lead[l]]) by {
        assert(lead[k] == taken[k] && lead[l] == taken[l]);
        assert(taken.contains(taken[l]));
    }
    assert forall|k: int, l: int| 0 <= k < l < rest.len() implies #[trigger] rest[k]
        < #[trigger] rest[l] by {
        assert(rest[k] == added[k] && rest[l] == added[l]);
    }
    assert forall|j: int| 0 <= j < ranked.len() && !(#[trigger] lead.contains(j)) implies (
    exists|k: int|
        0 <= k < lead.len() && #[trigger] lead[k] < j && rivals(ranked[lead[k]], ranked[j])) || (
    lead.len() == n && forall|k: int| 0 <= k < lead.len() ==> #[trigger] lead[k] < j) by {
        if taken.contains(j) {
            let at = taken.index_of(j);
            if at < lead.len() {
                assert(lead[at] == j);
            }
            assert(lead.len() == n);
            assert forall|k: int| 0 <= k < lead.len() implies #[trigger] lead[k] < j by {
                assert(lead[k] == taken[k]);
                assert(taken[k] < taken[at]);
            }
        } else {
            let k = choose|k: int|
                0 <= k < taken.len() && #[trigger] taken[k] < j && rivals(
                    ranked[taken[k]],
                    ranked[j],
                );
            if k < lead.len() {
                assert(lead[k] == taken[k]);
            } else {
                assert forall|l: int| 0 <= l < lead.len() implies #[trigger] lead[l] < j by {
                    assert(lead[l] == taken[l]);
                    assert(taken[l] < taken[k]);
                }
            }
        }
    }
    assert forall|k: int, l: int| 0 <= k < rest.len() && 0 <= l < lead.len() implies ranked[
    #[trigger] rest[k]].node_id@ != ranked[#[trigger] lead[l]].node_id@ by {
        assert(rest[k] == added[k]);
        assert(added.contains(added[k]));
        assert(!led.contains(ranked[added[k]].node_id@));
        assert(out[l] == led[l]) by {
            assert(all[l] == led[l]);
        }
        assert(led[l] == ranked[lead[l]].node_id@);
        assert(led.contains(led[l]));
    }
    assert forall|k: int, i: int| 0 <= k < rest.len() && 0 <= i < rest[k] implies ranked[
    #[trigger] rest[k]].node_id@ != (#[trigger] ranked[i]).node_id@ by {
        assert(rest[k] == added[k]);
        assert(added.contains(added[k]));
    }
    assert forall|j: int|
        0 <= j < ranked.len() && !out.contains((#[trigger] ranked[j]).node_id@) implies out.len()
        == n && forall|k: int| 0 <= k < rest.len() ==> #[trigger] rest[k] < j by {
        let id = ranked[j].node_id@;
        if led.contains(id) {
            let k = led.index_of(id);
            assert(all[k] == led[k]);
            assert(out[k] == id);
        }
        let first = lemma_first_of_node(ranked, j);
        assert(added.contains(first));
        let at = added.index_of(first);
        if at < rest.len() {
            assert(rest[at] == first);
            assert(out[lead.len() + at] == id);
        }
        assert forall|k: int| 0 <= k < rest.len() implies #[trigger] rest[k] < j by {
            assert(rest[k] == added[k]);
            assert(added[k] < added[at]);
        }
    }
    (lead, rest)
}

/// The hosts chosen are those that [`law_choice_spreads_then_fills`] says of the candidates that
/// are not excluded, best first.
pub proof fn law_choice_is_among_the_eligible(
    candidates: Seq<Candidate>,
    n: nat,
    exclude: Seq<Seq<char>>,
) -> (places: Seq<int>)
    ensures
        ({
            let sorted = crate::order::sorted_seq(candidates);
            &&& forall|k: int| 0 <= k < places.len() ==> 0 <= #[trigger] places[k] < sorted.len()
            &&& forall|k: int, l: int|
                0 <= k < l < places.len() ==> #[trigger] places[k] < #[trigger] places[l]
            &&& forall|j: int|
                0 <= j < sorted.len() ==> (#[trigger] places.contains(j) <==> !exclude.contains(
                    sorted[j].node_id@,
                ))
            &&& chosen(candidates, n, exclude) == selection(
                Seq::new(places.len(), |k: int| sorted[places[k]]),
                n,
            )
        }),
{
    let sorted = crate::order::sorted_seq(candidates);
    let places = crate::order::lemma_filter_places(
        sorted,
        |x: Candidate| !exclude.contains(x.node_id@),
    );
    assert(eligible(sorted, exclude) =~= Seq::new(places.len(), |k: int| sorted[places[k]]));
    places
}

/// No two of the leading hosts name the same fault domain.
pub proof fn law_leading_hosts_name_distinct_domains(ranked: Seq<Candidate>, i: int, j: int)
    requires
        0 <= i < j < spread(ranked).len(),
        exists|k: int|
            0 <= k < spread(ranked)[i].fault_domain@.len() && !crate::text::white_space(
                #[trigger] spread(ranked)[i].fault_domain@[k],
            ),
    ensures
        spread(ranked)[i].fault_domain@ != spread(ranked)[j].fault_domain@,
        ranked.contains(spread(ranked)[i]),
        ranked.contains(spread(ranked)[j]),
{
    let places = law_spread_takes_all_but_rivals(ranked);
    assert(places[i] < places[j]);
    assert(places.contains(places[j]));
    assert(!rivals(ranked[places[i]], ranked[places[j]]));
}

/// If some eligible host of another node names a fault domain that the best host does not name,
/// then a choice of two or more begins with the best host and one that does not name the same fault
/// domain.
pub proof fn law_first_two_hosts_name_different_domains(
    ranked: Seq<Candidate>,
    n: nat,
    other: int,
) -> (second: int)
    requires
        n >= 2,
        0 < other < ranked.len(),
        ranked[other].node_id@ != ranked[0].node_id@,
        ranked[other].fault_domain@ != ranked[0].fault_domain@,
        exists|k: int|
            0 <= k < ranked[other].fault_domain@.len() && !crate::text::white_space(
                #[trigger] ranked[other].fault_domain@[k],
            ),
    ensures
        0 < second <= other,
        selection(ranked, n).len() >= 2,
        selection(ranked, n)[0] == ranked[0].node_id@,
        selection(ranked, n)[1] == ranked[second].node_id@,
        ranked[second].node_id@ != ranked[0].node_id@,
        ranked[second].fault_domain@ == ranked[0].fault_domain@ ==> forall|k: int|
            0 <= k < ranked[0].fault_domain@.len() ==> crate::text::white_space(
                #[trigger] ranked[0].fault_domain@[k],
            ),
{
    let (lead, rest) = law_choice_spreads_then_fills(ranked, n);
    if !lead.contains(0) {
        assert(lead.len() == n);
        assert(lead[0] < 0);
    }
    let at = lead.index_of(0);
    if at > 0 {
        assert(lead[0] < lead[at]);
    }
    assert(lead[0] == 0);
    assert(!rivals(ranked[0], ranked[other]));
    if lead.contains(other) {
        let k = lead.index_of(other);
        assert(k > 0);
        if k > 1 {
            assert(lead[1] < lead[k]);
        }
    } else if exists|k: int|
        0 <= k < lead.len() && #[trigger] lead[k] < other && rivals(
            ranked[lead[k]],
            ranked[other],
        ) {
        let k = choose|k: int|
            0 <= k < lead.len() && #[trigger] lead[k] < other && rivals(
                ranked[lead[k]],
                ranked[other],
            );
        assert(k > 0);
        if k > 1 {
            assert(lead[1] < lead[k]);
        }
    } else {
        assert(lead.len() == n);
        assert(lead[1] < other);
    }
    assert(lead.len() >= 2);
    assert(lead[0] < lead[1]);
    assert(!rivals(ranked[lead[0]], ranked[lead[1]]));
    lead[1]
}

/// Tags have a value for a prefix exactly if some tag begins with it; the first such tag is the
/// prefix with the value behind it.
pub proof fn law_first_tag_with_the_prefix_counts(
    tags: Seq<Seq<char>>,
    prefix: Seq<char>,
    value: Seq<char>,
)
    ensures
        tag_value(tags, prefix) == Some(value) <==> exists|i: int|
            {
                &&& 0 <= i < tags.len()
                &&& #[trigger] tags[i] == prefix + value
                &&& forall|j: int, rest: Seq<char>|
                    0 <= j < i ==> #[trigger] tags[j] != #[trigger] (prefix + rest)
            },
        tag_value(tags, prefix) is None <==> forall|i: int, rest: Seq<char>|
            0 <= i < tags.len() ==> #[trigger] tags[i] != #[trigger] (prefix + rest),
    decreases tags.len(),
{
    if tags.len() > 0 {
        let rest = tags.drop_first();
        crate::text::law_prefix_and_rest(tags[0], prefix);
        law_first_tag_with_the_prefix_counts(rest, prefix, value);
        if crate::text::has_prefix(tags[0], prefix) {
            let v = tags[0].skip(prefix.len() as int);
            assert(tags[0] =~= prefix + v);
            if v == value {
                assert(tags[0] == prefix + value);
            }
            assert forall|i: int|
                0 < i < tags.len() && #[trigger] tags[i] == prefix + value implies !(forall|
                j: int,
                more: Seq<char>,
            |
                0 <= j < i ==> #[trigger] tags[j] != #[trigger] (prefix + more)) by {
                assert(tags[0] == prefix + v);
            }
            if tags[0] == prefix + value {
                assert(v =~= value);
            }
        } else {
            if tag_value(rest, prefix) == Some(value) {
                let i = choose|i: int|
                    {
                        &&& 0 <= i < rest.len()
                        &&& #[trigger] rest[i] == prefix + value
                        &&& forall|j: int, more: Seq<char>|
                            0 <= j < i ==> #[trigger] rest[j] != #[trigger] (prefix + more)
                    };
                assert(tags[i + 1] == prefix + value);
                assert forall|j: int, more: Seq<char>| 0 <= j < i + 1 implies #[trigger] tags[j]
                    != #[trigger] (prefix + more) by {
                    if j > 0 {
                        assert(rest[j - 1] == tags[j]);
                    }
                }
            }
            if exists|i: int|
                {
                    &&& 0 <= i < tags.len()
                    &&& #[trigger] tags[i] == prefix + value
                    &&& forall|j: int, more: Seq<char>|
                        0 <= j < i ==> #[trigger] tags[j] != #[trigger] (prefix + more)
                } {
                let i = choose|i: int|
                    {
                        &&& 0 <= i < tags.len()
                        &&& #[trigger] tags[i] == prefix + value
                        &&& forall|j: int, more: Seq<char>|
                            0 <= j < i ==> #[trigger] tags[j] != #[trigger] (prefix + more)
                    };
                assert(i > 0);
                assert(rest[i - 1] == prefix + value);
                assert forall|j: int, more: Seq<char>| 0 <= j < i - 1 implies #[trigger] rest[j]
                    != #[trigger] (prefix + more) by {
                    assert(tags[j + 1] == rest[j]);
                }
            }
            if tag_value(rest, prefix) is None {
                assert forall|i: int, more: Seq<char>| 0 <= i < tags.len() implies #[trigger] tags[i]
                    != #[trigger] (prefix + more) by {
                    if i > 0 {
                        assert(rest[i - 1] == tags[i]);
                    }
                }
            }
            if forall|i: int, more: Seq<char>|
                0 <= i < tags.len() ==> #[trigger] tags[i] != #[trigger] (prefix + more) {
                assert forall|i: int, more: Seq<char>| 0 <= i < rest.len() implies #[trigger] rest[i]
                    != #[trigger] (prefix + more) by {
                    assert(tags[i + 1] == rest[i]);
                }
            }
        }
    }
}

/// A host's fault domain is what its first `region:` tag names, whatever its other tags. Without
/// such a tag it is what its first `zone:` tag names; without that, what its first `asn:` tag names;
/// and it is empty for tags of neither kind.
pub proof fn law_region_before_zone_before_network(
    tags: Seq<Seq<char>>,
    i: int,
    value: Seq<char>,
)
    requires
        0 <= i < tags.len(),
    ensures
        ({
            let no_region = forall|j: int|
                0 <= j < tags.len() ==> !crate::text::has_prefix(#[trigger] tags[j], "region:"@);
            let no_zone = forall|j: int|
                0 <= j < tags.len() ==> !crate::text::has_prefix(#[trigger] tags[j], "zone:"@);
            let no_asn = forall|j: int|
                0 <= j < tags.len() ==> !crate::text::has_prefix(#[trigger] tags[j], "asn:"@);
            let first_region = tags[i] == "region:"@ + value && forall|j: int|
                0 <= j < i ==> !crate::text::has_prefix(#[trigger] tags[j], "region:"@);
            let first_zone = tags[i] == "zone:"@ + value && forall|j: int|
                0 <= j < i ==> !crate::text::has_prefix(#[trigger] tags[j], "zone:"@);
            let first_asn = tags[i] == "asn:"@ + value && forall|j: int|
                0 <= j < i ==> !crate::text::has_prefix(#[trigger] tags[j], "asn:"@);
            &&& first_region ==> tagged_domain(tags) == value
            &&& no_region && first_zone ==> tagged_domain(tags) == value
            &&& no_region && no_zone && first_asn ==> tagged_domain(tags) == value
            &&& no_region && no_zone && no_asn ==> tagged_domain(tags).len() == 0
        }),
{
    lemma_first_tag(tags, "region:"@, i, value);
    lemma_first_tag(tags, "zone:"@, i, value);
    lemma_first_tag(tags, "asn:"@, i, value);
}

proof fn lemma_first_tag(tags: Seq<Seq<char>>, prefix: Seq<char>, i: int, value: Seq<char>)
    ensures
        (forall|j: int|
            0 <= j < tags.len() ==> !crate::text::has_prefix(#[trigger] tags[j], prefix))
            ==> tag_value(tags, prefix) is None,
        0 <= i < tags.len() && tags[i] == prefix + value && (forall|j: int|
            0 <= j < i ==> !crate::text::has_prefix(#[trigger] tags[j], prefix)) ==> tag_value(
            tags,
            prefix,
        ) == Some(value),
    decreases tags.len(),
{
    if tags.len() > 0 {
        let rest = tags.drop_first();
        lemma_first_tag(rest, prefix, i - 1, value);
        if forall|j: int|
            0 <= j < tags.len() ==> !crate::text::has_prefix(#[trigger] tags[j], prefix) {
            assert(!crate::text::has_prefix(tags[0], prefix));
            assert forall|j: int| 0 <= j < rest.len() implies !crate::text::has_prefix(
                #[trigger] rest[j],
                prefix,
            ) by {
                assert(rest[j] == tags[j + 1]);
            }
        }
        if 0 <= i < tags.len() && tags[i] == prefix + value && (forall|j: int|
            0 <= j < i ==> !crate::text::has_prefix(#[trigger] tags[j], prefix)) {
            if i == 0 {
                assert(tags[0].take(prefix.len() as int) =~= prefix);
                assert(tags[0].skip(prefix.len() as int) =~= value);
            } else {
                assert(!crate::text::has_prefix(tags[0], prefix));
                assert(rest[i - 1] == prefix + value);
                assert forall|j: int| 0 <= j < i - 1 implies !crate::text::has_prefix(
                    #[trigger] rest[j],
                    prefix,
                ) by {
                    assert(rest[j] == tags[j + 1]);
                }
            }
        }
    }
}

/// The first host chosen is one that no other eligible candidate ranks before. If some eligible
/// candidate of another node names a fault domain that the first host does not name, then a choice
/// of two or more has a second host, and the two do not name the same fault domain.
pub proof fn law_copies_begin_in_different_domains(
    candidates: Seq<Candidate>,
    n: nat,
    exclude: Seq<Seq<char>>,
    other: Candidate,
) -> (r: (Candidate, Candidate))
    requires
        n >= 2,
        candidates.contains(other),
        !exclude.contains(other.node_id@),
        exists|k: int|
            0 <= k < other.fault_domain@.len() && !crate::text::white_space(
                #[trigger] other.fault_domain@[k],
            ),
    ensures
        chosen(candidates, n, exclude).len() >= 1,
        chosen(candidates, n, exclude)[0] == r.0.node_id@,
        candidates.contains(r.0),
        !exclude.contains(r.0.node_id@),
        forall|x: Candidate| #[trigger]
            candidates.contains(x) && !exclude.contains(x.node_id@) ==> x.delivered_work
                <= r.0.delivered_work,
        other.node_id@ != r.0.node_id@ && other.fault_domain@ != r.0.fault_domain@ ==> {
            &&& chosen(candidates, n, exclude).len() >= 2
            &&& chosen(candidates, n, exclude)[1] == r.1.node_id@
            &&& candidates.contains(r.1)
            &&& !exclude.contains(r.1.node_id@)
            &&& r.0.fault_domain@ == r.1.fault_domain@ ==> forall|k: int|
                0 <= k < r.0.fault_domain@.len() ==> crate::text::white_space(
                    #[trigger] r.0.fault_domain@[k],
                )
        },
{
    let sorted = crate::order::sorted_seq(candidates);
    let ranked = eligible(sorted, exclude);
    lemma_eligible(sorted, exclude);
    crate::order::lemma_sorted_seq_contains(candidates);
    assert(sorted.contains(other));
    assert(ranked.contains(other));
    law_chosen_hosts_lead_with_distinct_domains(ranked, n);
    let best = ranked[0];
    assert(ranked.contains(best));
    assert(sorted.contains(best));
    let places = crate::order::lemma_filter_places(
        sorted,
        |x: Candidate| !exclude.contains(x.node_id@),
    );
    crate::order::law_sorted_values_are_in_order(candidates, best);
    assert forall|x: Candidate| #[trigger]
        candidates.contains(x) && !exclude.contains(x.node_id@) implies x.delivered_work
        <= best.delivered_work by {
        assert(sorted.contains(x));
        assert(ranked.contains(x));
        let i = ranked.index_of(x);
        if i > 0 {
            assert(places[0] < places[i]);
            assert(sorted[places[0]] == best && sorted[places[i]] == x);
            assert(!x.before(best));
        }
    }
    let at = ranked.index_of(other);
    if other.node_id@ != best.node_id@ && other.fault_domain@ != best.fault_domain@ {
        let second = law_first_two_hosts_name_different_domains(ranked, n, at);
        assert(ranked.contains(ranked[second]));
        assert(sorted.contains(ranked[second]));
        (best, ranked[second])
    } else {
        (best, other)
    }
}

} // verus!
