//! The pin-set: what a publisher has pinned, and which hosts hold it.
//!
//! An entry pairs a job, which does not change by itself, with the replicas that are known of it
//! and the outcome of their last audit. The set is modelled by the map `s.pins@` from content
//! identifier to entry.

use vstd::prelude::*;

use crate::table::Table;
use crate::text::contains_str;

verus! {

/// A published object and the terms on which it is pinned.
#[derive(Debug, PartialEq, Eq)]
pub struct PinJob {
    /// The object.
    pub cid: String,
    /// Its size in bytes.
    pub bytes_len: u64,
    /// How many replicas are wanted.
    pub replication: u8,
    /// Rent offered in base units per GB-hour, a decimal string.
    pub rent_per_gb_hour: String,
    /// Block height up to which rent is guaranteed.
    pub expiry_height: u64,
    /// A name for people.
    pub label: Option<String>,
}

/// A host that accepted a pin.
#[derive(Debug, PartialEq, Eq)]
pub struct Replica {
    /// Node id of the host.
    pub holder: String,
    /// Payment channel that rent is paid through; empty if there is none.
    pub channel_id: String,
    /// Whether the last audit passed.
    pub last_proof_ok: bool,
}

/// A job and its replicas.
#[derive(Debug, PartialEq, Eq)]
pub struct Entry {
    /// The job.
    pub job: PinJob,
    /// The replicas known of it.
    pub replicas: Vec<Replica>,
}

impl Clone for PinJob {
    fn clone(&self) -> (r: Self)
        ensures
            r == *self,
    {
        PinJob {
            cid: self.cid.clone(),
            bytes_len: self.bytes_len,
            replication: self.replication,
            rent_per_gb_hour: self.rent_per_gb_hour.clone(),
            expiry_height: self.expiry_height,
            label: match &self.label {
                Some(s) => Some(s.clone()),
                None => None,
            },
        }
    }
}

impl Clone for Replica {
    fn clone(&self) -> (r: Self)
        ensures
            r == *self,
    {
        Replica {
            holder: self.holder.clone(),
            channel_id: self.channel_id.clone(),
            last_proof_ok: self.last_proof_ok,
        }
    }
}

impl Clone for Entry {
    fn clone(&self) -> (r: Self)
        ensures
            r.job == self.job,
            r.replicas@ == self.replicas@,
    {
        let mut replicas: Vec<Replica> = Vec::new();
        let mut i: usize = 0;
        while i < self.replicas.len()
            invariant
                i <= self.replicas@.len(),
                replicas@ == self.replicas@.take(i as int),
            decreases self.replicas@.len() - i,
        {
            replicas.push(self.replicas[i].clone());
            i += 1;
        }
        assert(self.replicas@.take(i as int) =~= self.replicas@);
        Entry { job: self.job.clone(), replicas }
    }
}

/// The replicas whose last audit passed.
pub open spec fn healthy(replicas: Seq<Replica>) -> Seq<Replica> {
    replicas.filter(|r: Replica| r.last_proof_ok)
}

/// The hosts of a list of replicas.
pub open spec fn holders(replicas: Seq<Replica>) -> Seq<Seq<char>> {
    replicas.map_values(|r: Replica| r.holder@)
}

/// The replicas with their health set: healthy are those whose host is in `passed`, and no others.
pub open spec fn with_health(replicas: Seq<Replica>, passed: Seq<Seq<char>>) -> Seq<Replica> {
    replicas.map_values(
        |r: Replica| Replica { last_proof_ok: passed.contains(r.holder@), ..r },
    )
}

impl Entry {
    /// How many replicas passed their last audit.
    pub fn healthy_replicas(&self) -> (r: usize)
        ensures
            r == healthy(self.replicas@).len(),
    {
        let ghost all = self.replicas@;
        let mut count: usize = 0;
        let mut i: usize = 0;
        reveal_with_fuel(Seq::filter, 1);
        while i < self.replicas.len()
            invariant
                all == self.replicas@,
                i <= all.len(),
                count <= i,
                count == healthy(all.take(i as int)).len(),
            decreases all.len() - i,
        {
            reveal_with_fuel(Seq::filter, 1);
            assert(all.take(i + 1).drop_last() =~= all.take(i as int));
            if self.replicas[i].last_proof_ok {
                count += 1;
            }
            i += 1;
        }
        assert(all.take(i as int) =~= all);
        count
    }

    /// Writes the outcome of a round of audits back: a replica is healthy if its own host is in
    /// `passed`, whatever became of the others.
    pub fn mark_health(&mut self, passed: &[String])
        ensures
            final(self).job == old(self).job,
            final(self).replicas@ == with_health(
                old(self).replicas@,
                crate::text::texts(passed@),
            ),
    {
        let ghost before = self.replicas@;
        let ghost after = with_health(before, crate::text::texts(passed@));
        let mut i: usize = 0;
        while i < self.replicas.len()
            invariant
                i <= self.replicas@.len(),
                self.job == old(self).job,
                before.len() == self.replicas@.len(),
                after == with_health(before, crate::text::texts(passed@)),
                forall|j: int| 0 <= j < i ==> self.replicas@[j] == #[trigger] after[j],
                forall|j: int| i <= j < before.len() ==> self.replicas@[j] == #[trigger] before[j],
            decreases self.replicas@.len() - i,
        {
            let holder = self.replicas[i].holder.clone();
            assert(self.replicas@[i as int] == before[i as int]);
            let ok = contains_str(passed, holder.as_str());
            self.replicas[i].last_proof_ok = ok;
            i += 1;
        }
        assert(self.replicas@ =~= after);
    }
}

/// Health that was written back counts exactly the replicas whose own host passed.
pub proof fn law_health_is_per_replica(replicas: Seq<Replica>, passed: Seq<Seq<char>>, i: int)
    requires
        0 <= i < replicas.len(),
    ensures
        with_health(replicas, passed)[i].last_proof_ok <==> passed.contains(replicas[i].holder@),
        with_health(replicas, passed)[i].holder == replicas[i].holder,
        with_health(replicas, passed)[i].channel_id == replicas[i].channel_id,
        with_health(replicas, passed).len() == replicas.len(),
{
}

/// All pins of a publisher, by content identifier.
#[derive(Debug, PartialEq, Eq)]
pub struct PinSet {
    /// Content identifier to entry.
    pub pins: Table<Entry>,
}

impl Default for PinSet {
    fn default() -> (r: Self)
        ensures
            r.pins@ == Map::<Seq<char>, Entry>::empty(),
            r.is_keyed(),
    {
        PinSet { pins: Table::new() }
    }
}

impl Clone for PinSet {
    fn clone(&self) -> (r: Self)
        ensures
            r.pins.order() == self.pins.order(),
            r.pins@.dom() == self.pins@.dom(),
            forall|k: Seq<char>| #[trigger]
                r.pins@.contains_key(k) ==> r.pins@[k].job == self.pins@[k].job
                    && r.pins@[k].replicas@ == self.pins@[k].replicas@,
    {
        let pins = self.pins.clone();
        assert forall|k: Seq<char>| #[trigger] pins@.contains_key(k) implies pins@[k].job
            == self.pins@[k].job && pins@[k].replicas@ == self.pins@[k].replicas@ by {
            assert(cloned(self.pins@[k], pins@[k]));
        }
        PinSet { pins }
    }
}

impl PinSet {
    /// Every entry stands under the identifier of its own object.
    pub open spec fn is_keyed(self) -> bool {
        forall|k: Seq<char>| #[trigger] self.pins@.contains_key(k) ==> self.pins@[k].job.cid@ == k
    }

    /// Puts an entry in, in place of the one that its object had before.
    pub fn upsert(&mut self, entry: Entry)
        ensures
            final(self).pins@ == old(self).pins@.insert(entry.job.cid@, entry),
            old(self).is_keyed() ==> final(self).is_keyed(),
    {
        let cid = entry.job.cid.clone();
        let _ = self.pins.insert(cid, entry);
    }

    /// Takes the entry of an object out and hands it back.
    pub fn remove(&mut self, cid: &str) -> (r: Option<Entry>)
        ensures
            final(self).pins@ == old(self).pins@.remove(cid@),
            match r {
                Some(e) => old(self).pins@.contains_key(cid@) && e == old(self).pins@[cid@],
                None => !old(self).pins@.contains_key(cid@),
            },
            old(self).is_keyed() ==> final(self).is_keyed(),
    {
        self.pins.remove(cid)
    }

    /// The entry of an object.
    pub fn get(&self, cid: &str) -> (r: Option<&Entry>)
        ensures
            match r {
                Some(e) => self.pins@.contains_key(cid@) && *e == self.pins@[cid@],
                None => !self.pins@.contains_key(cid@),
            },
    {
        self.pins.get(cid)
    }

    /// Writes the outcome of a round of audits back to the pin of an object; says whether there is
    /// one.
    pub fn mark_health(&mut self, cid: &str, passed: &[String]) -> (r: bool)
        ensures
            r == old(self).pins@.contains_key(cid@),
            old(self).is_keyed() ==> final(self).is_keyed(),
            if r {
                let before = old(self).pins@[cid@];
                let after = final(self).pins@[cid@];
                &&& final(self).pins@ == old(self).pins@.insert(cid@, after)
                &&& after.job == before.job
                &&& after.replicas@ == with_health(before.replicas@, crate::text::texts(passed@))
            } else {
                *final(self) == *old(self)
            },
    {
        match self.pins.get_mut(cid) {
            Some(e) => {
                e.mark_health(passed);
                true
            },
            None => false,
        }
    }

    /// Records the lease and the rent that the pin of an object was renewed to; says whether there
    /// is one.
    pub fn record_renewal(&mut self, cid: &str, expiry_height: u64, rent: String) -> (r: bool)
        ensures
            r == old(self).pins@.contains_key(cid@),
            old(self).is_keyed() ==> final(self).is_keyed(),
            if r {
                let before = old(self).pins@[cid@];
                let after = final(self).pins@[cid@];
                &&& final(self).pins@ == old(self).pins@.insert(cid@, after)
                &&& after.job == (PinJob {
                    expiry_height,
                    rent_per_gb_hour: rent,
                    ..before.job
                })
                &&& after.replicas == before.replicas
            } else {
                *final(self) == *old(self)
            },
    {
        match self.pins.get_mut(cid) {
            Some(e) => {
                e.job.expiry_height = expiry_height;
                e.job.rent_per_gb_hour = rent;
                true
            },
            None => false,
        }
    }

    /// The entry of an object, for change in place.
    pub fn get_mut(&mut self, cid: &str) -> (r: Option<&mut Entry>)
        ensures
            match r {
                Some(e) => {
                    &&& old(self).pins@.contains_key(cid@)
                    &&& *e == old(self).pins@[cid@]
                    &&& final(self).pins@ == old(self).pins@.insert(cid@, *final(e))
                    &&& final(self).pins.order() == old(self).pins.order()
                },
                None => {
                    &&& !old(self).pins@.contains_key(cid@)
                    &&& *final(self) == *old(self)
                },
            },
    {
        self.pins.get_mut(cid)
    }
}

/// The healthy replicas are those at the places where the last audit passed, in their order.
pub proof fn law_healthy_replicas_passed_last(replicas: Seq<Replica>) -> (places: Seq<int>)
    ensures
        healthy(replicas).len() == places.len(),
        forall|k: int|
            0 <= k < places.len() ==> 0 <= #[trigger] places[k] < replicas.len() && healthy(
                replicas,
            )[k] == replicas[places[k]],
        forall|k: int, l: int|
            0 <= k < l < places.len() ==> #[trigger] places[k] < #[trigger] places[l],
        forall|j: int|
            0 <= j < replicas.len() ==> (#[trigger] places.contains(j)
                <==> replicas[j].last_proof_ok),
{
    crate::order::lemma_filter_places(replicas, |r: Replica| r.last_proof_ok)
}

/// One replica more is one healthy replica more exactly if its last audit passed; of none, none is
/// healthy.
pub proof fn law_healthy_replicas_add_up(replicas: Seq<Replica>, more: Replica)
    ensures
        healthy(replicas.push(more)).len() == healthy(replicas).len() + (if more.last_proof_ok {
            1int
        } else {
            0
        }),
        healthy(Seq::<Replica>::empty()).len() == 0,
{
    reveal_with_fuel(Seq::filter, 1);
    assert(replicas.push(more).drop_last() =~= replicas);
}

/// The hosts of replicas are listed place by place, healthy or not.
pub proof fn law_holders_stand_in_place(replicas: Seq<Replica>)
    ensures
        holders(replicas).len() == replicas.len(),
        forall|i: int|
            0 <= i < replicas.len() ==> #[trigger] holders(replicas)[i] == replicas[i].holder@,
{
}

/// In a set whose entries stand under their own objects, an entry is found under the identifier of
/// its job, and two identifiers never lead to the same job.
pub proof fn law_entries_stand_under_their_own_object(s: PinSet, a: Seq<char>, b: Seq<char>)
    requires
        s.is_keyed(),
        s.pins@.contains_key(a),
        s.pins@.contains_key(b),
    ensures
        s.pins@[a].job.cid@ == a,
        s.pins@[a].job == s.pins@[b].job ==> a == b,
{
}

} // verus!
