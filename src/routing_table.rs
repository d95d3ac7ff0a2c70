use crate::bucket::{
    all_distances_to, bucket_insert, bucket_wf, by_distance_to, contact_view,
    lemma_bucket_insert_members, lemma_without_id_wf, views, without_id, Bucket,
};
use crate::constants::{ID_LENGTH, RT_BCKT_SIZE};
use crate::contact::{by_cached_distance, Contact, ContactCandidates, ContactView};
use crate::kademlia_id::{bit_at, bucket_index_of, lemma_first_set_skip, xor_seq, KademliaID};
use crate::ranking::{lemma_sort_contents, lemma_sort_map, sort_by_key};
use vstd::prelude::*;

verus! {

/// The owner's identity and the members of each bucket, an absent bucket
/// being empty.
pub struct TableView {
    pub me: ContactView,
    pub buckets: Seq<Seq<ContactView>>,
}

/// A well-formed table: one well-formed bucket per bit, each member in the
/// bucket that its distance from the owner selects, and the owner in none.
pub open spec fn table_wf(t: TableView) -> bool {
    &&& t.me.id.len() == ID_LENGTH
    &&& t.buckets.len() == RT_BCKT_SIZE
    &&& forall|i: int| 0 <= i < t.buckets.len() ==> bucket_wf(#[trigger] t.buckets[i])
    &&& forall|i: int, k: int|
        0 <= i < t.buckets.len() && 0 <= k < t.buckets[i].len() ==> {
            let c = #[trigger] t.buckets[i][k];
            bucket_index_of(t.me.id, c.id) == i && c.id != t.me.id
        }
}

/// The contacts that the expanding-ring search collects, starting from ring
/// `i` with `acc` already collected: rings `b - i` and `b + i` are added in
/// turn while either exists and fewer than `count` contacts are collected.
pub open spec fn ring_gather(
    bs: Seq<Seq<ContactView>>,
    b: int,
    count: int,
    i: int,
    acc: Seq<ContactView>,
) -> Seq<ContactView>
    decreases bs.len() - i,
{
    if 0 < i < bs.len() && (b - i >= 0 || b + i < bs.len()) && acc.len() < count {
        let a1 = if b - i >= 0 {
            acc + bs[b - i]
        } else {
            acc
        };
        let a2 = if b + i < bs.len() {
            a1 + bs[b + i]
        } else {
            a1
        };
        ring_gather(bs, b, count, i + 1, a2)
    } else {
        acc
    }
}

/// The candidates for a closest-contacts query: bucket `b` and the rings
/// around it, until `count` are collected or the table is exhausted.
pub open spec fn closest_candidates(bs: Seq<Seq<ContactView>>, b: int, count: int) -> Seq<
    ContactView,
> {
    ring_gather(bs, b, count, 1, bs[b])
}

/// The answer to a closest-contacts query: the candidates ranked by
/// distance to `target`, at most `count` of them.
pub open spec fn closest_contacts(t: TableView, target: Seq<u8>, count: int) -> Seq<ContactView> {
    let c = closest_candidates(t.buckets, bucket_index_of(t.me.id, target), count);
    let n = if count < c.len() {
        count
    } else {
        c.len() as int
    };
    sort_by_key(c, by_distance_to(target)).take(n)
}

/// An array of buckets indexed by distance from the owning node.
pub struct RoutingTable {
    me: Contact,
    buckets: Vec<Option<Bucket>>,
}

/// The members of an optional bucket.
pub open spec fn slot_view(b: Option<Bucket>) -> Seq<ContactView> {
    match b {
        Some(b) => b@,
        None => Seq::empty(),
    }
}

impl View for RoutingTable {
    type V = TableView;

    closed spec fn view(&self) -> TableView {
        TableView {
            me: self.me@,
            buckets: self.buckets@.map_values(|b: Option<Bucket>| slot_view(b)),
        }
    }
}

impl Clone for RoutingTable {
    fn clone(&self) -> (r: Self)
        ensures
            r@ == self@,
    {
        let mut buckets: Vec<Option<Bucket>> = Vec::new();
        let mut i: usize = 0;
        while i < self.buckets.len()
            invariant
                i <= self.buckets@.len(),
                buckets@.len() == i,
                forall|k: int| 0 <= k < i ==> slot_view(#[trigger] buckets@[k]) == slot_view(
                    self.buckets@[k],
                ),
            decreases self.buckets@.len() - i,
        {
            let slot = match &self.buckets[i] {
                Some(b) => Some(b.clone()),
                None => None,
            };
            buckets.push(slot);
            i += 1;
        }
        let r = RoutingTable { me: self.me.clone(), buckets };
        assert(r@.buckets =~= self@.buckets);
        r
    }
}

impl RoutingTable {
    /// Whether the table is well formed.
    pub open spec fn wf(&self) -> bool {
        table_wf(self@)
    }

    /// An empty table owned by `me`.
    pub fn new(me: Contact) -> (r: Self)
        ensures
            r.wf(),
            r@.me == me@,
            forall|i: int| 0 <= i < RT_BCKT_SIZE ==> r@.buckets[i] == Seq::<ContactView>::empty(),
    {
        let mut buckets: Vec<Option<Bucket>> = Vec::new();
        let mut i: usize = 0;
        while i < RT_BCKT_SIZE
            invariant
                i <= RT_BCKT_SIZE,
                buckets@.len() == i,
                forall|k: int| 0 <= k < i ==> buckets@[k] is None,
            decreases RT_BCKT_SIZE - i,
        {
            buckets.push(None);
            i += 1;
        }
        let r = Self { me, buckets };
        assert(forall|k: int| 0 <= k < RT_BCKT_SIZE ==> r@.buckets[k] == slot_view(buckets@[k]));
        r
    }

    /// The bucket that `id` belongs in: the position of the most significant
    /// set bit of its distance from the owner, 0 for the owner itself.
    pub fn get_bucket_index(&self, id: KademliaID) -> (r: usize)
        ensures
            r == bucket_index_of(self@.me.id, id@),
            r < RT_BCKT_SIZE,
    {
        let d = self.me.id.distance(&id);
        let mut p: usize = 0;
        while p < RT_BCKT_SIZE
            invariant
                p <= RT_BCKT_SIZE,
                d@ == xor_seq(self.me.id@, id@),
                d@.len() == ID_LENGTH,
                forall|q: int| 0 <= q < p ==> !bit_at(d@, q),
            decreases RT_BCKT_SIZE - p,
        {
            let byte = d.id[p / 8];
            if (byte >> ((7 - p % 8) as u8)) & 1u8 == 1u8 {
                proof {
                    assert(bit_at(d@, p as int));
                    lemma_first_set_skip(d@, 0, p as int);
                }
                return p;
            }
            p += 1;
        }
        proof {
            lemma_first_set_skip(d@, 0, RT_BCKT_SIZE as int);
        }
        0
    }

    /// The members of the bucket at `index`, with their distances to
    /// `target` computed; none when that bucket was never created.
    fn bucket_contacts(&self, index: usize, target: KademliaID) -> (r: Vec<Contact>)
        requires
            index < self@.buckets.len(),
            self.wf(),
        ensures
            views(r@) == self@.buckets[index as int],
            all_distances_to(r@, target@),
    {
        match &self.buckets[index] {
            Some(b) => b.get_contact_and_calc_distance(target),
            None => {
                let r: Vec<Contact> = Vec::new();
                assert(views(r@) =~= Seq::<ContactView>::empty());
                r
            },
        }
    }

    /// Inserts `contact` into the bucket that its identifier selects, ranking
    /// by distance to the owner; the owner's own identifier is never
    /// inserted.
    pub fn add_contact(&mut self, contact: Contact)
        requires
            old(self).wf(),
        ensures
            final(self).wf(),
            final(self)@.me == old(self)@.me,
            contact.id@ == old(self)@.me.id ==> final(self)@ == old(self)@,
            contact.id@ != old(self)@.me.id ==> final(self)@.buckets == old(self)@.buckets.update(
                bucket_index_of(old(self)@.me.id, contact.id@),
                bucket_insert(
                    old(self)@.buckets[bucket_index_of(old(self)@.me.id, contact.id@)],
                    contact@,
                    old(self)@.me.id,
                ),
            ),
    {
        if contact.id.equals(&self.me.id) {
            return ;
        }
        let index = self.get_bucket_index(contact.id);
        let mut bucket = match &self.buckets[index] {
            Some(b) => b.clone(),
            None => Bucket::new(),
        };
        assert(bucket@ == self@.buckets[index as int]);
        let ghost before = self@;
        let ghost new_members = bucket_insert(bucket@, contact@, self.me.id@);
        bucket.add_contact(&contact, self.me.id);
        self.buckets.set(index, Some(bucket));
        proof {
            assert(self@.buckets =~= before.buckets.update(index as int, new_members));
            lemma_bucket_insert_members(before.buckets[index as int], contact@, before.me.id);
            assert forall|i: int, k: int|
                0 <= i < self@.buckets.len() && 0 <= k < self@.buckets[i].len() implies {
                let c = #[trigger] self@.buckets[i][k];
                bucket_index_of(self@.me.id, c.id) == i && c.id != self@.me.id
            } by {
                if i == index {
                    let v = self@.buckets[i][k];
                    assert(new_members.contains(v));
                    if v != contact@ {
                        let m = choose|m: int|
                            0 <= m < before.buckets[i].len() && before.buckets[i][m] == v;
                    }
                }
            }
        }
    }

    /// Removes the contact with identifier `id` from the bucket that the
    /// identifier selects.
    pub fn remove_contact(&mut self, id: &KademliaID)
        requires
            old(self).wf(),
        ensures
            final(self).wf(),
            final(self)@.me == old(self)@.me,
            final(self)@.buckets == old(self)@.buckets.update(
                bucket_index_of(old(self)@.me.id, id@),
                without_id(old(self)@.buckets[bucket_index_of(old(self)@.me.id, id@)], id@),
            ),
    {
        let index = self.get_bucket_index(*id);
        let ghost before = self@;
        proof {
            lemma_without_id_wf(before.buckets[index as int], id@);
        }
        match &self.buckets[index] {
            Some(b) => {
                let mut bucket = b.clone();
                bucket.remove_contact(id);
                self.buckets.set(index, Some(bucket));
            },
            None => {
                assert(without_id(Seq::<ContactView>::empty(), id@) =~= Seq::<ContactView>::empty());
            },
        }
        proof {
            let w = without_id(before.buckets[index as int], id@);
            assert(self@.buckets =~= before.buckets.update(index as int, w));
            assert forall|i: int, k: int|
                0 <= i < self@.buckets.len() && 0 <= k < self@.buckets[i].len() implies {
                let c = #[trigger] self@.buckets[i][k];
                bucket_index_of(self@.me.id, c.id) == i && c.id != self@.me.id
            } by {
                if i == index {
                    let v = self@.buckets[i][k];
                    assert(w.contains(v));
                    let m = choose|m: int|
                        0 <= m < before.buckets[i].len() && before.buckets[i][m] == v;
                }
            }
        }
    }

    /// Up to `count` contacts nearest to `target`, nearest first, each with
    /// its distance to `target` computed. The search starts at the bucket
    /// that `target` selects and widens ring by ring, one bucket below and
    /// one above, until `count` candidates are found or the table is
    /// exhausted; the candidates are then ranked by distance.
    pub fn find_closest_contacts(&mut self, target: KademliaID, count: usize) -> (r: Vec<Contact>)
        requires
            old(self).wf(),
        ensures
            *final(self) == *old(self),
            views(r@) == closest_contacts(old(self)@, target@, count as int),
            all_distances_to(r@, target@),
    {
        let ghost bs = self@.buckets;
        let mut candidates = ContactCandidates::new();
        let bucket_index = self.get_bucket_index(target);
        let ghost b = bucket_index as int;
        let mut first = self.bucket_contacts(bucket_index, target);
        candidates.append(&mut first);
        assert(views(candidates@) =~= bs[b]);
        let mut i: usize = 1;
        while (bucket_index >= i || bucket_index + i < RT_BCKT_SIZE) && candidates.len() < count
            invariant
                1 <= i <= RT_BCKT_SIZE,
                bucket_index < RT_BCKT_SIZE,
                b == bucket_index,
                self.wf(),
                bs == self@.buckets,
                bs.len() == RT_BCKT_SIZE,
                all_distances_to(candidates@, target@),
                ring_gather(bs, b, count as int, 1, bs[b]) == ring_gather(
                    bs,
                    b,
                    count as int,
                    i as int,
                    views(candidates@),
                ),
            decreases RT_BCKT_SIZE - i,
        {
            let ghost acc = views(candidates@);
            if bucket_index >= i {
                let mut lower = self.bucket_contacts(bucket_index - i, target);
                proof {
                    assert(views(candidates@ + lower@) =~= views(candidates@) + views(lower@));
                }
                candidates.append(&mut lower);
            }
            let ghost a1 = views(candidates@);
            if bucket_index + i < RT_BCKT_SIZE {
                let mut upper = self.bucket_contacts(bucket_index + i, target);
                proof {
                    assert(views(candidates@ + upper@) =~= views(candidates@) + views(upper@));
                }
                candidates.append(&mut upper);
            }
            i += 1;
        }
        let ghost gathered = candidates@;
        assert(views(gathered) == closest_candidates(bs, b, count as int));
        candidates.sort();
        let n = if count < candidates.len() {
            count
        } else {
            candidates.len()
        };
        let r = candidates.get_contacts(n);
        proof {
            let key = by_distance_to(target@);
            assert forall|k: int| 0 <= k < gathered.len() implies key(
                contact_view()(#[trigger] gathered[k]),
            ) == by_cached_distance()(gathered[k]) by {
                assert(gathered[k].distance_view() == Some(xor_seq(target@, gathered[k].id@)));
            }
            lemma_sort_map(gathered, by_cached_distance(), contact_view(), key);
            lemma_sort_contents(gathered, by_cached_distance());
            let sorted = sort_by_key(gathered, by_cached_distance());
            assert(views(r@) =~= views(sorted).take(n as int));
            assert forall|k: int| 0 <= k < r@.len() implies (#[trigger] r@[k]).distance_view()
                == Some(xor_seq(target@, r@[k].id@)) by {
                assert(r@[k] == sorted[k]);
                assert(sorted.contains(sorted[k]));
            }
        }
        r
    }
}

} // verus!
