//! The iterative lookup as a state machine: the shortlist of a FIND_NODE or
//! FIND_VALUE search, what each probe's outcome does to it, when the search
//! ends, and the bucket-refresh sweep that follows a join. The caller
//! performs the probes and hands their outcomes back.
use crate::bucket::{
    all_distances_to, by_distance_to, contact_view, has_id, lemma_distinct_ids_distances, view_id,
    views,
};
use crate::constants::{ALPHA, BUCKET_SIZE, ID_LENGTH, RT_BCKT_SIZE};
use crate::contact::{by_cached_distance, sort_by_distance, Contact, ContactView};
use crate::kademlia_id::{bucket_index_of, lex_lt, xor_seq, KademliaID};
use crate::ranking::{
    distinct_keys, lemma_sort_contents, lemma_sort_distinct, lemma_sort_map, sort_by_key,
};
use vstd::prelude::*;

verus! {

/// A shortlist entry: a contact and whether it has been queried.
pub open spec fn entry_view() -> spec_fn((Contact, bool)) -> (ContactView, bool) {
    |e: (Contact, bool)| (e.0@, e.1)
}

/// The views of shortlist entries.
pub open spec fn entry_views(s: Seq<(Contact, bool)>) -> Seq<(ContactView, bool)> {
    s.map_values(entry_view())
}

/// Whether some entry has identifier `id`.
pub open spec fn listed(s: Seq<(ContactView, bool)>, id: Seq<u8>) -> bool {
    exists|i: int| 0 <= i < s.len() && (#[trigger] s[i]).0.id == id
}

/// The shortlist after learning of `c`: appended, not yet queried, unless an
/// entry has its identifier or the peer with that identifier was found
/// unreachable.
pub open spec fn merge_contact(
    s: Seq<(ContactView, bool)>,
    dead: Seq<Seq<u8>>,
    c: ContactView,
) -> Seq<(ContactView, bool)> {
    if listed(s, c.id) || dead.contains(c.id) {
        s
    } else {
        s.push((c, false))
    }
}

/// The shortlist after learning of each of `cs` in order.
pub open spec fn merge_all(
    s: Seq<(ContactView, bool)>,
    dead: Seq<Seq<u8>>,
    cs: Seq<ContactView>,
) -> Seq<(ContactView, bool)>
    decreases cs.len(),
{
    if cs.len() == 0 {
        s
    } else {
        merge_contact(merge_all(s, dead, cs.drop_last()), dead, cs.last())
    }
}

/// The closest distance seen after seeing `d`, and whether `d` improved on
/// it.
pub open spec fn observe(closest: Option<Seq<u8>>, d: Seq<u8>) -> (Option<Seq<u8>>, bool) {
    match closest {
        Some(c) => if lex_lt(d, c) {
            (Some(d), true)
        } else {
            (closest, false)
        },
        None => (Some(d), true),
    }
}

/// The closest distance to `t` seen after seeing each of `cs`, and whether
/// any of them improved on it.
pub open spec fn observe_all(closest: Option<Seq<u8>>, t: Seq<u8>, cs: Seq<ContactView>) -> (
    Option<Seq<u8>>,
    bool,
)
    decreases cs.len(),
{
    if cs.len() == 0 {
        (closest, false)
    } else {
        let before = observe_all(closest, t, cs.drop_last());
        let after = observe(before.0, xor_seq(t, cs.last().id));
        (after.0, before.1 || after.1)
    }
}

/// The contacts of the entries not yet queried, in shortlist order.
pub open spec fn unqueried(s: Seq<(ContactView, bool)>) -> Seq<ContactView>
    decreases s.len(),
{
    if s.len() == 0 {
        Seq::empty()
    } else if s.last().1 {
        unqueried(s.drop_last())
    } else {
        unqueried(s.drop_last()).push(s.last().0)
    }
}

/// The contacts of the queried entries, in shortlist order.
pub open spec fn queried(s: Seq<(ContactView, bool)>) -> Seq<ContactView>
    decreases s.len(),
{
    if s.len() == 0 {
        Seq::empty()
    } else if s.last().1 {
        queried(s.drop_last()).push(s.last().0)
    } else {
        queried(s.drop_last())
    }
}

/// The shortlist without the entry for `id`.
pub open spec fn drop_entry(s: Seq<(ContactView, bool)>, id: Seq<u8>) -> Seq<(ContactView, bool)>
    decreases s.len(),
{
    if s.len() == 0 {
        s
    } else if s.last().0.id == id {
        drop_entry(s.drop_last(), id)
    } else {
        drop_entry(s.drop_last(), id).push(s.last())
    }
}

/// The shortlist with every entry whose identifier is among `probes` marked
/// queried.
pub open spec fn mark_queried(s: Seq<(ContactView, bool)>, probes: Seq<ContactView>) -> Seq<
    (ContactView, bool),
> {
    Seq::new(s.len(), |i: int| (s[i].0, s[i].1 || has_id(probes, s[i].0.id)))
}

/// The first `n` elements of `s`, or all of them when there are fewer.
pub open spec fn first_n<A>(s: Seq<A>, n: int) -> Seq<A> {
    if n < s.len() {
        s.take(n)
    } else {
        s
    }
}

/// Whether a FIND_NODE search goes on after a round: fewer than
/// `BUCKET_SIZE` contacts answered, some are still unqueried, and the round
/// found a contact nearer than any seen before.
pub open spec fn find_node_continues(s: Seq<(ContactView, bool)>, improved: bool) -> bool {
    queried(s).len() < BUCKET_SIZE && unqueried(s).len() > 0 && improved
}

/// What became of one probe.
pub enum ProbeOutcome {
    /// No timely response, or the request could not be sent.
    Unreachable,
    /// A response, carrying a value, contacts, both or neither.
    Replied { data: Option<String>, contacts: Option<Vec<Contact>> },
}

/// The state of one lookup.
pub struct ShortlistView {
    pub target: Seq<u8>,
    pub entries: Seq<(ContactView, bool)>,
    pub closest: Option<Seq<u8>>,
    pub improved: bool,
    pub unreachable: Seq<Seq<u8>>,
}

/// A consistent shortlist: its entries have distinct, full-width
/// identifiers, and no peer found unreachable is listed.
pub open spec fn shortlist_wf(v: ShortlistView) -> bool {
    &&& forall|i: int|
        0 <= i < v.entries.len() ==> (#[trigger] v.entries[i]).0.id.len() == ID_LENGTH
    &&& forall|i: int, j: int|
        0 <= i < v.entries.len() && 0 <= j < v.entries.len() && i != j ==> (#[trigger] v.entries[i]).0.id
            != (#[trigger] v.entries[j]).0.id
    &&& forall|i: int|
        0 <= i < v.entries.len() ==> !v.unreachable.contains((#[trigger] v.entries[i]).0.id)
}

/// The shortlist of one iterative lookup: the contacts learned so far, which
/// of them were queried, and the closest distance to the target seen.
pub struct Shortlist {
    target: KademliaID,
    entries: Vec<(Contact, bool)>,
    closest: Option<KademliaID>,
    improved: bool,
    unreachable: Vec<KademliaID>,
}

impl View for Shortlist {
    type V = ShortlistView;

    closed spec fn view(&self) -> ShortlistView {
        ShortlistView {
            target: self.target@,
            entries: entry_views(self.entries@),
            closest: match self.closest {
                Some(c) => Some(c@),
                None => None,
            },
            improved: self.improved,
            unreachable: self.unreachable@.map_values(|k: KademliaID| k@),
        }
    }
}

proof fn lemma_entry_views_push(s: Seq<(Contact, bool)>, e: (Contact, bool))
    ensures
        entry_views(s.push(e)) == entry_views(s).push((e.0@, e.1)),
{
    assert(entry_views(s.push(e)) =~= entry_views(s).push((e.0@, e.1)));
}

impl Shortlist {
    /// Whether the shortlist is consistent.
    pub open spec fn wf(&self) -> bool {
        shortlist_wf(self@)
    }

    /// Learns of each of `contacts`: notes whether one is nearer than any
    /// seen, and lists those not listed yet.
    fn absorb(&mut self, contacts: &Vec<Contact>)
        requires
            old(self).wf(),
        ensures
            final(self).wf(),
            final(self)@.target == old(self)@.target,
            final(self)@.unreachable == old(self)@.unreachable,
            final(self)@.entries == merge_all(
                old(self)@.entries,
                old(self)@.unreachable,
                views(contacts@),
            ),
            final(self)@.closest == observe_all(
                old(self)@.closest,
                old(self)@.target,
                views(contacts@),
            ).0,
            final(self)@.improved == (old(self)@.improved || observe_all(
                old(self)@.closest,
                old(self)@.target,
                views(contacts@),
            ).1),
    {
        let ghost start = self@;
        let mut i: usize = 0;
        while i < contacts.len()
            invariant
                i <= contacts@.len(),
                self@.target == start.target,
                self@.unreachable == start.unreachable,
                shortlist_wf(self@),
                self@.entries == merge_all(
                    start.entries,
                    start.unreachable,
                    views(contacts@.take(i as int)),
                ),
                self@.closest == observe_all(
                    start.closest,
                    start.target,
                    views(contacts@.take(i as int)),
                ).0,
                self@.improved == (start.improved || observe_all(
                    start.closest,
                    start.target,
                    views(contacts@.take(i as int)),
                ).1),
            decreases contacts@.len() - i,
        {
            let c = &contacts[i];
            let ghost prefix = views(contacts@.take(i as int));
            assert(views(contacts@.take(i as int + 1)).drop_last() =~= prefix);
            assert(views(contacts@.take(i as int + 1)).last() == c@);
            let d = self.target.distance(&c.id);
            let nearer = match self.closest {
                Some(best) => d.less(&best),
                None => true,
            };
            if nearer {
                self.closest = Some(d);
                self.improved = true;
            }
            let mut j: usize = 0;
            let mut found = false;
            while j < self.entries.len()
                invariant
                    j <= self.entries@.len(),
                    found ==> listed(self@.entries, c.id@),
                    !found ==> forall|k: int|
                        0 <= k < j ==> (#[trigger] self@.entries[k]).0.id != c.id@,
                ensures
                    found ==> listed(self@.entries, c.id@),
                    !found ==> forall|k: int|
                        0 <= k < self@.entries.len() ==> (#[trigger] self@.entries[k]).0.id
                            != c.id@,
                decreases self.entries@.len() - j,
            {
                if self.entries[j].0.id.equals(&c.id) {
                    assert(self@.entries[j as int].0.id == c.id@);
                    found = true;
                    break;
                }
                j += 1;
            }
            if !found {
                let mut k: usize = 0;
                while k < self.unreachable.len()
                    invariant_except_break
                        !found,
                    invariant
                        k <= self.unreachable@.len(),
                        forall|m: int| 0 <= m < k ==> (#[trigger] self@.unreachable[m]) != c.id@,
                    ensures
                        found ==> self@.unreachable.contains(c.id@),
                        !found ==> forall|m: int|
                            0 <= m < self@.unreachable.len() ==> (#[trigger] self@.unreachable[m])
                                != c.id@,
                    decreases self.unreachable@.len() - k,
                {
                    if self.unreachable[k].equals(&c.id) {
                        assert(self@.unreachable[k as int] == c.id@);
                        assert(self@.unreachable.contains(c.id@));
                        found = true;
                        break;
                    }
                    k += 1;
                }
            }
            if !found {
                let copy = c.clone();
                proof {
                    lemma_entry_views_push(self.entries@, (copy, false));
                    assert(!listed(self@.entries, c.id@));
                    assert(!self@.unreachable.contains(c.id@));
                }
                let ghost before = self@.entries;
                self.entries.push((copy, false));
                assert(self@.entries == before.push((c@, false)));
                assert(c.id@.len() == ID_LENGTH);
            }
            i += 1;
        }
        assert(contacts@.take(contacts@.len() as int) =~= contacts@);
    }

    /// A lookup for `target` seeded with the first `BUCKET_SIZE` of `seed`.
    pub fn new(target: KademliaID, seed: Vec<Contact>) -> (r: Self)
        ensures
            r@.target == target@,
            r.wf(),
            r@.unreachable == Seq::<Seq<u8>>::empty(),
            r@.entries == merge_all(
                Seq::empty(),
                Seq::empty(),
                views(first_n(seed@, BUCKET_SIZE as int)),
            ),
            r@.closest == observe_all(
                None,
                target@,
                views(first_n(seed@, BUCKET_SIZE as int)),
            ).0,
            !r@.improved,
    {
        let mut initial: Vec<Contact> = Vec::new();
        let mut i: usize = 0;
        while i < seed.len() && i < BUCKET_SIZE
            invariant
                i <= seed@.len(),
                i <= BUCKET_SIZE,
                initial@ == seed@.take(i as int),
            decreases seed@.len() - i,
        {
            initial.push(seed[i].clone());
            assert(seed@.take(i as int + 1) =~= seed@.take(i as int).push(seed@[i as int]));
            i += 1;
        }
        assert(initial@ =~= first_n(seed@, BUCKET_SIZE as int));
        let mut s = Shortlist {
            target,
            entries: Vec::new(),
            closest: None,
            improved: false,
            unreachable: Vec::new(),
        };
        assert(entry_views(s.entries@) =~= Seq::<(ContactView, bool)>::empty());
        assert(s@.unreachable =~= Seq::<Seq<u8>>::empty());
        s.absorb(&initial);
        s.improved = false;
        s
    }

    /// Starts a round: clears the round's improvement flag and returns the
    /// contacts to probe, the first `ALPHA` unqueried ones in shortlist
    /// order. An empty answer means the shortlist is exhausted.
    pub fn begin_round(&mut self) -> (r: Vec<Contact>)
        requires
            old(self).wf(),
        ensures
            final(self).wf(),
            final(self)@ == (ShortlistView { improved: false, ..old(self)@ }),
            views(r@) == first_n(unqueried(old(self)@.entries), ALPHA as int),
    {
        self.improved = false;
        let mut out: Vec<Contact> = Vec::new();
        let mut i: usize = 0;
        while i < self.entries.len()
            invariant
                i <= self.entries@.len(),
                views(out@) == first_n(
                    unqueried(entry_views(self.entries@.take(i as int))),
                    ALPHA as int,
                ),
            decreases self.entries@.len() - i,
        {
            let ghost before = entry_views(self.entries@.take(i as int));
            assert(entry_views(self.entries@.take(i as int + 1)) =~= before.push(
                (self.entries@[i as int].0@, self.entries@[i as int].1),
            ));
            assert(entry_views(self.entries@.take(i as int + 1)).drop_last() == before);
            if !self.entries[i].1 && out.len() < ALPHA {
                let c = self.entries[i].0.clone();
                proof {
                    crate::bucket::lemma_views_push(out@, c);
                }
                out.push(c);
                assert(views(out@) =~= first_n(
                    unqueried(entry_views(self.entries@.take(i as int + 1))),
                    ALPHA as int,
                ));
            } else {
                assert(views(out@) =~= first_n(
                    unqueried(entry_views(self.entries@.take(i as int + 1))),
                    ALPHA as int,
                ));
            }
            i += 1;
        }
        assert(self.entries@.take(i as int) =~= self.entries@);
        out
    }

    /// Applies the outcome of probing `from`. An unreachable peer leaves the
    /// shortlist and is never listed again, so it is neither probed again nor
    /// returned; a response's contacts are learned, and its value, if any,
    /// is returned.
    pub fn record(&mut self, from: &KademliaID, outcome: ProbeOutcome) -> (r: Option<String>)
        requires
            old(self).wf(),
        ensures
            final(self).wf(),
            final(self)@.target == old(self)@.target,
            match outcome {
                ProbeOutcome::Unreachable => {
                    &&& r is None
                    &&& final(self)@ == (ShortlistView {
                        entries: drop_entry(old(self)@.entries, from@),
                        unreachable: old(self)@.unreachable.push(from@),
                        ..old(self)@
                    })
                },
                ProbeOutcome::Replied { data, contacts } => {
                    let learned = match contacts {
                        Some(v) => views(v@),
                        None => Seq::empty(),
                    };
                    &&& r == data
                    &&& final(self)@.unreachable == old(self)@.unreachable
                    &&& final(self)@.entries == merge_all(
                        old(self)@.entries,
                        old(self)@.unreachable,
                        learned,
                    )
                    &&& final(self)@.closest == observe_all(
                        old(self)@.closest,
                        old(self)@.target,
                        learned,
                    ).0
                    &&& final(self)@.improved == (old(self)@.improved || observe_all(
                        old(self)@.closest,
                        old(self)@.target,
                        learned,
                    ).1)
                },
            },
    {
        match outcome {
            ProbeOutcome::Unreachable => {
                let mut kept: Vec<(Contact, bool)> = Vec::new();
                let mut i: usize = 0;
                while i < self.entries.len()
                    invariant
                        i <= self.entries@.len(),
                        entry_views(kept@) == drop_entry(
                            entry_views(self.entries@.take(i as int)),
                            from@,
                        ),
                        shortlist_wf(self@),
                        forall|a: int, m: int|
                            0 <= a < kept@.len() && i <= m < self.entries@.len() ==> (
                            #[trigger] entry_views(kept@)[a]).0.id != (#[trigger] entry_views(
                                self.entries@,
                            )[m]).0.id,
                        forall|a: int|
                            0 <= a < kept@.len() ==> (#[trigger] entry_views(kept@)[a]).0.id
                                != from@,
                        shortlist_wf(ShortlistView { entries: entry_views(kept@), ..self@ }),
                    decreases self.entries@.len() - i,
                {
                    let ghost before = entry_views(self.entries@.take(i as int));
                    assert(entry_views(self.entries@.take(i as int + 1)) =~= before.push(
                        (self.entries@[i as int].0@, self.entries@[i as int].1),
                    ));
                    assert(entry_views(self.entries@.take(i as int + 1)).drop_last() == before);
                    if !self.entries[i].0.id.equals(from) {
                        let e = (self.entries[i].0.clone(), self.entries[i].1);
                        proof {
                            lemma_entry_views_push(kept@, e);
                        }
                        let ghost old_kept = entry_views(kept@);
                        let ghost ev = entry_views(self.entries@);
                        let ghost w = ShortlistView { entries: old_kept, ..self@ };
                        proof {
                            assert(ev == self@.entries);
                            assert(shortlist_wf(w));
                            assert forall|a: int| 0 <= a < old_kept.len() implies old_kept[a].0.id
                                != ev[i as int].0.id by {
                                assert(entry_views(kept@)[a].0.id != entry_views(
                                    self.entries@,
                                )[i as int].0.id);
                            }
                            assert(!self@.unreachable.contains(self@.entries[i as int].0.id));
                            assert(self@.entries[i as int].0.id.len() == ID_LENGTH);
                        }
                        kept.push(e);
                        proof {
                            let nk = entry_views(kept@);
                            assert(nk == old_kept.push(ev[i as int]));
                            assert forall|a: int, m: int|
                                0 <= a < nk.len() && i + 1 <= m < ev.len() implies nk[a].0.id
                                != ev[m].0.id by {
                                if a == old_kept.len() {
                                    assert(self@.entries[i as int].0.id != self@.entries[m].0.id);
                                } else {
                                    assert(nk[a] == old_kept[a]);
                                    assert(entry_views(kept@)[a] == old_kept[a]);
                                }
                            }
                            assert forall|a: int, b: int|
                                0 <= a < nk.len() && 0 <= b < nk.len() && a != b implies nk[a].0.id
                                != nk[b].0.id by {
                                if a < old_kept.len() && b < old_kept.len() {
                                    assert(nk[a] == old_kept[a] && nk[b] == old_kept[b]);
                                    assert(w.entries[a].0.id != w.entries[b].0.id);
                                } else if a < old_kept.len() {
                                    assert(nk[a] == old_kept[a]);
                                } else {
                                    assert(nk[b] == old_kept[b]);
                                }
                            }
                            assert(shortlist_wf(ShortlistView { entries: nk, ..self@ }));
                        }
                    }
                    i += 1;
                }
                assert(self.entries@.take(i as int) =~= self.entries@);
                let ghost kept_view = ShortlistView { entries: entry_views(kept@), ..self@ };
                self.entries = kept;
                assert(self@ == kept_view);
                let ghost dead = self@.unreachable;
                self.unreachable.push(*from);
                assert(self@.unreachable =~= dead.push(from@));
                proof {
                    assert(shortlist_wf(kept_view));
                    assert(self@.entries == kept_view.entries);
                    assert(dead == kept_view.unreachable);
                    assert forall|a: int| 0 <= a < self@.entries.len() implies !self@.unreachable.contains(
                        (#[trigger] self@.entries[a]).0.id,
                    ) by {
                        assert(kept_view.entries[a] == self@.entries[a]);
                        assert(!dead.contains(self@.entries[a].0.id));
                        if self@.unreachable.contains(self@.entries[a].0.id) {
                            let m = choose|m: int|
                                0 <= m < self@.unreachable.len() && self@.unreachable[m]
                                    == self@.entries[a].0.id;
                            if m < dead.len() {
                                assert(dead[m] == self@.unreachable[m]);
                            }
                        }
                    }
                }
                None
            },
            ProbeOutcome::Replied { data, contacts } => {
                match contacts {
                    Some(v) => self.absorb(&v),
                    None => {
                        let v: Vec<Contact> = Vec::new();
                        assert(views(v@) =~= Seq::<ContactView>::empty());
                        self.absorb(&v);
                    },
                }
                data
            },
        }
    }

    /// Ends a round: marks the probed contacts queried, and tells whether a
    /// FIND_NODE search goes on.
    pub fn end_round(&mut self, probes: &Vec<Contact>) -> (r: bool)
        requires
            old(self).wf(),
        ensures
            final(self).wf(),
            final(self)@ == (ShortlistView {
                entries: mark_queried(old(self)@.entries, views(probes@)),
                ..old(self)@
            }),
            r == find_node_continues(final(self)@.entries, old(self)@.improved),
    {
        let ghost pv = views(probes@);
        let ghost before = self@.entries;
        let ghost start = self@;
        let mut i: usize = 0;
        while i < self.entries.len()
            invariant
                i <= self.entries@.len(),
                self@.target == start.target,
                self@.closest == start.closest,
                self@.improved == start.improved,
                self@.unreachable == start.unreachable,
                self.entries@.len() == before.len(),
                pv == views(probes@),
                forall|k: int|
                    0 <= k < i ==> #[trigger] entry_views(self.entries@)[k] == mark_queried(
                        before,
                        pv,
                    )[k],
                forall|k: int|
                    i <= k < self.entries@.len() ==> #[trigger] entry_views(self.entries@)[k]
                        == before[k],
            decreases self.entries@.len() - i,
        {
            let mut j: usize = 0;
            let mut hit = false;
            while j < probes.len()
                invariant
                    j <= probes@.len(),
                    i < self.entries@.len(),
                    pv == views(probes@),
                    hit ==> has_id(pv, self.entries@[i as int].0.id@),
                    !hit ==> forall|k: int|
                        0 <= k < j ==> (#[trigger] pv[k]).id != self.entries@[i as int].0.id@,
                decreases probes@.len() - j,
            {
                if probes[j].id.equals(&self.entries[i].0.id) {
                    assert(pv[j as int].id == self.entries@[i as int].0.id@);
                    hit = true;
                }
                j += 1;
            }
            let was = self.entries[i].1;
            let ghost cur = entry_views(self.entries@)[i as int];
            assert(cur == before[i as int]);
            assert(hit == has_id(pv, cur.0.id));
            if hit && !was {
                let c = self.entries[i].0.clone();
                let ghost pre = self.entries@;
                self.entries.set(i, (c, true));
                assert(self.entries@ == pre.update(i as int, (c, true)));
                assert(forall|k: int|
                    0 <= k < pre.len() && k != i ==> #[trigger] entry_views(self.entries@)[k]
                        == entry_views(pre)[k]);
            }
            assert(entry_views(self.entries@)[i as int] == mark_queried(before, pv)[i as int]);
            i += 1;
        }
        assert(entry_views(self.entries@) =~= mark_queried(before, pv));
        let ghost marked = self@;
        let mut answered: usize = 0;
        let mut waiting: usize = 0;
        let mut k: usize = 0;
        while k < self.entries.len()
            invariant
                k <= self.entries@.len(),
                answered as int == queried(entry_views(self.entries@.take(k as int))).len(),
                waiting as int == unqueried(entry_views(self.entries@.take(k as int))).len(),
                answered + waiting == k,
                self@ == marked,
            decreases self.entries@.len() - k,
        {
            let ghost prefix = entry_views(self.entries@.take(k as int));
            assert(entry_views(self.entries@.take(k as int + 1)) =~= prefix.push(
                (self.entries@[k as int].0@, self.entries@[k as int].1),
            ));
            assert(entry_views(self.entries@.take(k as int + 1)).drop_last() == prefix);
            if self.entries[k].1 {
                answered += 1;
            } else {
                waiting += 1;
            }
            k += 1;
        }
        assert(self.entries@.take(k as int) =~= self.entries@);
        answered < BUCKET_SIZE && waiting > 0 && self.improved
    }

    /// The queried contacts, each with its distance to the target computed,
    /// nearest first.
    pub fn result(&self) -> (r: Vec<Contact>)
        requires
            self.wf(),
        ensures
            views(r@) == sort_by_key(queried(self@.entries), by_distance_to(self@.target)),
            all_distances_to(r@, self@.target),
            distinct_keys(views(r@), view_id()),
            forall|k: int| 0 <= k < r@.len() ==> !self@.unreachable.contains(#[trigger] r@[k].id@),
    {
        let mut answered: Vec<Contact> = Vec::new();
        let mut i: usize = 0;
        while i < self.entries.len()
            invariant
                i <= self.entries@.len(),
                views(answered@) == queried(entry_views(self.entries@.take(i as int))),
                all_distances_to(answered@, self.target@),
                shortlist_wf(self@),
                forall|a: int, m: int|
                    0 <= a < answered@.len() && i <= m < self.entries@.len() ==> (
                    #[trigger] answered@[a]).id@ != (#[trigger] self@.entries[m]).0.id,
                forall|a: int, b: int|
                    0 <= a < answered@.len() && 0 <= b < answered@.len() && a != b ==> (
                    #[trigger] answered@[a]).id@ != (#[trigger] answered@[b]).id@,
                forall|a: int|
                    0 <= a < answered@.len() ==> !self@.unreachable.contains(
                        (#[trigger] answered@[a]).id@,
                    ),
            decreases self.entries@.len() - i,
        {
            let ghost prefix = entry_views(self.entries@.take(i as int));
            assert(entry_views(self.entries@.take(i as int + 1)) =~= prefix.push(
                (self.entries@[i as int].0@, self.entries@[i as int].1),
            ));
            assert(entry_views(self.entries@.take(i as int + 1)).drop_last() == prefix);
            if self.entries[i].1 {
                let mut c = self.entries[i].0.clone();
                c.calc_distance(&self.target);
                proof {
                    crate::bucket::lemma_views_push(answered@, c);
                    assert(self@.entries[i as int].0.id == c.id@);
                    assert(!self@.unreachable.contains(self@.entries[i as int].0.id));
                }
                let ghost before = answered@;
                answered.push(c);
                proof {
                    assert forall|a: int, m: int|
                        0 <= a < answered@.len() && i + 1 <= m < self.entries@.len() implies (
                        #[trigger] answered@[a]).id@ != (#[trigger] self@.entries[m]).0.id by {
                        if a == before.len() {
                            assert(self@.entries[i as int].0.id != self@.entries[m].0.id);
                        } else {
                            assert(answered@[a] == before[a]);
                        }
                    }
                    assert forall|a: int, b: int|
                        0 <= a < answered@.len() && 0 <= b < answered@.len() && a != b implies (
                        #[trigger] answered@[a]).id@ != (#[trigger] answered@[b]).id@ by {
                        if a == before.len() {
                            assert(answered@[b] == before[b]);
                            assert(before[b].id@ != self@.entries[i as int].0.id);
                        } else if b == before.len() {
                            assert(answered@[a] == before[a]);
                            assert(before[a].id@ != self@.entries[i as int].0.id);
                        } else {
                            assert(answered@[a] == before[a] && answered@[b] == before[b]);
                        }
                    }
                }
            }
            i += 1;
        }
        assert(self.entries@.take(i as int) =~= self.entries@);
        let r = sort_by_distance(&answered);
        proof {
            let t = self.target@;
            assert forall|k: int| 0 <= k < answered@.len() implies by_distance_to(t)(
                contact_view()(#[trigger] answered@[k]),
            ) == by_cached_distance()(answered@[k]) by {
                assert(answered@[k].distance_view() == Some(xor_seq(t, answered@[k].id@)));
            }
            lemma_sort_map(answered@, by_cached_distance(), contact_view(), by_distance_to(t));
            lemma_sort_contents(answered@, by_cached_distance());
            assert forall|k: int| 0 <= k < r@.len() implies (#[trigger] r@[k]).distance_view()
                == Some(xor_seq(t, r@[k].id@)) by {
                assert(r@.contains(r@[k]));
            }
            assert forall|k: int| 0 <= k < r@.len() implies !self@.unreachable.contains(
                #[trigger] r@[k].id@,
            ) by {
                assert(r@.contains(r@[k]));
                let a = choose|a: int| 0 <= a < answered@.len() && answered@[a] == r@[k];
            }
            let va = views(answered@);
            let vr = views(r@);
            assert(forall|k: int| 0 <= k < va.len() ==> (#[trigger] va[k]).id.len() == ID_LENGTH);
            assert(forall|k: int| 0 <= k < vr.len() ==> (#[trigger] vr[k]).id.len() == ID_LENGTH);
            assert(distinct_keys(va, view_id())) by {
                assert forall|a: int, b: int|
                    0 <= a < va.len() && 0 <= b < va.len() && a != b implies view_id()(va[a])
                    != view_id()(va[b]) by {
                    assert(answered@[a].id@ != answered@[b].id@);
                }
            }
            lemma_distinct_ids_distances(va, t);
            lemma_sort_distinct(va, by_distance_to(t));
            lemma_distinct_ids_distances(vr, t);
        }
        r
    }
}

/// The buckets to refresh after a join: every index above the bucket that
/// holds the nearest neighbour found; none when no neighbour was found.
pub open spec fn refresh_range(own: Seq<u8>, neighbours: Seq<ContactView>) -> Seq<int> {
    if neighbours.len() == 0 {
        Seq::empty()
    } else {
        let b = bucket_index_of(own, neighbours[0].id);
        Seq::new((RT_BCKT_SIZE - 1 - b) as nat, |k: int| b + 1 + k)
    }
}

/// The bucket indices that the refresh sweep after a join probes, given the
/// contacts that the lookup of the node's own identifier returned, nearest
/// first.
pub fn refresh_indices(own_id: &KademliaID, neighbours: &Vec<Contact>) -> (r: Vec<usize>)
    ensures
        r@.map_values(|i: usize| i as int) == refresh_range(own_id@, views(neighbours@)),
        forall|k: int| 0 <= k < r@.len() ==> r@[k] < RT_BCKT_SIZE,
{
    let mut out: Vec<usize> = Vec::new();
    if neighbours.len() == 0 {
        assert(out@.map_values(|i: usize| i as int) =~= Seq::<int>::empty());
        return out;
    }
    let table = crate::routing_table::RoutingTable::new(Contact::new(*own_id, String::new()));
    let b = table.get_bucket_index(neighbours[0].id);
    let mut i: usize = b + 1;
    while i < RT_BCKT_SIZE
        invariant
            b < i <= RT_BCKT_SIZE,
            out@.len() == i - b - 1,
            forall|k: int| 0 <= k < out@.len() ==> out@[k] == b + 1 + k,
        decreases RT_BCKT_SIZE - i,
    {
        out.push(i);
        i += 1;
    }
    assert(views(neighbours@)[0] == neighbours@[0]@);
    assert(out@.map_values(|i: usize| i as int) =~= refresh_range(own_id@, views(neighbours@)));
    out
}

} // verus!
