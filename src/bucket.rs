use crate::constants::{BUCKET_SIZE, ID_LENGTH};
use crate::contact::{
    all_have_distance, by_cached_distance, sort_by_distance, Contact, ContactView,
};
use crate::kademlia_id::{
    lemma_lex_strict_order, lemma_lex_total, lemma_xor_injective, lex_lt, xor_seq, KademliaID,
};
use crate::ranking::{
    distinct_keys, keys_have_len, lemma_sort_contents, lemma_sort_distinct,
    lemma_sort_map, lemma_sort_sorted, sort_by_key,
};
use vstd::prelude::*;

verus! {

/// Ranks contact views by their distance to `t`.
pub open spec fn by_distance_to(t: Seq<u8>) -> spec_fn(ContactView) -> Seq<u8> {
    |v: ContactView| xor_seq(t, v.id)
}

/// The identifier of a contact view.
pub open spec fn view_id() -> spec_fn(ContactView) -> Seq<u8> {
    |v: ContactView| v.id
}

/// A contact's identifier and address.
pub open spec fn contact_view() -> spec_fn(Contact) -> ContactView {
    |c: Contact| c@
}

/// The views of a sequence of contacts.
pub open spec fn views(s: Seq<Contact>) -> Seq<ContactView> {
    s.map_values(contact_view())
}

/// Views distribute over appending one contact.
pub proof fn lemma_views_push(s: Seq<Contact>, c: Contact)
    ensures
        views(s.push(c)) == views(s).push(c@),
{
    assert(views(s.push(c)) =~= views(s).push(c@));
}

/// Every contact in `s` carries its distance to `t`.
pub open spec fn all_distances_to(s: Seq<Contact>, t: Seq<u8>) -> bool {
    forall|i: int|
        0 <= i < s.len() ==> (#[trigger] s[i]).distance_view() == Some(xor_seq(t, s[i].id@))
}

/// Whether some member of `s` has identifier `id`.
pub open spec fn has_id(s: Seq<ContactView>, id: Seq<u8>) -> bool {
    exists|i: int| 0 <= i < s.len() && (#[trigger] s[i]).id == id
}

/// The bucket after inserting `c`, ranking by distance to `t`: unchanged
/// when `c`'s identifier is present; `c` appended while there is room;
/// otherwise the nearest `BUCKET_SIZE` of the members and `c`, in order of
/// distance.
pub open spec fn bucket_insert(b: Seq<ContactView>, c: ContactView, t: Seq<u8>) -> Seq<
    ContactView,
> {
    if has_id(b, c.id) {
        b
    } else if b.len() < BUCKET_SIZE {
        b.push(c)
    } else {
        sort_by_key(b.push(c), by_distance_to(t)).take(BUCKET_SIZE as int)
    }
}

/// The members of `b` without the one whose identifier is `id`.
pub open spec fn without_id(b: Seq<ContactView>, id: Seq<u8>) -> Seq<ContactView>
    decreases b.len(),
{
    if b.len() == 0 {
        b
    } else if b.last().id == id {
        without_id(b.drop_last(), id)
    } else {
        without_id(b.drop_last(), id).push(b.last())
    }
}

/// A well-formed bucket's contents: at most `BUCKET_SIZE` members with
/// distinct, full-width identifiers.
pub open spec fn bucket_wf(b: Seq<ContactView>) -> bool {
    &&& b.len() <= BUCKET_SIZE
    &&& distinct_keys(b, view_id())
    &&& forall|i: int| 0 <= i < b.len() ==> (#[trigger] b[i]).id.len() == ID_LENGTH
}

/// Identifiers are distinct exactly when distances to one target are.
pub proof fn lemma_distinct_ids_distances(b: Seq<ContactView>, t: Seq<u8>)
    requires
        t.len() == ID_LENGTH,
        forall|i: int| 0 <= i < b.len() ==> (#[trigger] b[i]).id.len() == ID_LENGTH,
    ensures
        distinct_keys(b, view_id()) <==> distinct_keys(b, by_distance_to(t)),
{
    assert forall|i: int, j: int| 0 <= i < b.len() && 0 <= j < b.len() implies (
    view_id()(b[i]) == view_id()(b[j]) <==> by_distance_to(t)(b[i]) == by_distance_to(t)(b[j])) by {
        if xor_seq(t, b[i].id) == xor_seq(t, b[j].id) {
            lemma_xor_injective(t, b[i].id, b[j].id);
        }
    }
}

/// Inserting into a well-formed bucket keeps it well formed.
pub proof fn lemma_bucket_insert_wf(b: Seq<ContactView>, c: ContactView, t: Seq<u8>)
    requires
        bucket_wf(b),
        c.id.len() == ID_LENGTH,
        t.len() == ID_LENGTH,
    ensures
        bucket_wf(bucket_insert(b, c, t)),
{
    let r = bucket_insert(b, c, t);
    if !has_id(b, c.id) {
        let p = b.push(c);
        assert(distinct_keys(p, view_id())) by {
            assert forall|i: int, j: int|
                0 <= i < p.len() && 0 <= j < p.len() && i != j implies view_id()(p[i])
                != view_id()(p[j]) by {
                if i < b.len() && j < b.len() {
                    assert(p[i] == b[i] && p[j] == b[j]);
                } else if i < b.len() {
                    assert(p[i] == b[i]);
                } else {
                    assert(p[j] == b[j]);
                }
            }
        }
        assert(forall|i: int| 0 <= i < p.len() ==> (#[trigger] p[i]).id.len() == ID_LENGTH);
        if b.len() >= BUCKET_SIZE {
            let key = by_distance_to(t);
            lemma_distinct_ids_distances(p, t);
            lemma_sort_distinct(p, key);
            lemma_sort_contents(p, key);
            let s = sort_by_key(p, key);
            assert forall|i: int| 0 <= i < s.len() implies (#[trigger] s[i]).id.len()
                == ID_LENGTH by {
                assert(s.contains(s[i]));
            }
            lemma_distinct_ids_distances(s, t);
            assert(r =~= s.take(BUCKET_SIZE as int));
            assert forall|i: int, j: int|
                0 <= i < r.len() && 0 <= j < r.len() && i != j implies view_id()(r[i])
                != view_id()(r[j]) by {
                assert(r[i] == s[i] && r[j] == s[j]);
            }
        }
    }
}

/// Removing a member keeps a bucket well formed, and keeps the other
/// members in order.
pub proof fn lemma_without_id_wf(b: Seq<ContactView>, id: Seq<u8>)
    requires
        bucket_wf(b),
    ensures
        bucket_wf(without_id(b, id)),
        without_id(b, id).len() <= b.len(),
        forall|v: ContactView| #[trigger] without_id(b, id).contains(v) ==> b.contains(v) && v.id
            != id,
    decreases b.len(),
{
    if b.len() > 0 {
        let t = b.drop_last();
        assert(bucket_wf(t)) by {
            assert forall|i: int, j: int|
                0 <= i < t.len() && 0 <= j < t.len() && i != j implies view_id()(t[i])
                != view_id()(t[j]) by {
                assert(t[i] == b[i] && t[j] == b[j]);
            }
        }
        lemma_without_id_wf(t, id);
        let w = without_id(t, id);
        assert forall|v: ContactView| #[trigger] w.contains(v) implies b.contains(v) by {
            let k = choose|k: int| 0 <= k < t.len() && t[k] == v;
            assert(b[k] == v);
        }
        if b.last().id != id {
            let r = w.push(b.last());
            assert forall|i: int, j: int|
                0 <= i < r.len() && 0 <= j < r.len() && i != j implies view_id()(r[i])
                != view_id()(r[j]) by {
                if i == r.len() - 1 || j == r.len() - 1 {
                    let k = if i == r.len() - 1 {
                        j
                    } else {
                        i
                    };
                    assert(r[k] == w[k]);
                    assert(w.contains(w[k]));
                    let m = choose|m: int| 0 <= m < t.len() && t[m] == w[k];
                    assert(b[m] == w[k]);
                } else {
                    assert(r[i] == w[i] && r[j] == w[j]);
                }
            }
            assert forall|v: ContactView| #[trigger] r.contains(v) implies b.contains(v) && v.id
                != id by {
                let k = choose|k: int| 0 <= k < r.len() && r[k] == v;
                if k < w.len() {
                    assert(w[k] == v);
                    assert(w.contains(v));
                } else {
                    assert(b[b.len() - 1] == v);
                }
            }
            assert forall|i: int| 0 <= i < r.len() implies (#[trigger] r[i]).id.len()
                == ID_LENGTH by {
                assert(r.contains(r[i]));
                let m = choose|m: int| 0 <= m < b.len() && b[m] == r[i];
            }
        } else {
            assert forall|i: int| 0 <= i < w.len() implies (#[trigger] w[i]).id.len()
                == ID_LENGTH by {
                assert(w.contains(w[i]));
                let m = choose|m: int| 0 <= m < b.len() && b[m] == w[i];
            }
        }
    }
}

/// Every member after an insertion was a member before, or is the inserted
/// contact.
pub proof fn lemma_bucket_insert_members(b: Seq<ContactView>, c: ContactView, t: Seq<u8>)
    ensures
        forall|v: ContactView| #[trigger]
            bucket_insert(b, c, t).contains(v) ==> b.contains(v) || v == c,
{
    let r = bucket_insert(b, c, t);
    assert forall|v: ContactView| #[trigger] r.contains(v) implies b.contains(v) || v == c by {
        let k = choose|k: int| 0 <= k < r.len() && r[k] == v;
        if !has_id(b, c.id) {
            let p = b.push(c);
            if b.len() < BUCKET_SIZE {
                assert(p[k] == v);
                if k < b.len() {
                    assert(b[k] == v);
                }
            } else {
                lemma_sort_contents(p, by_distance_to(t));
                let s = sort_by_key(p, by_distance_to(t));
                assert(s[k] == v);
                assert(s.contains(v));
                let m = choose|m: int| 0 <= m < p.len() && p[m] == v;
                if m < b.len() {
                    assert(b[m] == v);
                }
            }
        }
    }
}

/// The bucket after inserting each of `cs` in order into `b`, ranking by
/// distance to `t`.
pub open spec fn insert_all(b: Seq<ContactView>, cs: Seq<ContactView>, t: Seq<u8>) -> Seq<
    ContactView,
>
    decreases cs.len(),
{
    if cs.len() == 0 {
        b
    } else {
        bucket_insert(insert_all(b, cs.drop_last(), t), cs.last(), t)
    }
}

/// Inserting the same contact a second time leaves the length as the first
/// insertion left it.
pub proof fn lemma_duplicate_insert_keeps_len(b: Seq<ContactView>, c: ContactView, t: Seq<u8>)
    requires
        bucket_wf(b),
        c.id.len() == ID_LENGTH,
        t.len() == ID_LENGTH,
    ensures
        bucket_insert(bucket_insert(b, c, t), c, t).len() == bucket_insert(b, c, t).len(),
{
    let b1 = bucket_insert(b, c, t);
    if !has_id(b1, c.id) {
        if !has_id(b, c.id) && b.len() < BUCKET_SIZE {
            assert(b1[b.len() as int] == c);
        }
        lemma_sort_contents(b.push(c), by_distance_to(t));
        lemma_sort_contents(b1.push(c), by_distance_to(t));
    }
}

proof fn lemma_insert_all_small(cs: Seq<ContactView>, t: Seq<u8>)
    requires
        cs.len() <= BUCKET_SIZE,
        distinct_keys(cs, view_id()),
    ensures
        insert_all(Seq::empty(), cs, t) == cs,
    decreases cs.len(),
{
    if cs.len() > 0 {
        let p = cs.drop_last();
        assert(distinct_keys(p, view_id())) by {
            assert forall|i: int, j: int|
                0 <= i < p.len() && 0 <= j < p.len() && i != j implies view_id()(p[i])
                != view_id()(p[j]) by {
                assert(p[i] == cs[i] && p[j] == cs[j]);
            }
        }
        lemma_insert_all_small(p, t);
        assert(!has_id(p, cs.last().id)) by {
            if has_id(p, cs.last().id) {
                let k = choose|k: int| 0 <= k < p.len() && (#[trigger] p[k]).id == cs.last().id;
                assert(view_id()(cs[k]) == view_id()(cs[cs.len() - 1]));
            }
        }
        assert(p.push(cs.last()) =~= cs);
    }
}

/// What holds of a full bucket after a run of insertions: it has exactly
/// `BUCKET_SIZE` members, all of them inserted, each nearer than every
/// inserted contact that was dropped.
pub open spec fn keeps_nearest(r: Seq<ContactView>, cs: Seq<ContactView>, t: Seq<u8>) -> bool {
    &&& r.len() == BUCKET_SIZE
    &&& forall|y: ContactView| #[trigger] r.contains(y) ==> cs.contains(y)
    &&& forall|x: ContactView, y: ContactView|
        cs.contains(x) && !r.contains(x) && r.contains(y) ==> lex_lt(
            #[trigger] xor_seq(t, y.id),
            #[trigger] xor_seq(t, x.id),
        )
}

proof fn lemma_insert_all_large(cs: Seq<ContactView>, t: Seq<u8>)
    requires
        cs.len() >= BUCKET_SIZE,
        distinct_keys(cs, view_id()),
        forall|i: int| 0 <= i < cs.len() ==> (#[trigger] cs[i]).id.len() == ID_LENGTH,
        t.len() == ID_LENGTH,
    ensures
        keeps_nearest(insert_all(Seq::empty(), cs, t), cs, t),
        bucket_wf(insert_all(Seq::empty(), cs, t)),
    decreases cs.len(),
{
    let key = by_distance_to(t);
    if cs.len() == BUCKET_SIZE {
        lemma_insert_all_small(cs, t);
    } else {
        let p = cs.drop_last();
        let c = cs.last();
        assert(distinct_keys(p, view_id())) by {
            assert forall|i: int, j: int|
                0 <= i < p.len() && 0 <= j < p.len() && i != j implies view_id()(p[i])
                != view_id()(p[j]) by {
                assert(p[i] == cs[i] && p[j] == cs[j]);
            }
        }
        assert(forall|i: int| 0 <= i < p.len() ==> (#[trigger] p[i]).id.len() == ID_LENGTH) by {
            assert(forall|i: int| 0 <= i < p.len() ==> p[i] == cs[i]);
        }
        lemma_insert_all_large(p, t);
        let r = insert_all(Seq::empty(), p, t);
        assert(cs =~= p.push(c));
        assert forall|y: ContactView| r.contains(y) implies y.id != c.id by {
            assert(p.contains(y));
            let k = choose|k: int| 0 <= k < p.len() && p[k] == y;
            assert(cs[k] == y);
            assert(view_id()(cs[k]) != view_id()(cs[cs.len() - 1]));
        }
        assert(!has_id(r, c.id)) by {
            if has_id(r, c.id) {
                let k = choose|k: int| 0 <= k < r.len() && (#[trigger] r[k]).id == c.id;
                assert(r.contains(r[k]));
            }
        }
        let q = r.push(c);
        assert(c.id.len() == ID_LENGTH) by {
            assert(cs[cs.len() - 1] == c);
        }
        lemma_bucket_insert_wf(r, c, t);
        assert(forall|i: int| 0 <= i < q.len() ==> (#[trigger] q[i]).id.len() == ID_LENGTH);
        assert(distinct_keys(q, view_id())) by {
            assert forall|i: int, j: int|
                0 <= i < q.len() && 0 <= j < q.len() && i != j implies view_id()(q[i])
                != view_id()(q[j]) by {
                if i < r.len() {
                    assert(q[i] == r[i] && r.contains(r[i]));
                }
                if j < r.len() {
                    assert(q[j] == r[j] && r.contains(r[j]));
                }
            }
        }
        lemma_distinct_ids_distances(q, t);
        assert(keys_have_len(q, key, ID_LENGTH as nat));
        lemma_sort_contents(q, key);
        lemma_sort_sorted(q, key, ID_LENGTH as nat);
        lemma_sort_distinct(q, key);
        let s = sort_by_key(q, key);
        let rr = s.take(BUCKET_SIZE as int);
        assert(insert_all(Seq::empty(), cs, t) == rr);
        let d = s[BUCKET_SIZE as int];
        assert forall|k: int| 0 <= k < BUCKET_SIZE implies lex_lt(
            key(#[trigger] s[k]),
            key(d),
        ) by {
            assert(!lex_lt(key(s[BUCKET_SIZE as int]), key(s[k])));
            assert(key(s[k]) != key(d));
            lemma_lex_total(key(s[k]), key(d));
        }
        assert forall|y: ContactView| #[trigger] rr.contains(y) implies cs.contains(y) by {
            let k = choose|k: int| 0 <= k < rr.len() && rr[k] == y;
            assert(s[k] == y && s.contains(y));
            if y == c {
                assert(cs[cs.len() - 1] == y);
            } else {
                assert(r.contains(y));
                assert(p.contains(y));
                let m = choose|m: int| 0 <= m < p.len() && p[m] == y;
                assert(cs[m] == y);
            }
        }
        assert forall|x: ContactView, y: ContactView|
            cs.contains(x) && !rr.contains(x) && rr.contains(y) implies lex_lt(
            #[trigger] xor_seq(t, y.id),
            #[trigger] xor_seq(t, x.id),
        ) by {
            let k = choose|k: int| 0 <= k < rr.len() && rr[k] == y;
            assert(s[k] == y);
            assert(key(y) == xor_seq(t, y.id));
            if q.contains(x) {
                assert(s.contains(x));
                let m = choose|m: int| 0 <= m < s.len() && s[m] == x;
                if m < BUCKET_SIZE {
                    assert(rr[m] == x);
                }
                assert(x == d);
            } else {
                assert(x != c) by {
                    assert(q[q.len() - 1] == c);
                }
                assert(!r.contains(x)) by {
                    if r.contains(x) {
                        let j = choose|j: int| 0 <= j < r.len() && r[j] == x;
                        assert(q[j] == x);
                    }
                }
                let m = choose|m: int| 0 <= m < cs.len() && cs[m] == x;
                assert(m < p.len());
                assert(p[m] == x);
                assert(p.contains(x));
                assert(s.contains(y));
                if y != c {
                    assert(r.contains(y));
                } else {
                    assert(key(s[k]) != key(d));
                    assert(d != c);
                    assert(s.contains(d));
                    assert(r.contains(d));
                    assert(lex_lt(xor_seq(t, d.id), xor_seq(t, x.id)));
                    lemma_lex_strict_order(key(y), key(d), key(x));
                }
            }
        }
    }
}

/// Filling an empty bucket with at least `BUCKET_SIZE` contacts of distinct
/// identifiers leaves exactly `BUCKET_SIZE` members, all of them among the
/// inserted contacts, and each nearer to the ranking target than every
/// inserted contact that was dropped.
pub proof fn lemma_bucket_keeps_nearest(cs: Seq<ContactView>, t: Seq<u8>)
    requires
        cs.len() >= BUCKET_SIZE,
        distinct_keys(cs, view_id()),
        forall|i: int| 0 <= i < cs.len() ==> (#[trigger] cs[i]).id.len() == ID_LENGTH,
        t.len() == ID_LENGTH,
    ensures
        keeps_nearest(insert_all(Seq::empty(), cs, t), cs, t),
{
    lemma_insert_all_large(cs, t);
}

/// A fixed-capacity collection of contacts that share a distance range from
/// the owning node.
pub struct Bucket {
    list: Vec<Contact>,
}

impl View for Bucket {
    type V = Seq<ContactView>;

    closed spec fn view(&self) -> Seq<ContactView> {
        views(self.list@)
    }
}

impl Clone for Bucket {
    fn clone(&self) -> (r: Self)
        ensures
            r@ == self@,
    {
        let mut list: Vec<Contact> = Vec::new();
        let mut i: usize = 0;
        while i < self.list.len()
            invariant
                i <= self.list@.len(),
                list@ == self.list@.take(i as int),
            decreases self.list@.len() - i,
        {
            list.push(self.list[i].clone());
            assert(self.list@.take(i as int + 1) =~= self.list@.take(i as int).push(
                self.list@[i as int],
            ));
            i += 1;
        }
        assert(self.list@.take(i as int) =~= self.list@);
        Bucket { list }
    }
}

impl Bucket {
    /// Whether the bucket is well formed.
    pub open spec fn wf(&self) -> bool {
        bucket_wf(self@)
    }

    /// An empty bucket.
    pub fn new() -> (r: Self)
        ensures
            r@ == Seq::<ContactView>::empty(),
            r.wf(),
    {
        let r = Self { list: Vec::new() };
        assert(r@ =~= Seq::<ContactView>::empty());
        r
    }

    /// Inserts `contact`, ranking by distance to `target` when the bucket
    /// is full: an identifier already present leaves the bucket unchanged;
    /// otherwise the contact is appended while there is room, and when full
    /// the members and the contact are sorted by distance to `target` and the
    /// farthest is dropped.
    pub fn add_contact(&mut self, contact: &Contact, target: KademliaID) -> (r: &Self)
        requires
            old(self).wf(),
        ensures
            final(self)@ == bucket_insert(old(self)@, contact@, target@),
            final(self).wf(),
            r@ == final(self)@,
    {
        let ghost t = target@;
        let mut candidate = contact.clone();
        candidate.calc_distance(&target);
        let len = self.list.len();
        let mut i: usize = 0;
        while i < len
            invariant
                i <= len,
                len == self.list@.len(),
                bucket_wf(self@),
                t == target@,
                forall|k: int| 0 <= k < i ==> self.list@[k].id@ != contact.id@,
            decreases len - i,
        {
            if self.list[i].id.equals(&contact.id) {
                proof {
                    assert(self@[i as int].id == contact.id@);
                    lemma_bucket_insert_wf(self@, contact@, t);
                }
                return self;
            }
            i += 1;
        }
        proof {
            assert(!has_id(self@, contact.id@)) by {
                if has_id(self@, contact.id@) {
                    let k = choose|k: int| 0 <= k < self@.len() && (#[trigger] self@[k]).id
                        == contact.id@;
                    assert(self.list@[k].id@ == contact.id@);
                }
            }
            lemma_bucket_insert_wf(self@, contact@, t);
        }
        let ghost old_view = self@;
        if len < BUCKET_SIZE {
            self.list.push(candidate);
            assert(self@ =~= old_view.push(contact@));
        } else {
            let mut all: Vec<Contact> = Vec::new();
            let mut j: usize = 0;
            while j < len
                invariant
                    j <= len,
                    len == self.list@.len(),
                    all@.len() == j,
                    views(all@) == views(self.list@.take(j as int)),
                    all_distances_to(all@, t),
                    all_have_distance(all@),
                    t == target@,
                decreases len - j,
            {
                let mut m = self.list[j].clone();
                m.calc_distance(&target);
                proof {
                    lemma_views_push(all@, m);
                    lemma_views_push(self.list@.take(j as int), self.list@[j as int]);
                    assert(self.list@.take(j as int + 1) =~= self.list@.take(j as int).push(
                        self.list@[j as int],
                    ));
                }
                all.push(m);
                j += 1;
            }
            all.push(candidate);
            assert(self.list@.take(len as int) =~= self.list@);
            assert(views(all@) =~= old_view.push(contact@));
            let mut sorted = sort_by_distance(&all);
            proof {
                assert forall|k: int| 0 <= k < all@.len() implies by_distance_to(t)(
                    contact_view()(#[trigger] all@[k]),
                ) == by_cached_distance()(all@[k]) by {
                    assert(all@[k].distance_view() == Some(xor_seq(t, all@[k].id@)));
                }
                lemma_sort_map(all@, by_cached_distance(), contact_view(), by_distance_to(t));
                lemma_sort_contents(all@, by_cached_distance());
            }
            sorted.truncate(BUCKET_SIZE);
            self.list = sorted;
            assert(self@ =~= sort_by_key(old_view.push(contact@), by_distance_to(t)).take(
                BUCKET_SIZE as int,
            ));
        }
        self
    }

    /// Removes the member whose identifier is `id`, if there is one.
    pub fn remove_contact(&mut self, id: &KademliaID)
        requires
            old(self).wf(),
        ensures
            final(self)@ == without_id(old(self)@, id@),
            final(self).wf(),
    {
        let mut kept: Vec<Contact> = Vec::new();
        let mut i: usize = 0;
        while i < self.list.len()
            invariant
                i <= self.list@.len(),
                views(kept@) == without_id(views(self.list@.take(i as int)), id@),
            decreases self.list@.len() - i,
        {
            let c = self.list[i].clone();
            assert(views(self.list@.take(i as int + 1)).drop_last() =~= views(
                self.list@.take(i as int),
            ));
            if !c.id.equals(id) {
                kept.push(c);
                assert(views(kept@) =~= without_id(views(self.list@.take(i as int)), id@).push(
                    c@,
                ));
            }
            i += 1;
        }
        assert(self.list@.take(i as int) =~= self.list@);
        let ghost before = self@;
        self.list = kept;
        proof {
            lemma_without_id_wf(before, id@);
        }
    }

    /// Every member, each with its distance to `target` computed.
    pub fn get_contact_and_calc_distance(&self, target: KademliaID) -> (r: Vec<Contact>)
        ensures
            views(r@) == self@,
            all_distances_to(r@, target@),
    {
        let mut out: Vec<Contact> = Vec::new();
        let mut i: usize = 0;
        while i < self.list.len()
            invariant
                i <= self.list@.len(),
                views(out@) == views(self.list@.take(i as int)),
                all_distances_to(out@, target@),
            decreases self.list@.len() - i,
        {
            let mut c = self.list[i].clone();
            c.calc_distance(&target);
            proof {
                lemma_views_push(out@, c);
                lemma_views_push(self.list@.take(i as int), self.list@[i as int]);
                assert(self.list@.take(i as int + 1) =~= self.list@.take(i as int).push(
                    self.list@[i as int],
                ));
            }
            out.push(c);
            i += 1;
        }
        assert(self.list@.take(i as int) =~= self.list@);
        out
    }

    /// The number of members.
    pub fn len(&self) -> (r: usize)
        ensures
            r == self@.len(),
    {
        self.list.len()
    }
}

} // verus!
