use crate::error::KadError;
use crate::kademlia_id::{lex_lt, xor_seq, KademliaID};
use crate::constants::ID_LENGTH;
use crate::ranking::{
    is_sorted_by_key, lemma_insert_sorted_at, lemma_sort_contents, lemma_sort_sorted, sort_by_key,
};
use vstd::prelude::*;

verus! {

/// What identifies a peer: its identifier bytes and its address.
pub struct ContactView {
    pub id: Seq<u8>,
    pub address: Seq<char>,
}

/// A peer's identifier and address, with a scratch distance to whatever
/// target the current traversal uses.
#[derive(Debug)]
pub struct Contact {
    pub id: KademliaID,
    pub address: String,
    pub distance: Option<KademliaID>,
}

impl View for Contact {
    type V = ContactView;

    open spec fn view(&self) -> ContactView {
        ContactView { id: self.id@, address: self.address@ }
    }
}

impl Clone for Contact {
    fn clone(&self) -> (r: Self)
        ensures
            r == *self,
    {
        Contact { id: self.id, address: self.address.clone(), distance: self.distance }
    }
}

impl Contact {
    /// The scratch distance, if one was computed.
    pub open spec fn distance_view(&self) -> Option<Seq<u8>> {
        match self.distance {
            Some(d) => Some(d@),
            None => None,
        }
    }

    /// A contact with no distance computed yet.
    pub fn new(id: KademliaID, address: String) -> (r: Self)
        ensures
            r.id == id,
            r.address == address,
            r.distance_view() is None,
    {
        Self { id, address, distance: None }
    }

    /// A contact whose identifier is given in hexadecimal.
    pub fn contact_from_hex(hex: String, address: String) -> (r: Result<Self, KadError>)
        ensures
            crate::kademlia_id::is_hex_id(hex@) ==> (r matches Ok(c) && c.id@
                == crate::kademlia_id::decode_hex_id(hex@) && c.address == address
                && c.distance_view() is None),
            !crate::kademlia_id::is_hex_id(hex@) ==> r == Err::<Contact, KadError>(
                KadError::MalformedIdentifier,
            ),
    {
        match KademliaID::from_hex(hex) {
            Ok(id) => Ok(Contact::new(id, address)),
            Err(e) => Err(e),
        }
    }

    /// Sets the scratch distance to the distance between `target` and this
    /// contact's identifier.
    pub fn calc_distance(&mut self, target: &KademliaID) -> (r: &mut Self)
        ensures
            r.id == old(self).id,
            r.address == old(self).address,
            r.distance_view() == Some(xor_seq(target@, old(self).id@)),
            *final(self) == *final(r),
    {
        self.distance = Some(target.distance(&self.id));
        self
    }

    /// The scratch distance; an error when none was computed.
    pub fn get_distance(&self) -> (r: Result<KademliaID, KadError>)
        ensures
            self.distance_view() matches Some(d) ==> (r matches Ok(k) && k@ == d),
            self.distance_view() is None ==> r == Err::<KademliaID, KadError>(
                KadError::DistanceNotComputed,
            ),
    {
        match self.distance {
            Some(d) => Ok(d),
            None => Err(KadError::DistanceNotComputed),
        }
    }

    /// Whether this contact's scratch distance orders before `other`'s.
    pub fn less(&self, other: Contact) -> (r: bool)
        requires
            self.distance_view() is Some,
            other.distance_view() is Some,
        ensures
            r == lex_lt(cached_key(*self), cached_key(other)),
    {
        let a = self.distance.unwrap();
        let b = other.distance.unwrap();
        a.less(&b)
    }
}

/// The scratch distance of a contact, empty when none was computed.
pub open spec fn cached_key(c: Contact) -> Seq<u8> {
    match c.distance_view() {
        Some(d) => d,
        None => Seq::empty(),
    }
}

/// Ranks contacts by their scratch distance.
pub open spec fn by_cached_distance() -> spec_fn(Contact) -> Seq<u8> {
    |c: Contact| cached_key(c)
}

/// Every contact in `s` carries a scratch distance.
pub open spec fn all_have_distance(s: Seq<Contact>) -> bool {
    forall|i: int| 0 <= i < s.len() ==> (#[trigger] s[i]).distance_view() is Some
}

/// A stable sort of `v` by ascending scratch distance.
pub fn sort_by_distance(v: &Vec<Contact>) -> (r: Vec<Contact>)
    requires
        all_have_distance(v@),
    ensures
        r@ == sort_by_key(v@, by_cached_distance()),
        is_sorted_by_key(r@, by_cached_distance()),
        r@.to_multiset() == v@.to_multiset(),
{
    let ghost key = by_cached_distance();
    let mut out: Vec<Contact> = Vec::new();
    let mut i: usize = 0;
    while i < v.len()
        invariant
            i <= v@.len(),
            all_have_distance(v@),
            all_have_distance(out@),
            out@ == sort_by_key(v@.take(i as int), key),
            key == by_cached_distance(),
        decreases v@.len() - i,
    {
        let x = v[i].clone();
        let kx = x.distance.unwrap();
        let mut j: usize = out.len();
        while j > 0
            invariant
                j <= out@.len(),
                all_have_distance(out@),
                x.distance == Some(kx),
                forall|k: int| j <= k < out@.len() ==> lex_lt(key(x), key(#[trigger] out@[k])),
                key == by_cached_distance(),
            ensures
                j == 0 || !lex_lt(key(x), key(out@[j - 1])),
                forall|k: int| j <= k < out@.len() ==> lex_lt(key(x), key(#[trigger] out@[k])),
            decreases j,
        {
            let ky = out[j - 1].distance.unwrap();
            if !kx.less(&ky) {
                break;
            }
            j -= 1;
        }
        proof {
            lemma_insert_sorted_at(out@, x, key, j as int);
            assert(v@.take(i as int + 1).drop_last() =~= v@.take(i as int));
        }
        out.insert(j, x);
        i += 1;
    }
    assert(v@.take(v@.len() as int) =~= v@);
    proof {
        assert forall|k: int| 0 <= k < v@.len() implies (#[trigger] key(v@[k])).len()
            == ID_LENGTH by {
            assert(v@[k].distance_view() is Some);
        }
        lemma_sort_sorted(v@, key, ID_LENGTH as nat);
        lemma_sort_contents(v@, key);
    }
    out
}

/// A collection of contacts gathered from several buckets.
pub struct ContactCandidates {
    contacts: Vec<Contact>,
}

impl View for ContactCandidates {
    type V = Seq<Contact>;

    closed spec fn view(&self) -> Seq<Contact> {
        self.contacts@
    }
}

impl ContactCandidates {
    /// An empty collection.
    pub fn new() -> (r: Self)
        ensures
            r@ == Seq::<Contact>::empty(),
    {
        Self { contacts: Vec::new() }
    }

    /// Moves all of `contacts` to the end of the collection.
    pub fn append(&mut self, contacts: &mut Vec<Contact>) -> (r: &mut Self)
        ensures
            r@ == old(self)@ + old(contacts)@,
            final(contacts)@ == Seq::<Contact>::empty(),
            *final(self) == *final(r),
    {
        self.contacts.append(contacts);
        self
    }

    /// Orders the collection by ascending scratch distance; every member
    /// must carry one.
    pub fn sort(&mut self)
        requires
            all_have_distance(old(self)@),
        ensures
            final(self)@ == sort_by_key(old(self)@, by_cached_distance()),
            is_sorted_by_key(final(self)@, by_cached_distance()),
            final(self)@.to_multiset() == old(self)@.to_multiset(),
    {
        self.contacts = sort_by_distance(&self.contacts);
    }

    /// The number of contacts.
    pub fn len(&self) -> (r: usize)
        ensures
            r == self@.len(),
    {
        self.contacts.len()
    }

    /// The first `count` contacts, or all of them when there are fewer.
    pub fn get_contacts(&mut self, count: usize) -> (r: Vec<Contact>)
        ensures
            *final(self) == *old(self),
            count <= old(self)@.len() ==> r@ == old(self)@.take(count as int),
            count > old(self)@.len() ==> r@ == old(self)@,
    {
        let len = self.contacts.len();
        let end = if count < len {
            count
        } else {
            len
        };
        let mut out: Vec<Contact> = Vec::new();
        let mut i: usize = 0;
        while i < end
            invariant
                end <= self.contacts@.len(),
                i <= end,
                out@ == self.contacts@.take(i as int),
            decreases end - i,
        {
            out.push(self.contacts[i].clone());
            assert(self.contacts@.take(i as int + 1) =~= self.contacts@.take(i as int).push(
                self.contacts@[i as int],
            ));
            i += 1;
        }
        assert(self.contacts@.take(len as int) =~= self.contacts@);
        out
    }

    /// Exchanges the contacts at `i` and `j`.
    pub fn swap(&mut self, i: usize, j: usize)
        requires
            i < old(self)@.len(),
            j < old(self)@.len(),
        ensures
            final(self)@ == old(self)@.update(i as int, old(self)@[j as int]).update(
                j as int,
                old(self)@[i as int],
            ),
    {
        let a = self.contacts[i].clone();
        let b = self.contacts[j].clone();
        self.contacts.set(i, b);
        self.contacts.set(j, a);
    }

    /// Whether the contact at `i` is nearer than the one at `j` by scratch
    /// distance; both must carry one.
    pub fn less(&self, i: usize, j: usize) -> (r: bool)
        requires
            i < self@.len(),
            j < self@.len(),
            self@[i as int].distance_view() is Some,
            self@[j as int].distance_view() is Some,
        ensures
            r == lex_lt(cached_key(self@[i as int]), cached_key(self@[j as int])),
    {
        self.contacts[i].less(self.contacts[j].clone())
    }
}

} // verus!
