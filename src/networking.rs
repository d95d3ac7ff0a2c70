//! RPC correlation and the protocol's decisions on inbound traffic: the table
//! of calls awaiting a response, the addresses that requests and responses
//! go to, and what each inbound request or response asks of the node.
use crate::constants::SEND_ATTEMPTS;
use crate::contact::Contact;
use crate::kademlia_id::{content_id, push_char, KademliaID};
use crate::rpc::Command;
use vstd::prelude::*;
use vstd::utf8::encode_utf8;

verus! {

/// The completion slots of a sequence of entries, by correlation id; a later
/// entry for the same id shadows an earlier one.
pub open spec fn entry_map<S>(s: Seq<(KademliaID, S)>) -> Map<Seq<u8>, S>
    decreases s.len(),
{
    if s.len() == 0 {
        Map::empty()
    } else {
        entry_map(s.drop_last()).insert(s.last().0@, s.last().1)
    }
}

/// No two entries share a correlation id.
pub open spec fn unique_ids<S>(s: Seq<(KademliaID, S)>) -> bool {
    forall|i: int, j: int| 0 <= i < s.len() && 0 <= j < s.len() && i != j ==> s[i].0@ != s[j].0@
}

proof fn lemma_entry_map_index<S>(s: Seq<(KademliaID, S)>, i: int)
    requires
        unique_ids(s),
        0 <= i < s.len(),
    ensures
        entry_map(s).contains_key(s[i].0@),
        entry_map(s)[s[i].0@] == s[i].1,
    decreases s.len(),
{
    let t = s.drop_last();
    if i < s.len() - 1 {
        assert(t[i] == s[i]);
        lemma_entry_map_index(t, i);
        assert(s[i].0@ != s[s.len() - 1].0@);
    }
}

proof fn lemma_entry_map_absent<S>(s: Seq<(KademliaID, S)>, k: Seq<u8>)
    requires
        forall|i: int| 0 <= i < s.len() ==> (#[trigger] s[i]).0@ != k,
    ensures
        !entry_map(s).contains_key(k),
    decreases s.len(),
{
    if s.len() > 0 {
        let t = s.drop_last();
        assert(forall|i: int| 0 <= i < t.len() ==> t[i] == s[i]);
        lemma_entry_map_absent(t, k);
        assert(s[s.len() - 1].0@ != k);
    }
}

proof fn lemma_entry_map_remove<S>(s: Seq<(KademliaID, S)>, i: int)
    requires
        unique_ids(s),
        0 <= i < s.len(),
    ensures
        entry_map(s.remove(i)) == entry_map(s).remove(s[i].0@),
        unique_ids(s.remove(i)),
    decreases s.len(),
{
    let r = s.remove(i);
    let t = s.drop_last();
    if i == s.len() - 1 {
        assert(r =~= t);
        assert forall|j: int| 0 <= j < t.len() implies (#[trigger] t[j]).0@ != s[i].0@ by {
            assert(t[j] == s[j]);
        }
        lemma_entry_map_absent(t, s[i].0@);
        assert(entry_map(r) =~= entry_map(s).remove(s[i].0@));
    } else {
        assert(unique_ids(t)) by {
            assert forall|a: int, b: int|
                0 <= a < t.len() && 0 <= b < t.len() && a != b implies t[a].0@ != t[b].0@ by {
                assert(t[a] == s[a] && t[b] == s[b]);
            }
        }
        assert(t[i] == s[i]);
        lemma_entry_map_remove(t, i);
        assert(r =~= t.remove(i).push(s.last()));
        assert(r.drop_last() =~= t.remove(i));
        assert(s[i].0@ != s[s.len() - 1].0@);
        assert(entry_map(r) =~= entry_map(s).remove(s[i].0@));
    }
    assert(unique_ids(r)) by {
        assert forall|a: int, b: int|
            0 <= a < r.len() && 0 <= b < r.len() && a != b implies r[a].0@ != r[b].0@ by {
            let sa = if a < i {
                a
            } else {
                a + 1
            };
            let sb = if b < i {
                b
            } else {
                b + 1
            };
            assert(r[a] == s[sa] && r[b] == s[sb]);
        }
    }
}

proof fn lemma_entry_map_update<S>(s: Seq<(KademliaID, S)>, i: int, e: (KademliaID, S))
    requires
        unique_ids(s),
        0 <= i < s.len(),
        e.0@ == s[i].0@,
    ensures
        entry_map(s.update(i, e)) == entry_map(s).insert(e.0@, e.1),
        unique_ids(s.update(i, e)),
    decreases s.len(),
{
    let r = s.update(i, e);
    let t = s.drop_last();
    if i == s.len() - 1 {
        assert(r.drop_last() =~= t);
        assert(entry_map(r) =~= entry_map(s).insert(e.0@, e.1));
    } else {
        assert(unique_ids(t)) by {
            assert forall|a: int, b: int|
                0 <= a < t.len() && 0 <= b < t.len() && a != b implies t[a].0@ != t[b].0@ by {
                assert(t[a] == s[a] && t[b] == s[b]);
            }
        }
        assert(t[i] == s[i]);
        lemma_entry_map_update(t, i, e);
        assert(r.drop_last() =~= t.update(i, e));
        assert(s[i].0@ != s[s.len() - 1].0@);
        assert(entry_map(r) =~= entry_map(s).insert(e.0@, e.1));
    }
    assert(unique_ids(r)) by {
        assert forall|a: int, b: int|
            0 <= a < r.len() && 0 <= b < r.len() && a != b implies r[a].0@ != r[b].0@ by {
            if a != i && b != i {
                assert(r[a] == s[a] && r[b] == s[b]);
            } else if a == i {
                assert(r[b] == s[b]);
            } else {
                assert(r[a] == s[a]);
            }
        }
    }
}

/// The calls awaiting a response: a single-use completion slot per
/// correlation id.
pub struct PendingRpcs<S> {
    entries: Vec<(KademliaID, S)>,
}

impl<S> View for PendingRpcs<S> {
    type V = Map<Seq<u8>, S>;

    closed spec fn view(&self) -> Map<Seq<u8>, S> {
        entry_map(self.entries@)
    }
}

impl<S> PendingRpcs<S> {
    /// Whether the table is well formed.
    pub closed spec fn wf(&self) -> bool {
        unique_ids(self.entries@)
    }

    /// An empty table.
    pub fn new() -> (r: Self)
        ensures
            r.wf(),
            r@ == Map::<Seq<u8>, S>::empty(),
    {
        Self { entries: Vec::new() }
    }

    /// The number of calls awaiting a response.
    pub fn len(&self) -> (r: usize)
        requires
            self.wf(),
        ensures
            r == self@.len(),
    {
        proof {
            lemma_entry_map_len(self.entries@);
        }
        self.entries.len()
    }

    fn position(&self, rpc_id: &KademliaID) -> (r: Option<usize>)
        requires
            self.wf(),
        ensures
            r matches Some(i) ==> i < self.entries@.len() && self.entries@[i as int].0@ == rpc_id@,
            r is None ==> !self@.contains_key(rpc_id@),
    {
        let mut i: usize = 0;
        while i < self.entries.len()
            invariant
                i <= self.entries@.len(),
                forall|k: int| 0 <= k < i ==> (#[trigger] self.entries@[k]).0@ != rpc_id@,
            decreases self.entries@.len() - i,
        {
            if self.entries[i].0.equals(rpc_id) {
                return Some(i);
            }
            i += 1;
        }
        proof {
            lemma_entry_map_absent(self.entries@, rpc_id@);
        }
        None
    }

    /// Registers the completion slot of a call, replacing any slot already
    /// registered under the same id.
    pub fn register(&mut self, rpc_id: KademliaID, slot: S)
        requires
            old(self).wf(),
        ensures
            final(self).wf(),
            final(self)@ == old(self)@.insert(rpc_id@, slot),
    {
        match self.position(&rpc_id) {
            Some(i) => {
                proof {
                    lemma_entry_map_update(self.entries@, i as int, (rpc_id, slot));
                }
                self.entries.set(i, (rpc_id, slot));
            },
            None => {
                proof {
                    assert forall|a: int, b: int|
                        0 <= a < self.entries@.len() + 1 && 0 <= b < self.entries@.len() + 1 && a
                            != b implies self.entries@.push((rpc_id, slot))[a].0@
                        != self.entries@.push((rpc_id, slot))[b].0@ by {
                        let p = self.entries@.push((rpc_id, slot));
                        if a == self.entries@.len() {
                            lemma_entry_map_index_any(self.entries@, b, rpc_id@);
                        } else if b == self.entries@.len() {
                            lemma_entry_map_index_any(self.entries@, a, rpc_id@);
                        }
                    }
                    assert(self.entries@.push((rpc_id, slot)).drop_last() =~= self.entries@);
                }
                self.entries.push((rpc_id, slot));
            },
        }
    }

    /// Removes and returns the slot registered under `rpc_id`. Removing an id
    /// that is not registered, or no longer is, changes nothing.
    pub fn take(&mut self, rpc_id: &KademliaID) -> (r: Option<S>)
        requires
            old(self).wf(),
        ensures
            final(self).wf(),
            old(self)@.contains_key(rpc_id@) ==> r == Some(old(self)@[rpc_id@]) && final(self)@
                == old(self)@.remove(rpc_id@),
            !old(self)@.contains_key(rpc_id@) ==> r is None && final(self)@ == old(self)@,
    {
        match self.position(rpc_id) {
            Some(i) => {
                proof {
                    lemma_entry_map_index(self.entries@, i as int);
                    lemma_entry_map_remove(self.entries@, i as int);
                }
                let (_, slot) = self.entries.remove(i);
                Some(slot)
            },
            None => None,
        }
    }
}

/// The port suffix under which every node listens for RPC traffic.
pub open spec fn port_suffix() -> Seq<char> {
    seq![':', '5', '6', '7', '8']
}

/// The index of the first `':'` at or after `i`, or the length when there is
/// none.
pub open spec fn first_colon_from(s: Seq<char>, i: int) -> int
    decreases s.len() - i,
{
    if i < 0 || i >= s.len() {
        s.len() as int
    } else if s[i] == ':' {
        i
    } else {
        first_colon_from(s, i + 1)
    }
}

/// Where a request to a contact's address goes: a bare host gets the RPC
/// port, an address that names a port is kept.
pub open spec fn request_address(a: Seq<char>) -> Seq<char> {
    if first_colon_from(a, 0) < a.len() {
        a
    } else {
        a + port_suffix()
    }
}

/// Where a response to a request from `src` goes: the host part of `src`
/// with the RPC port, since requests leave from ephemeral ports.
pub open spec fn response_address(src: Seq<char>) -> Seq<char> {
    src.take(first_colon_from(src, 0)) + port_suffix()
}

proof fn lemma_first_colon_bound(s: Seq<char>, i: int)
    ensures
        first_colon_from(s, i) <= s.len(),
    decreases s.len() - i,
{
    if 0 <= i < s.len() && s[i] != ':' {
        lemma_first_colon_bound(s, i + 1);
    }
}

fn push_port(s: &mut String)
    ensures
        final(s)@ == old(s)@ + port_suffix(),
{
    push_char(s, ':');
    push_char(s, '5');
    push_char(s, '6');
    push_char(s, '7');
    push_char(s, '8');
    assert(final(s)@ =~= old(s)@ + port_suffix());
}

/// Copies the characters of `a` before its first `':'`; reports whether
/// there was one.
fn host_part(a: &String) -> (r: (String, bool))
    ensures
        r.0@ == a@.take(first_colon_from(a@, 0)),
        r.1 == (first_colon_from(a@, 0) < a@.len()),
{
    let s = a.as_str();
    let n = s.unicode_len();
    let mut out = String::new();
    let mut i: usize = 0;
    while i < n
        invariant
            i <= n,
            n == a@.len(),
            s@ == a@,
            out@ == a@.take(i as int),
            first_colon_from(a@, 0) == first_colon_from(a@, i as int),
        decreases n - i,
    {
        let c = s.get_char(i);
        if c == ':' {
            return (out, true);
        }
        push_char(&mut out, c);
        assert(out@ =~= a@.take(i as int + 1));
        i += 1;
    }
    assert(out@ =~= a@.take(n as int));
    (out, false)
}

/// The address that a request to `addr` is sent to.
pub fn rpc_target(addr: &String) -> (r: String)
    ensures
        r@ == request_address(addr@),
{
    let (mut host, has_port) = host_part(addr);
    if has_port {
        addr.clone()
    } else {
        proof {
            lemma_first_colon_bound(addr@, 0);
        }
        assert(addr@.take(addr@.len() as int) =~= addr@);
        push_port(&mut host);
        host
    }
}

/// The address that a response to a request from `src` is sent to.
pub fn response_target(src: &String) -> (r: String)
    ensures
        r@ == response_address(src@),
{
    let (mut host, _) = host_part(src);
    push_port(&mut host);
    host
}

/// What an inbound request asks of the node.
pub enum RequestPlan {
    /// Record the sender, then answer `PONG` with the node's own contact.
    Pong { sender: Contact },
    /// Answer with the contacts closest to `target`.
    Closest { target: KademliaID },
    /// Answer with the value stored under `target`, or else the contacts
    /// closest to it.
    ValueOrClosest { target: KademliaID },
    /// Store `data` under `key`, its content address, and acknowledge.
    Store { key: KademliaID, data: String },
    /// Nothing to do: a method that is not a request, or a missing argument.
    Ignore,
}

/// Decides what an inbound request, tagged `rpc_id` and received from the
/// address `src`, asks for. A `PING` records its sender: the first contact
/// that it carries, or else a contact for the observed source address;
/// `FIND_NODE` and `FIND_VALUE` need a target; `STORE` needs a payload,
/// stored under its content address.
pub fn plan_request(
    rpc_id: KademliaID,
    src: String,
    method: Command,
    target_id: Option<KademliaID>,
    data: Option<String>,
    contact: Option<Vec<Contact>>,
) -> (r: RequestPlan)
    ensures
        method == Command::PING ==> (r matches RequestPlan::Pong { sender } && match contact {
            Some(v) => if v@.len() > 0 {
                sender == v@[0]
            } else {
                sender.id == rpc_id && sender.address == src && sender.distance_view() is None
            },
            None => sender.id == rpc_id && sender.address == src && sender.distance_view() is None,
        }),
        method == Command::FINDNODE ==> match target_id {
            Some(t) => r == RequestPlan::Closest { target: t },
            None => r is Ignore,
        },
        method == Command::FINDVALUE ==> match target_id {
            Some(t) => r == RequestPlan::ValueOrClosest { target: t },
            None => r is Ignore,
        },
        method == Command::STORE ==> match data {
            Some(d) => (r matches RequestPlan::Store { key, data: stored } && stored == d && key@
                == content_id(encode_utf8(d@))),
            None => r is Ignore,
        },
        method == Command::PONG ==> r is Ignore,
{
    match method {
        Command::PING => {
            let sender = match contact {
                Some(v) => if v.len() > 0 {
                    v[0].clone()
                } else {
                    Contact::new(rpc_id, src)
                },
                None => Contact::new(rpc_id, src),
            };
            RequestPlan::Pong { sender }
        },
        Command::FINDNODE => match target_id {
            Some(t) => RequestPlan::Closest { target: t },
            None => RequestPlan::Ignore,
        },
        Command::FINDVALUE => match target_id {
            Some(t) => RequestPlan::ValueOrClosest { target: t },
            None => RequestPlan::Ignore,
        },
        Command::STORE => match data {
            Some(d) => {
                let key = KademliaID::from_data(d.as_str());
                RequestPlan::Store { key, data: d }
            },
            None => RequestPlan::Ignore,
        },
        Command::PONG => RequestPlan::Ignore,
    }
}

/// The answer to a `FIND_VALUE` request: the stored value when there is
/// one, else the closest contacts known.
pub fn find_value_answer(stored: Option<String>, closest: Option<Vec<Contact>>) -> (r: (
    Option<String>,
    Option<Vec<Contact>>,
))
    ensures
        stored is Some ==> r == (stored, None::<Vec<Contact>>),
        stored is None ==> r == (None::<String>, closest),
{
    match stored {
        Some(v) => (Some(v), None),
        None => (None, closest),
    }
}

/// Whether a response whose send failed `failures` times is sent again.
pub fn retry_send(failures: usize) -> (r: bool)
    ensures
        r == (failures < SEND_ATTEMPTS),
{
    failures < SEND_ATTEMPTS
}

/// The contacts that an inbound response teaches the routing table: those
/// carried by a `PONG`, `FIND_NODE` or `FIND_VALUE` response.
pub fn contacts_to_learn(result: Command, contact: Option<Vec<Contact>>) -> (r: Vec<Contact>)
    ensures
        (result == Command::PONG || result == Command::FINDNODE || result == Command::FINDVALUE)
            ==> match contact {
            Some(v) => r == v,
            None => r@.len() == 0,
        },
        (result == Command::PING || result == Command::STORE) ==> r@.len() == 0,
{
    match result {
        Command::PONG | Command::FINDNODE | Command::FINDVALUE => match contact {
            Some(v) => v,
            None => Vec::new(),
        },
        _ => Vec::new(),
    }
}

proof fn lemma_entry_map_index_any<S>(s: Seq<(KademliaID, S)>, i: int, k: Seq<u8>)
    requires
        0 <= i < s.len(),
        !entry_map(s).contains_key(k),
    ensures
        s[i].0@ != k,
    decreases s.len(),
{
    if i < s.len() - 1 {
        assert(s.drop_last()[i] == s[i]);
        lemma_entry_map_index_any(s.drop_last(), i, k);
    }
}

proof fn lemma_entry_map_len<S>(s: Seq<(KademliaID, S)>)
    requires
        unique_ids(s),
    ensures
        entry_map(s).len() == s.len(),
        entry_map(s).dom().finite(),
    decreases s.len(),
{
    if s.len() > 0 {
        let t = s.drop_last();
        assert(unique_ids(t)) by {
            assert forall|a: int, b: int|
                0 <= a < t.len() && 0 <= b < t.len() && a != b implies t[a].0@ != t[b].0@ by {
                assert(t[a] == s[a] && t[b] == s[b]);
            }
        }
        lemma_entry_map_len(t);
        assert forall|i: int| 0 <= i < t.len() implies (#[trigger] t[i]).0@ != s.last().0@ by {
            assert(t[i] == s[i]);
        }
        lemma_entry_map_absent(t, s.last().0@);
    }
}

} // verus!
