//! The decisions of the routing-table actor: one command applied to the
//! table that the actor owns, with the reply that the command asks for.
use crate::bucket::{all_distances_to, bucket_insert, views, without_id};
use crate::constants::BUCKET_SIZE;
use crate::contact::Contact;
use crate::kademlia_id::{bucket_index_of, KademliaID};
use crate::routing_table::{closest_contacts, RoutingTable};
use vstd::prelude::*;

verus! {

/// A command to the routing-table actor, without its reply channel.
pub enum TableCommand {
    AddContact(Contact),
    RemoveContact(KademliaID),
    GetClosestNodes(KademliaID),
    GetBucketIndex(KademliaID),
}

/// What the actor answers: updates answer nothing, each query exactly one
/// value.
pub enum TableReply {
    Applied,
    ClosestNodes(Vec<Contact>),
    BucketIndex(usize),
}

/// Applies one command to the table. Updates change the table and reply
/// `Applied`; queries leave it as it was and always produce their reply,
/// an empty list included.
pub fn apply_command(table: &mut RoutingTable, cmd: TableCommand) -> (r: TableReply)
    requires
        old(table).wf(),
    ensures
        final(table).wf(),
        final(table)@.me == old(table)@.me,
        match cmd {
            TableCommand::AddContact(c) => {
                &&& r is Applied
                &&& c.id@ == old(table)@.me.id ==> final(table)@ == old(table)@
                &&& c.id@ != old(table)@.me.id ==> final(table)@.buckets == old(
                    table,
                )@.buckets.update(
                    bucket_index_of(old(table)@.me.id, c.id@),
                    bucket_insert(
                        old(table)@.buckets[bucket_index_of(old(table)@.me.id, c.id@)],
                        c@,
                        old(table)@.me.id,
                    ),
                )
            },
            TableCommand::RemoveContact(id) => {
                &&& r is Applied
                &&& final(table)@.buckets == old(table)@.buckets.update(
                    bucket_index_of(old(table)@.me.id, id@),
                    without_id(old(table)@.buckets[bucket_index_of(old(table)@.me.id, id@)], id@),
                )
            },
            TableCommand::GetClosestNodes(target) => {
                &&& *final(table) == *old(table)
                &&& r matches TableReply::ClosestNodes(v) && views(v@) == closest_contacts(
                    old(table)@,
                    target@,
                    BUCKET_SIZE as int,
                ) && all_distances_to(v@, target@)
            },
            TableCommand::GetBucketIndex(id) => {
                &&& *final(table) == *old(table)
                &&& r == TableReply::BucketIndex(bucket_index_of(old(table)@.me.id, id@) as usize)
            },
        },
{
    match cmd {
        TableCommand::AddContact(contact) => {
            table.add_contact(contact);
            TableReply::Applied
        },
        TableCommand::RemoveContact(id) => {
            table.remove_contact(&id);
            TableReply::Applied
        },
        TableCommand::GetClosestNodes(target) => {
            TableReply::ClosestNodes(table.find_closest_contacts(target, BUCKET_SIZE))
        },
        TableCommand::GetBucketIndex(id) => TableReply::BucketIndex(table.get_bucket_index(id)),
    }
}

} // verus!
