use kadrustlia::bucket::Bucket;
use kadrustlia::constants::{BUCKET_SIZE, RT_BCKT_SIZE};
use kadrustlia::contact::{Contact, ContactCandidates};
use kadrustlia::kademlia_id::KademliaID;
use kadrustlia::routing_table::RoutingTable;
use kadrustlia::routing_table_handler::{apply_command, TableCommand, TableReply};

fn id_from_u64(v: u64) -> KademliaID {
    let mut bytes = [0u8; 20];
    bytes[12..].copy_from_slice(&v.to_be_bytes());
    KademliaID::with_id(bytes)
}

#[test]
fn test_contact_placed_in_correct_bucket() {
    let my_id = KademliaID::new();
    let me = Contact::new(my_id.clone(), "127.0.0.1".to_string());
    let mut routing_table = RoutingTable::new(me.clone());

    for i in 0..BUCKET_SIZE {
        let contact_id = my_id.generate_random_id_in_bucket(i);
        let contact = Contact::new(contact_id.clone(), format!("127.0.0.{}", i));

        let expected_bucket_index = routing_table.get_bucket_index(contact_id.clone());

        routing_table.add_contact(contact.clone());

        let actual_bucket_index = routing_table.get_bucket_index(contact_id);

        assert_eq!(
            expected_bucket_index, actual_bucket_index,
            "Contact was placed in the wrong bucket"
        );
    }
}

#[test]
fn test_duplicate_contact_in_bucket() {
    let mut bucket = Bucket::new();
    let target_id = KademliaID::new();
    let contact_id = target_id.generate_random_id_in_bucket(0);
    let contact = Contact::new(contact_id.clone(), "127.0.0.1".to_string());

    bucket.add_contact(&contact, target_id.clone());
    bucket.add_contact(&contact, target_id.clone());

    assert_eq!(
        bucket.len(),
        1,
        "Duplicate contact should not increase bucket size"
    );
}

#[test]
fn test_empty_bucket() {
    let bucket = Bucket::new();
    let target_id = KademliaID::new();

    let contacts = bucket.get_contact_and_calc_distance(target_id.clone());
    assert_eq!(contacts.len(), 0, "Expected empty bucket but got contacts");
}

#[test]
fn test_routing_table_bucket_indexing() {
    let my_id = KademliaID::new();
    let me = Contact::new(my_id.clone(), "127.0.0.1".to_string());
    let mut routing_table = RoutingTable::new(me.clone());

    for i in 0..BUCKET_SIZE {
        let contact_id = my_id.generate_random_id_in_bucket(i);
        let contact = Contact::new(contact_id.clone(), format!("127.0.0.{}", i));
        let bucket_index = routing_table.get_bucket_index(contact_id.clone());
        assert!(bucket_index < RT_BCKT_SIZE, "Bucket index out of bounds");

        routing_table.add_contact(contact.clone());
    }
}

#[test]
fn test_full_routing_table() {
    let my_id = KademliaID::new();
    let me = Contact::new(my_id.clone(), "127.0.0.1".to_string());
    let mut routing_table = RoutingTable::new(me.clone());

    for i in 0..(BUCKET_SIZE * 2) {
        let contact_id = my_id.generate_random_id_in_bucket(i);
        let contact = Contact::new(contact_id.clone(), format!("127.0.0.{}", i));
        routing_table.add_contact(contact);
    }

    let target_id = my_id.generate_random_id_in_bucket(1);
    let closest_contacts = routing_table.find_closest_contacts(target_id.clone(), BUCKET_SIZE);

    assert!(
        !closest_contacts.is_empty(),
        "Expected some contacts in routing table"
    );
}

#[test]
fn test_find_closest_contacts() {
    let my_id =
        KademliaID::from_hex("0000000000000000000000000000000000000000".to_string()).unwrap();
    let me = Contact::new(my_id.clone(), "1256".to_string());

    let mut routing_table = RoutingTable::new(me);

    for i in 0..21 {
        let hex_value = format!("{:040X}", i);
        let kad_id = KademliaID::from_hex(hex_value.clone()).unwrap();
        let contact = Contact::new(kad_id.clone(), "123".to_string());
        routing_table.add_contact(contact);
    }

    let target_id =
        KademliaID::from_hex("FFFFFFFFFFFFFFFFFFFFFFFFFFFFFFFFFFFFFFFF".to_string()).unwrap();

    let closest_contacts = routing_table.find_closest_contacts(target_id.clone(), 20);

    assert_eq!(
        closest_contacts.len(),
        20,
        "Expected 20 closest contacts but got {}",
        closest_contacts.len()
    );

    for (i, contact) in closest_contacts.iter().enumerate() {
        let expected_id = format!("{:040X}", 20 - i);
        assert_eq!(
            contact.id.to_hex().to_uppercase(),
            expected_id,
            "Contact ID at position {} does not match expected ID {}",
            i,
            expected_id
        );
    }
}

#[test]
fn test_add_contact_to_bucket() {
    let mut bucket = Bucket::new();
    let target_id = KademliaID::new();

    for i in 0..(BUCKET_SIZE + 5) {
        let contact_id = target_id.generate_random_id_in_bucket(i);
        let contact = Contact::new(contact_id, format!("address{}", i));
        bucket.add_contact(&contact, target_id);
    }

    assert_eq!(
        bucket.len(),
        BUCKET_SIZE,
        "Bucket size exceeded the BUCKET_SIZE limit"
    );
}

#[test]
fn test_routing_table_handler() {
    let local_id = KademliaID::new();
    let local_contact = Contact::new(local_id.clone(), "127.0.0.1:8080".to_string());
    let mut routing_table = RoutingTable::new(local_contact.clone());

    let contact_id = KademliaID::new();
    let contact = Contact::new(contact_id.clone(), "127.0.0.1:8081".to_string());

    assert!(matches!(
        apply_command(&mut routing_table, TableCommand::AddContact(contact.clone())),
        TableReply::Applied
    ));

    let bucket_index = match apply_command(
        &mut routing_table,
        TableCommand::GetBucketIndex(contact_id.clone()),
    ) {
        TableReply::BucketIndex(i) => i,
        _ => panic!("Did not receive bucket index"),
    };
    assert!(
        bucket_index < RT_BCKT_SIZE,
        "Bucket index out of range: {}",
        bucket_index
    );

    let closest_contacts = match apply_command(
        &mut routing_table,
        TableCommand::GetClosestNodes(contact_id.clone()),
    ) {
        TableReply::ClosestNodes(v) => v,
        _ => panic!("Did not receive contacts"),
    };
    assert_eq!(
        closest_contacts.len(),
        1,
        "Expected 1 closest contact, got {}",
        closest_contacts.len()
    );
    assert_eq!(
        closest_contacts[0].id, contact_id,
        "The contact ID does not match"
    );
}

#[test]
fn full_bucket_keeps_the_nearest_to_the_ranking_target() {
    let target = id_from_u64(0);
    let mut bucket = Bucket::new();
    // Insert 25 contacts, farthest first, so every late arrival evicts.
    for v in (1..=25u64).rev() {
        bucket.add_contact(&Contact::new(id_from_u64(v), format!("a{}", v)), target);
    }
    assert_eq!(bucket.len(), BUCKET_SIZE);
    let members = bucket.get_contact_and_calc_distance(target);
    let mut ids: Vec<KademliaID> = members.iter().map(|c| c.id).collect();
    ids.sort();
    let expected: Vec<KademliaID> = (1..=20u64).map(id_from_u64).collect();
    assert_eq!(ids, expected);
    // After an eviction the bucket is ordered by distance to the target.
    for w in members.windows(2) {
        assert!(w[0].get_distance().unwrap() < w[1].get_distance().unwrap());
    }
}

#[test]
fn full_bucket_drops_a_farther_newcomer() {
    let target = id_from_u64(0);
    let mut bucket = Bucket::new();
    for v in 1..=20u64 {
        bucket.add_contact(&Contact::new(id_from_u64(v), "x".to_string()), target);
    }
    bucket.add_contact(&Contact::new(id_from_u64(99), "far".to_string()), target);
    let members = bucket.get_contact_and_calc_distance(target);
    assert_eq!(members.len(), 20);
    assert!(members.iter().all(|c| c.id != id_from_u64(99)));
}

#[test]
fn bucket_below_capacity_appends_in_order() {
    let target = id_from_u64(0);
    let mut bucket = Bucket::new();
    for v in [5u64, 3, 9] {
        bucket.add_contact(&Contact::new(id_from_u64(v), "x".to_string()), target);
    }
    let ids: Vec<KademliaID> = bucket
        .get_contact_and_calc_distance(target)
        .iter()
        .map(|c| c.id)
        .collect();
    assert_eq!(ids, vec![id_from_u64(5), id_from_u64(3), id_from_u64(9)]);
}

#[test]
fn bucket_remove_contact() {
    let target = id_from_u64(0);
    let mut bucket = Bucket::new();
    for v in 1..=3u64 {
        bucket.add_contact(&Contact::new(id_from_u64(v), "x".to_string()), target);
    }
    bucket.remove_contact(&id_from_u64(2));
    assert_eq!(bucket.len(), 2);
    bucket.remove_contact(&id_from_u64(7));
    assert_eq!(bucket.len(), 2);
    let ids: Vec<KademliaID> = bucket
        .get_contact_and_calc_distance(target)
        .iter()
        .map(|c| c.id)
        .collect();
    assert_eq!(ids, vec![id_from_u64(1), id_from_u64(3)]);
}

#[test]
fn own_id_is_bucket_zero_and_never_inserted() {
    let me = id_from_u64(42);
    let mut table = RoutingTable::new(Contact::new(me, "self".to_string()));
    assert_eq!(table.get_bucket_index(me), 0);
    table.add_contact(Contact::new(me, "self".to_string()));
    assert!(table.find_closest_contacts(me, 20).is_empty());
}

#[test]
fn bucket_index_counts_from_the_most_significant_bit() {
    let table = RoutingTable::new(Contact::new(id_from_u64(0), "me".to_string()));
    let mut top = [0u8; 20];
    top[0] = 0x80;
    assert_eq!(table.get_bucket_index(KademliaID::with_id(top)), 0);
    assert_eq!(table.get_bucket_index(id_from_u64(1)), 159);
    assert_eq!(table.get_bucket_index(id_from_u64(0x10)), 155);
}

#[test]
fn closest_contacts_widen_past_the_target_bucket() {
    let mut table = RoutingTable::new(Contact::new(id_from_u64(0), "me".to_string()));
    for v in [1u64, 2, 3, 4] {
        table.add_contact(Contact::new(id_from_u64(v), "x".to_string()));
    }
    let found = table.find_closest_contacts(id_from_u64(3), 2);
    let ids: Vec<KademliaID> = found.iter().map(|c| c.id).collect();
    assert_eq!(ids, vec![id_from_u64(3), id_from_u64(2)]);
    let all = table.find_closest_contacts(id_from_u64(3), 10);
    assert_eq!(all.len(), 4);
    assert_eq!(all[0].get_distance().unwrap(), id_from_u64(0));
}

#[test]
fn remove_contact_from_table() {
    let mut table = RoutingTable::new(Contact::new(id_from_u64(0), "me".to_string()));
    table.add_contact(Contact::new(id_from_u64(5), "x".to_string()));
    table.add_contact(Contact::new(id_from_u64(6), "y".to_string()));
    table.remove_contact(&id_from_u64(5));
    let all = table.find_closest_contacts(id_from_u64(5), 10);
    assert_eq!(all.len(), 1);
    assert_eq!(all[0].id, id_from_u64(6));
    assert!(matches!(
        apply_command(&mut table, TableCommand::RemoveContact(id_from_u64(6))),
        TableReply::Applied
    ));
    match apply_command(&mut table, TableCommand::GetClosestNodes(id_from_u64(6))) {
        TableReply::ClosestNodes(v) => assert!(v.is_empty()),
        _ => panic!("a query must produce its reply"),
    }
}

#[test]
fn candidates_sort_and_clamp() {
    let target = id_from_u64(0);
    let mut list: Vec<Contact> = [7u64, 2, 9, 4]
        .iter()
        .map(|&v| {
            let mut c = Contact::new(id_from_u64(v), "x".to_string());
            c.calc_distance(&target);
            c
        })
        .collect();
    let mut candidates = ContactCandidates::new();
    candidates.append(&mut list);
    assert!(list.is_empty());
    assert_eq!(candidates.len(), 4);
    assert!(!candidates.less(0, 1));
    candidates.sort();
    let ids: Vec<KademliaID> = candidates.get_contacts(10).iter().map(|c| c.id).collect();
    assert_eq!(
        ids,
        vec![id_from_u64(2), id_from_u64(4), id_from_u64(7), id_from_u64(9)]
    );
    assert_eq!(candidates.get_contacts(2).len(), 2);
    candidates.swap(0, 3);
    assert_eq!(candidates.get_contacts(1)[0].id, id_from_u64(9));
    assert!(!candidates.less(0, 1));
}

#[test]
fn generated_ids_get_their_bucket_index() {
    let my_id = KademliaID::new();
    let table = RoutingTable::new(Contact::new(my_id, "me".to_string()));
    for i in 0..RT_BCKT_SIZE {
        let id = my_id.generate_random_id_in_bucket(i);
        assert_eq!(table.get_bucket_index(id), i);
    }
}

#[test]
fn bucket_of_generated_ids_keeps_the_twenty_nearest() {
    let target = KademliaID::new();
    let ids: Vec<KademliaID> = (0..(BUCKET_SIZE + 5))
        .map(|k| target.generate_random_id_in_bucket(k))
        .collect();
    let mut bucket = Bucket::new();
    for (k, id) in ids.iter().enumerate() {
        bucket.add_contact(&Contact::new(*id, format!("address{}", k)), target);
        assert!(bucket.len() <= BUCKET_SIZE);
    }
    assert_eq!(bucket.len(), BUCKET_SIZE);
    let mut kept: Vec<KademliaID> = bucket
        .get_contact_and_calc_distance(target)
        .iter()
        .map(|c| c.id)
        .collect();
    kept.sort();
    let mut expected: Vec<KademliaID> = ids[5..].to_vec();
    expected.sort();
    assert_eq!(kept, expected);
}
