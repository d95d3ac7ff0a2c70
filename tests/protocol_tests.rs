use kadrustlia::cli::{parse_command, Command as ShellCommand};
use kadrustlia::contact::Contact;
use kadrustlia::kademlia::{refresh_indices, ProbeOutcome, Shortlist};
use kadrustlia::kademlia_id::KademliaID;
use kadrustlia::networking::{
    contacts_to_learn, find_value_answer, plan_request, retry_send, response_target, rpc_target, PendingRpcs, RequestPlan,
};
use kadrustlia::routing_table::RoutingTable;
use kadrustlia::routing_table_handler::{apply_command, TableCommand, TableReply};
use kadrustlia::rpc::Command;
use std::collections::HashMap;

fn id_from_u64(v: u64) -> KademliaID {
    let mut bytes = [0u8; 20];
    bytes[12..].copy_from_slice(&v.to_be_bytes());
    KademliaID::with_id(bytes)
}

fn contact(v: u64) -> Contact {
    Contact::new(id_from_u64(v), format!("10.0.0.{}", v))
}

#[test]
fn pending_table_matches_each_response_once() {
    let mut pending: PendingRpcs<u32> = PendingRpcs::new();
    pending.register(id_from_u64(1), 10);
    pending.register(id_from_u64(2), 20);
    assert_eq!(pending.len(), 2);
    assert_eq!(pending.take(&id_from_u64(2)), Some(20));
    assert_eq!(pending.take(&id_from_u64(2)), None);
    assert_eq!(pending.take(&id_from_u64(3)), None);
    pending.register(id_from_u64(1), 11);
    assert_eq!(pending.len(), 1);
    assert_eq!(pending.take(&id_from_u64(1)), Some(11));
    assert_eq!(pending.len(), 0);
}

#[test]
fn request_addresses_get_the_rpc_port() {
    assert_eq!(rpc_target(&"10.0.0.7".to_string()), "10.0.0.7:5678");
    assert_eq!(rpc_target(&"127.0.0.1:8080".to_string()), "127.0.0.1:8080");
    assert_eq!(response_target(&"127.0.0.1:40123".to_string()), "127.0.0.1:5678");
    assert_eq!(response_target(&"10.0.0.9".to_string()), "10.0.0.9:5678");
}

#[test]
fn plan_for_each_request_method() {
    let sender = contact(4);
    let rpc_id = id_from_u64(77);
    let src = "10.0.0.9".to_string();
    match plan_request(
        rpc_id,
        src.clone(),
        Command::PING,
        None,
        None,
        Some(vec![sender.clone(), contact(5)]),
    ) {
        RequestPlan::Pong { sender: c } => {
            assert_eq!(c.id, sender.id);
            assert_eq!(c.address, sender.address);
        }
        _ => panic!("PING records its first contact"),
    }
    for carried in [None, Some(Vec::new())] {
        match plan_request(rpc_id, src.clone(), Command::PING, None, None, carried) {
            RequestPlan::Pong { sender: c } => {
                assert_eq!(c.id, rpc_id);
                assert_eq!(c.address, src);
            }
            _ => panic!("PING records its observed source"),
        }
    }
    match plan_request(rpc_id, src.clone(), Command::FINDNODE, Some(id_from_u64(9)), None, None) {
        RequestPlan::Closest { target } => assert_eq!(target, id_from_u64(9)),
        _ => panic!("FIND_NODE asks for the closest contacts"),
    }
    assert!(matches!(
        plan_request(rpc_id, src.clone(), Command::FINDNODE, None, None, None),
        RequestPlan::Ignore
    ));
    match plan_request(rpc_id, src.clone(), Command::FINDVALUE, Some(id_from_u64(3)), None, None) {
        RequestPlan::ValueOrClosest { target } => assert_eq!(target, id_from_u64(3)),
        _ => panic!("FIND_VALUE asks for the value or the closest contacts"),
    }
    match plan_request(rpc_id, src.clone(), Command::STORE, None, Some("hello".to_string()), None) {
        RequestPlan::Store { key, data } => {
            assert_eq!(data, "hello");
            assert_eq!(key, KademliaID::from_data("hello"));
        }
        _ => panic!("STORE stores its payload"),
    }
    assert!(matches!(
        plan_request(rpc_id, src.clone(), Command::STORE, None, None, None),
        RequestPlan::Ignore
    ));
    assert!(matches!(
        plan_request(rpc_id, src.clone(), Command::PONG, None, None, None),
        RequestPlan::Ignore
    ));
}

#[test]
fn responses_teach_their_contacts() {
    let learned = contacts_to_learn(Command::FINDNODE, Some(vec![contact(1), contact(2)]));
    assert_eq!(learned.len(), 2);
    assert_eq!(contacts_to_learn(Command::PONG, Some(vec![contact(1)])).len(), 1);
    assert!(contacts_to_learn(Command::FINDVALUE, None).is_empty());
    assert!(contacts_to_learn(Command::STORE, Some(vec![contact(1)])).is_empty());
}

#[test]
fn shortlist_runs_rounds_until_converged() {
    let target = id_from_u64(0);
    let seed: Vec<Contact> = (8..=14u64).map(contact).collect();
    let mut list = Shortlist::new(target, seed);
    let probes = list.begin_round();
    let probed: Vec<KademliaID> = probes.iter().map(|c| c.id).collect();
    assert_eq!(probed, (8..=12u64).map(id_from_u64).collect::<Vec<_>>());
    // 8 answers with a nearer contact, 9 is unreachable, the rest answer
    // with nothing new.
    let found = list.record(
        &id_from_u64(8),
        ProbeOutcome::Replied { data: None, contacts: Some(vec![contact(1), contact(10)]) },
    );
    assert!(found.is_none());
    list.record(&id_from_u64(9), ProbeOutcome::Unreachable);
    for v in 10..=12u64 {
        list.record(&id_from_u64(v), ProbeOutcome::Replied { data: None, contacts: None });
    }
    assert!(list.end_round(&probes));
    let probes = list.begin_round();
    let probed: Vec<KademliaID> = probes.iter().map(|c| c.id).collect();
    assert_eq!(probed, vec![id_from_u64(13), id_from_u64(14), id_from_u64(1)]);
    for p in &probes {
        list.record(&p.id, ProbeOutcome::Replied { data: None, contacts: None });
    }
    // Nothing nearer than 1 turned up: the search has converged.
    assert!(!list.end_round(&probes));
    let result = list.result();
    let ids: Vec<KademliaID> = result.iter().map(|c| c.id).collect();
    assert_eq!(
        ids,
        [1u64, 8, 10, 11, 12, 13, 14].iter().map(|&v| id_from_u64(v)).collect::<Vec<_>>()
    );
    assert_eq!(result[0].get_distance().unwrap(), id_from_u64(1));
    assert!(list.begin_round().is_empty());
}

#[test]
fn shortlist_returns_a_found_value() {
    let mut list = Shortlist::new(id_from_u64(0), vec![contact(3)]);
    let probes = list.begin_round();
    assert_eq!(probes.len(), 1);
    let found = list.record(
        &id_from_u64(3),
        ProbeOutcome::Replied { data: Some("hello".to_string()), contacts: None },
    );
    assert_eq!(found, Some("hello".to_string()));
}

#[test]
fn empty_shortlist_has_nothing_to_probe() {
    let mut list = Shortlist::new(id_from_u64(0), Vec::new());
    assert!(list.begin_round().is_empty());
    assert!(list.result().is_empty());
}

#[test]
fn refresh_sweeps_buckets_above_the_nearest_neighbour() {
    let own = id_from_u64(0);
    assert!(refresh_indices(&own, &Vec::new()).is_empty());
    let indices = refresh_indices(&own, &vec![contact(0x10), contact(1)]);
    assert_eq!(indices, (156..160).collect::<Vec<usize>>());
}

#[test]
fn test_parse_command() {
    let input = "get 0123456789abcdef0123456789abcdef01234567";
    let command = parse_command(input);
    assert!(command.is_ok());
    match command.unwrap() {
        ShellCommand::GET(hash) => {
            assert_eq!(hash, "0123456789abcdef0123456789abcdef01234567")
        }
        _ => panic!("Expected GET command"),
    }
}

#[test]
fn parse_command_errors_and_words() {
    assert!(matches!(parse_command("  put   hello  world"), Ok(ShellCommand::PUT(d)) if d == "hello"));
    assert!(matches!(parse_command("exit"), Ok(ShellCommand::EXIT)));
    assert_eq!(parse_command("get").err(), Some("GET: missing hash argument"));
    assert_eq!(parse_command("put   ").err(), Some("PUT: missing data argument"));
    assert_eq!(parse_command("").err(), Some("Unknown command"));
    assert_eq!(parse_command("find x").err(), Some("Unknown command"));
}

fn closest(table: &mut RoutingTable, target: KademliaID) -> Vec<Contact> {
    match apply_command(table, TableCommand::GetClosestNodes(target)) {
        TableReply::ClosestNodes(v) => v,
        _ => panic!("a query must produce its reply"),
    }
}

/// One node answering a request, with its table and blob store.
fn serve(
    table: &mut RoutingTable,
    store: &mut HashMap<String, String>,
    own: &Contact,
    method: Command,
    target: Option<KademliaID>,
    data: Option<String>,
    contacts: Option<Vec<Contact>>,
) -> ProbeOutcome {
    match plan_request(id_from_u64(1), "10.0.0.99".to_string(), method, target, data, contacts) {
        RequestPlan::Pong { sender } => {
            apply_command(table, TableCommand::AddContact(sender));
            ProbeOutcome::Replied { data: None, contacts: Some(vec![own.clone()]) }
        }
        RequestPlan::Closest { target } => {
            ProbeOutcome::Replied { data: None, contacts: Some(closest(table, target)) }
        }
        RequestPlan::ValueOrClosest { target } => {
            let stored = store.get(&target.to_hex()).cloned();
            let near = if stored.is_none() { Some(closest(table, target)) } else { None };
            let (data, contacts) = find_value_answer(stored, near);
            ProbeOutcome::Replied { data, contacts }
        }
        RequestPlan::Store { key, data } => {
            store.insert(key.to_hex(), data);
            ProbeOutcome::Replied { data: None, contacts: None }
        }
        RequestPlan::Ignore => ProbeOutcome::Unreachable,
    }
}

#[test]
fn two_nodes_join_store_and_find_a_value() {
    let a = Contact::new(id_from_u64(0xA0), "10.0.0.1".to_string());
    let b = Contact::new(id_from_u64(0xB0), "10.0.0.2".to_string());
    let mut table_a = RoutingTable::new(a.clone());
    let mut table_b = RoutingTable::new(b.clone());
    let mut store_a: HashMap<String, String> = HashMap::new();

    // B joins through A: PING carries B's contact, PONG carries A's.
    let pong = serve(&mut table_a, &mut store_a, &a, Command::PING, None, None, Some(vec![b.clone()]));
    if let ProbeOutcome::Replied { contacts, .. } = pong {
        for c in contacts_to_learn(Command::PONG, contacts) {
            apply_command(&mut table_b, TableCommand::AddContact(c));
        }
    }
    assert_eq!(closest(&mut table_b, a.id).len(), 1);
    assert_eq!(closest(&mut table_b, a.id)[0].id, a.id);
    assert_eq!(closest(&mut table_a, b.id)[0].id, b.id);

    // B stores "hello" at the nodes closest to its content address.
    let key = KademliaID::from_data("hello");
    let mut list = Shortlist::new(key, closest(&mut table_b, key));
    loop {
        let probes = list.begin_round();
        if probes.is_empty() {
            break;
        }
        for p in &probes {
            let outcome = if p.id == a.id {
                serve(&mut table_a, &mut store_a, &a, Command::FINDNODE, Some(key), None, None)
            } else {
                ProbeOutcome::Unreachable
            };
            list.record(&p.id, outcome);
        }
        if !list.end_round(&probes) {
            break;
        }
    }
    let replicas = list.result();
    assert!(replicas.iter().any(|c| c.id == a.id));
    let ack = serve(
        &mut table_a,
        &mut store_a,
        &a,
        Command::STORE,
        Some(key),
        Some("hello".to_string()),
        None,
    );
    assert!(matches!(ack, ProbeOutcome::Replied { data: None, contacts: None }));

    // A FIND_VALUE for the key returns the payload.
    let mut search = Shortlist::new(key, closest(&mut table_b, key));
    let probes = search.begin_round();
    let mut found = None;
    for p in &probes {
        let outcome =
            serve(&mut table_a, &mut store_a, &a, Command::FINDVALUE, Some(key), None, None);
        if let Some(v) = search.record(&p.id, outcome) {
            found = Some(v);
            break;
        }
    }
    assert_eq!(found, Some("hello".to_string()));
}

#[test]
fn find_value_answer_prefers_the_stored_value() {
    let (v, c) = find_value_answer(Some("x".to_string()), Some(vec![contact(1)]));
    assert_eq!(v, Some("x".to_string()));
    assert!(c.is_none());
    let (v, c) = find_value_answer(None, Some(vec![contact(1)]));
    assert!(v.is_none());
    assert_eq!(c.map(|cs| cs.len()), Some(1));
}

#[test]
fn responses_are_sent_at_most_three_times() {
    assert!(retry_send(0));
    assert!(retry_send(2));
    assert!(!retry_send(3));
}

#[test]
fn unreachable_peer_is_not_listed_again() {
    let mut list = Shortlist::new(id_from_u64(0), vec![contact(5), contact(6)]);
    let probes = list.begin_round();
    assert_eq!(probes.len(), 2);
    list.record(&id_from_u64(5), ProbeOutcome::Unreachable);
    list.record(
        &id_from_u64(6),
        ProbeOutcome::Replied { data: None, contacts: Some(vec![contact(5), contact(2)]) },
    );
    list.end_round(&probes);
    let next: Vec<KademliaID> = list.begin_round().iter().map(|c| c.id).collect();
    assert_eq!(next, vec![id_from_u64(2)]);
    let answered: Vec<KademliaID> = list.result().iter().map(|c| c.id).collect();
    assert_eq!(answered, vec![id_from_u64(6)]);
}
