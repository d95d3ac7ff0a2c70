use kadrustlia::contact::Contact;
use kadrustlia::error::KadError;
use kadrustlia::kademlia_id::KademliaID;
use std::cmp::Ordering;

struct Big160 {
    parts: [u32; 10],
}

impl Big160 {
    fn new() -> Big160 {
        Big160 { parts: [0; 10] }
    }

    fn add(&mut self, a: &KademliaID, b: &KademliaID) {
        let mut carry = 0u64;

        for i in (0..5).rev() {
            let a_part = u32::from_be_bytes(a.id[i * 4..(i + 1) * 4].try_into().unwrap()) as u64;
            let b_part = u32::from_be_bytes(b.id[i * 4..(i + 1) * 4].try_into().unwrap()) as u64;
            let sum = a_part + b_part + carry;

            self.parts[i] = (sum & 0xFFFFFFFF) as u32;
            carry = sum >> 32;
        }

        for i in 5..10 {
            self.parts[i] = carry as u32;
            carry = 0;
        }
    }

    fn to_hex(&self) -> String {
        self.parts
            .iter()
            .map(|part| format!("{:08x}", part))
            .collect::<Vec<String>>()
            .join("")
    }
}

#[test]
fn xor_metric() {
    let kad_id_1: KademliaID = KademliaID::new();
    let kad_id_2 = KademliaID::new();

    assert_eq!(
        kad_id_1.distance(&kad_id_2),
        kad_id_2.distance(&kad_id_1),
        "XOR is symmetric"
    );

    let zero_distance = KademliaID::with_id([0u8; 20]);
    assert_eq!(
        kad_id_1.distance(&kad_id_1).to_hex(),
        zero_distance.to_hex(),
        "The distance to itself should be zero"
    );

    let kad_id_2: KademliaID = KademliaID::new();
    assert_ne!(
        kad_id_1.distance(&kad_id_2),
        zero_distance,
        "The distance should be greater than zero"
    );
}

#[test]
fn xor_metric_triangle_inequality() {
    let kad_id_1 = KademliaID::new();
    let kad_id_2 = KademliaID::new();
    let kad_id_3 = KademliaID::new();

    let ab = kad_id_1.distance(&kad_id_2);
    let bc = kad_id_2.distance(&kad_id_3);
    let ac = kad_id_1.distance(&kad_id_3);

    let mut ab_and_bc = Big160::new();
    ab_and_bc.add(&ab, &bc);
    let ab_bc_hex = ab_and_bc.to_hex();
    let ac_hex = ac.to_hex();

    let padded_ac_hex = format!("{:0>80}", ac_hex);
    println!("Sum (ab + bc) in hex: {}", ab_bc_hex);
    println!("Distance ac in hex (padded): {}", padded_ac_hex);

    assert!(
        padded_ac_hex <= ab_bc_hex,
        "Triangle inequality failed: d(A, C) > d(A, B) + d(B, C)"
    );
}

#[test]
fn test_kademlia_id_edge_cases() {
    let zero_id =
        KademliaID::from_hex("0000000000000000000000000000000000000000".to_string()).unwrap();
    let zero_id_hex = zero_id.to_hex();
    assert_eq!(
        zero_id_hex, "0000000000000000000000000000000000000000",
        "Expected all-zero Kademlia ID"
    );

    let one_id =
        KademliaID::from_hex("FFFFFFFFFFFFFFFFFFFFFFFFFFFFFFFFFFFFFFFF".to_string()).unwrap();
    let one_id_hex = one_id.to_hex().to_uppercase();
    assert_eq!(
        one_id_hex, "FFFFFFFFFFFFFFFFFFFFFFFFFFFFFFFFFFFFFFFF",
        "Expected all-one Kademlia ID"
    );
}

#[test]
fn test_contact_from_hex() {
    let hex_id = "0123456789abcdef0123456789abcdef01234567".to_string();
    let address = "127.0.0.1:8080".to_string();

    let contact = Contact::contact_from_hex(hex_id.clone(), address.clone()).unwrap();

    assert_eq!(contact.id.to_hex(), hex_id, "Contact ID does not match");
    assert_eq!(contact.address, address, "Contact address does not match");
}

#[test]
fn test_contact_less() {
    let target_id = KademliaID::new();

    let mut contact1 = Contact::new(KademliaID::new(), "127.0.0.1:8081".to_string());
    contact1.calc_distance(&target_id);

    let mut contact2 = Contact::new(KademliaID::new(), "127.0.0.1:8082".to_string());
    contact2.calc_distance(&target_id);

    let less = contact1.less(contact2.clone());

    let expected = contact1
        .get_distance()
        .unwrap()
        .less(&contact2.get_distance().unwrap());

    assert_eq!(less, expected, "Contact less comparison failed");
}

#[test]
fn test_kademlia_id_from_data() {
    let data = "some test data";
    let id1 = KademliaID::from_data(data);
    let id2 = KademliaID::from_data(data);

    assert_eq!(id1, id2, "KademliaIDs from the same data should be equal");
}

#[test]
fn test_kademlia_id_partial_ord() {
    let id1 = KademliaID::from_hex("0000000000000000000000000000000000000001".to_string()).unwrap();
    let id2 = KademliaID::from_hex("0000000000000000000000000000000000000002".to_string()).unwrap();
    let id3 = KademliaID::from_hex("0000000000000000000000000000000000000001".to_string()).unwrap();

    assert!(id1 < id2, "id1 should be less than id2");
    assert!(id2 > id1, "id2 should be greater than id1");
    assert_eq!(
        id1.partial_cmp(&id3),
        Some(Ordering::Equal),
        "id1 should equal id3"
    );
}

#[test]
fn test_kademlia_id_cmp_equal() {
    let id1 = KademliaID::from_hex("ABCDEF1234567890ABCDEF1234567890ABCDEF12".to_string()).unwrap();
    let id2 = KademliaID::from_hex("ABCDEF1234567890ABCDEF1234567890ABCDEF12".to_string()).unwrap();

    let ordering = id1.cmp(&id2);
    assert_eq!(ordering, Ordering::Equal, "Expected Ordering::Equal");
}

#[test]
fn test_calc_distance() {
    let id1 = KademliaID::new();
    let id2 = KademliaID::new();
    let mut contact = Contact::new(id1.clone(), "127.0.0.1:8080".to_string());

    contact.calc_distance(&id2);
    let expected_distance = id1.distance(&id2);

    assert_eq!(
        contact.get_distance().unwrap(),
        expected_distance,
        "Distance calculation is incorrect"
    );
}

#[test]
fn test_calc_distance_same_id() {
    let id = KademliaID::new();
    let mut contact = Contact::new(id.clone(), "127.0.0.1:8080".to_string());

    contact.calc_distance(&id);
    let expected_distance = KademliaID::with_id([0u8; 20]);

    assert_eq!(
        contact.get_distance().unwrap(),
        expected_distance,
        "Distance should be zero for the same ID"
    );
}

#[test]
fn hex_round_trip_of_random_ids() {
    for _ in 0..50 {
        let id = KademliaID::new();
        let hex = id.to_hex();
        assert_eq!(hex.len(), 40);
        assert_eq!(hex, hex.to_lowercase());
        assert_eq!(KademliaID::from_hex(hex).unwrap(), id);
    }
}

#[test]
fn to_hex_writes_two_lowercase_digits_per_byte() {
    let mut bytes = [0u8; 20];
    bytes[0] = 0xab;
    bytes[1] = 0x05;
    bytes[19] = 0xf0;
    let id = KademliaID::with_id(bytes);
    assert_eq!(id.to_hex(), "ab050000000000000000000000000000000000f0");
}

#[test]
fn from_hex_rejects_malformed_text() {
    let short = "abc".to_string();
    let long = "00".repeat(21);
    let bad_digit = format!("{}g", "0".repeat(39));
    for s in [short, long, bad_digit, String::new()] {
        assert_eq!(KademliaID::from_hex(s), Err(KadError::MalformedIdentifier));
    }
}

#[test]
fn from_hex_accepts_both_cases() {
    let lower = KademliaID::from_hex("abcdef1234567890abcdef1234567890abcdef12".to_string()).unwrap();
    let upper = KademliaID::from_hex("ABCDEF1234567890ABCDEF1234567890ABCDEF12".to_string()).unwrap();
    assert_eq!(lower, upper);
    assert_eq!(lower.id[0], 0xab);
    assert_eq!(lower.id[19], 0x12);
}

#[test]
fn content_address_is_sha256_prefix() {
    let id = KademliaID::from_data("test");
    assert_eq!(id.to_hex(), "9f86d081884c7d659a2feaa0c55ad015a3bf4f1b");
    assert_eq!(KademliaID::from_data("test"), id);
    assert_ne!(KademliaID::from_data("other"), id);
}

#[test]
fn distance_is_bytewise_xor() {
    let mut a = [0u8; 20];
    let mut b = [0u8; 20];
    a[0] = 0b1100_0000;
    b[0] = 0b1010_0000;
    a[19] = 7;
    let d = KademliaID::with_id(a).distance(&KademliaID::with_id(b));
    assert_eq!(d.id[0], 0b0110_0000);
    assert_eq!(d.id[19], 7);
}

#[test]
fn less_and_equals_follow_first_differing_byte() {
    let mut a = [0u8; 20];
    let mut b = [0u8; 20];
    a[3] = 1;
    b[3] = 2;
    a[10] = 200;
    let x = KademliaID::with_id(a);
    let y = KademliaID::with_id(b);
    assert!(x.less(&y));
    assert!(!y.less(&x));
    assert!(!x.less(&x));
    assert!(x.equals(&x));
    assert!(!x.equals(&y));
    assert_eq!(y.cmp(&x), Ordering::Greater);
}

#[test]
fn get_distance_before_calc_is_an_error() {
    let contact = Contact::new(KademliaID::new(), "127.0.0.1".to_string());
    assert_eq!(contact.get_distance(), Err(KadError::DistanceNotComputed));
}

#[test]
fn generated_ids_fall_in_the_requested_bucket() {
    let me = KademliaID::new();
    for i in 0..160 {
        let id = me.generate_random_id_in_bucket(i);
        let d = me.distance(&id);
        let first_set = (0..160).find(|&p| (d.id[p / 8] >> (7 - p % 8)) & 1 == 1);
        assert_eq!(first_set, Some(i));
    }
}
