use zark_waf::uid::Uid;

fn random_part(s: &str) -> Vec<char> {
    s.chars().collect()
}

#[test]
fn from_parts_lays_out_time_then_random_part() {
    let u = Uid::from_parts(0x66F3A21B, &random_part("abcdefGHIJ12"));
    assert_eq!(u.to_string(), "66F3-A21B-abcd-efGH-IJ12");
}

#[test]
fn from_parts_writes_the_time_in_eight_upper_case_hex_digits() {
    let u = Uid::from_parts(0xFFFF_FFFF, &random_part("000000000000"));
    assert_eq!(u.to_string(), "FFFF-FFFF-0000-0000-0000");
    assert_eq!(u.get_timestamp(), 0xFFFF_FFFF);
    let small = Uid::from_parts(0x1F, &random_part("abcdefghijkl"));
    assert_eq!(small.to_string(), "0000-001F-abcd-efgh-ijkl");
    // the time digits hold the seconds modulo 2^32
    let wrapped = Uid::from_parts(0x1_0000_0005, &random_part("abcdefghijkl"));
    assert_eq!(wrapped.get_timestamp(), 5);
}

#[test]
fn timestamp_reads_back_the_creation_time() {
    let u = Uid::from_parts(1_700_000_000, &random_part("Zz09Zz09Zz09"));
    assert_eq!(u.get_timestamp(), 1_700_000_000);
    let zero = Uid::from_parts(0, &random_part("aaaaaaaaaaaa"));
    assert_eq!(zero.get_timestamp(), 0);
}

#[test]
fn new_identifier_round_trips_through_its_text() {
    let u = Uid::new();
    let text = u.to_string();
    assert_eq!(text.len(), 24);
    for (i, c) in text.chars().enumerate() {
        assert_eq!(c == '-', i == 4 || i == 9 || i == 14 || i == 19);
    }
    let parsed = Uid::from_string(&text).expect("an identifier's own text parses");
    assert!(parsed.equals(&u));
    assert_eq!(parsed.to_string(), text);
}

#[test]
fn new_identifier_records_the_time_now() {
    let now = std::time::SystemTime::UNIX_EPOCH.elapsed().unwrap().as_secs();
    let u = Uid::new();
    let t = u.get_timestamp();
    assert!(t + 5 >= now && t <= now + 5);
}

#[test]
fn new_identifiers_differ() {
    let a = Uid::new();
    let b = Uid::new();
    assert!(!a.equals(&b));
}

#[test]
fn from_string_accepts_a_well_formed_text() {
    let u = Uid::from_string("66F3-A21B-abcd-efGH-IJ12").unwrap();
    assert_eq!(u.get_timestamp(), 0x66F3A21B);
}

#[test]
fn from_string_rejects_malformed_texts() {
    // too short
    assert!(Uid::from_string("A21B-abcd-efGH-IJ12").is_none());
    // a dash out of place
    assert!(Uid::from_string("66F3-A21Babcd--efGH-IJ12").is_none());
    // lower-case time digit
    assert!(Uid::from_string("66f3-A21B-abcd-efGH-IJ12").is_none());
    // a random character that is no letter or digit
    assert!(Uid::from_string("66F3-A21B-ab_d-efGH-IJ12").is_none());
    // one character too many
    assert!(Uid::from_string("66F3-A21B-abcd-efGH-IJ123").is_none());
    // sixteen time digits
    assert!(Uid::from_string("0000-0000-66F3-A21B-abcd-efGH-IJ12").is_none());
    assert!(Uid::from_string("").is_none());
}

#[test]
fn order_follows_creation_time_then_text() {
    let early = Uid::from_parts(100, &random_part("zzzzzzzzzzzz"));
    let late = Uid::from_parts(101, &random_part("000000000000"));
    assert!(early.precedes(&late));
    assert!(!late.precedes(&early));
    let a = Uid::from_parts(100, &random_part("aaaaaaaaaaaa"));
    let b = Uid::from_parts(100, &random_part("aaaaaaaaaaab"));
    assert!(a.precedes(&b));
    assert!(!b.precedes(&a));
    assert!(!a.precedes(&a.duplicate()));
    // digits come before capitals, capitals before small letters
    let digit = Uid::from_parts(7, &random_part("9aaaaaaaaaaa"));
    let capital = Uid::from_parts(7, &random_part("Aaaaaaaaaaaa"));
    assert!(digit.precedes(&capital));
    assert!(capital.precedes(&early));
}

#[test]
fn equality_is_textual() {
    let a = Uid::from_string("66F3-A21B-abcd-efGH-IJ12").unwrap();
    let b = Uid::from_parts(0x66F3A21B, &random_part("abcdefGHIJ12"));
    let c = Uid::from_parts(0x66F3A21B, &random_part("abcdefGHIJ13"));
    assert!(a.equals(&b));
    assert!(!a.equals(&c));
    assert!(a.duplicate().equals(&a));
}
