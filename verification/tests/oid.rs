use git_metadata::oid::Oid;

const FULL: &str = "0123456789abcdef0123456789abcdef01234567";

#[test]
fn full_text_round_trips() {
    let oid = Oid::from_str(FULL).unwrap();
    assert_eq!(oid.bytes[0], 0x01);
    assert_eq!(oid.bytes[4], 0x89);
    assert_eq!(oid.bytes[7], 0xef);
    assert_eq!(oid.bytes[19], 0x67);
    assert_eq!(oid.to_string(), FULL);
}

#[test]
fn upper_case_is_read_and_written_as_lower_case() {
    let oid = Oid::from_str("ABCDEF0123456789ABCDEF0123456789ABCDEF01").unwrap();
    assert_eq!(oid.to_string(), "abcdef0123456789abcdef0123456789abcdef01");
}

#[test]
fn short_text_is_filled_up_with_zeros() {
    let oid = Oid::from_str("abc").unwrap();
    assert_eq!(oid.bytes[0], 0xab);
    assert_eq!(oid.bytes[1], 0xc0);
    assert_eq!(oid.to_string(), "abc0000000000000000000000000000000000000");
}

#[test]
fn empty_text_is_too_short() {
    assert_eq!(
        Oid::from_str("").unwrap_err(),
        "unable to parse OID - too short; class=Invalid (3)"
    );
}

#[test]
fn forty_one_digits_are_too_long() {
    let text = format!("{FULL}0");
    assert_eq!(
        Oid::from_str(&text).unwrap_err(),
        "unable to parse OID - too long; class=Invalid (3)"
    );
}

#[test]
fn length_is_counted_in_bytes() {
    // 21 characters of two bytes each.
    let text = "é".repeat(21);
    assert_eq!(
        Oid::from_str(&text).unwrap_err(),
        "unable to parse OID - too long; class=Invalid (3)"
    );
    assert_eq!(
        Oid::from_str("é").unwrap_err(),
        "unable to parse OID - contains invalid characters; class=Invalid (3)"
    );
}

#[test]
fn other_characters_are_refused() {
    assert_eq!(
        Oid::from_str("abcg").unwrap_err(),
        "unable to parse OID - contains invalid characters; class=Invalid (3)"
    );
}

#[test]
fn ids_are_equal_when_their_bytes_are() {
    let a = Oid::from_str("ab").unwrap();
    let b = Oid::from_str("ab00").unwrap();
    let c = Oid::from_str("ab0000000000000000000000000000000000000f").unwrap();
    assert!(a == b);
    assert!(a != c);
}
