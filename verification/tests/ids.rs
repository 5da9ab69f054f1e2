use omnivore::coverage::model::{draw_stamp, millis_to_i64, now_millis};
use omnivore::ids::{new_uuid, new_uuid_simple};

#[test]
fn simple_uuids_are_version_4_in_32_hex_digits() {
    let u = new_uuid_simple().unwrap();
    assert_eq!(u.len(), 32);
    assert!(u.chars().all(|c| c.is_ascii_hexdigit() && !c.is_ascii_uppercase()));
    assert_eq!(&u[12..13], "4");
    assert!("89ab".contains(&u[16..17]));
    assert_ne!(new_uuid_simple().unwrap(), u);
}

#[test]
fn hyphenated_uuids_are_version_4_in_groups() {
    let u = new_uuid().unwrap();
    assert_eq!(u.len(), 36);
    for (i, c) in u.chars().enumerate() {
        if [8, 13, 18, 23].contains(&i) {
            assert_eq!(c, '-');
        } else {
            assert!(c.is_ascii_hexdigit() && !c.is_ascii_uppercase());
        }
    }
    assert_eq!(&u[14..15], "4");
    assert!("89ab".contains(&u[19..20]));
}

#[test]
fn a_stamp_is_a_fresh_uuid_and_the_current_time() {
    let before = now_millis().unwrap();
    let stamp = draw_stamp().unwrap();
    let after = now_millis().unwrap();
    assert_eq!(stamp.id.len(), 36);
    assert!(before <= stamp.created_at_ms && stamp.created_at_ms <= after);
    assert!(before > 1_600_000_000_000);
}

#[test]
fn milliseconds_beyond_an_i64_are_refused() {
    assert_eq!(millis_to_i64(1_700_000_000_000), Some(1_700_000_000_000));
    assert_eq!(millis_to_i64(i64::MAX as u128), Some(i64::MAX));
    assert_eq!(millis_to_i64(i64::MAX as u128 + 1), None);
}
