use twimetravel::{SecondsSinceUnixEpoch, Snowflake, TWEPOCH_MILLIS};

#[test]
fn epoch_constant() {
    assert_eq!(TWEPOCH_MILLIS, 1288834974657);
}

#[test]
fn seconds_to_id() {
    let id: Snowflake = SecondsSinceUnixEpoch(1518480000).into();
    assert_eq!(id, Snowflake(963201048376246272));
    assert_eq!(
        Snowflake::from(SecondsSinceUnixEpoch(1518480000)),
        Snowflake((1518480000u64 * 1000 - 1288834974657) << 22)
    );
}

#[test]
fn id_to_seconds() {
    let seconds: SecondsSinceUnixEpoch = Snowflake(963201048376246272).into();
    assert_eq!(seconds, SecondsSinceUnixEpoch(1518480000));
    assert_eq!(
        SecondsSinceUnixEpoch::from(Snowflake(963140650398646272)),
        SecondsSinceUnixEpoch(1518465600)
    );
    assert_eq!(
        SecondsSinceUnixEpoch::from(Snowflake(0)),
        SecondsSinceUnixEpoch(1288834974)
    );
    assert_eq!(
        SecondsSinceUnixEpoch::from(Snowflake(u64::MAX)),
        SecondsSinceUnixEpoch(5686881485)
    );
}

#[test]
fn seconds_round_trip() {
    for s in [1288834975u64, 1288834976, 1518480000, 2000000000, 5686881485] {
        let id: Snowflake = SecondsSinceUnixEpoch(s).into();
        let back: SecondsSinceUnixEpoch = id.into();
        assert_eq!(back, SecondsSinceUnixEpoch(s));
    }
}

#[test]
fn ids_do_not_round_trip() {
    // the lower bits of an identifier are lost on the way to seconds
    let id = Snowflake(963143061558743040);
    let seconds: SecondsSinceUnixEpoch = id.into();
    let back: Snowflake = seconds.into();
    assert_ne!(back, id);
    assert!(back < id);
}

#[test]
fn conversion_wraps_before_the_epoch() {
    assert_eq!(
        Snowflake::from(SecondsSinceUnixEpoch(0)),
        Snowflake(13040978384165797888)
    );
}

#[test]
fn later_ids_are_later_seconds() {
    let a: SecondsSinceUnixEpoch = Snowflake(963143061558743040).into();
    let b: SecondsSinceUnixEpoch = Snowflake(963152907255377921).into();
    assert!(a <= b);
}
