use anvil_reader::versions::{newer_version, version_int};

#[test]
fn version_values() {
    assert_eq!(version_int("1.20"), (1 << 16) + (20 << 8));
    assert_eq!(version_int("1.20.4"), (1 << 16) + (20 << 8) + 4);
    assert_eq!(version_int("0.0.0"), 0);
    assert_eq!(version_int("1"), 0);
    assert_eq!(version_int("1.2.3.4"), 0);
    assert_eq!(version_int("1.x"), 0);
    assert_eq!(version_int("1..2"), 0);
}

#[test]
fn newer_version_picks_later() {
    assert_eq!(newer_version("1.19.4", "1.20"), "1.20");
    assert_eq!(newer_version("1.20.1", "1.20"), "1.20.1");
    assert_eq!(newer_version("1.20", "1.20.0"), "1.20");
    assert_eq!(newer_version("0.0.0", "1.8.9"), "1.8.9");
}
