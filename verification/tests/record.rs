use sonagram::record::RECORD_VERSION;
use sonagram::VERSION;

#[test]
fn version_is_pinned() {
    assert_eq!(VERSION, "0.2.16");
}

#[test]
fn record_version_is_pinned() {
    assert_eq!(RECORD_VERSION, 1);
}
