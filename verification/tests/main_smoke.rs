use hyprdrive::ipc::PROTOCOL_VERSION;

#[test]
fn main_smoke() {
    // The helpers share the library's protocol; it is linked and current.
    assert!(PROTOCOL_VERSION >= 1);
}
