use dayz_dev_tools_rust::collapse::{collapse_impl, FlagBits, Packet};

#[test]
fn test_flagbits_starts_empty() {
    let flagbits = FlagBits::new();

    assert!(flagbits.empty());
    assert!(!flagbits.full());
    assert_eq!(flagbits.value(), 0);
}

#[test]
fn test_flagbits_becomes_not_empty_when_true_is_pushed() {
    let mut flagbits = FlagBits::new();

    flagbits.push(true);

    assert!(!flagbits.empty());
    assert!(!flagbits.full());
    assert_eq!(flagbits.value(), 1);
}

#[test]
fn test_flagbits_becomes_not_empty_when_false_is_pushed() {
    let mut flagbits = FlagBits::new();

    flagbits.push(false);

    assert!(!flagbits.empty());
    assert!(!flagbits.full());
    assert_eq!(flagbits.value(), 0);
}

#[test]
fn test_flagbits_pushes_bits_in_order() {
    let mut flagbits = FlagBits::new();

    flagbits.push(false);
    flagbits.push(true);
    flagbits.push(false);
    flagbits.push(true);
    flagbits.push(false);
    flagbits.push(true);

    assert!(!flagbits.empty());
    assert!(!flagbits.full());
    assert_eq!(flagbits.value(), 0x2a);
}

#[test]
fn test_flagbits_becomes_full_when_eight_bits_are_pushed() {
    let mut flagbits = FlagBits::new();

    flagbits.push(false);
    flagbits.push(true);
    flagbits.push(false);
    flagbits.push(true);
    flagbits.push(false);
    flagbits.push(true);
    flagbits.push(false);
    flagbits.push(true);

    assert!(!flagbits.empty());
    assert!(flagbits.full());
    assert_eq!(flagbits.value(), 0xaa);
}

#[test]
fn test_packet_starts_empty() {
    let packet = Packet::new();

    assert!(packet.empty());
    assert!(!packet.full());
    assert_eq!(packet.size(), 1);
    assert_eq!(packet.value(), b"\x00");
}

#[test]
fn test_packet_becomes_not_empty_when_byte_is_pushed() {
    let mut packet = Packet::new();

    packet.push_byte(0x42);

    assert!(!packet.empty());
    assert!(!packet.full());
    assert_eq!(packet.size(), 2);
    assert_eq!(packet.value(), b"\x01\x42");
}

#[test]
fn test_packet_becomes_not_empty_when_pointer_is_pushed() {
    let mut packet = Packet::new();

    packet.push_pointer(0x876, 4);

    assert!(!packet.empty());
    assert!(!packet.full());
    assert_eq!(packet.size(), 3);
    assert_eq!(packet.value(), b"\x00\x76\x81");
}

#[test]
fn test_packet_pushes_in_order() {
    let mut packet = Packet::new();

    packet.push_byte(0x11);
    packet.push_pointer(0x876, 4);
    packet.push_byte(0x22);
    packet.push_pointer(0xfff, 3);
    packet.push_byte(0x33);
    packet.push_pointer(0x000, 18);

    assert!(!packet.empty());
    assert!(!packet.full());
    assert_eq!(packet.size(), 10);
    assert_eq!(packet.value(), b"\x15\x11\x76\x81\x22\xff\xf0\x33\x00\x0f");
}

#[test]
fn test_packet_becomes_full_after_eight_pushes() {
    let mut packet = Packet::new();

    packet.push_byte(0x11);
    packet.push_pointer(0x876, 4);
    packet.push_byte(0x22);
    packet.push_pointer(0xfff, 3);
    packet.push_byte(0x33);
    packet.push_pointer(0x000, 18);
    packet.push_byte(0x44);
    packet.push_pointer(0x888, 11);

    assert!(!packet.empty());
    assert!(packet.full());
    assert_eq!(packet.size(), 13);
    assert_eq!(
        packet.value(),
        b"\x55\x11\x76\x81\x22\xff\xf0\x33\x00\x0f\x44\x88\x88"
    );
}

#[test]
fn test_collapse_returns_error_if_input_cannot_be_compressed() {
    assert!(collapse_impl(b"ABCDEFGH").is_err());
}

#[test]
fn test_collapse_compresses_compressible_input() {
    let outbytes = collapse_impl(b"ABCDABCDABCDABCD").unwrap();

    assert_eq!(outbytes, b"\x0fABCD\x04\x01\x08\x05\x28\x04\x00\x00");
}

#[test]
fn test_collapse_compresses_compressible_input_using_smallest_repeatable_chunk() {
    let outbytes = collapse_impl(b"ABCABCDEFGABCHIJABCDEFG").unwrap();

    assert_eq!(
        outbytes,
        b"\xf7ABC\x03\x00DEFG\x0e\x0a\x00HIJ\x0d\x04\x1f\x06\x00\x00"
    );
}

#[test]
fn test_collapse_compresses_compressible_input_using_largest_repeatable_chunk() {
    let outbytes = collapse_impl(b"ABCDEFGHIJKLMNOPQRABCDEFGHIJKLMNOPQR").unwrap();

    assert_eq!(
        outbytes,
        b"\xffABCDEFGH\xffIJKLMNOP\x03QR\x12\x0f\x56\x0a\x00\x00"
    );
}
