use dayz_dev_tools_rust::expand::{
    copy_back_reference, expand_impl, ChecksumError, FlagBits, InBuffer,
};

fn stream_for(packets: &[u8], plaintext: &[u8]) -> Vec<u8> {
    let sum = plaintext.iter().fold(0u32, |sum, b| sum.wrapping_add(*b as u32));
    let mut stream = packets.to_vec();
    stream.extend_from_slice(&sum.to_le_bytes());
    stream
}

#[test]
fn checksum_error_holds_both_values() {
    let err = ChecksumError::new(0x72c, 0xffffffff);

    assert_eq!(err.actual, 0x72c);
    assert_eq!(err.expected, 0xffffffff);
    assert_eq!(err.message, "Checksum mismatch (0x72c != 0xffffffff)");
}

#[test]
fn checksum_error_writes_zero_as_one_digit() {
    assert_eq!(ChecksumError::new(0, 0x10).message, "Checksum mismatch (0x0 != 0x10)");
}

#[test]
fn checksum_error_writes_lowercase_digits() {
    assert_eq!(
        ChecksumError::new(0xdeadbeef, 0x0abcdef0).message,
        "Checksum mismatch (0xdeadbeef != 0xabcdef0)"
    );
}

#[test]
fn expand_flagbits_pops_lowest_bit_first() {
    let mut flagbits = FlagBits::new(0b1010_0110);
    let mut flags = Vec::new();

    while !flagbits.end() {
        flags.push(flagbits.pop());
    }

    assert_eq!(flags, [false, true, true, false, false, true, false, true]);
}

#[test]
fn expand_flagbits_starts_with_eight_flags() {
    let mut flagbits = FlagBits::new(0);

    for _ in 0..7 {
        assert!(!flagbits.pop());
        assert!(!flagbits.end());
    }
    assert!(!flagbits.pop());
    assert!(flagbits.end());
}

#[test]
fn inbuffer_reads_bytes_up_to_the_checksum() {
    let mut raw = InBuffer::new(b"\x01\x02\xaa\xbb\xcc\xdd");

    assert!(!raw.end());
    assert_eq!(raw.readbyte(), Ok(1));
    assert_eq!(raw.readbyte(), Ok(2));
    assert!(raw.end());
    assert_eq!(raw.readbyte(), Err("end of input reached"));
    assert_eq!(raw.readbyte(), Err("end of input reached"));
}

#[test]
fn inbuffer_reads_words_low_byte_first() {
    let mut raw = InBuffer::new(b"\x34\x12\xcd\xab\x00\x00\x00\x00");

    assert_eq!(raw.readword(), Ok(0x1234));
    assert_eq!(raw.readword(), Ok(0xabcd));
    assert_eq!(raw.readword(), Err("end of input reached"));
}

#[test]
fn inbuffer_uses_up_the_byte_of_a_half_word() {
    let mut raw = InBuffer::new(b"\x34\x00\x00\x00\x00");

    assert_eq!(raw.readword(), Err("end of input reached"));
    assert!(raw.end());
    assert_eq!(raw.readbyte(), Err("end of input reached"));
}

#[test]
fn inbuffer_of_bare_checksum_is_at_its_end() {
    let raw = InBuffer::new(b"\x78\x56\x34\x12");

    assert!(raw.end());
    assert_eq!(raw.checksum(), 0x12345678);
}

#[test]
fn inbuffer_checksum_is_last_four_bytes() {
    let mut raw = InBuffer::new(b"\xffAB\x2c\x07\x00\x80");

    assert_eq!(raw.checksum(), 0x8000072c);
    assert_eq!(raw.readbyte(), Ok(0xff));
    assert_eq!(raw.checksum(), 0x8000072c);
}

#[test]
fn back_reference_copies_from_distance() {
    let mut output = b"ABCDEFGH".to_vec();

    copy_back_reference(&mut output, 0x0107, 100);

    assert_eq!(output, b"ABCDEFGHBCDE");
}

#[test]
fn back_reference_repeats_what_it_wrote() {
    let mut output = b"AB".to_vec();

    copy_back_reference(&mut output, 0x0401, 100);

    assert_eq!(output, b"ABBBBBBBB");
}

#[test]
fn back_reference_stops_at_capacity() {
    let mut output = b"ABCD".to_vec();

    copy_back_reference(&mut output, 0x0f02, 9);

    assert_eq!(output, b"ABCDCDCDC");
}

#[test]
fn back_reference_leaves_full_output_alone() {
    let mut output = b"ABCD".to_vec();

    copy_back_reference(&mut output, 0x0002, 4);
    assert_eq!(output, b"ABCD");

    copy_back_reference(&mut output, 0x0002, 2);
    assert_eq!(output, b"ABCD");
}

#[test]
fn back_reference_past_the_start_gives_spaces() {
    let mut output = b"AB".to_vec();

    copy_back_reference(&mut output, 0x0003, 100);
    assert_eq!(output, b"AB   ");

    copy_back_reference(&mut output, 0xffff, 100);
    assert_eq!(output, b"AB                     ");
}

#[test]
fn back_reference_into_empty_output_gives_only_spaces() {
    for word in [0x0001u16, 0x0f05, 0xf0ff, 0x12ff] {
        let mut output = Vec::new();

        copy_back_reference(&mut output, word, 7);

        assert!(!output.is_empty());
        assert!(output.len() <= 7);
        assert!(output.iter().all(|b| *b == 0x20));
    }
}

#[test]
fn back_reference_of_distance_zero_gives_nothing() {
    let mut output = b"ABCD".to_vec();

    copy_back_reference(&mut output, 0x0000, 100);
    assert_eq!(output, b"ABCD");

    copy_back_reference(&mut output, 0x0f00, 100);
    assert_eq!(output, b"ABCD");
}

#[test]
fn back_reference_to_first_byte_copies_from_start() {
    let mut output = b"ABCD".to_vec();

    copy_back_reference(&mut output, 0x0004, 100);

    assert_eq!(output, b"ABCDABC");
}

#[test]
fn expand_of_bare_checksum_is_empty() {
    assert_eq!(expand_impl(b"\x00\x00\x00\x00", 10).unwrap(), b"");
}

#[test]
fn expand_under_zero_capacity_is_empty() {
    assert_eq!(expand_impl(b"\xffABCDEFGH\x00\x00\x00\x00", 0).unwrap(), b"");
}

#[test]
fn expand_reports_sum_of_what_it_produced() {
    let err = expand_impl(b"\xffABCDEFGH\x00\x00\x00\x00", 2).unwrap_err();

    assert_eq!(err.actual, 0x83);
    assert_eq!(err.expected, 0);
    assert_eq!(err.message, "Checksum mismatch (0x83 != 0x0)");
}

#[test]
fn expand_skips_reference_of_distance_zero() {
    let stream = stream_for(b"\x0dA\x00\x00BC", b"ABC");

    assert_eq!(expand_impl(&stream, 10).unwrap(), b"ABC");
}

#[test]
fn expand_stops_at_half_a_reference() {
    let stream = stream_for(b"\x01A\x01", b"A");

    assert_eq!(expand_impl(&stream, 10).unwrap(), b"A");
}

#[test]
fn expand_stops_at_missing_literal() {
    let stream = stream_for(b"\x03A", b"A");

    assert_eq!(expand_impl(&stream, 10).unwrap(), b"A");
}

#[test]
fn expand_stops_at_flag_octet_without_tokens() {
    let stream = stream_for(b"\xffABCDEFGH\xff", b"ABCDEFGH");

    assert_eq!(expand_impl(&stream, 100).unwrap(), b"ABCDEFGH");
}

#[test]
fn expand_reads_unused_flags_of_last_packet_as_end() {
    let stream = stream_for(b"\x03AB", b"AB");

    assert_eq!(expand_impl(&stream, 100).unwrap(), b"AB");
}

#[test]
fn expand_starts_with_spaces_for_leading_reference() {
    let plaintext = b"                  A";
    let stream = stream_for(b"\x02\x05\x0fA", plaintext);

    assert_eq!(expand_impl(&stream, 100).unwrap(), plaintext);
}

#[test]
fn expand_under_smaller_capacity_gives_front_of_plaintext() {
    let packets = b"\xf7ABC\x03\x00DEFG\x0e\x0a\x00HIJ\x0d\x04";
    let plaintext = b"ABCABCDEFGABCHIJABCDEFG";

    for k in 0..=plaintext.len() {
        let stream = stream_for(packets, &plaintext[..k]);

        assert_eq!(expand_impl(&stream, k).unwrap(), &plaintext[..k]);
    }
}

#[test]
fn expand_under_larger_capacity_gives_whole_plaintext() {
    let plaintext = b"ABCABCDEFGABCHIJABCDEFG";
    let stream = stream_for(b"\xf7ABC\x03\x00DEFG\x0e\x0a\x00HIJ\x0d\x04", plaintext);

    assert_eq!(expand_impl(&stream, 1000).unwrap(), plaintext);
}

#[test]
fn expand_cuts_overlapping_run_at_capacity() {
    let stream = stream_for(b"\x0fABCD\x02\x08", b"ABCDCDCDCD");

    assert_eq!(expand_impl(&stream, 10).unwrap(), b"ABCDCDCDCD");
}
