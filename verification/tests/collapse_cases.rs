use dayz_dev_tools_rust::collapse::{collapse_impl, longest_match, FlagBits, Packet};

fn text_with_far_echo(gap: usize) -> Vec<u8> {
    let mut input = b"ABC".to_vec();
    input.extend(std::iter::repeat(b'x').take(gap));
    input.extend_from_slice(b"ABC");
    input
}

#[test]
fn flagbits_keeps_first_flag_in_lowest_bit() {
    let mut flagbits = FlagBits::new();

    flagbits.push(true);
    flagbits.push(false);
    flagbits.push(false);
    flagbits.push(true);

    assert_eq!(flagbits.value(), 0x09);
}

#[test]
fn flagbits_of_eight_literals_is_all_ones() {
    let mut flagbits = FlagBits::new();

    for _ in 0..8 {
        flagbits.push(true);
    }

    assert!(flagbits.full());
    assert_eq!(flagbits.value(), 0xff);
}

#[test]
fn packet_pointer_keeps_twelve_bits_of_distance() {
    let mut packet = Packet::new();

    packet.push_pointer(0x1000, 3);
    packet.push_pointer(0x1234, 18);

    assert_eq!(packet.size(), 5);
    assert_eq!(packet.value(), b"\x00\x00\x00\x34\x2f");
}

#[test]
fn packet_of_eight_pointers_takes_seventeen_bytes() {
    let mut packet = Packet::new();

    for _ in 0..8 {
        packet.push_pointer(1, 3);
    }

    assert!(packet.full());
    assert_eq!(packet.size(), 17);
    assert_eq!(
        packet.value(),
        b"\x00\x01\x00\x01\x00\x01\x00\x01\x00\x01\x00\x01\x00\x01\x00\x01\x00"
    );
}

#[test]
fn longest_match_finds_nothing_at_start() {
    assert_eq!(longest_match(b"ABCABC", 0), None);
}

#[test]
fn longest_match_gives_distance_and_length() {
    assert_eq!(longest_match(b"ABCABC", 3), Some((3, 3)));
}

#[test]
fn longest_match_prefers_longer_run_over_nearer_one() {
    assert_eq!(longest_match(b"ABCDxABCyABCD", 9), Some((9, 4)));
}

#[test]
fn longest_match_prefers_leftmost_occurrence() {
    assert_eq!(longest_match(b"ABCxABCyABC", 8), Some((8, 3)));
}

#[test]
fn longest_match_stays_clear_of_the_offset() {
    assert_eq!(longest_match(b"AAAAAAAA", 1), None);
    assert_eq!(longest_match(b"AAAAAAAA", 2), None);
    assert_eq!(longest_match(b"AAAAAAAA", 3), Some((3, 3)));
    assert_eq!(longest_match(b"AAAAAAAA", 4), Some((4, 4)));
}

#[test]
fn longest_match_is_at_most_eighteen_bytes() {
    let mut input = vec![b'A'; 20];
    input.extend_from_slice(&[b'A'; 20]);

    assert_eq!(longest_match(&input, 20), Some((20, 18)));
}

#[test]
fn longest_match_ignores_runs_of_two() {
    assert_eq!(longest_match(b"ABxAB", 3), None);
}

#[test]
fn longest_match_reaches_back_a_whole_window() {
    let input = text_with_far_echo(4093);

    assert_eq!(longest_match(&input, 4096), Some((4096, 3)));
}

#[test]
fn longest_match_does_not_reach_past_the_window() {
    let input = text_with_far_echo(4094);

    assert_eq!(longest_match(&input, 4097), None);
}

#[test]
fn collapse_of_empty_input_is_its_checksum() {
    assert_eq!(collapse_impl(b"").unwrap(), b"\x00\x00\x00\x00");
}

#[test]
fn collapse_rejects_inputs_shorter_than_a_checksum() {
    assert!(collapse_impl(b"A").is_err());
    assert!(collapse_impl(b"AB").is_err());
    assert!(collapse_impl(b"ABC").is_err());
    assert!(collapse_impl(b"AAAA").is_err());
}

#[test]
fn collapse_of_a_run_doubles_its_references() {
    assert_eq!(
        collapse_impl(b"AAAAAAAAAAAAAAAA").unwrap(),
        b"\x07AAA\x03\x00\x06\x03\x0c\x01\x10\x04\x00\x00"
    );
}

#[test]
fn collapse_rejects_packets_that_fill_the_budget() {
    assert!(collapse_impl(b"ABCDEFGABCDEFG").is_err());
    assert!(collapse_impl(b"ABCDABCDABCDA").is_err());
    assert!(collapse_impl(b"AAAAAAAAAAAA").is_err());
}

#[test]
fn collapse_accepts_packets_one_byte_under_the_budget() {
    assert_eq!(
        collapse_impl(b"ABCDEABCDEABCDE").unwrap(),
        b"\x1fABCDE\x05\x02\x0a\x02\xed\x03\x00\x00"
    );
}

#[test]
fn collapse_gives_less_than_it_took() {
    let inputs: [&[u8]; 5] = [
        b"ABCDEABCDEABCDE",
        b"ABCDABCDABCDABCD",
        b"ABCABCDEFGABCHIJABCDEFG",
        b"ABCDEFGHIJKLMNOPQRABCDEFGHIJKLMNOPQR",
        b"AAAAAAAAAAAAAAAA",
    ];
    for input in inputs {
        assert!(collapse_impl(input).unwrap().len() < input.len());
    }
}

#[test]
fn collapse_rejects_packets_one_byte_over_the_budget() {
    assert!(collapse_impl(b"ABCDEFGABCDEFGH").is_err());
}

#[test]
fn collapse_rejects_input_whose_gain_is_too_small() {
    assert!(collapse_impl(b"ABCxABCyABCz!").is_err());
}

#[test]
fn collapse_ends_in_little_endian_sum_of_input() {
    let inputs: [&[u8]; 4] = [
        b"ABCDABCDABCDABCD",
        b"\xff\xff\xff\xff\xff\xff\xff\xff\xff\xff\xff\xff\xff\xff\xff\xff",
        b"hello hello hello hello hello",
        b"",
    ];
    for input in inputs {
        let sum = input.iter().fold(0u32, |sum, b| sum.wrapping_add(*b as u32));
        let out = collapse_impl(input).unwrap();

        assert_eq!(out[out.len() - 4..], sum.to_le_bytes());
    }
}

#[test]
fn collapse_fails_where_no_three_bytes_repeat() {
    let ramp: Vec<u8> = (0..=255).collect();
    assert!(collapse_impl(&ramp).is_err());

    let mut pairs = Vec::new();
    for i in 0..40u8 {
        pairs.push(i);
        pairs.push(i.wrapping_mul(7).wrapping_add(100));
        pairs.push(255 - i);
    }
    assert!(collapse_impl(&pairs).is_err());
}

#[test]
fn collapse_writes_whole_window_distance_as_zero() {
    let input = text_with_far_echo(4093);
    let out = collapse_impl(&input).unwrap();

    assert_eq!(out.len(), 501);
    assert_eq!(
        out[out.len() - 12..],
        *b"\xff\xd8\xff\xea\xff\x78\x00\x00\x24\x80\x07\x00"
    );
}

#[test]
fn collapse_writes_literals_past_the_window() {
    let input = text_with_far_echo(4094);
    let out = collapse_impl(&input).unwrap();

    assert_eq!(out.len(), 503);
    assert_eq!(
        out[out.len() - 12..],
        *b"\xff\xea\xff\x78\x78ABC\x9c\x80\x07\x00"
    );
}

#[test]
fn collapse_packets_announce_the_tokens_they_hold() {
    let inputs: [&[u8]; 3] = [
        b"ABCDABCDABCDABCD",
        b"ABCABCDEFGABCHIJABCDEFG",
        b"ABCDEFGHIJKLMNOPQRABCDEFGHIJKLMNOPQR",
    ];
    for input in inputs {
        let out = collapse_impl(input).unwrap();
        let body = &out[..out.len() - 4];
        let mut i = 0;
        let mut covered = 0;
        while i < body.len() {
            let flags = body[i];
            i += 1;
            let mut held = 0;
            while held < 8 && i < body.len() {
                if (flags >> held) & 1 == 1 {
                    i += 1;
                    covered += 1;
                } else {
                    assert!(i + 2 <= body.len());
                    covered += ((body[i + 1] & 0xf) + 3) as usize;
                    i += 2;
                }
                held += 1;
            }
            assert!(held >= 1);
            assert_eq!(flags as u16 >> held, 0);
        }
        assert_eq!(i, body.len());
        assert_eq!(covered, input.len());
    }
}

#[test]
fn collapse_error_says_what_failed() {
    let err = collapse_impl(b"ABCDEFGH").unwrap_err();

    assert_eq!(err.message(), "input is not compressible");
}
