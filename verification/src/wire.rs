//! The stream format that both directions share.
//!
//! A stream is a run of packets followed by a four-byte little-endian
//! checksum of the plaintext. A packet is a flag octet followed by up to
//! eight tokens; bit `k` of the octet (least significant first) says whether
//! token `k` is a literal byte (1) or a two-byte back-reference (0).

use vstd::prelude::*;

verus! {

/// Largest distance a back-reference can span, and the size of the search window.
pub const WINDOW: usize = 0x1000;

/// Shortest run worth a back-reference.
pub const MIN_RUN: usize = 3;

/// Longest run a back-reference can describe.
pub const MAX_RUN: usize = 18;

/// The byte that stands for everything before the start of the output.
pub const FILL: u8 = 0x20;

/// One token of a packet.
pub enum Token {
    /// A byte copied verbatim to the output.
    Literal { byte: u8 },
    /// A back-reference, held as its 16-bit word.
    Reference { word: u16 },
}

/// Sum of all bytes of `s`, as a mathematical integer.
pub open spec fn byte_sum(s: Seq<u8>) -> nat
    decreases s.len(),
{
    if s.len() == 0 {
        0
    } else {
        byte_sum(s.drop_last()) + s.last() as nat
    }
}

/// The checksum of a plaintext: the sum of its bytes modulo 2^32.
pub open spec fn checksum_of(s: Seq<u8>) -> u32 {
    (byte_sum(s) % 0x1_0000_0000) as u32
}

/// The four bytes of `v`, least significant first.
pub open spec fn u32_le(v: u32) -> Seq<u8> {
    seq![
        (v & 0xff) as u8,
        ((v >> 8) & 0xff) as u8,
        ((v >> 16) & 0xff) as u8,
        ((v >> 24) & 0xff) as u8,
    ]
}

/// The value whose little-endian bytes are `b0, b1, b2, b3`.
pub open spec fn u32_from_le(b0: u8, b1: u8, b2: u8, b3: u8) -> u32 {
    (b0 as u32) | ((b1 as u32) << 8) | ((b2 as u32) << 16) | ((b3 as u32) << 24)
}

/// The checksum that a stream carries in its last four bytes.
pub open spec fn embedded_checksum(stream: Seq<u8>) -> u32
    recommends
        stream.len() >= 4,
{
    let n = stream.len();
    u32_from_le(stream[n - 4], stream[n - 3], stream[n - 2], stream[n - 1])
}

/// The 16-bit value whose little-endian bytes are `lo, hi`.
pub open spec fn u16_from_le(lo: u8, hi: u8) -> u16 {
    (lo as u16) | ((hi as u16) << 8)
}

/// Whether bit `k` of `octet` is set.
pub open spec fn flag_at(octet: u8, k: int) -> bool {
    (octet >> (k as u8)) & 1 == 1
}

/// The eight flags of an octet, least significant bit first.
pub open spec fn flags_of_octet(octet: u8) -> Seq<bool> {
    Seq::new(8, |k: int| flag_at(octet, k))
}

/// The contribution of flag `k` to the octet that packs `flags`.
pub open spec fn flag_bit(flags: Seq<bool>, k: int) -> u8 {
    if k < flags.len() && flags[k] {
        1u8 << (k as u8)
    } else {
        0u8
    }
}

/// The octet that packs up to eight flags, flag `k` in bit `k`; bits past the
/// last flag are zero.
pub open spec fn octet_of_flags(flags: Seq<bool>) -> u8 {
    flag_bit(flags, 0) | flag_bit(flags, 1) | flag_bit(flags, 2) | flag_bit(flags, 3) | flag_bit(
        flags,
        4,
    ) | flag_bit(flags, 5) | flag_bit(flags, 6) | flag_bit(flags, 7)
}

/// The word that encodes a back-reference of distance `rpos` and length `rlen`:
/// the low twelve bits of the distance in bits 0..8 and 12..16, and
/// `rlen - 3` in bits 8..12.
pub open spec fn reference_word(rpos: u16, rlen: u16) -> u16 {
    ((rpos & 0xf00) << 4) | (rpos & 0xff) | ((((rlen - 3) as u16) & 0xf) << 8)
}

/// The distance field of a back-reference word, in `0..=0xfff`.
pub open spec fn reference_distance(word: u16) -> u16 {
    (word & 0xff) | ((word >> 4) & 0xf00)
}

/// The length field of a back-reference word, in `3..=18`.
pub open spec fn reference_length(word: u16) -> u16 {
    (((word >> 8) & 0xf) + 3) as u16
}

/// The bytes that a token takes in a packet.
pub open spec fn token_bytes(t: Token) -> Seq<u8> {
    match t {
        Token::Literal { byte } => seq![byte],
        Token::Reference { word } => seq![(word & 0xff) as u8, (word >> 8) as u8],
    }
}

/// The token bytes of `ts`, one after another.
pub open spec fn payload(ts: Seq<Token>) -> Seq<u8>
    decreases ts.len(),
{
    if ts.len() == 0 {
        Seq::empty()
    } else {
        payload(ts.drop_last()) + token_bytes(ts.last())
    }
}

/// The flag of each token: true for a literal.
pub open spec fn literal_flags(ts: Seq<Token>) -> Seq<bool> {
    Seq::new(ts.len(), |k: int| ts[k] is Literal)
}

/// One packet: the flag octet of `ts`, then their bytes.
pub open spec fn packet_bytes(ts: Seq<Token>) -> Seq<u8>
    recommends
        ts.len() <= 8,
{
    seq![octet_of_flags(literal_flags(ts))] + payload(ts)
}

/// The packets that hold `ts`, eight tokens to a packet, the last one with
/// what is left.
pub open spec fn stream_bytes(ts: Seq<Token>) -> Seq<u8>
    decreases ts.len(),
{
    if ts.len() == 0 {
        Seq::empty()
    } else if ts.len() <= 8 {
        packet_bytes(ts)
    } else {
        packet_bytes(ts.take(8)) + stream_bytes(ts.skip(8))
    }
}

/// The tokens that a reader finds in `data` from index `i` on, when `flags`
/// are the flags still unread of the current packet (none: a flag octet comes
/// next). Reading stops at the first token that `data` does not hold in full.
pub open spec fn tokens_from(data: Seq<u8>, i: int, flags: Seq<bool>) -> Seq<Token>
    decreases data.len() - i, flags.len(),
{
    if i < 0 || i >= data.len() {
        Seq::empty()
    } else if flags.len() == 0 {
        tokens_from(data, i + 1, flags_of_octet(data[i]))
    } else if flags[0] {
        seq![Token::Literal { byte: data[i] }] + tokens_from(data, i + 1, flags.drop_first())
    } else if i + 2 > data.len() {
        Seq::empty()
    } else {
        seq![Token::Reference { word: u16_from_le(data[i], data[i + 1]) }] + tokens_from(
            data,
            i + 2,
            flags.drop_first(),
        )
    }
}

/// All tokens of a packet area.
pub open spec fn tokenize(data: Seq<u8>) -> Seq<Token> {
    tokens_from(data, 0, Seq::empty())
}

/// Computes the checksum of `data`.
pub fn checksum(data: &[u8]) -> (sum: u32)
    ensures
        sum == checksum_of(data@),
{
    let mut sum: u32 = 0;
    let mut i: usize = 0;
    while i < data.len()
        invariant
            i <= data.len(),
            sum == checksum_of(data@.take(i as int)),
        decreases data.len() - i,
    {
        assert(data@.take(i + 1).drop_last() =~= data@.take(i as int));
        sum = sum.wrapping_add(data[i] as u32);
        i += 1;
    }
    assert(data@.take(i as int) =~= data@);
    sum
}

/// Appends the little-endian bytes of `v` to `out`.
pub fn push_u32_le(out: &mut Vec<u8>, v: u32)
    ensures
        final(out)@ == old(out)@ + u32_le(v),
{
    out.push((v & 0xff) as u8);
    out.push(((v >> 8) & 0xff) as u8);
    out.push(((v >> 16) & 0xff) as u8);
    out.push(((v >> 24) & 0xff) as u8);
}

/// Reading back the bytes that `u32_le` wrote gives the value.
pub proof fn lemma_u32_le_round_trip(v: u32)
    ensures
        u32_le(v).len() == 4,
        u32_from_le(u32_le(v)[0], u32_le(v)[1], u32_le(v)[2], u32_le(v)[3]) == v,
{
    assert(((v & 0xff) as u8 as u32) | ((((v >> 8) & 0xff) as u8 as u32) << 8) | ((((v >> 16)
        & 0xff) as u8 as u32) << 16) | ((((v >> 24) & 0xff) as u8 as u32) << 24) == v)
        by (bit_vector);
}

/// An octet is what its eight flags pack to, when `flags` are its low flags
/// and the bits above them are zero.
pub proof fn lemma_octet_of_flags(octet: u8, flags: Seq<bool>)
    requires
        flags.len() <= 8,
        forall|k: int| 0 <= k < 8 ==> flag_at(octet, k) == (k < flags.len() && flags[k]),
    ensures
        octet == octet_of_flags(flags),
{
    let f0 = flag_bit(flags, 0);
    let f1 = flag_bit(flags, 1);
    let f2 = flag_bit(flags, 2);
    let f3 = flag_bit(flags, 3);
    let f4 = flag_bit(flags, 4);
    let f5 = flag_bit(flags, 5);
    let f6 = flag_bit(flags, 6);
    let f7 = flag_bit(flags, 7);
    assert(flag_at(octet, 0) == (f0 != 0) && flag_at(octet, 1) == (f1 != 0) && flag_at(octet, 2)
        == (f2 != 0) && flag_at(octet, 3) == (f3 != 0) && flag_at(octet, 4) == (f4 != 0)
        && flag_at(octet, 5) == (f5 != 0) && flag_at(octet, 6) == (f6 != 0) && flag_at(octet, 7)
        == (f7 != 0)) by {
        assert(1u8 << 0u8 != 0 && 1u8 << 1u8 != 0 && 1u8 << 2u8 != 0 && 1u8 << 3u8 != 0 && 1u8
            << 4u8 != 0 && 1u8 << 5u8 != 0 && 1u8 << 6u8 != 0 && 1u8 << 7u8 != 0)
            by (bit_vector);
    }
    assert(octet == f0 | f1 | f2 | f3 | f4 | f5 | f6 | f7) by (bit_vector)
        requires
            f0 == 0 || f0 == 1u8 << 0u8,
            f1 == 0 || f1 == 1u8 << 1u8,
            f2 == 0 || f2 == 1u8 << 2u8,
            f3 == 0 || f3 == 1u8 << 3u8,
            f4 == 0 || f4 == 1u8 << 4u8,
            f5 == 0 || f5 == 1u8 << 5u8,
            f6 == 0 || f6 == 1u8 << 6u8,
            f7 == 0 || f7 == 1u8 << 7u8,
            ((octet >> 0u8) & 1 == 1) == (f0 != 0),
            ((octet >> 1u8) & 1 == 1) == (f1 != 0),
            ((octet >> 2u8) & 1 == 1) == (f2 != 0),
            ((octet >> 3u8) & 1 == 1) == (f3 != 0),
            ((octet >> 4u8) & 1 == 1) == (f4 != 0),
            ((octet >> 5u8) & 1 == 1) == (f5 != 0),
            ((octet >> 6u8) & 1 == 1) == (f6 != 0),
            ((octet >> 7u8) & 1 == 1) == (f7 != 0),
    ;
}

/// Packing flags into an octet and reading the octet's flags gives the
/// flags back, followed by false up to the eighth.
pub proof fn lemma_flags_of_packed_octet(flags: Seq<bool>)
    requires
        flags.len() <= 8,
    ensures
        forall|k: int|
            0 <= k < 8 ==> #[trigger] flags_of_octet(octet_of_flags(flags))[k] == (k < flags.len()
                && flags[k]),
{
    let f0 = flag_bit(flags, 0);
    let f1 = flag_bit(flags, 1);
    let f2 = flag_bit(flags, 2);
    let f3 = flag_bit(flags, 3);
    let f4 = flag_bit(flags, 4);
    let f5 = flag_bit(flags, 5);
    let f6 = flag_bit(flags, 6);
    let f7 = flag_bit(flags, 7);
    let o = octet_of_flags(flags);
    assert(1u8 << 0u8 != 0 && 1u8 << 1u8 != 0 && 1u8 << 2u8 != 0 && 1u8 << 3u8 != 0 && 1u8 << 4u8
        != 0 && 1u8 << 5u8 != 0 && 1u8 << 6u8 != 0 && 1u8 << 7u8 != 0) by (bit_vector);
    assert({
        &&& ((o >> 0u8) & 1 == 1) == (f0 != 0)
        &&& ((o >> 1u8) & 1 == 1) == (f1 != 0)
        &&& ((o >> 2u8) & 1 == 1) == (f2 != 0)
        &&& ((o >> 3u8) & 1 == 1) == (f3 != 0)
        &&& ((o >> 4u8) & 1 == 1) == (f4 != 0)
        &&& ((o >> 5u8) & 1 == 1) == (f5 != 0)
        &&& ((o >> 6u8) & 1 == 1) == (f6 != 0)
        &&& ((o >> 7u8) & 1 == 1) == (f7 != 0)
    }) by (bit_vector)
        requires
            o == f0 | f1 | f2 | f3 | f4 | f5 | f6 | f7,
            f0 == 0 || f0 == 1u8 << 0u8,
            f1 == 0 || f1 == 1u8 << 1u8,
            f2 == 0 || f2 == 1u8 << 2u8,
            f3 == 0 || f3 == 1u8 << 3u8,
            f4 == 0 || f4 == 1u8 << 4u8,
            f5 == 0 || f5 == 1u8 << 5u8,
            f6 == 0 || f6 == 1u8 << 6u8,
            f7 == 0 || f7 == 1u8 << 7u8,
    ;
    assert forall|k: int| 0 <= k < 8 implies #[trigger] flags_of_octet(o)[k] == (k < flags.len()
        && flags[k]) by {
        assert(k == 0 || k == 1 || k == 2 || k == 3 || k == 4 || k == 5 || k == 6 || k == 7);
    }
}

/// The two bytes of a back-reference read back as its word.
pub proof fn lemma_word_round_trip(word: u16)
    ensures
        u16_from_le((word & 0xff) as u8, (word >> 8) as u8) == word,
{
    assert((((word & 0xff) as u8) as u16) | ((((word >> 8) as u8) as u16) << 8) == word)
        by (bit_vector);
}

/// A payload holds one or two bytes per token.
pub proof fn lemma_payload_len(ts: Seq<Token>)
    ensures
        ts.len() <= payload(ts).len() <= 2 * ts.len(),
    decreases ts.len(),
{
    if ts.len() > 0 {
        lemma_payload_len(ts.drop_last());
    }
}

/// A reader that stands before the payload of `ts`, with their flags next,
/// finds `ts` and goes on behind the payload with the flags that are left.
pub proof fn lemma_tokens_from_payload(data: Seq<u8>, i: int, flags: Seq<bool>, ts: Seq<Token>)
    requires
        0 <= i,
        i + payload(ts).len() <= data.len(),
        data.subrange(i, i + payload(ts).len()) == payload(ts),
        ts.len() <= flags.len(),
        forall|k: int| 0 <= k < ts.len() ==> flags[k] == (ts[k] is Literal),
    ensures
        tokens_from(data, i, flags) == ts + tokens_from(
            data,
            i + payload(ts).len(),
            flags.skip(ts.len() as int),
        ),
    decreases ts.len(),
{
    if ts.len() == 0 {
        assert(flags.skip(0) =~= flags);
    } else {
        let head = ts.drop_last();
        let last = ts.last();
        let n = head.len() as int;
        let at = i + payload(head).len();
        lemma_payload_len(head);
        assert(payload(ts) == payload(head) + token_bytes(last));
        assert(data.subrange(i, at) =~= payload(head)) by {
            assert(data.subrange(i, at) =~= data.subrange(i, i + payload(ts).len()).subrange(
                0,
                payload(head).len() as int,
            ));
        }
        lemma_tokens_from_payload(data, i, flags, head);
        let left = flags.skip(n);
        assert(left.len() > 0);
        assert(left[0] == flags[n]);
        assert(left.drop_first() =~= flags.skip(n + 1));
        assert(data.subrange(at, at + token_bytes(last).len()) =~= token_bytes(last)) by {
            assert(data.subrange(at, at + token_bytes(last).len()) =~= data.subrange(
                i,
                i + payload(ts).len(),
            ).subrange(payload(head).len() as int, payload(ts).len() as int));
        }
        match last {
            Token::Literal { byte } => {
                assert(data[at] == data.subrange(at, at + 1)[0]);
                assert(tokens_from(data, at, left) == seq![last] + tokens_from(
                    data,
                    at + 1,
                    flags.skip(n + 1),
                ));
            },
            Token::Reference { word } => {
                lemma_word_round_trip(word);
                assert(data[at] == data.subrange(at, at + 2)[0]);
                assert(data[at + 1] == data.subrange(at, at + 2)[1]);
                assert(tokens_from(data, at, left) == seq![last] + tokens_from(
                    data,
                    at + 2,
                    flags.skip(n + 1),
                ));
            },
        }
        assert(ts =~= head + seq![last]);
        assert(ts + tokens_from(data, i + payload(ts).len(), flags.skip(ts.len() as int)) =~= head
            + (seq![last] + tokens_from(data, i + payload(ts).len(), flags.skip(n + 1))));
    }
}

/// A reader that stands before the packets of `ts`, and nothing behind them,
/// finds exactly `ts`.
pub proof fn lemma_tokens_from_stream(data: Seq<u8>, i: int, ts: Seq<Token>)
    requires
        0 <= i <= data.len(),
        data.skip(i) == stream_bytes(ts),
    ensures
        tokens_from(data, i, Seq::empty()) == ts,
    decreases ts.len(),
{
    if ts.len() == 0 {
        assert(data.skip(i).len() == 0);
    } else {
        let chunk = if ts.len() <= 8 {
            ts
        } else {
            ts.take(8)
        };
        let rest = if ts.len() <= 8 {
            Seq::<Token>::empty()
        } else {
            ts.skip(8)
        };
        let tail = stream_bytes(rest);
        assert(stream_bytes(ts) =~= packet_bytes(chunk) + tail);
        let lf = literal_flags(chunk);
        let octet = octet_of_flags(lf);
        let flags = flags_of_octet(octet);
        let size = payload(chunk).len() as int;
        lemma_payload_len(chunk);
        lemma_flags_of_packed_octet(lf);
        assert(data.skip(i)[0] == octet);
        assert(data[i] == octet);
        assert(data.subrange(i + 1, i + 1 + size) =~= payload(chunk)) by {
            assert forall|k: int| 0 <= k < size implies data[i + 1 + k] == payload(chunk)[k] by {
                assert(data[i + 1 + k] == data.skip(i)[1 + k]);
            }
        }
        assert forall|k: int| 0 <= k < chunk.len() implies flags[k] == (chunk[k] is Literal) by {
            assert(flags[k] == (k < lf.len() && lf[k]));
        }
        lemma_tokens_from_payload(data, i + 1, flags, chunk);
        let next = i + 1 + size;
        assert(data.skip(next) =~= tail) by {
            assert forall|k: int| 0 <= k < tail.len() implies data.skip(next)[k] == tail[k] by {
                assert(data[next + k] == data.skip(i)[1 + size + k]);
            }
        }
        if ts.len() < 8 {
            // The last packet: the flags that are left find no token.
            assert(next == data.len());
        } else {
            assert(flags.skip(8) =~= Seq::<bool>::empty());
            lemma_tokens_from_stream(data, next, rest);
            assert(chunk + rest =~= ts);
        }
    }
}

/// Every packet of a serialisation holds exactly the tokens that its flag
/// octet announces: reading the packets of `ts` back gives `ts`, no token
/// more and none less.
pub proof fn lemma_tokenize_stream(ts: Seq<Token>)
    ensures
        tokenize(stream_bytes(ts)) == ts,
{
    let data = stream_bytes(ts);
    assert(data.skip(0) =~= data);
    lemma_tokens_from_stream(data, 0, ts);
}

/// The flag octet of a packet announces the tokens that follow it and no
/// others: flag `k` is set exactly where token `k` is there and is a literal,
/// and behind the octet stand the bytes of the tokens and nothing else.
pub proof fn lemma_packet_announces_tokens(ts: Seq<Token>)
    requires
        ts.len() <= 8,
    ensures
        packet_bytes(ts).len() == 1 + payload(ts).len(),
        forall|k: int|
            0 <= k < 8 ==> #[trigger] flags_of_octet(packet_bytes(ts)[0])[k] == (k < ts.len()
                && ts[k] is Literal),
{
    lemma_flags_of_packed_octet(literal_flags(ts));
}

} // verus!
