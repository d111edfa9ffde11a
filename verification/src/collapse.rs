//! The compressor: flag accumulator, packet assembler, sliding-window match
//! search and the driver that strings them together.

use crate::wire::{
    checksum, checksum_of, embedded_checksum, flag_at, lemma_octet_of_flags, lemma_payload_len,
    lemma_u32_le_round_trip, literal_flags, octet_of_flags, packet_bytes, payload, push_u32_le,
    reference_word, stream_bytes, u32_le, Token, MAX_RUN, MIN_RUN, WINDOW,
};
use vstd::prelude::*;
use vstd::slice::slice_subrange;

verus! {

/// The error of a compression whose result would not be shorter than the
/// input.
#[derive(Debug, Clone)]
pub struct CollapseError;

impl CollapseError {
    /// The error in words.
    pub fn message(&self) -> (r: &'static str)
        ensures
            r@ == "input is not compressible"@,
    {
        "input is not compressible"
    }
}

/// Up to eight flags on their way into a flag octet.
pub struct FlagBits {
    bits: u8,
    size: u8,
}

impl View for FlagBits {
    type V = Seq<bool>;

    /// The flags pushed so far, oldest first.
    closed spec fn view(&self) -> Seq<bool> {
        Seq::new(self.size as nat, |k: int| flag_at(self.bits, k))
    }
}

impl FlagBits {
    /// At most eight flags are held, and the bits past the last flag are zero.
    pub closed spec fn wf(&self) -> bool {
        &&& self.size <= 8
        &&& forall|k: int| self.size <= k < 8 ==> !flag_at(self.bits, k)
    }

    /// An accumulator without flags.
    pub fn new() -> (r: FlagBits)
        ensures
            r.wf(),
            r@ == Seq::<bool>::empty(),
    {
        let r = FlagBits { bits: 0, size: 0 };
        proof {
            assert forall|k: int| 0 <= k < 8 implies !flag_at(0u8, k) by {
                let s = k as u8;
                assert(s < 8 ==> (0u8 >> s) & 1 != 1) by (bit_vector);
            }
        }
        r
    }

    /// Whether no flag is held.
    pub fn empty(&self) -> (r: bool)
        ensures
            r == (self@.len() == 0),
    {
        self.size == 0
    }

    /// Whether eight flags are held, and no more can be pushed.
    pub fn full(&self) -> (r: bool)
        ensures
            r == (self@.len() == 8),
    {
        self.size == 8
    }

    /// Adds `value` as the next flag.
    pub fn push(&mut self, value: bool)
        requires
            old(self).wf(),
            old(self)@.len() < 8,
        ensures
            final(self).wf(),
            final(self)@ == old(self)@.push(value),
    {
        let ghost before = *self;
        if value {
            self.bits |= 1 << self.size;
        }
        self.size += 1;
        proof {
            let b0 = before.bits;
            let n = before.size;
            let b1 = self.bits;
            assert forall|k: int| 0 <= k < 8 implies flag_at(b1, k) == (flag_at(b0, k) || (k == n
                && value)) by {
                let s = k as u8;
                if value {
                    assert(s < 8 && n < 8 ==> (((b0 | (1u8 << n)) >> s) & 1 == 1) == (((b0 >> s)
                        & 1 == 1) || s == n)) by (bit_vector);
                }
            }
        }
    }

    /// The flag octet.
    pub fn value(&self) -> (r: u8)
        requires
            self.wf(),
        ensures
            r == octet_of_flags(self@),
    {
        proof {
            lemma_octet_of_flags(self.bits, self@);
        }
        self.bits
    }
}

/// A packet under construction: its flags and the bytes of its tokens.
pub struct Packet {
    flagbits: FlagBits,
    chunk: Vec<u8>,
    tokens: Ghost<Seq<Token>>,
}

impl View for Packet {
    type V = Seq<Token>;

    /// The tokens pushed so far, oldest first.
    closed spec fn view(&self) -> Seq<Token> {
        self.tokens@
    }
}

impl Packet {
    /// There is one flag per token, and the payload holds each token's bytes
    /// in turn: one for a literal, two for a back-reference.
    pub closed spec fn wf(&self) -> bool {
        &&& self.flagbits.wf()
        &&& self.flagbits@ == literal_flags(self.tokens@)
        &&& self.chunk@ == payload(self.tokens@)
    }

    /// A packet without tokens.
    pub fn new() -> (r: Packet)
        ensures
            r.wf(),
            r@ == Seq::<Token>::empty(),
    {
        let r = Packet {
            flagbits: FlagBits::new(),
            chunk: Vec::with_capacity(16),
            tokens: Ghost(Seq::empty()),
        };
        proof {
            assert(r.flagbits@ =~= literal_flags(r.tokens@));
        }
        r
    }

    /// Whether no token is held.
    pub fn empty(&self) -> (r: bool)
        requires
            self.wf(),
        ensures
            r == (self@.len() == 0),
    {
        self.flagbits.empty()
    }

    /// Whether eight tokens are held, and no more can be pushed.
    pub fn full(&self) -> (r: bool)
        requires
            self.wf(),
        ensures
            r == (self@.len() == 8),
            self@.len() <= 8,
    {
        self.flagbits.full()
    }

    /// Adds the literal `value` as the next token.
    pub fn push_byte(&mut self, value: u8)
        requires
            old(self).wf(),
            old(self)@.len() < 8,
        ensures
            final(self).wf(),
            final(self)@ == old(self)@.push(Token::Literal { byte: value }),
    {
        self.flagbits.push(true);
        self.chunk.push(value);
        proof {
            let t = Token::Literal { byte: value };
            let next = self.tokens@.push(t);
            assert(next.drop_last() =~= self.tokens@);
            assert(self.chunk@ =~= payload(next));
            assert(self.flagbits@ =~= literal_flags(next));
            self.tokens = Ghost(next);
        }
    }

    /// Adds a back-reference of distance `rpos` and length `rlen` as the next
    /// token. Only the low twelve bits of the distance and the low four bits
    /// of `rlen - 3` are kept.
    pub fn push_pointer(&mut self, rpos: u16, rlen: u16)
        requires
            old(self).wf(),
            old(self)@.len() < 8,
            rlen >= 3,
        ensures
            final(self).wf(),
            final(self)@ == old(self)@.push(Token::Reference { word: reference_word(rpos, rlen) }),
    {
        self.flagbits.push(false);
        let ptr: u16 = (rpos & 0xf00) << 4 | (rpos & 0xff) | (((rlen - 3) & 0xf) << 8);
        self.chunk.push((ptr & 0xff) as u8);
        self.chunk.push((ptr >> 8) as u8);
        proof {
            let t = Token::Reference { word: ptr };
            let next = self.tokens@.push(t);
            assert(next.drop_last() =~= self.tokens@);
            assert(self.chunk@ =~= payload(next));
            assert(self.flagbits@ =~= literal_flags(next));
            self.tokens = Ghost(next);
        }
    }

    /// The packet as it goes into the stream: the flag octet, then the payload.
    pub fn value(&self) -> (r: Vec<u8>)
        requires
            self.wf(),
        ensures
            r@ == packet_bytes(self@),
    {
        let mut result: Vec<u8> = Vec::new();
        result.push(self.flagbits.value());
        let mut i: usize = 0;
        while i < self.chunk.len()
            invariant
                i <= self.chunk.len(),
                result@ == seq![octet_of_flags(self.flagbits@)] + self.chunk@.take(i as int),
            decreases self.chunk.len() - i,
        {
            result.push(self.chunk[i]);
            i += 1;
        }
        result
    }

    /// The number of bytes that `value` returns.
    pub fn size(&self) -> (r: usize)
        requires
            self.wf(),
        ensures
            r == packet_bytes(self@).len(),
            r <= 17,
    {
        proof {
            lemma_payload_len(self.tokens@);
        }
        self.chunk.len() + 1
    }
}

/// Whether `needle` stands in `hay` at index `i`.
pub open spec fn occurs_at(hay: Seq<u8>, needle: Seq<u8>, i: int) -> bool {
    &&& 0 <= i
    &&& i + needle.len() <= hay.len()
    &&& hay.subrange(i, i + needle.len()) == needle
}

/// `memchr::memmem::find`: the index of the first occurrence of `needle` in
/// `haystack`, or `None` where it does not occur. This contract is taken from
/// the crate's documentation and is not proved here.
pub assume_specification[ memchr::memmem::find ](haystack: &[u8], needle: &[u8]) -> (r: Option<
    usize,
>)
    ensures
        match r {
            Some(i) => occurs_at(haystack@, needle@, i as int) && forall|j: int|
                0 <= j < i ==> !occurs_at(haystack@, needle@, j),
            None => forall|j: int| !occurs_at(haystack@, needle@, j),
        },
;

/// Where the search window of offset `o` begins: `WINDOW` bytes back, or at
/// the start of the input.
pub open spec fn window_start(o: int) -> int {
    if o > WINDOW {
        o - WINDOW
    } else {
        0
    }
}

/// The longest run that may be encoded at offset `o` of `b`.
pub open spec fn longest_run(b: Seq<u8>, o: int) -> int {
    if b.len() - o < MAX_RUN {
        b.len() - o
    } else {
        MAX_RUN as int
    }
}

/// Whether the `len` bytes at `o` also stand at `start`, wholly inside the
/// window of `o`.
pub open spec fn matches_at(b: Seq<u8>, o: int, len: int, start: int) -> bool {
    &&& window_start(o) <= start
    &&& start + len <= o
    &&& b.subrange(start, start + len) == b.subrange(o, o + len)
}

/// Whether `(len, start)` is the match that the search prefers at `o`: the
/// longest run that occurs in the window at all, at its leftmost occurrence.
pub open spec fn is_best_match(b: Seq<u8>, o: int, len: int, start: int) -> bool {
    &&& MIN_RUN <= len <= longest_run(b, o)
    &&& matches_at(b, o, len, start)
    &&& forall|l: int, s: int| len < l <= longest_run(b, o) ==> !matches_at(b, o, l, s)
    &&& forall|s: int| s < start ==> !matches_at(b, o, len, s)
}

/// Whether the search finds a match at `o`. It does wherever a run of at
/// least `MIN_RUN` bytes at `o` occurs in its window: see `lemma_match_is_found`.
pub open spec fn has_match(b: Seq<u8>, o: int) -> bool {
    exists|len: int, start: int| is_best_match(b, o, len, start)
}

/// The preferred match at `o` as `(len, start)`, where there is one.
pub open spec fn best_match(b: Seq<u8>, o: int) -> (int, int) {
    choose|len: int, start: int| is_best_match(b, o, len, start)
}

/// The preferred match is unique.
pub proof fn lemma_best_match_unique(b: Seq<u8>, o: int, len: int, start: int)
    requires
        is_best_match(b, o, len, start),
    ensures
        has_match(b, o),
        best_match(b, o) == (len, start),
{
    let (l2, s2) = best_match(b, o);
    assert(is_best_match(b, o, l2, s2));
}

/// Among the occurrences of one run, the search prefers one.
proof fn lemma_leftmost_is_found(b: Seq<u8>, o: int, len: int, start: int, low: int)
    requires
        MIN_RUN <= len <= longest_run(b, o),
        matches_at(b, o, len, start),
        forall|l: int, s: int| len < l <= longest_run(b, o) ==> !matches_at(b, o, l, s),
        forall|s: int| s < low ==> !matches_at(b, o, len, s),
        low <= start,
    ensures
        has_match(b, o),
    decreases start - low,
{
    if low == start || matches_at(b, o, len, low) {
        assert(is_best_match(b, o, len, low));
    } else {
        lemma_leftmost_is_found(b, o, len, start, low + 1);
    }
}

/// Among the runs of at most `top` bytes, the search prefers one.
proof fn lemma_longest_is_found(b: Seq<u8>, o: int, len: int, start: int, top: int)
    requires
        MIN_RUN <= len <= top <= longest_run(b, o),
        matches_at(b, o, len, start),
        forall|l: int, s: int| top < l <= longest_run(b, o) ==> !matches_at(b, o, l, s),
    ensures
        has_match(b, o),
    decreases top - len,
{
    if top == len {
        lemma_leftmost_is_found(b, o, len, start, window_start(o));
    } else if exists|s: int| matches_at(b, o, top, s) {
        let s = choose|s: int| matches_at(b, o, top, s);
        lemma_leftmost_is_found(b, o, top, s, window_start(o));
    } else {
        lemma_longest_is_found(b, o, len, start, top - 1);
    }
}

/// Wherever a run of at least `MIN_RUN` bytes at `o` occurs in its window,
/// the search finds a match.
pub proof fn lemma_match_is_found(b: Seq<u8>, o: int, len: int, start: int)
    requires
        MIN_RUN <= len <= longest_run(b, o),
        matches_at(b, o, len, start),
    ensures
        has_match(b, o),
{
    lemma_longest_is_found(b, o, len, start, longest_run(b, o));
}

/// Searches the window of `offset` for the longest run of `input` that starts
/// at `offset`; returns its distance back from `offset` and its length.
pub fn longest_match(input: &[u8], offset: usize) -> (r: Option<(usize, usize)>)
    requires
        offset < input.len(),
    ensures
        match r {
            Some((distance, len)) => {
                &&& has_match(input@, offset as int)
                &&& len == best_match(input@, offset as int).0
                &&& distance == offset - best_match(input@, offset as int).1
            },
            None => !has_match(input@, offset as int),
        },
{
    let ghost b = input@;
    let ghost o = offset as int;
    let longest: usize = if input.len() - offset < MAX_RUN {
        input.len() - offset
    } else {
        MAX_RUN
    };
    let start: usize = if offset > WINDOW {
        offset - WINDOW
    } else {
        0
    };
    let haystack = slice_subrange(input, start, offset);
    let mut len: usize = longest;
    while len >= MIN_RUN
        invariant
            b == input@,
            o == offset,
            offset < input.len(),
            longest == longest_run(b, o),
            start == window_start(o),
            haystack@ == b.subrange(start as int, o),
            len <= longest,
            forall|l: int, s: int| len < l <= longest ==> !matches_at(b, o, l, s),
        decreases len,
    {
        let needle = slice_subrange(input, offset, offset + len);
        match memchr::memmem::find(haystack, needle) {
            Some(index) => {
                proof {
                    let found = start + index;
                    assert(haystack@.subrange(index as int, index + len) =~= b.subrange(
                        found,
                        found + len,
                    ));
                    assert forall|s: int| s < found implies !matches_at(b, o, len as int, s) by {
                        if matches_at(b, o, len as int, s) {
                            let j = s - start;
                            assert(haystack@.subrange(j, j + len) =~= b.subrange(s, s + len));
                            assert(occurs_at(haystack@, needle@, j));
                        }
                    }
                    lemma_best_match_unique(b, o, len as int, found);
                }
                return Some((offset - (start + index), len));
            },
            None => {
                proof {
                    assert forall|s: int| !matches_at(b, o, len as int, s) by {
                        if matches_at(b, o, len as int, s) {
                            let j = s - start;
                            assert(haystack@.subrange(j, j + len) =~= b.subrange(s, s + len));
                            assert(occurs_at(haystack@, needle@, j));
                        }
                    }
                }
            },
        }
        len -= 1;
    }
    proof {
        if has_match(b, o) {
            let (l2, s2) = best_match(b, o);
            assert(is_best_match(b, o, l2, s2));
        }
    }
    None
}

/// The token that the compressor emits at offset `o`: a back-reference to
/// the preferred match where there is one, else the byte at `o`.
pub open spec fn token_at(b: Seq<u8>, o: int) -> Token {
    if has_match(b, o) {
        let (len, start) = best_match(b, o);
        Token::Reference { word: reference_word((o - start) as u16, len as u16) }
    } else {
        Token::Literal { byte: b[o] }
    }
}

/// The number of input bytes that the token at `o` stands for.
pub open spec fn span_at(b: Seq<u8>, o: int) -> int {
    if has_match(b, o) {
        best_match(b, o).0
    } else {
        1
    }
}

/// The tokens of `b` from offset `o` to its end: at each offset the token
/// that the search prefers, then on from behind what it covers.
pub open spec fn greedy_tokens(b: Seq<u8>, o: int) -> Seq<Token>
    decreases b.len() - o,
{
    if o < 0 || o >= b.len() {
        Seq::empty()
    } else {
        seq![token_at(b, o)] + greedy_tokens(b, o + span_at(b, o))
    }
}

/// What compressing `b` gives: its packets and the checksum of `b`, unless
/// there are packets and they take `b.len() - 4` bytes or more, so that the
/// result would not be shorter than `b`.
pub open spec fn collapse_spec(b: Seq<u8>) -> Option<Seq<u8>> {
    let packets = stream_bytes(greedy_tokens(b, 0));
    if b.len() > 0 && packets.len() >= b.len() - 4 {
        None
    } else {
        Some(packets + u32_le(checksum_of(b)))
    }
}

/// Behind whole packets, the rest of a token sequence is packed on its own.
pub proof fn lemma_stream_bytes_append(head: Seq<Token>, rest: Seq<Token>)
    requires
        head.len() % 8 == 0,
    ensures
        stream_bytes(head + rest) == stream_bytes(head) + stream_bytes(rest),
    decreases head.len(),
{
    if head.len() > 0 {
        let all = head + rest;
        assert(all.take(8) =~= head.take(8));
        assert(all.skip(8) =~= head.skip(8) + rest);
        lemma_stream_bytes_append(head.skip(8), rest);
        if head.len() == 8 {
            assert(head.take(8) =~= head);
        }
    }
}

/// Whether a packet of `size` bytes still fits behind `used` packet bytes,
/// when the input has `total` bytes, four of them are kept for the checksum
/// and the packets must stay below what is left.
fn fits(used: usize, size: usize, total: usize) -> (r: bool)
    ensures
        r == (used + size < total - 4),
{
    total >= 4 && used < total - 4 && size < total - 4 - used
}

/// Appends `packet` to `output`.
fn flush(output: &mut Vec<u8>, packet: &Packet)
    requires
        packet.wf(),
    ensures
        final(output)@ == old(output)@ + packet_bytes(packet@),
{
    let bytes = packet.value();
    let mut i: usize = 0;
    while i < bytes.len()
        invariant
            i <= bytes.len(),
            output@ == old(output)@ + bytes@.take(i as int),
        decreases bytes.len() - i,
    {
        output.push(bytes[i]);
        i += 1;
    }
}

/// Compresses `input`: its greedy tokens in packets of eight, then the
/// checksum of `input`. Fails where the packets would take
/// `input.len() - 4` bytes or more: a result is shorter than its input,
/// unless that is empty.
pub fn collapse_impl(input: &[u8]) -> (r: Result<Vec<u8>, CollapseError>)
    ensures
        match collapse_spec(input@) {
            Some(bytes) => r matches Ok(out) && out@ == bytes,
            None => r is Err,
        },
        r matches Ok(out) ==> out@.len() >= 4 && out@.skip(out@.len() - 4) == u32_le(
            checksum_of(input@),
        ),
        r matches Ok(out) ==> input@.len() > 0 ==> out@.len() < input@.len(),
{
    let ghost b = input@;
    let ghost all = greedy_tokens(b, 0);
    let ghost mut flushed: Seq<Token> = Seq::empty();
    let mut output: Vec<u8> = Vec::new();
    let mut packet = Packet::new();
    let mut offset: usize = 0;

    while offset < input.len()
        invariant
            b == input@,
            all == greedy_tokens(b, 0),
            offset <= input.len(),
            packet.wf(),
            packet@.len() <= 8,
            offset > 0 ==> packet@.len() > 0,
            flushed.len() % 8 == 0,
            output@ == stream_bytes(flushed),
            flushed + packet@ + greedy_tokens(b, offset as int) == all,
        decreases input.len() - offset,
    {
        if packet.full() {
            proof {
                lemma_stream_bytes_append(flushed, packet@);
                lemma_stream_bytes_append(flushed + packet@, greedy_tokens(b, offset as int));
            }
            if !fits(output.len(), packet.size(), input.len()) {
                return Err(CollapseError);
            }
            flush(&mut output, &packet);
            proof {
                flushed = flushed + packet@;
            }
            packet = Packet::new();
        }
        match longest_match(input, offset) {
            Some((distance, len)) => {
                proof {
                    let (l, s) = best_match(b, offset as int);
                    assert(is_best_match(b, offset as int, l, s));
                }
                packet.push_pointer(distance as u16, len as u16);
                offset += len;
            },
            None => {
                packet.push_byte(input[offset]);
                offset += 1;
            },
        }
    }

    if !packet.empty() {
        proof {
            lemma_stream_bytes_append(flushed, packet@);
        }
        if !fits(output.len(), packet.size(), input.len()) {
            return Err(CollapseError);
        }
        flush(&mut output, &packet);
    }
    push_u32_le(&mut output, checksum(input));
    Ok(output)
}

/// A compressed stream ends in the little-endian checksum of its plaintext.
pub proof fn lemma_collapse_checksum(b: Seq<u8>)
    ensures
        collapse_spec(b) matches Some(c) ==> {
            &&& c.len() >= 4
            &&& c.skip(c.len() - 4) == u32_le(checksum_of(b))
            &&& embedded_checksum(c) == checksum_of(b)
        },
{
    lemma_u32_le_round_trip(checksum_of(b));
}

/// A compressed stream is shorter than its plaintext, unless that is empty.
pub proof fn lemma_collapse_len(b: Seq<u8>)
    ensures
        collapse_spec(b) matches Some(c) ==> (b.len() > 0 ==> c.len() < b.len()),
{
}

/// The empty input is compressed to its checksum alone.
pub proof fn lemma_collapse_empty()
    ensures
        collapse_spec(Seq::<u8>::empty()) == Some(u32_le(0)),
{
}

/// The three bytes of `b` from index `i` on.
pub open spec fn triple(b: Seq<u8>, i: int) -> Seq<u8> {
    b.subrange(i, i + 3)
}

/// Whether no run of three bytes stands at two places of `b`, and so no
/// longer run either.
pub open spec fn repeat_free(b: Seq<u8>) -> bool {
    forall|i: int, j: int|
        0 <= i < j && j + 3 <= b.len() ==> #[trigger] triple(b, i) != #[trigger] triple(b, j)
}

/// Packets take more bytes than they hold tokens.
pub proof fn lemma_stream_bytes_len(ts: Seq<Token>)
    requires
        ts.len() > 0,
    ensures
        stream_bytes(ts).len() > ts.len(),
    decreases ts.len(),
{
    if ts.len() <= 8 {
        lemma_payload_len(ts);
    } else {
        lemma_payload_len(ts.take(8));
        lemma_stream_bytes_len(ts.skip(8));
    }
}

/// Where nothing matches from `o` on, every byte from `o` on is a token.
pub proof fn lemma_greedy_without_match(b: Seq<u8>, o: int)
    requires
        0 <= o <= b.len(),
        forall|p: int| o <= p < b.len() ==> !has_match(b, p),
    ensures
        greedy_tokens(b, o).len() == b.len() - o,
    decreases b.len() - o,
{
    if o < b.len() {
        lemma_greedy_without_match(b, o + 1);
    }
}

/// An input in which no run of three bytes repeats cannot be compressed,
/// however short it is; only the empty input is exempt, which has no packet.
pub proof fn lemma_repeat_free_incompressible(b: Seq<u8>)
    requires
        b.len() > 0,
        repeat_free(b),
    ensures
        collapse_spec(b) is None,
{
    assert forall|o: int| 0 <= o < b.len() implies !has_match(b, o) by {
        if has_match(b, o) {
            let (len, start) = best_match(b, o);
            assert(triple(b, start) =~= b.subrange(start, start + len).subrange(0, 3));
            assert(triple(b, o) =~= b.subrange(o, o + len).subrange(0, 3));
        }
    }
    lemma_greedy_without_match(b, 0);
    lemma_stream_bytes_len(greedy_tokens(b, 0));
}

} // verus!
