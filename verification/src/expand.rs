//! The decompressor: flag reader, input cursor, back-reference resolver and
//! the driver that strings them together.

use crate::wire::{
    checksum, checksum_of, embedded_checksum, flag_at, flags_of_octet, reference_distance,
    reference_length, tokenize, tokens_from, u16_from_le, u32_from_le, Token, FILL,
};
use vstd::prelude::*;
use vstd::string::{StrSliceExecFns, StringExecFns};

verus! {

/// The sixteen digits, in order of their value.
pub open spec fn hex_alphabet() -> Seq<char> {
    "0123456789abcdef"@
}

/// The digit of value `d`, as a text of one character.
pub open spec fn hex_digit(d: int) -> Seq<char> {
    hex_alphabet().subrange(d, d + 1)
}

/// The digits of `v` in base sixteen, most significant first, without
/// leading zeros; one `0` for zero.
pub open spec fn hex_digits(v: nat) -> Seq<char>
    decreases v,
{
    if v < 16 {
        hex_digit(v as int)
    } else {
        hex_digits(v / 16) + hex_digit((v % 16) as int)
    }
}

/// `v` as it stands in a message: `0x`, then its digits.
pub open spec fn hex_text(v: u32) -> Seq<char> {
    "0x"@ + hex_digits(v as nat)
}

/// The message of a checksum mismatch.
pub open spec fn mismatch_text(actual: u32, expected: u32) -> Seq<char> {
    "Checksum mismatch ("@ + hex_text(actual) + " != "@ + hex_text(expected) + ")"@
}

/// Appends the digits of `v` in base sixteen to `s`.
fn push_hex_digits(s: &mut String, v: u32)
    ensures
        final(s)@ == old(s)@ + hex_digits(v as nat),
    decreases v,
{
    let alphabet = "0123456789abcdef";
    proof {
        reveal_strlit("0123456789abcdef");
    }
    if v >= 16 {
        push_hex_digits(s, v / 16);
    }
    let d: usize = (v % 16) as usize;
    s.append(alphabet.substring_ascii(d, d + 1));
}

/// The error of a decompression whose output does not sum to the checksum
/// that the stream carries.
#[derive(Debug, Clone)]
pub struct ChecksumError {
    /// The checksum of the bytes that were produced.
    pub actual: u32,
    /// The checksum that the stream carries.
    pub expected: u32,
    /// Both values in words, in hexadecimal.
    pub message: String,
}

impl ChecksumError {
    /// The error for an output that sums to `actual` where the stream
    /// carries `expected`.
    pub fn new(actual: u32, expected: u32) -> (r: ChecksumError)
        ensures
            r.actual == actual,
            r.expected == expected,
            r.message@ == mismatch_text(actual, expected),
    {
        let mut message = String::new();
        message.append("Checksum mismatch (");
        message.append("0x");
        push_hex_digits(&mut message, actual);
        message.append(" != ");
        message.append("0x");
        push_hex_digits(&mut message, expected);
        message.append(")");
        ChecksumError { actual, expected, message }
    }
}

/// The flags of one packet on their way out of its flag octet.
pub struct FlagBits {
    flags: u8,
    remaining: u8,
}

impl View for FlagBits {
    type V = Seq<bool>;

    /// The flags not yet read, next one first.
    closed spec fn view(&self) -> Seq<bool> {
        Seq::new(self.remaining as nat, |k: int| flag_at(self.flags, k))
    }
}

impl FlagBits {
    /// At most eight flags are left.
    pub closed spec fn wf(&self) -> bool {
        self.remaining <= 8
    }

    /// The eight flags of the octet `flags`.
    pub fn new(flags: u8) -> (r: FlagBits)
        ensures
            r.wf(),
            r@ == flags_of_octet(flags),
    {
        FlagBits { flags, remaining: 8 }
    }

    /// Whether all flags were taken.
    pub fn end(&self) -> (r: bool)
        ensures
            r == (self@.len() == 0),
    {
        self.remaining == 0
    }

    /// Takes the next flag.
    pub fn pop(&mut self) -> (r: bool)
        requires
            old(self).wf(),
            old(self)@.len() > 0,
        ensures
            final(self).wf(),
            r == old(self)@[0],
            final(self)@ == old(self)@.drop_first(),
    {
        let ghost before = *self;
        let result = self.flags & 1;
        self.flags >>= 1;
        self.remaining -= 1;
        proof {
            let f = before.flags;
            assert((f >> 0u8) & 1 == f & 1) by (bit_vector);
            assert forall|k: int| 0 <= k < 7 implies flag_at(f >> 1, k) == flag_at(f, k + 1) by {
                let s = k as u8;
                assert(s < 7 ==> ((f >> 1) >> s) & 1 == (f >> ((s + 1) as u8)) & 1)
                    by (bit_vector);
            }
        }
        result == 1
    }
}

/// A cursor over the packet area of a stream: all of it but the last four
/// bytes, which hold the checksum.
pub struct InBuffer<'a> {
    raw: &'a [u8],
    i: usize,
}

impl<'a> InBuffer<'a> {
    /// The whole stream.
    pub closed spec fn stream(&self) -> Seq<u8> {
        self.raw@
    }

    /// The index of the next byte to read.
    pub closed spec fn pos(&self) -> int {
        self.i as int
    }

    /// The packet area.
    pub open spec fn body(&self) -> Seq<u8> {
        self.stream().take(self.stream().len() - 4)
    }

    /// The stream holds a checksum, and the cursor stands in the packet area
    /// or at its end.
    pub open spec fn wf(&self) -> bool {
        &&& self.stream().len() >= 4
        &&& 0 <= self.pos() <= self.stream().len() - 4
    }

    /// A cursor at the start of `raw`.
    pub fn new(raw: &'a [u8]) -> (r: InBuffer<'a>)
        requires
            raw@.len() >= 4,
        ensures
            r.wf(),
            r.stream() == raw@,
            r.pos() == 0,
    {
        InBuffer { raw, i: 0 }
    }

    /// Whether the packet area is used up.
    pub fn end(&self) -> (r: bool)
        requires
            self.wf(),
        ensures
            r == (self.pos() >= self.body().len()),
    {
        self.i >= self.raw.len() - 4
    }

    /// Reads one byte of the packet area, or fails at its end.
    pub fn readbyte(&mut self) -> (r: Result<u8, &'static str>)
        requires
            old(self).wf(),
        ensures
            final(self).wf(),
            final(self).stream() == old(self).stream(),
            match r {
                Ok(b) => {
                    &&& old(self).pos() < old(self).body().len()
                    &&& b == old(self).body()[old(self).pos()]
                    &&& final(self).pos() == old(self).pos() + 1
                },
                Err(e) => {
                    &&& old(self).pos() >= old(self).body().len()
                    &&& final(self).pos() == old(self).pos()
                    &&& e@ == "end of input reached"@
                },
            },
    {
        if self.i >= self.raw.len() - 4 {
            return Err("end of input reached");
        }
        let result = self.raw[self.i];
        self.i += 1;
        Ok(result)
    }

    /// Reads two bytes of the packet area as a little-endian word. Where
    /// fewer than two are left it fails, and the one that was left is used up.
    pub fn readword(&mut self) -> (r: Result<u16, &'static str>)
        requires
            old(self).wf(),
        ensures
            final(self).wf(),
            final(self).stream() == old(self).stream(),
            match r {
                Ok(w) => {
                    &&& old(self).pos() + 2 <= old(self).body().len()
                    &&& w == u16_from_le(
                        old(self).body()[old(self).pos()],
                        old(self).body()[old(self).pos() + 1],
                    )
                    &&& final(self).pos() == old(self).pos() + 2
                },
                Err(e) => {
                    &&& old(self).pos() + 2 > old(self).body().len()
                    &&& final(self).pos() == old(self).body().len()
                    &&& e@ == "end of input reached"@
                },
            },
    {
        let lo = match self.readbyte() {
            Ok(b) => b,
            Err(e) => {
                return Err(e);
            },
        };
        let hi = match self.readbyte() {
            Ok(b) => b,
            Err(e) => {
                return Err(e);
            },
        };
        Ok(lo as u16 | ((hi as u16) << 8))
    }

    /// The checksum that the stream carries in its last four bytes.
    pub fn checksum(&self) -> (r: u32)
        requires
            self.wf(),
        ensures
            r == embedded_checksum(self.stream()),
    {
        let n = self.raw.len();
        (self.raw[n - 4] as u32) | ((self.raw[n - 3] as u32) << 8) | ((self.raw[n - 2] as u32)
            << 16) | ((self.raw[n - 1] as u32) << 24)
    }
}

/// How many of `want` bytes an output of length `len` can still take under
/// the capacity `cap`.
pub open spec fn room(len: int, cap: int, want: int) -> int {
    if cap <= len {
        0
    } else if cap - len < want {
        cap - len
    } else {
        want
    }
}

/// `out` after `n` bytes were copied to its end one at a time, the first from
/// index `src`, each next one from the index after. A byte written early in
/// the copy may be read later in it.
pub open spec fn copy_run(out: Seq<u8>, src: int, n: int) -> Seq<u8>
    decreases n,
{
    if n <= 0 {
        out
    } else {
        copy_run(out.push(out[src]), src + 1, n - 1)
    }
}

/// `out` after the back-reference `word` was resolved under the capacity
/// `cap`. A distance past the start of the output gives fill bytes; a
/// distance of zero names no byte and gives nothing; any other distance
/// copies from that far back. The capacity cuts the run short.
pub open spec fn apply_reference(out: Seq<u8>, word: u16, cap: int) -> Seq<u8> {
    let distance = reference_distance(word) as int;
    let n = room(out.len() as int, cap, reference_length(word) as int);
    if distance > out.len() {
        out + Seq::new(n as nat, |i: int| FILL)
    } else if distance == 0 {
        out
    } else {
        copy_run(out, out.len() - distance, n)
    }
}

/// `out` after one token, under the capacity `cap`: an output that is full
/// takes nothing more.
pub open spec fn apply_token(out: Seq<u8>, t: Token, cap: int) -> Seq<u8> {
    if out.len() >= cap {
        out
    } else {
        match t {
            Token::Literal { byte } => out.push(byte),
            Token::Reference { word } => apply_reference(out, word, cap),
        }
    }
}

/// The output that the tokens `ts` give in turn, under the capacity `cap`.
pub open spec fn replay(ts: Seq<Token>, cap: int) -> Seq<u8>
    decreases ts.len(),
{
    if ts.len() == 0 {
        Seq::empty()
    } else {
        apply_token(replay(ts.drop_last(), cap), ts.last(), cap)
    }
}

/// The bytes that decompressing `stream` produces under the capacity `cap`,
/// before they are held against the checksum.
pub open spec fn expand_output(stream: Seq<u8>, cap: int) -> Seq<u8>
    recommends
        stream.len() >= 4,
{
    replay(tokenize(stream.take(stream.len() - 4)), cap)
}

/// What decompressing `stream` under the capacity `cap` gives: the bytes
/// produced, where they sum to the checksum that the stream carries.
pub open spec fn expand_spec(stream: Seq<u8>, cap: int) -> Option<Seq<u8>>
    recommends
        stream.len() >= 4,
{
    let out = expand_output(stream, cap);
    if checksum_of(out) == embedded_checksum(stream) {
        Some(out)
    } else {
        None
    }
}

/// The field bounds of a back-reference word.
pub proof fn lemma_reference_fields(word: u16)
    ensures
        reference_distance(word) <= 0xfff,
        3 <= reference_length(word) <= 18,
{
    assert((word & 0xff) | ((word >> 4) & 0xf00) <= 0xfff) by (bit_vector);
    assert((word >> 8) & 0xf <= 15) by (bit_vector);
}

/// Resolves the back-reference `ptr` at the end of `output`, which never
/// grows past `capacity`.
pub fn copy_back_reference(output: &mut Vec<u8>, ptr: u16, capacity: usize)
    ensures
        final(output)@ == apply_reference(old(output)@, ptr, capacity as int),
{
    proof {
        lemma_reference_fields(ptr);
        assert((ptr >> 8) & 0xf <= 15) by (bit_vector);
    }
    let rposi: usize = ((ptr & 0xff) | ((ptr >> 4) & 0xf00)) as usize;
    let rlen: usize = (((ptr >> 8) & 0xf) + 3) as usize;
    let n: usize = if capacity <= output.len() {
        0
    } else if capacity - output.len() < rlen {
        capacity - output.len()
    } else {
        rlen
    };
    let ghost target = apply_reference(old(output)@, ptr, capacity as int);
    if rposi > output.len() {
        let mut k: usize = 0;
        while k < n
            invariant
                k <= n,
                output@ == old(output)@ + Seq::new(k as nat, |i: int| FILL),
            decreases n - k,
        {
            output.push(FILL);
            k += 1;
        }
    } else if rposi > 0 {
        let mut src: usize = output.len() - rposi;
        let mut k: usize = 0;
        while k < n
            invariant
                k <= n,
                src < output.len(),
                copy_run(output@, src as int, n - k) == target,
            decreases n - k,
        {
            let b = output[src];
            output.push(b);
            src += 1;
            k += 1;
        }
    }
}

/// An output that has reached the capacity takes nothing from further tokens.
pub proof fn lemma_replay_saturated(head: Seq<Token>, rest: Seq<Token>, cap: int)
    requires
        replay(head, cap).len() >= cap,
    ensures
        replay(head + rest, cap) == replay(head, cap),
    decreases rest.len(),
{
    if rest.len() > 0 {
        lemma_replay_saturated(head, rest.drop_last(), cap);
        assert((head + rest).drop_last() =~= head + rest.drop_last());
    }
}

/// Decompresses `inbytes` into at most `capacity` bytes and holds their sum
/// against the checksum in the last four bytes of `inbytes`.
pub fn expand_impl(inbytes: &[u8], capacity: usize) -> (r: Result<Vec<u8>, ChecksumError>)
    requires
        inbytes@.len() >= 4,
    ensures
        match expand_spec(inbytes@, capacity as int) {
            Some(bytes) => r matches Ok(out) && out@ == bytes,
            None => r matches Err(e) && {
                &&& e.actual == checksum_of(expand_output(inbytes@, capacity as int))
                &&& e.expected == embedded_checksum(inbytes@)
                &&& e.message@ == mismatch_text(e.actual, e.expected)
            },
        },
{
    let mut raw = InBuffer::new(inbytes);
    let mut output: Vec<u8> = Vec::new();
    let mut done = false;
    let ghost body = raw.body();
    let ghost cap = capacity as int;
    let ghost all = tokenize(body);
    let ghost mut consumed: Seq<Token> = Seq::empty();

    proof {
        if capacity == 0 {
            lemma_replay_saturated(consumed, all, cap);
        }
    }
    while !done && !raw.end() && output.len() < capacity
        invariant
            raw.wf(),
            raw.stream() == inbytes@,
            body == raw.body(),
            cap == capacity,
            all == tokenize(body),
            output@ == replay(consumed, cap),
            done ==> consumed == all,
            !done && output.len() >= capacity ==> output@ == replay(all, cap),
            !done && output.len() < capacity ==> consumed + tokens_from(
                body,
                raw.pos(),
                Seq::empty(),
            ) == all,
        decreases body.len() - raw.pos() + (if done { 0int } else { 1int }),
    {
        let ghost packet_at = raw.pos();
        match raw.readbyte() {
            Ok(flagbyte) => {
                let mut flagbits = FlagBits::new(flagbyte);
                while !done && !flagbits.end() && output.len() < capacity
                    invariant
                        raw.wf(),
                        raw.pos() > packet_at,
                        raw.stream() == inbytes@,
                        body == raw.body(),
                        cap == capacity,
                        all == tokenize(body),
                        flagbits.wf(),
                        output@ == replay(consumed, cap),
                        done ==> consumed == all,
                        !done ==> consumed + tokens_from(body, raw.pos(), flagbits@) == all,
                    decreases flagbits@.len() + (if done { 0int } else { 1int }),
                {
                    if flagbits.pop() {
                        match raw.readbyte() {
                            Ok(b) => {
                                output.push(b);
                                proof {
                                    let t = Token::Literal { byte: b };
                                    assert(consumed.push(t).drop_last() =~= consumed);
                                    consumed = consumed.push(t);
                                }
                            },
                            Err(_) => {
                                done = true;
                            },
                        }
                    } else {
                        match raw.readword() {
                            Ok(ptr) => {
                                copy_back_reference(&mut output, ptr, capacity);
                                proof {
                                    let t = Token::Reference { word: ptr };
                                    assert(consumed.push(t).drop_last() =~= consumed);
                                    consumed = consumed.push(t);
                                }
                            },
                            Err(_) => {
                                done = true;
                            },
                        }
                    }
                }
                proof {
                    if !done && output.len() >= capacity {
                        lemma_replay_saturated(
                            consumed,
                            tokens_from(body, raw.pos(), flagbits@),
                            cap,
                        );
                    }
                }
            },
            Err(_) => {
                done = true;
            },
        }
    }

    let sum = checksum(output.as_slice());
    let expected = raw.checksum();
    if expected != sum {
        Err(ChecksumError::new(sum, expected))
    } else {
        Ok(output)
    }
}

/// A copy leaves what was there in place and adds `n` bytes.
pub proof fn lemma_copy_run_extends(out: Seq<u8>, src: int, n: int)
    requires
        0 <= n,
    ensures
        copy_run(out, src, n).len() == out.len() + n,
        copy_run(out, src, n).take(out.len() as int) == out,
    decreases n,
{
    if n > 0 {
        lemma_copy_run_extends(out.push(out[src]), src + 1, n - 1);
    }
}

/// A shorter copy from the same place is the start of a longer one.
pub proof fn lemma_copy_run_prefix(out: Seq<u8>, src: int, m: int, n: int)
    requires
        0 <= m <= n,
    ensures
        copy_run(out, src, m) == copy_run(out, src, n).take(out.len() + m),
    decreases m,
{
    if m > 0 {
        lemma_copy_run_prefix(out.push(out[src]), src + 1, m - 1, n - 1);
    } else {
        lemma_copy_run_extends(out, src, n);
    }
}

/// A token leaves what was there in place, and never takes the output past
/// the capacity.
pub proof fn lemma_apply_token_extends(out: Seq<u8>, t: Token, cap: int)
    ensures
        out.len() <= apply_token(out, t, cap).len(),
        apply_token(out, t, cap).take(out.len() as int) == out,
        out.len() <= cap ==> apply_token(out, t, cap).len() <= cap,
{
    if let Token::Reference { word } = t {
        lemma_reference_fields(word);
        let distance = reference_distance(word) as int;
        let n = room(out.len() as int, cap, reference_length(word) as int);
        if 0 < distance <= out.len() {
            lemma_copy_run_extends(out, out.len() - distance, n);
        }
    }
}

/// The output of a replay never passes the capacity.
pub proof fn lemma_replay_len(ts: Seq<Token>, cap: int)
    requires
        0 <= cap,
    ensures
        replay(ts, cap).len() <= cap,
    decreases ts.len(),
{
    if ts.len() > 0 {
        lemma_replay_len(ts.drop_last(), cap);
        lemma_apply_token_extends(replay(ts.drop_last(), cap), ts.last(), cap);
    }
}

/// Under a smaller capacity a replay gives the start of what it gives under
/// a larger one.
pub proof fn lemma_replay_truncation(ts: Seq<Token>, k: int, n: int)
    requires
        0 <= k <= n,
    ensures
        replay(ts, k).len() == if replay(ts, n).len() < k {
            replay(ts, n).len()
        } else {
            k as nat
        },
        replay(ts, k) == replay(ts, n).take(replay(ts, k).len() as int),
    decreases ts.len(),
{
    if ts.len() > 0 {
        let head = ts.drop_last();
        let t = ts.last();
        let small = replay(head, k);
        let large = replay(head, n);
        lemma_replay_truncation(head, k, n);
        lemma_replay_len(head, n);
        lemma_apply_token_extends(large, t, n);
        if large.len() < k {
            // Neither output is full yet: both take the token, one of them
            // perhaps less of it.
            assert(small =~= large);
            if let Token::Reference { word } = t {
                lemma_reference_fields(word);
                let len = large.len() as int;
                let distance = reference_distance(word) as int;
                let want = reference_length(word) as int;
                if 0 < distance <= len {
                    let m = room(len, k, want);
                    let full = room(len, n, want);
                    lemma_copy_run_prefix(large, len - distance, m, full);
                    lemma_copy_run_extends(large, len - distance, m);
                    lemma_copy_run_extends(large, len - distance, full);
                }
            }
        }
    }
}

/// Decompressing under a capacity `k` that is no more than the length of the
/// plaintext gives the first `k` bytes of the plaintext.
pub proof fn lemma_capacity_truncation(stream: Seq<u8>, n: nat, k: nat)
    requires
        stream.len() >= 4,
        k <= expand_output(stream, n as int).len(),
    ensures
        expand_output(stream, k as int) == expand_output(stream, n as int).take(k as int),
{
    let ts = tokenize(stream.take(stream.len() - 4));
    lemma_replay_len(ts, n as int);
    lemma_replay_truncation(ts, k as int, n as int);
}

/// A back-reference whose distance reaches past the start of the output adds
/// fill bytes and nothing else: as many as its length, or as the capacity
/// leaves room for.
pub proof fn lemma_pre_origin_fill(out: Seq<u8>, word: u16, cap: int)
    requires
        reference_distance(word) > out.len(),
    ensures
        ({
            let next = apply_reference(out, word, cap);
            &&& next.len() == out.len() + room(out.len() as int, cap, reference_length(word) as int)
            &&& next.take(out.len() as int) == out
            &&& forall|i: int| out.len() <= i < next.len() ==> next[i] == FILL
        }),
{
    lemma_reference_fields(word);
}

/// Four bytes that differ somewhere stand for different values.
pub proof fn lemma_u32_from_le_injective(a: Seq<u8>, b: Seq<u8>)
    requires
        a.len() == 4,
        b.len() == 4,
        a != b,
    ensures
        u32_from_le(a[0], a[1], a[2], a[3]) != u32_from_le(b[0], b[1], b[2], b[3]),
{
    let (a0, a1, a2, a3) = (a[0], a[1], a[2], a[3]);
    let (b0, b1, b2, b3) = (b[0], b[1], b[2], b[3]);
    if a0 == b0 && a1 == b1 && a2 == b2 && a3 == b3 {
        assert(a =~= b);
    }
    assert(((a0 as u32) | ((a1 as u32) << 8) | ((a2 as u32) << 16) | ((a3 as u32) << 24)) == ((
    b0 as u32) | ((b1 as u32) << 8) | ((b2 as u32) << 16) | ((b3 as u32) << 24)) ==> a0 == b0
        && a1 == b1 && a2 == b2 && a3 == b3) by (bit_vector);
}

/// A stream that decompresses fails to once any of its four checksum bytes
/// is changed and its packets are left as they are.
pub proof fn lemma_changed_checksum_fails(stream: Seq<u8>, changed: Seq<u8>, cap: int)
    requires
        stream.len() >= 4,
        changed.len() == stream.len(),
        changed.take(stream.len() - 4) == stream.take(stream.len() - 4),
        changed.skip(stream.len() - 4) != stream.skip(stream.len() - 4),
        expand_spec(stream, cap) is Some,
    ensures
        expand_spec(changed, cap) is None,
{
    lemma_u32_from_le_injective(stream.skip(stream.len() - 4), changed.skip(stream.len() - 4));
}

} // verus!
