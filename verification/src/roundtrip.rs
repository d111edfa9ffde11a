//! The two directions held against each other: decompressing what the
//! compressor gave restores the input.

use crate::collapse::{
    best_match, collapse_spec, greedy_tokens, has_match, is_best_match, lemma_collapse_checksum,
    span_at, token_at,
};
use crate::expand::{
    apply_token, copy_run, expand_spec, lemma_copy_run_extends, lemma_reference_fields, replay,
    room,
};
use crate::wire::{
    lemma_tokenize_stream, reference_distance, reference_length, reference_word, stream_bytes,
    tokenize, Token, MIN_RUN, WINDOW,
};
use vstd::prelude::*;

verus! {

/// Whether `t` is a literal, or a back-reference whose distance field is not
/// zero. Zero is how a distance of the whole window is written, and the
/// decompressor finds no byte at it.
pub open spec fn names_byte(t: Token) -> bool {
    t matches Token::Reference { word } ==> reference_distance(word) != 0
}

/// Whether every back-reference among `ts` names a byte.
pub open spec fn resolvable(ts: Seq<Token>) -> bool {
    forall|k: int| 0 <= k < ts.len() ==> names_byte(#[trigger] ts[k])
}

/// The fields of the word that encodes a distance of at most the window and
/// a length that can be encoded: the length comes back as it is, the
/// distance too unless it is the whole window, which comes back as zero.
pub proof fn lemma_reference_word_fields(rpos: u16, rlen: u16)
    requires
        rpos <= 0x1000,
        3 <= rlen <= 18,
    ensures
        reference_length(reference_word(rpos, rlen)) == rlen,
        rpos < 0x1000 ==> reference_distance(reference_word(rpos, rlen)) == rpos,
        rpos == 0x1000 ==> reference_distance(reference_word(rpos, rlen)) == 0,
{
    let l: u16 = (rlen - 3) as u16;
    let word: u16 = ((rpos & 0xf00) << 4) | (rpos & 0xff) | ((l & 0xf) << 8);
    assert((word >> 8) & 0xf == l && ((word & 0xff) | ((word >> 4) & 0xf00)) == rpos & 0xfff)
        by (bit_vector)
        requires
            l <= 15,
            word == ((rpos & 0xf00) << 4) | (rpos & 0xff) | ((l & 0xf) << 8),
    ;
    assert(rpos < 0x1000 ==> rpos & 0xfff == rpos) by (bit_vector);
    assert(rpos == 0x1000 ==> rpos & 0xfff == 0) by (bit_vector);
}

/// Copying a run that equals what the plaintext holds next, onto the
/// plaintext up to there, gives the plaintext up to behind the run.
pub proof fn lemma_copy_run_match(b: Seq<u8>, o: int, start: int, len: int, k: int)
    requires
        0 <= start < o,
        o + len <= b.len(),
        0 <= k <= len,
        b.subrange(start, start + len) == b.subrange(o, o + len),
    ensures
        copy_run(b.take(o + k), start + k, len - k) == b.take(o + len),
    decreases len - k,
{
    if k < len {
        let out = b.take(o + k);
        assert(b[o + k] == b.subrange(o, o + len)[k]);
        assert(out.push(out[start + k]) =~= b.take(o + k + 1));
        lemma_copy_run_match(b, o, start, len, k + 1);
    }
}

/// Replaying the tokens of `b` from offset `o` on, onto the first `o` bytes
/// of `b`, gives `b`.
pub proof fn lemma_replay_greedy(b: Seq<u8>, o: int, head: Seq<Token>)
    requires
        0 <= o <= b.len(),
        replay(head, b.len() as int) == b.take(o),
        resolvable(greedy_tokens(b, o)),
    ensures
        replay(head + greedy_tokens(b, o), b.len() as int) == b,
    decreases b.len() - o,
{
    let cap = b.len() as int;
    let ts = greedy_tokens(b, o);
    if o < b.len() {
        let t = token_at(b, o);
        let span = span_at(b, o);
        let rest = greedy_tokens(b, o + span);
        let out = b.take(o);
        assert(ts[0] == t);
        assert(resolvable(rest)) by {
            assert forall|k: int| 0 <= k < rest.len() implies names_byte(#[trigger] rest[k]) by {
                assert(rest[k] == ts[k + 1]);
            }
        }
        if has_match(b, o) {
            let (len, start) = best_match(b, o);
            assert(is_best_match(b, o, len, start));
            lemma_reference_word_fields((o - start) as u16, len as u16);
            lemma_copy_run_match(b, o, start, len, 0);
        }
        assert(apply_token(out, t, cap) == b.take(o + span));
        let next = head.push(t);
        assert(next.drop_last() =~= head);
        lemma_replay_greedy(b, o + span, next);
        assert(next + rest =~= head + ts);
    }
}

/// The packets of a compressed stream read back as the tokens that the
/// compressor chose, no token more and none less.
pub proof fn lemma_collapse_packets(b: Seq<u8>, c: Seq<u8>)
    requires
        collapse_spec(b) == Some(c),
    ensures
        c.len() >= 4,
        tokenize(c.take(c.len() - 4)) == greedy_tokens(b, 0),
{
    let ts = greedy_tokens(b, 0);
    assert(c.take(c.len() - 4) =~= stream_bytes(ts));
    lemma_tokenize_stream(ts);
}

/// Decompressing a compressed stream under the length of its plaintext gives
/// the plaintext back, and the checksum agrees. This holds of every input
/// that can be compressed and whose back-references all name a byte.
pub proof fn lemma_round_trip(b: Seq<u8>, c: Seq<u8>)
    requires
        collapse_spec(b) == Some(c),
        resolvable(greedy_tokens(b, 0)),
    ensures
        c.len() >= 4,
        expand_spec(c, b.len() as int) == Some(b),
{
    lemma_collapse_checksum(b);
    lemma_collapse_packets(b, c);
    assert(b.take(0) =~= Seq::<u8>::empty());
    lemma_replay_greedy(b, 0, Seq::empty());
}

/// In an input that ends before a run could lie a whole window back, every
/// back-reference names a byte.
pub proof fn lemma_short_input_resolvable(b: Seq<u8>, o: int)
    requires
        0 <= o,
        b.len() < WINDOW + MIN_RUN,
    ensures
        resolvable(greedy_tokens(b, o)),
    decreases b.len() - o,
{
    let ts = greedy_tokens(b, o);
    if o < b.len() {
        let rest = greedy_tokens(b, o + span_at(b, o));
        lemma_short_input_resolvable(b, o + span_at(b, o));
        if has_match(b, o) {
            let (len, start) = best_match(b, o);
            assert(is_best_match(b, o, len, start));
            lemma_reference_word_fields((o - start) as u16, len as u16);
        }
        assert forall|k: int| 0 <= k < ts.len() implies names_byte(#[trigger] ts[k]) by {
            if k > 0 {
                assert(ts[k] == rest[k - 1]);
            }
        }
    }
}

/// Every input of fewer than `WINDOW + MIN_RUN` bytes that can be compressed
/// comes back from its compressed stream.
pub proof fn lemma_round_trip_short(b: Seq<u8>, c: Seq<u8>)
    requires
        collapse_spec(b) == Some(c),
        b.len() < WINDOW + MIN_RUN,
    ensures
        expand_spec(c, b.len() as int) == Some(b),
{
    lemma_short_input_resolvable(b, 0);
    lemma_round_trip(b, c);
}

/// The number of plaintext bytes that a token stands for.
pub open spec fn token_span(t: Token) -> int {
    match t {
        Token::Literal { byte } => 1,
        Token::Reference { word } => reference_length(word) as int,
    }
}

/// The number of plaintext bytes that the tokens `ts` stand for.
pub open spec fn total_span(ts: Seq<Token>) -> int
    decreases ts.len(),
{
    if ts.len() == 0 {
        0
    } else {
        total_span(ts.drop_last()) + token_span(ts.last())
    }
}

/// The span of tokens adds up from the front as from the back.
pub proof fn lemma_total_span_front(t: Token, rest: Seq<Token>)
    ensures
        total_span(seq![t] + rest) == token_span(t) + total_span(rest),
    decreases rest.len(),
{
    let ts = seq![t] + rest;
    if rest.len() == 0 {
        assert(total_span(ts.drop_last()) == 0);
    } else {
        assert(ts.drop_last() =~= seq![t] + rest.drop_last());
        lemma_total_span_front(t, rest.drop_last());
    }
}

/// The tokens that the compressor chooses from `o` on stand for the bytes of
/// `b` from `o` on, one for one.
pub proof fn lemma_greedy_span(b: Seq<u8>, o: int)
    requires
        0 <= o <= b.len(),
    ensures
        total_span(greedy_tokens(b, o)) == b.len() - o,
    decreases b.len() - o,
{
    if o < b.len() {
        if has_match(b, o) {
            let (len, start) = best_match(b, o);
            assert(is_best_match(b, o, len, start));
            lemma_reference_word_fields((o - start) as u16, len as u16);
        }
        lemma_greedy_span(b, o + span_at(b, o));
        lemma_total_span_front(token_at(b, o), greedy_tokens(b, o + span_at(b, o)));
    }
}

/// A replay gives at most the bytes that its tokens stand for, and fewer
/// where one of them names no byte.
pub proof fn lemma_replay_span(ts: Seq<Token>, cap: int)
    ensures
        replay(ts, cap).len() <= total_span(ts),
        !resolvable(ts) ==> replay(ts, cap).len() < total_span(ts),
    decreases ts.len(),
{
    if ts.len() > 0 {
        let head = ts.drop_last();
        let out = replay(head, cap);
        lemma_replay_span(head, cap);
        if let Token::Reference { word } = ts.last() {
            lemma_reference_fields(word);
            let n = room(out.len() as int, cap, reference_length(word) as int);
            let distance = reference_distance(word) as int;
            if 0 < distance <= out.len() {
                lemma_copy_run_extends(out, out.len() - distance, n);
            }
        }
        if !resolvable(ts) {
            let k = choose|k: int| 0 <= k < ts.len() && !names_byte(#[trigger] ts[k]);
            if k < head.len() {
                assert(head[k] == ts[k]);
            }
        }
    }
}

/// Where a back-reference of a compressed stream names no byte, decompressing
/// the stream does not give the plaintext back: `lemma_round_trip` leaves out
/// no input that it could have taken.
pub proof fn lemma_round_trip_needs_resolvable(b: Seq<u8>, c: Seq<u8>)
    requires
        collapse_spec(b) == Some(c),
        !resolvable(greedy_tokens(b, 0)),
    ensures
        expand_spec(c, b.len() as int) != Some(b),
{
    lemma_collapse_packets(b, c);
    lemma_greedy_span(b, 0);
    lemma_replay_span(greedy_tokens(b, 0), b.len() as int);
}

} // verus!
