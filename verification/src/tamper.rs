//! What the checksum notices: a literal that was changed on the way.

use crate::expand::{
    apply_token, copy_run, expand_spec, lemma_reference_fields, lemma_replay_len, replay, room,
};
use crate::wire::{
    byte_sum, checksum_of, lemma_tokenize_stream, reference_distance, reference_length,
    stream_bytes, Token, FILL,
};
use vstd::prelude::*;

verus! {

/// Whether `other` is `out` with some of its bytes `x` replaced by `y`.
pub open spec fn differ_only_by(out: Seq<u8>, other: Seq<u8>, x: u8, y: u8) -> bool {
    &&& out.len() == other.len()
    &&& forall|i: int|
        0 <= i < out.len() ==> #[trigger] other[i] == out[i] || (out[i] == x && other[i] == y)
}

/// The number of places at which `out` and `other` differ.
pub open spec fn differences(out: Seq<u8>, other: Seq<u8>) -> nat
    decreases out.len(),
{
    if out.len() == 0 {
        0
    } else {
        differences(out.drop_last(), other.drop_last()) + if out.last() != other.last() {
            1nat
        } else {
            0nat
        }
    }
}

/// Each place at which `other` holds `y` for `x` moves the sum by `y - x`.
pub proof fn lemma_differences_sum(out: Seq<u8>, other: Seq<u8>, x: u8, y: u8)
    requires
        differ_only_by(out, other, x, y),
    ensures
        differences(out, other) <= out.len(),
        byte_sum(other) - byte_sum(out) == differences(out, other) * (y - x),
    decreases out.len(),
{
    let d = y - x;
    if out.len() == 0 {
        assert(0 * d == 0);
    } else {
        let n = differences(out.drop_last(), other.drop_last()) as int;
        let last = out.len() - 1;
        assert(differ_only_by(out.drop_last(), other.drop_last(), x, y)) by {
            assert forall|i: int| 0 <= i < last implies #[trigger] other.drop_last()[i]
                == out.drop_last()[i] || (out.drop_last()[i] == x && other.drop_last()[i] == y) by {
                assert(other[i] == out[i] || (out[i] == x && other[i] == y));
            }
        }
        lemma_differences_sum(out.drop_last(), other.drop_last(), x, y);
        assert(other[last] == out[last] || (out[last] == x && other[last] == y));
        assert((n + 1) * d == n * d + d) by (nonlinear_arith);
    }
}

/// A byte more on both sides adds a difference where the two bytes differ.
pub proof fn lemma_differences_push(out: Seq<u8>, other: Seq<u8>, u: u8, v: u8)
    requires
        out.len() == other.len(),
    ensures
        differences(out.push(u), other.push(v)) == differences(out, other) + if u != v {
            1nat
        } else {
            0nat
        },
{
    assert(out.push(u).drop_last() =~= out);
    assert(other.push(v).drop_last() =~= other);
}

/// The same copy on both sides keeps them apart by `x` and `y` only, and
/// brings them no nearer.
pub proof fn lemma_copy_run_pair(out: Seq<u8>, other: Seq<u8>, x: u8, y: u8, src: int, n: int)
    requires
        differ_only_by(out, other, x, y),
        0 <= src < out.len() || n <= 0,
    ensures
        differ_only_by(copy_run(out, src, n), copy_run(other, src, n), x, y),
        differences(copy_run(out, src, n), copy_run(other, src, n)) >= differences(out, other),
    decreases n,
{
    if n > 0 {
        assert(other[src] == out[src] || (out[src] == x && other[src] == y));
        lemma_differences_push(out, other, out[src], other[src]);
        lemma_copy_run_pair(out.push(out[src]), other.push(other[src]), x, y, src + 1, n - 1);
    }
}

/// The same token on both sides keeps them apart by `x` and `y` only, and
/// brings them no nearer.
pub proof fn lemma_apply_token_pair(out: Seq<u8>, other: Seq<u8>, x: u8, y: u8, t: Token, cap: int)
    requires
        differ_only_by(out, other, x, y),
    ensures
        differ_only_by(apply_token(out, t, cap), apply_token(other, t, cap), x, y),
        differences(apply_token(out, t, cap), apply_token(other, t, cap)) >= differences(
            out,
            other,
        ),
{
    if out.len() < cap {
        match t {
            Token::Literal { byte } => {
                lemma_differences_push(out, other, byte, byte);
            },
            Token::Reference { word } => {
                lemma_reference_fields(word);
                let distance = reference_distance(word) as int;
                let n = room(out.len() as int, cap, reference_length(word) as int);
                if distance > out.len() {
                    lemma_fill_pair(out, other, x, y, n);
                } else if distance != 0 {
                    lemma_copy_run_pair(out, other, x, y, out.len() - distance, n);
                }
            },
        }
    }
}

/// The same fill on both sides keeps them apart by `x` and `y` only, and
/// brings them no nearer.
pub proof fn lemma_fill_pair(out: Seq<u8>, other: Seq<u8>, x: u8, y: u8, n: int)
    requires
        differ_only_by(out, other, x, y),
        0 <= n,
    ensures
        differ_only_by(
            out + Seq::new(n as nat, |i: int| FILL),
            other + Seq::new(n as nat, |i: int| FILL),
            x,
            y,
        ),
        differences(
            out + Seq::new(n as nat, |i: int| FILL),
            other + Seq::new(n as nat, |i: int| FILL),
        ) >= differences(out, other),
    decreases n,
{
    let a = out + Seq::new(n as nat, |i: int| FILL);
    let b = other + Seq::new(n as nat, |i: int| FILL);
    if n == 0 {
        assert(a =~= out);
        assert(b =~= other);
    } else {
        lemma_fill_pair(out, other, x, y, n - 1);
        let a0 = out + Seq::new((n - 1) as nat, |i: int| FILL);
        let b0 = other + Seq::new((n - 1) as nat, |i: int| FILL);
        assert(a =~= a0.push(FILL));
        assert(b =~= b0.push(FILL));
        lemma_differences_push(a0, b0, FILL, FILL);
    }
}

/// Replaying `ts` with the literal at `j` changed from `x` to `y` gives the
/// output with some `x` replaced by `y`: at least one, once the changed
/// literal was taken.
pub proof fn lemma_replay_pair(ts: Seq<Token>, j: int, x: u8, y: u8, cap: int, m: int)
    requires
        0 <= j < ts.len(),
        ts[j] == (Token::Literal { byte: x }),
        x != y,
        0 <= m <= ts.len(),
    ensures
        ({
            let out = replay(ts.take(m), cap);
            let other = replay(ts.update(j, Token::Literal { byte: y }).take(m), cap);
            &&& differ_only_by(out, other, x, y)
            &&& m > j && replay(ts.take(j), cap).len() < cap ==> differences(out, other) >= 1
        }),
    decreases m,
{
    let changed = ts.update(j, Token::Literal { byte: y });
    if m > 0 {
        lemma_replay_pair(ts, j, x, y, cap, m - 1);
        let out = replay(ts.take(m - 1), cap);
        let other = replay(changed.take(m - 1), cap);
        assert(ts.take(m).drop_last() =~= ts.take(m - 1));
        assert(changed.take(m).drop_last() =~= changed.take(m - 1));
        if m - 1 == j {
            if out.len() < cap {
                lemma_differences_push(out, other, x, y);
            }
        } else {
            lemma_apply_token_pair(out, other, x, y, ts[m - 1], cap);
        }
    }
}

/// Changing a literal that the decompressor takes changes the checksum of
/// its output, as long as the capacity is less than 2^32 / 255: however
/// often the literal is copied, the sums cannot meet again.
pub proof fn lemma_changed_literal_changes_sum(ts: Seq<Token>, j: int, x: u8, y: u8, cap: int)
    requires
        0 <= j < ts.len(),
        ts[j] == (Token::Literal { byte: x }),
        x != y,
        0 <= cap,
        cap * 255 < 0x1_0000_0000,
        replay(ts.take(j), cap).len() < cap,
    ensures
        checksum_of(replay(ts.update(j, Token::Literal { byte: y }), cap)) != checksum_of(
            replay(ts, cap),
        ),
{
    let changed = ts.update(j, Token::Literal { byte: y });
    let out = replay(ts, cap);
    let other = replay(changed, cap);
    lemma_replay_pair(ts, j, x, y, cap, ts.len() as int);
    assert(ts.take(ts.len() as int) =~= ts);
    assert(changed.take(ts.len() as int) =~= changed);
    lemma_differences_sum(out, other, x, y);
    lemma_replay_len(ts, cap);
    let n = differences(out, other) as int;
    let d = y - x;
    assert(n * d != 0 && -0x1_0000_0000 < n * d < 0x1_0000_0000) by (nonlinear_arith)
        requires
            1 <= n <= cap,
            cap * 255 < 0x1_0000_0000,
            -255 <= d <= 255,
            d != 0,
    ;
}

/// A stream that decompresses fails to once one of its literals is changed,
/// if the decompressor takes that literal and the capacity is less than
/// 2^32 / 255.
pub proof fn lemma_changed_literal_fails(
    ts: Seq<Token>,
    j: int,
    x: u8,
    y: u8,
    tail: Seq<u8>,
    cap: int,
)
    requires
        0 <= j < ts.len(),
        ts[j] == (Token::Literal { byte: x }),
        x != y,
        0 <= cap,
        cap * 255 < 0x1_0000_0000,
        replay(ts.take(j), cap).len() < cap,
        tail.len() == 4,
        expand_spec(stream_bytes(ts) + tail, cap) is Some,
    ensures
        expand_spec(stream_bytes(ts.update(j, Token::Literal { byte: y })) + tail, cap) is None,
{
    let changed = ts.update(j, Token::Literal { byte: y });
    let stream = stream_bytes(ts) + tail;
    let other = stream_bytes(changed) + tail;
    assert(stream.take(stream.len() - 4) =~= stream_bytes(ts));
    assert(other.take(other.len() - 4) =~= stream_bytes(changed));
    lemma_tokenize_stream(ts);
    lemma_tokenize_stream(changed);
    lemma_changed_literal_changes_sum(ts, j, x, y, cap);
    assert(stream[stream.len() - 4] == tail[0] && other[other.len() - 4] == tail[0]);
    assert(stream[stream.len() - 3] == tail[1] && other[other.len() - 3] == tail[1]);
    assert(stream[stream.len() - 2] == tail[2] && other[other.len() - 2] == tail[2]);
    assert(stream[stream.len() - 1] == tail[3] && other[other.len() - 1] == tail[3]);
}

} // verus!
